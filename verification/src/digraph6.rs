//! digraph6 encoding of oriented games.
use vstd::prelude::*;
use crate::signature::bit16;
use crate::bits::lemma_bit16_set;

verus! {

/// Bit `k` of the row-major arc matrix: `1` when move `k / n` beats move `k % n`.
pub open spec fn arc_bit(beats: Seq<u16>, n: nat, k: int) -> nat {
    if 0 <= k < n * n && n > 0 && (beats[k / n as int] >> ((k % n as int) as u16)) & 1u16 == 1u16 {
        1
    } else {
        0
    }
}

/// The first `t` bits of six-bit group `g`, most significant first.
pub open spec fn group_bits(beats: Seq<u16>, n: nat, g: int, t: int) -> nat
    decreases t,
{
    if t <= 0 {
        0
    } else {
        2 * group_bits(beats, n, g, t - 1) + arc_bit(beats, n, 6 * g + t - 1)
    }
}

/// The data bytes: one printable byte `63 + value` per six-bit group.
pub open spec fn d6_body(beats: Seq<u16>, n: nat, groups: int) -> Seq<u8> {
    Seq::new(groups as nat, |g: int| (63 + group_bits(beats, n, g, 6)) as u8)
}

/// The digraph6 record of an `n`-move game: `&`, `63 + n`, the packed arc
/// matrix, and a newline.
pub open spec fn d6_record(beats: Seq<u16>, n: nat) -> Seq<u8> {
    seq![38u8, (63 + n) as u8] + d6_body(beats, n, ((n * n + 5) / 6) as int) + seq![10u8]
}

proof fn lemma_group_bound(beats: Seq<u16>, n: nat, g: int, t: int)
    requires
        0 <= t <= 6,
    ensures
        group_bits(beats, n, g, t) < pow2_small(t),
    decreases t,
{
    if t > 0 {
        lemma_group_bound(beats, n, g, t - 1);
    }
}

/// `2^t` for small `t`.
pub open spec fn pow2_small(t: int) -> nat
    decreases t,
{
    if t <= 0 {
        1
    } else {
        2 * pow2_small(t - 1)
    }
}

/// Bits past the end of the matrix are zero, so padding doubles the group value.
proof fn lemma_group_pad(beats: Seq<u16>, n: nat, g: int, t: int, u: int)
    requires
        0 <= t <= u <= 6,
        6 * g + t >= n * n,
    ensures
        group_bits(beats, n, g, u) == group_bits(beats, n, g, t) * pow2_small(u - t),
    decreases u,
{
    if u > t {
        lemma_group_pad(beats, n, g, t, u - 1);
        assert(arc_bit(beats, n, 6 * g + u - 1) == 0);
        let a = group_bits(beats, n, g, t);
        let p = pow2_small(u - 1 - t);
        assert(pow2_small(u - t) == 2 * p);
        assert(2 * (a * p) == a * (2 * p)) by (nonlinear_arith);
    } else {
        let a = group_bits(beats, n, g, t);
        assert(pow2_small(0) == 1);
        assert(a * 1 == a) by (nonlinear_arith);
    }
}

/// Encodes an `n`-move game (row `beats[i]` has bit `j` set iff `i` beats `j`)
/// as one digraph6 line in `buf`.
pub fn encode(beats: &[u16], n: usize, buf: &mut Vec<u8>)
    requires
        n <= 16,
        beats@.len() >= n,
    ensures
        final(buf)@ == d6_record(beats@, n as nat),
{
    buf.clear();
    buf.push(38u8);
    buf.push((63 + n) as u8);
    proof {
        assert(n * n <= 256) by (nonlinear_arith)
            requires
                n <= 16,
        ;
    }
    let nsq = n * n;
    let mut acc = 0u32;
    let mut nb = 0u32;
    let mut k = 0usize;
    let ghost head = seq![38u8, (63 + n) as u8];
    proof {
        assert(buf@ =~= head + d6_body(beats@, n as nat, 0));
    }
    while k < nsq
        invariant
            n <= 16,
            beats@.len() >= n,
            nsq == n * n,
            k <= nsq,
            nb == k % 6,
            acc == group_bits(beats@, n as nat, (k / 6) as int, nb as int),
            buf@ == head + d6_body(beats@, n as nat, (k / 6) as int),
        decreases nsq - k,
    {
        let (i, j) = (k / n, k % n);
        proof {
            assert(n > 0);
            assert(i < n) by (nonlinear_arith)
                requires
                    k < n * n,
                    i == k / n,
                    n > 0,
            ;
            lemma_group_bound(beats@, n as nat, (k / 6) as int, nb as int);
            assert(pow2_small(nb as int) <= 32) by {
                assert(pow2_small(0) == 1);
                assert(pow2_small(1) == 2);
                assert(pow2_small(2) == 4);
                assert(pow2_small(3) == 8);
                assert(pow2_small(4) == 16);
                assert(pow2_small(5) == 32);
            }
        }
        let x = beats[i] >> (j as u16);
        let b = (x & 1) as u32;
        proof {
            assert((x & 1u16) == 0u16 || (x & 1u16) == 1u16) by (bit_vector);
        }
        let acc0 = acc;
        acc = (acc << 1) | b;
        proof {
            assert(b <= 1u32 && acc0 < 32 ==> (acc0 << 1u32) | b == 2 * acc0 + b) by (bit_vector);
            assert(arc_bit(beats@, n as nat, k as int) == b as nat);
            assert(6 * (k / 6) + nb == k);
        }
        nb += 1;
        proof {
            let g = (k / 6) as int;
            assert(group_bits(beats@, n as nat, g, nb as int) == 2 * group_bits(beats@, n as nat, g, (nb - 1) as int)
                + arc_bit(beats@, n as nat, 6 * g + nb - 1));
            assert(acc == group_bits(beats@, n as nat, g, nb as int));
        }
        if nb == 6 {
            let ghost g = (k / 6) as int;
            proof {
                lemma_group_bound(beats@, n as nat, g, 6);
                assert(pow2_small(0) == 1);
                assert(pow2_small(1) == 2);
                assert(pow2_small(2) == 4);
                assert(pow2_small(3) == 8);
                assert(pow2_small(4) == 16);
                assert(pow2_small(5) == 32);
                assert(pow2_small(6) == 64);
            }
            buf.push(63 + acc as u8);
            acc = 0;
            nb = 0;
            proof {
                assert(buf@ =~= head + d6_body(beats@, n as nat, g + 1));
                assert((k + 1) / 6 == g + 1);
            }
        } else {
            proof {
                assert((k + 1) / 6 == k / 6);
            }
        }
        k += 1;
    }
    if nb > 0 {
        let ghost g = (k / 6) as int;
        let sh = 6 - nb;
        proof {
            lemma_group_pad(beats@, n as nat, g, nb as int, 6);
            assert(6 * g + nb == k);
            lemma_group_bound(beats@, n as nat, g, 6);
            lemma_group_bound(beats@, n as nat, g, nb as int);
            assert(pow2_small(0) == 1);
            assert(pow2_small(1) == 2);
            assert(pow2_small(2) == 4);
            assert(pow2_small(3) == 8);
            assert(pow2_small(4) == 16);
            assert(pow2_small(5) == 32);
            assert(pow2_small(6) == 64);
            assert(acc < 64 && 1 <= sh <= 5 ==> acc << sh == acc * (1u32 << sh)) by (bit_vector);
            assert((sh == 1u32 ==> 1u32 << sh == 2u32) && (sh == 2u32 ==> 1u32 << sh == 4u32) && (sh == 3u32
                ==> 1u32 << sh == 8u32) && (sh == 4u32 ==> 1u32 << sh == 16u32) && (sh == 5u32 ==> 1u32 << sh
                == 32u32)) by (bit_vector);
            assert((1u32 << sh) as nat == pow2_small(sh as int));
        }
        buf.push(63 + (acc << sh) as u8);
        proof {
            assert(buf@ =~= head + d6_body(beats@, n as nat, g + 1));
            assert((n * n + 5) / 6 == g + 1);
        }
    } else {
        proof {
            assert((n * n + 5) / 6 == k / 6);
        }
    }
    buf.push(10u8);
    proof {
        assert(buf@ =~= d6_record(beats@, n as nat));
    }
}


/// The six-bit value of data byte `g` of a digraph6 record, read as the
/// decoder reads it (the byte minus 63, modulo 64).
pub open spec fn d6_value(rec: Seq<u8>, g: int) -> int {
    (rec[2 + g] as int - 63) % 64
}

/// Bit `k` of the row-major arc matrix held in the data bytes of `rec`: bit
/// `5 - k % 6` of data byte `k / 6`.
pub open spec fn d6_bit(rec: Seq<u8>, k: int) -> bool {
    (d6_value(rec, k / 6) / (pow2_small(5 - k % 6) as int)) % 2 == 1
}

/// `rec` opens with the digraph6 header of an `n`-move game and holds its
/// `ceil(n^2 / 6)` data bytes, none below 63.
pub open spec fn d6_readable(rec: Seq<u8>, n: nat) -> bool {
    &&& rec.len() >= 2 + (n * n + 5) / 6
    &&& rec[0] == 38u8
    &&& rec[1] as int == 63 + n
    &&& forall|g: int| 0 <= g < (n * n + 5) / 6 ==> #[trigger] rec[2 + g] >= 63
}

fn pow2_u8(e: usize) -> (r: u8)
    requires
        e <= 5,
    ensures
        r as nat == pow2_small(e as int),
        r >= 1,
{
    assert(pow2_small(0) == 1);
    assert(pow2_small(1) == 2);
    assert(pow2_small(2) == 4);
    assert(pow2_small(3) == 8);
    assert(pow2_small(4) == 16);
    assert(pow2_small(5) == 32);
    if e == 0 {
        1
    } else if e == 1 {
        2
    } else if e == 2 {
        4
    } else if e == 3 {
        8
    } else if e == 4 {
        16
    } else {
        32
    }
}

/// `k = i * n + j` with `0 <= j < n` names row `k / n` and column `k % n`.
proof fn lemma_row_col(i: int, j: int, n: int)
    requires
        0 <= j < n,
        0 <= i,
    ensures
        (i * n + j) / n == i,
        (i * n + j) % n == j,
{
    vstd::arithmetic::div_mod::lemma_fundamental_div_mod_converse(i * n + j, n, i, j);
}

/// Reads the arc rows of an `n`-move game from one digraph6 record: `None`
/// unless the record is readable (`d6_readable`); otherwise row `i` has bit
/// `j` set exactly when matrix bit `i * n + j` is set, and rows and columns
/// at or above `n` are empty.
pub fn decode_beats(rec: &[u8], n: usize) -> (r: Option<[u16; 16]>)
    requires
        n <= 16,
    ensures
        r is Some == d6_readable(rec@, n as nat),
        r matches Some(b) ==> forall|i: int, j: int|
            0 <= i < 16 && 0 <= j < 16 ==> #[trigger] bit16(b[i], j) == (i < n && j < n && d6_bit(rec@, i * n + j)),
{
    proof {
        assert(n * n <= 256) by (nonlinear_arith)
            requires
                n <= 16,
        ;
    }
    let nsq = n * n;
    let nbytes = (nsq + 5) / 6;
    if rec.len() < 2 + nbytes {
        return None;
    }
    if rec[0] != 38u8 || rec[1] as usize != 63 + n {
        return None;
    }
    let mut g = 0usize;
    while g < nbytes
        invariant
            n <= 16,
            n * n <= 256,
            nbytes == (n * n + 5) / 6,
            rec@.len() >= 2 + nbytes,
            g <= nbytes,
            forall|h: int| 0 <= h < g ==> #[trigger] rec@[2 + h] >= 63,
        decreases nbytes - g,
    {
        if rec[2 + g] < 63 {
            return None;
        }
        g += 1;
    }
    let mut beats = [0u16; 16];
    proof {
        assert forall|x: int, y: int| 0 <= x < 16 && 0 <= y < 16 implies !#[trigger] bit16(beats[x], y) by {
            lemma_bit16_set(0u16, 0, y as u16);
        }
    }
    let mut k = 0usize;
    while k < nsq
        invariant
            n <= 16,
            nsq == n * n,
            nbytes == (n * n + 5) / 6,
            d6_readable(rec@, n as nat),
            k <= nsq,
            forall|x: int, y: int|
                0 <= x < 16 && 0 <= y < 16 ==> #[trigger] bit16(beats[x], y) == (x < n && y < n && x * n + y < k
                    && d6_bit(rec@, x * n + y)),
        decreases nsq - k,
    {
        let i = k / n;
        let j = k % n;
        proof {
            assert(n > 0);
            assert(i < n) by (nonlinear_arith)
                requires
                    k < n * n,
                    i == k / n,
                    n > 0,
            ;
            vstd::arithmetic::div_mod::lemma_fundamental_div_mod(k as int, n as int);
            assert(k / 6 < nbytes);
            assert(rec@[2 + k / 6] >= 63);
        }
        let byte = rec[2 + k / 6];
        let v = (byte - 63) % 64;
        let p = pow2_u8(5 - k % 6);
        let ghost b0 = beats;
        if (v / p) % 2 == 1 {
            beats[i] = beats[i] | (1u16 << (j as u16));
        }
        proof {
            assert(d6_bit(rec@, k as int) == ((v / p) % 2 == 1));
            assert forall|x: int, y: int| 0 <= x < 16 && 0 <= y < 16 implies #[trigger] bit16(beats[x], y) == (x < n && y
                < n && x * n + y < k + 1 && d6_bit(rec@, x * n + y)) by {
                if x < n && y < n {
                    lemma_row_col(x, y, n as int);
                    if x * n + y == k {
                        assert(x == i && y == j);
                    }
                }
                if x == i {
                    lemma_bit16_set(b0[x], j as u16, y as u16);
                } else {
                    assert(beats[x] == b0[x]);
                }
            }
        }
        k += 1;
    }
    proof {
        assert forall|x: int, y: int| 0 <= x < n && 0 <= y < n implies #[trigger] bit16(beats[x], y) == d6_bit(rec@, x * n + y) by {
            assert(x * n + y < n * n) by (nonlinear_arith)
                requires
                    0 <= x < n,
                    0 <= y < n,
            ;
        }
    }
    Some(beats)
}

/// `group_bits` up to `u` is the value up to `s`, shifted, plus lower bits.
proof fn lemma_group_split(beats: Seq<u16>, n: nat, g: int, s: int, u: int)
    requires
        0 <= s <= u <= 6,
    ensures
        0 <= group_bits(beats, n, g, u) - group_bits(beats, n, g, s) * pow2_small(u - s) < pow2_small(u - s),
    decreases u,
{
    if u == s {
        assert(pow2_small(0) == 1);
        let a = group_bits(beats, n, g, s);
        assert(a * 1 == a) by (nonlinear_arith);
    } else {
        lemma_group_split(beats, n, g, s, u - 1);
        let a = group_bits(beats, n, g, s) as int;
        let p = pow2_small(u - 1 - s) as int;
        assert(pow2_small(u - s) == 2 * p);
        assert(a * (2 * p) == 2 * (a * p)) by (nonlinear_arith);
    }
}

/// Bit `5 - t` of a full group value is the `t`-th bit put into it.
proof fn lemma_group_bit(beats: Seq<u16>, n: nat, g: int, t: int)
    requires
        0 <= t < 6,
    ensures
        (group_bits(beats, n, g, 6) as int / (pow2_small(5 - t) as int)) % 2 == arc_bit(beats, n, 6 * g + t),
{
    lemma_group_split(beats, n, g, t + 1, 6);
    let hi = group_bits(beats, n, g, t + 1) as int;
    let p = pow2_small(5 - t) as int;
    let full = group_bits(beats, n, g, 6) as int;
    lemma_group_bound(beats, n, g, 6 - (t + 1));
    assert(p >= 1) by {
        lemma_group_split(beats, n, g, 6, 6);
    }
    vstd::arithmetic::div_mod::lemma_fundamental_div_mod_converse(full, p, hi, full - hi * p);
    vstd::arithmetic::div_mod::lemma_fundamental_div_mod_converse(
        hi,
        2,
        group_bits(beats, n, g, t) as int,
        arc_bit(beats, n, 6 * g + t) as int,
    );
}

/// Decoding a record written by `encode` gives the game back: the record is
/// readable, and its matrix bit `i * n + j` is set exactly when `i` beats `j`.
pub proof fn lemma_d6_round_trip(beats: Seq<u16>, n: nat)
    requires
        n <= 16,
        beats.len() >= n,
    ensures
        d6_readable(d6_record(beats, n), n),
        forall|i: int, j: int| 0 <= i < n && 0 <= j < n ==> #[trigger] d6_bit(d6_record(beats, n), i * n + j) == bit16(beats[i], j),
{
    let rec = d6_record(beats, n);
    let nb = ((n * n + 5) / 6) as int;
    assert(pow2_small(0) == 1);
    assert(pow2_small(1) == 2);
    assert(pow2_small(2) == 4);
    assert(pow2_small(3) == 8);
    assert(pow2_small(4) == 16);
    assert(pow2_small(5) == 32);
    assert(pow2_small(6) == 64);
    assert forall|g: int| 0 <= g < nb implies #[trigger] rec[2 + g] as int == 63 + group_bits(beats, n, g, 6) by {
        lemma_group_bound(beats, n, g, 6);
        assert(rec[2 + g] == d6_body(beats, n, nb)[g]);
    }
    assert forall|i: int, j: int| 0 <= i < n && 0 <= j < n implies #[trigger] d6_bit(rec, i * n + j) == bit16(beats[i], j) by {
        let k = i * n + j;
        assert(k < n * n) by (nonlinear_arith)
            requires
                k == i * n + j,
                0 <= i < n,
                0 <= j < n,
        ;
        assert(k >= 0) by (nonlinear_arith)
            requires
                k == i * n + j,
                0 <= i,
                0 <= j,
                n >= 0,
        ;
        let g = k / 6;
        let t = k % 6;
        assert(g < nb);
        lemma_group_bound(beats, n, g, 6);
        assert(d6_value(rec, g) == group_bits(beats, n, g, 6));
        lemma_group_bit(beats, n, g, t);
        assert(6 * g + t == k);
        lemma_row_col(i, j, n as int);
    }
}

} // verus!
