//! One step of the canonical augmentation that grows balanced games one move
//! at a time: the candidate extensions of a partial game that can still be
//! completed to a balanced game, the canonical-parent acceptance rule applied
//! to a canonical labelling, and the tally of a finished game.
use vstd::prelude::*;
use crate::bits::{bit, lemma_bit_or, lemma_bit_single};
use crate::game::{beaten_count, card, is_balanced, lemma_card_same, connected, is_connected, is_paradoxical, is_prime, is_prime_game, is_twin_free, paradoxical, twin_free, wf};

verus! {

/// A partial game on its first `k` moves, with each move's row sum (wins
/// minus losses so far).
#[derive(Clone, Copy)]
pub struct Game {
    pub arc: [u64; 16],
    pub rowsum: [i32; 16],
    pub k: usize,
}

pub open spec fn pow3(e: int) -> int
    decreases e,
{
    if e <= 0 {
        1
    } else {
        3 * pow3(e - 1)
    }
}

/// Entry `i` of the extension with code `c`: the `i`-th base-3 digit of `c`
/// minus one (`-1`: move `i` beats the new move; `1`: the new move beats `i`;
/// `0`: a tie).
pub open spec fn digit(c: int, i: int) -> int {
    (c / pow3(i)) % 3 - 1
}

/// The new move's row sum: the sum of the first `k` entries.
pub open spec fn dsum(c: int, k: int) -> int
    decreases k,
{
    if k <= 0 {
        0
    } else {
        dsum(c, k - 1) + digit(c, k - 1)
    }
}

/// After extension `c` every row sum, the new move's included, is within the
/// `n - (k + 1)` moves still to come of zero.
pub open spec fn feasible(g: Game, n: int, c: int) -> bool {
    let lim = n - (g.k + 1);
    &&& forall|i: int| 0 <= i < g.k ==> -lim <= #[trigger] g.rowsum[i] - digit(c, i) <= lim
    &&& -lim <= dsum(c, g.k as int) <= lim
}

/// `h` is `g` extended by a new move `k` with extension code `c`.
pub open spec fn child_of(g: Game, c: int, h: Game) -> bool {
    let k = g.k as int;
    &&& h.k == g.k + 1
    &&& forall|i: int| 0 <= i < 16 ==> #[trigger] h.rowsum[i] as int == if i < k {
        g.rowsum[i] - digit(c, i)
    } else if i == k {
        dsum(c, k)
    } else {
        g.rowsum[i] as int
    }
    &&& forall|i: int, j: int| 0 <= i < 16 && 0 <= j < 64 ==> #[trigger] bit(h.arc[i], j) == if i < k {
        bit(g.arc[i], j) || (j == k && digit(c, i) == -1)
    } else if i == k {
        j < k && digit(c, j) == 1
    } else {
        bit(g.arc[i], j)
    }
}

/// The feasible extension codes below `c`, in increasing order.
pub open spec fn feasible_codes(g: Game, n: int, c: int) -> Seq<int>
    decreases c,
{
    if c <= 0 {
        Seq::empty()
    } else if feasible(g, n, c - 1) {
        feasible_codes(g, n, c - 1).push(c - 1)
    } else {
        feasible_codes(g, n, c - 1)
    }
}

/// The row sums of the first `k` moves are within sixteen of zero.
pub open spec fn sums_small(g: Game) -> bool {
    forall|i: int| 0 <= i < g.k ==> -16 <= #[trigger] g.rowsum[i] <= 16
}

proof fn lemma_pow3_pos(e: int)
    ensures
        pow3(e) >= 1,
    decreases e,
{
    if e > 0 {
        lemma_pow3_pos(e - 1);
    }
}

proof fn lemma_pow3_mono(a: int, b: int)
    requires
        0 <= a <= b,
    ensures
        pow3(a) <= pow3(b),
    decreases b,
{
    if b > a {
        lemma_pow3_mono(a, b - 1);
        lemma_pow3_pos(b - 1);
    }
}

fn pow3_usize(e: usize) -> (r: usize)
    requires
        e <= 15,
    ensures
        r as int == pow3(e as int),
{
    let mut r: usize = 1;
    let mut i = 0usize;
    while i < e
        invariant
            i <= e <= 15,
            r as int == pow3(i as int),
        decreases e - i,
    {
        proof {
            lemma_pow3_mono(i + 1, 15);
            assert(pow3(15) == 14348907) by {
                reveal_with_fuel(pow3, 16);
            }
        }
        r = r * 3;
        i += 1;
    }
    r
}

/// The children of `g` before the canonical-parent test: for each extension
/// code in increasing order whose row sums can still all reach zero, `g` with
/// the new move `k` attached as the code says.
pub fn candidates(g: &Game, n: usize) -> (out: Vec<Game>)
    requires
        g.k < n <= 16,
        sums_small(*g),
    ensures
        out@.len() == feasible_codes(*g, n as int, pow3(g.k as int)).len(),
        forall|t: int| 0 <= t < out@.len() ==> #[trigger] child_of(*g, feasible_codes(*g, n as int, pow3(g.k as int))[t], out@[t]),
        forall|t: int| 0 <= t < out@.len() ==> #[trigger] sums_small(out@[t]),
{
    let k = g.k;
    let lim = (n - (k + 1)) as i32;
    let total = pow3_usize(k);
    let mut out: Vec<Game> = Vec::new();
    let mut code = 0usize;
    while code < total
        invariant
            k == g.k,
            k < n <= 16,
            lim == n - (k + 1),
            sums_small(*g),
            total == pow3(k as int),
            code <= total,
            out@.len() == feasible_codes(*g, n as int, code as int).len(),
            forall|t: int| 0 <= t < out@.len() ==> #[trigger] child_of(*g, feasible_codes(*g, n as int, code as int)[t], out@[t]),
            forall|t: int| 0 <= t < out@.len() ==> #[trigger] sums_small(out@[t]),
        decreases total - code,
    {
        let mut v = [0i32; 16];
        let mut c = code;
        let mut i = 0usize;
        proof {
            lemma_pow3_pos(0);
        }
        while i < k
            invariant
                k == g.k,
                k < 16,
                i <= k,
                c as int == (code as int) / pow3(i as int),
                forall|x: int| 0 <= x < i ==> #[trigger] v[x] as int == digit(code as int, x),
            decreases k - i,
        {
            proof {
                lemma_pow3_pos(i as int);
                vstd::arithmetic::div_mod::lemma_div_denominator(code as int, pow3(i as int), 3);
                assert(pow3(i as int) * 3 == pow3(i + 1));
            }
            v[i] = (c % 3) as i32 - 1;
            c = c / 3;
            i += 1;
        }
        let mut ok = true;
        let mut s: i32 = 0;
        let mut i = 0usize;
        while i < k
            invariant
                k == g.k,
                k < n <= 16,
                lim == n - (k + 1),
                sums_small(*g),
                i <= k,
                forall|x: int| 0 <= x < k ==> #[trigger] v[x] as int == digit(code as int, x),
                forall|x: int| 0 <= x < k ==> -1 <= #[trigger] v[x] <= 1,
                s as int == dsum(code as int, i as int),
                -(i as int) <= s <= i,
                ok == (forall|x: int| 0 <= x < i ==> -lim <= #[trigger] g.rowsum[x] - digit(code as int, x) <= lim),
            decreases k - i,
        {
            let r = g.rowsum[i] - v[i];
            if r < -lim || r > lim {
                ok = false;
            }
            s = s + v[i];
            i += 1;
        }
        if ok && -lim <= s && s <= lim {
            let mut arc = g.arc;
            let mut rowsum = g.rowsum;
            let mut newbits = 0u64;
            let mut i = 0usize;
            proof {
                assert forall|j: int| 0 <= j < 64 implies !#[trigger] bit(0u64, j) by {
                    crate::bits::lemma_bit_zero(j as u64);
                }
            }
            while i < k
                invariant
                    k == g.k,
                    k < n <= 16,
                    lim == n - (k + 1),
                    i <= k,
                    sums_small(*g),
                    forall|x: int| 0 <= x < k ==> #[trigger] v[x] as int == digit(code as int, x),
                    forall|x: int| 0 <= x < k ==> -lim <= #[trigger] g.rowsum[x] - digit(code as int, x) <= lim,
                    forall|x: int, j: int| 0 <= x < 16 && 0 <= j < 64 ==> #[trigger] bit(arc[x], j) == if x < i {
                        bit(g.arc[x], j) || (j == k && digit(code as int, x) == -1)
                    } else {
                        bit(g.arc[x], j)
                    },
                    forall|j: int| 0 <= j < 64 ==> #[trigger] bit(newbits, j) == (j < i && digit(code as int, j) == 1),
                    forall|x: int| 0 <= x < 16 ==> #[trigger] rowsum[x] as int == if x < i {
                        g.rowsum[x] - digit(code as int, x)
                    } else {
                        g.rowsum[x] as int
                    },
                decreases k - i,
            {
                let ghost a0 = arc;
                let ghost nb0 = newbits;
                if v[i] == -1 {
                    arc[i] = arc[i] | (1u64 << (k as u64));
                } else if v[i] == 1 {
                    newbits = newbits | (1u64 << (i as u64));
                }
                proof {
                    assert forall|x: int, j: int| 0 <= x < 16 && 0 <= j < 64 implies #[trigger] bit(arc[x], j) == if x < i + 1 {
                        bit(g.arc[x], j) || (j == k && digit(code as int, x) == -1)
                    } else {
                        bit(g.arc[x], j)
                    } by {
                        if x == i && v[i as int] == -1 {
                            lemma_bit_or(a0[x], 1u64 << (k as u64), j as u64);
                            lemma_bit_single(k as u64, j as u64);
                        } else {
                            assert(arc[x] == a0[x]);
                        }
                    }
                    assert forall|j: int| 0 <= j < 64 implies #[trigger] bit(newbits, j) == (j < i + 1 && digit(code as int, j) == 1) by {
                        if v[i as int] == 1 {
                            lemma_bit_or(nb0, 1u64 << (i as u64), j as u64);
                            lemma_bit_single(i as u64, j as u64);
                        }
                    }
                }
                rowsum[i] = rowsum[i] - v[i];
                i += 1;
            }
            let ghost a1 = arc;
            arc[k] = newbits;
            rowsum[k] = s;
            let h = Game { arc, rowsum, k: k + 1 };
            proof {
                assert(child_of(*g, code as int, h)) by {
                    assert forall|x: int, j: int| 0 <= x < 16 && 0 <= j < 64 implies #[trigger] bit(h.arc[x], j) == if x < k {
                        bit(g.arc[x], j) || (j == k && digit(code as int, x) == -1)
                    } else if x == k {
                        j < k && digit(code as int, j) == 1
                    } else {
                        bit(g.arc[x], j)
                    } by {
                        if x != k {
                            assert(h.arc[x] == a1[x]);
                        }
                    }
                }
                assert(sums_small(h));
                assert(feasible(*g, n as int, code as int));
                assert(feasible_codes(*g, n as int, code + 1) == feasible_codes(*g, n as int, code as int).push(code as int));
            }
            out.push(h);
        } else {
            proof {
                assert(!feasible(*g, n as int, code as int));
                assert(feasible_codes(*g, n as int, code + 1) == feasible_codes(*g, n as int, code as int));
            }
        }
        code += 1;
    }
    out
}

/// The canonical-parent test: the new move `k` is accepted exactly when the
/// move that a canonical labelling puts at position `k` is `k` itself or lies
/// in the same automorphism orbit as `k`.
pub fn canon_accepts(lab: &[i32; 16], orbits: &[i32; 16], k: usize) -> (r: bool)
    requires
        k < 16,
        0 <= lab[k as int] < 16,
    ensures
        r == (lab[k as int] == k || orbits[lab[k as int] as int] == orbits[k as int]),
{
    let cc = lab[k] as usize;
    cc == k || orbits[cc] == orbits[k]
}

/// The tally of a finished game: `(1, twin-free, prime)` when it is
/// paradoxical and connected, `(0, 0, 0)` otherwise.
pub fn leaf_tally(g: &Game, n: usize) -> (r: (u64, u64, u64))
    requires
        wf(g.arc, n as int),
    ensures
        r == if is_paradoxical(g.arc, n as int) && is_connected(g.arc, n as int) {
            (1u64, if is_twin_free(g.arc, n as int) { 1u64 } else { 0u64 }, if is_prime_game(g.arc, n as int) { 1u64 } else { 0u64 })
        } else {
            (0u64, 0u64, 0u64)
        },
{
    if paradoxical(&g.arc, n) && connected(&g.arc, n) {
        let tf: u64 = if twin_free(&g.arc, n) { 1 } else { 0 };
        let pr: u64 = if is_prime(&g.arc, n) { 1 } else { 0 };
        (1, tf, pr)
    } else {
        (0, 0, 0)
    }
}


/// The stored row sums are the true ones: wins minus losses among the first `k` moves.
pub open spec fn sums_true(g: Game) -> bool {
    forall|i: int| 0 <= i < g.k ==> #[trigger] g.rowsum[i] == card(g.arc[i], g.k as int) - beaten_count(g.arc, i, g.k as int)
}

proof fn lemma_digit_range(c: int, i: int)
    requires
        0 <= c,
    ensures
        -1 <= digit(c, i) <= 1,
{
    lemma_pow3_pos(i);
}

proof fn lemma_beaten_same(a: [u64; 16], b: [u64; 16], i: int, m: int)
    requires
        0 <= m <= 16,
        forall|x: int| 0 <= x < m ==> #[trigger] bit(a[x], i) == bit(b[x], i),
    ensures
        beaten_count(a, i, m) == beaten_count(b, i, m),
    decreases m,
{
    if m > 0 {
        lemma_beaten_same(a, b, i, m - 1);
    }
}

/// The new move's wins minus losses against the first `m` old moves is the
/// sum of the first `m` entries of its extension.
proof fn lemma_new_row(g: Game, c: int, h: Game, m: int)
    requires
        0 <= c,
        g.k < 16,
        0 <= m <= g.k,
        child_of(g, c, h),
        wf(g.arc, g.k as int),
    ensures
        card(h.arc[g.k as int], m) - beaten_count(h.arc, g.k as int, m) == dsum(c, m),
    decreases m,
{
    if m > 0 {
        lemma_new_row(g, c, h, m - 1);
        let k = g.k as int;
        assert(bit(h.arc[k], m - 1) == (digit(c, m - 1) == 1));
        assert(bit(h.arc[m - 1], k) == (bit(g.arc[m - 1], k) || digit(c, m - 1) == -1));
        assert(!bit(g.arc[m - 1], k));
        lemma_digit_range(c, m - 1);
    }
}

/// Attaching a move keeps the stored row sums true and the rows inside the
/// game: the row sums that `candidates` checks are the real ones.
pub proof fn lemma_child_sums(g: Game, c: int, h: Game)
    requires
        0 <= c,
        g.k < 16,
        child_of(g, c, h),
        wf(g.arc, g.k as int),
        sums_true(g),
    ensures
        sums_true(h),
        wf(h.arc, h.k as int),
{
    let k = g.k as int;
    assert forall|i: int| 0 <= i < h.k implies #[trigger] h.rowsum[i] == card(h.arc[i], h.k as int) - beaten_count(h.arc, i, h.k as int) by {
        if i < k {
            lemma_card_same(g.arc[i], h.arc[i], k);
            lemma_beaten_same(g.arc, h.arc, i, k);
            assert(bit(h.arc[i], k) == (digit(c, i) == -1));
            assert(bit(h.arc[k], i) == (digit(c, i) == 1));
            lemma_digit_range(c, i);
            assert(g.rowsum[i] == card(g.arc[i], k) - beaten_count(g.arc, i, k));
        } else {
            lemma_new_row(g, c, h, k);
            assert(!bit(h.arc[k], k));
        }
    }
    assert forall|i: int| 0 <= i < h.k implies crate::bits::within(#[trigger] h.arc[i], h.k as int) by {
        assert forall|j: int| 0 <= j < 64 && #[trigger] bit(h.arc[i], j) implies j < h.k by {
            if i < k {
                assert(crate::bits::within(g.arc[i], k));
            }
        }
    }
}

/// Every game that `candidates` completes is balanced: on the last move the
/// remaining slack is zero, so every true row sum is zero.
pub proof fn lemma_complete_is_balanced(g: Game, n: int, c: int, h: Game)
    requires
        0 <= c,
        g.k < 16,
        h.k == n,
        child_of(g, c, h),
        feasible(g, n, c),
        wf(g.arc, g.k as int),
        sums_true(g),
    ensures
        is_balanced(h.arc, n),
{
    lemma_child_sums(g, c, h);
    assert forall|i: int| 0 <= i < n implies #[trigger] card(h.arc[i], n) == beaten_count(h.arc, i, n) by {
        assert(h.rowsum[i] == card(h.arc[i], n) - beaten_count(h.arc, i, n));
        if i < g.k {
            assert(-0 <= g.rowsum[i] - digit(c, i) <= 0);
        }
    }
}

} // verus!
