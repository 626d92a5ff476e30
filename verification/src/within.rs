//! Closed-form "Within" counts of caterpillars: the number of tournaments on
//! the caterpillar's vertices in which every out-neighbourhood is independent,
//! via the 4-state spine transfer matrix with exact big-integer arithmetic.
use vstd::prelude::*;
use crate::bigint::{Big, mul_big};
use crate::burnside::two_pow;
use crate::limbs::{base, bp, val, vp, limb, normalized, lemma_vp_agree, lemma_val_push};

verus! {

/// `b^e` over the integers.
pub open spec fn ipow(b: int, e: nat) -> int
    decreases e,
{
    if e == 0 {
        1
    } else {
        b * ipow(b, (e - 1) as nat)
    }
}

/// `C(n, 2)` as a spec value.
pub open spec fn c2_spec(n: int) -> int {
    n * (n - 1) / 2
}

/// `C(n, 2)` for `0 <= n <= 65536`.
pub fn c2(n: i128) -> (r: u32)
    requires
        0 <= n <= 65536,
    ensures
        r == c2_spec(n as int),
{
    proof {
        assert(n * (n - 1) <= 65536 * 65535) by (nonlinear_arith)
            requires
                0 <= n <= 65536,
        ;
        assert(n * (n - 1) >= 0) by (nonlinear_arith)
            requires
                0 <= n,
        ;
    }
    (n * (n - 1) / 2) as u32
}

pub proof fn lemma_shl_two_pow(s: u64)
    requires
        s < 64,
    ensures
        (1u64 << s) == two_pow(s as nat),
    decreases s,
{
    if s == 0 {
        assert(1u64 << 0u64 == 1u64) by (bit_vector);
    } else {
        lemma_shl_two_pow((s - 1) as u64);
        assert(1 <= s < 64 ==> 1u64 << s == 2 * (1u64 << ((s - 1) as u64))) by (bit_vector);
    }
}

pub proof fn lemma_two_pow_add(a: nat, b: nat)
    ensures
        two_pow(a + b) == two_pow(a) * two_pow(b),
    decreases b,
{
    if b == 0 {
        assert(two_pow(a) * 1 == two_pow(a)) by (nonlinear_arith);
    } else {
        lemma_two_pow_add(a, (b - 1) as nat);
        assert(two_pow((a + b) as nat) == 2 * two_pow((a + b - 1) as nat));
        let x = two_pow(a);
        let y = two_pow((b - 1) as nat);
        assert(2 * (x * y) == x * (2 * y)) by (nonlinear_arith);
    }
}

proof fn lemma_bp_two_pow(k: nat)
    ensures
        bp(k) == two_pow(64 * k),
    decreases k,
{
    if k > 0 {
        lemma_bp_two_pow((k - 1) as nat);
        lemma_two_pow_add(64, 64 * (k - 1) as nat);
        lemma_shl_two_pow(63);
        assert(1u64 << 63u64 == 0x8000_0000_0000_0000u64) by (bit_vector);
        assert(two_pow(64) == 2 * two_pow(63));
        assert(two_pow(64) == base());
        assert(64 * k == 64 + 64 * (k - 1));
    }
}

/// `2^e` as a big integer.
pub fn pow2(e: u32) -> (r: Big)
    ensures
        r.wf(),
        r@ == two_pow(e as nat),
{
    let q = (e / 64) as usize;
    let s = (e % 64) as u64;
    let mut m: Vec<u64> = Vec::new();
    let mut i = 0usize;
    while i < q
        invariant
            i <= q,
            m@.len() == i,
            forall|k: int| 0 <= k < i ==> m@[k] == 0,
        decreases q - i,
    {
        m.push(0);
        i += 1;
    }
    let top = 1u64 << s;
    proof {
        assert(val(m@) == 0) by {
            lemma_zero_val(m@, m@.len() as nat);
        }
        lemma_val_push(m@, top);
        lemma_shl_two_pow(s);
        lemma_bp_two_pow(q as nat);
        lemma_two_pow_add(s as nat, 64 * q as nat);
        assert(e == s + 64 * q);
        assert(two_pow(s as nat) * two_pow(64 * q as nat) == top * bp(q as nat));
    }
    m.push(top);
    proof {
        assert(top != 0) by {
            assert(s < 64 ==> 1u64 << s != 0) by (bit_vector);
        }
    }
    let r = Big { neg: false, mag: m };
    r.norm()
}

proof fn lemma_zero_val(s: Seq<u64>, k: nat)
    requires
        forall|i: int| 0 <= i < s.len() ==> s[i] == 0,
    ensures
        vp(s, k) == 0,
    decreases k,
{
    if k > 0 {
        lemma_zero_val(s, (k - 1) as nat);
        let b = bp((k - 1) as nat);
        assert(limb(s, k - 1) == 0);
        assert(0 * b == 0) by (nonlinear_arith);
    }
}

/// `2^C(l,2)`.
pub open spec fn fp_spec(l: int) -> int {
    two_pow(c2_spec(l) as nat) as int
}

/// `l * 2^C(l-1,2)`, zero for `l <= 0`.
pub open spec fn fq_spec(l: int) -> int {
    if l <= 0 {
        0
    } else {
        l * two_pow(c2_spec(l - 1) as nat)
    }
}

/// `2^C(l,2)` as a big integer.
pub fn f_p(l: i128) -> (r: Big)
    requires
        0 <= l <= 65536,
    ensures
        r.wf(),
        r@ == fp_spec(l as int),
{
    pow2(c2(l))
}

/// `l * 2^C(l-1,2)` as a big integer (zero for `l <= 0`).
pub fn f_q(l: i128) -> (r: Big)
    requires
        l <= 65536,
    ensures
        r.wf(),
        r@ == fq_spec(l as int),
{
    if l <= 0 {
        Big::zero()
    } else {
        let p = pow2(c2(l - 1));
        let r = p.mul_i128(l);
        proof {
            let t = two_pow(c2_spec(l - 1) as nat) as int;
            assert(r@ == t * l);
            assert(t * l == l * t) by (nonlinear_arith);
        }
        r
    }
}

/// The base `A_k` of channel `k`: 1, 2, 4, 8.
pub open spec fn chan_base(k: int) -> int {
    if k == 0 {
        1
    } else if k == 1 {
        2
    } else if k == 2 {
        4
    } else {
        8
    }
}

/// Channel `k` of the leaf-factor basis with coefficient vector `c`.
pub open spec fn chan_term(l: int, c: [i128; 8], k: int) -> int {
    c[k] * fp_spec(l) * ipow(chan_base(k), l as nat) + if l >= 1 {
        c[4 + k] * fq_spec(l) * ipow(chan_base(k), (l - 1) as nat)
    } else {
        0
    }
}

/// Sum of the first `k` channels.
pub open spec fn chan_part(l: int, c: [i128; 8], k: int) -> int
    decreases k,
{
    if k <= 0 {
        0
    } else {
        chan_part(l, c, k - 1) + chan_term(l, c, k - 1)
    }
}

/// Evaluation of the basis `2^C(l,2) A^l`, `l 2^C(l-1,2) A^(l-1)` for `A` in 1, 2, 4, 8.
pub open spec fn chan_spec(l: int, c: [i128; 8]) -> int {
    chan_part(l, c, 4)
}

proof fn lemma_ipow_bound(b: int, t: nat)
    requires
        1 <= b <= 8,
    ensures
        1 <= ipow(b, t) <= two_pow(3 * t),
    decreases t,
{
    if t > 0 {
        lemma_ipow_bound(b, (t - 1) as nat);
        let x = ipow(b, (t - 1) as nat);
        let y = two_pow((3 * (t - 1)) as nat);
        assert(two_pow(3 * t) == 8 * y) by {
            assert(3 * t == 3 * (t - 1) + 3);
            lemma_two_pow_add((3 * (t - 1)) as nat, 3);
            assert(two_pow(3) == 8) by {
                assert(two_pow(0) == 1);
                assert(two_pow(1) == 2);
                assert(two_pow(2) == 4);
            }
        }
        assert(b * x <= 8 * y) by (nonlinear_arith)
            requires
                1 <= b <= 8,
                1 <= x <= y,
        ;
        assert(b * x >= 1) by (nonlinear_arith)
            requires
                1 <= b,
                1 <= x,
        ;
    }
}

proof fn lemma_two_pow_mono(a: nat, b: nat)
    requires
        a <= b,
    ensures
        two_pow(a) <= two_pow(b),
    decreases b,
{
    if a < b {
        lemma_two_pow_mono(a, (b - 1) as nat);
    }
}

/// `2^a <= 2^b` for `a <= b`.
pub proof fn lemma_two_pow_mono_pub(a: nat, b: nat)
    requires
        a <= b,
    ensures
        two_pow(a) <= two_pow(b),
{
    lemma_two_pow_mono(a, b);
}

/// `2^62` as a number.
pub proof fn lemma_two_pow_62()
    ensures
        two_pow(62) == 0x4000_0000_0000_0000,
{
    lemma_shl_two_pow(62);
    assert(1u64 << 62u64 == 0x4000_0000_0000_0000u64) by (bit_vector);
}

pub proof fn lemma_two_pow_123()
    ensures
        two_pow(123) < 0x7fff_ffff_ffff_ffff_ffff_ffff_ffff_ffff,
{
    lemma_shl_two_pow(63);
    lemma_shl_two_pow(60);
    assert(1u64 << 63u64 == 0x8000_0000_0000_0000u64) by (bit_vector);
    assert(1u64 << 60u64 == 0x1000_0000_0000_0000u64) by (bit_vector);
    lemma_two_pow_add(63, 60);
}

/// `A^t` in 128 bits for `A <= 8`, `t <= 41`.
fn small_pow(a: i128, t: i128) -> (r: i128)
    requires
        1 <= a <= 8,
        0 <= t <= 41,
    ensures
        r == ipow(a as int, t as nat),
{
    let mut r: i128 = 1;
    let mut i: i128 = 0;
    while i < t
        invariant
            1 <= a <= 8,
            0 <= i <= t <= 41,
            r == ipow(a as int, i as nat),
        decreases t - i,
    {
        proof {
            lemma_ipow_bound(a as int, (i + 1) as nat);
            lemma_two_pow_mono((3 * (i + 1)) as nat, 123);
            lemma_two_pow_123();
            assert(ipow(a as int, (i + 1) as nat) == a * ipow(a as int, i as nat));
        }
        r = r * a;
        i += 1;
    }
    r
}

/// Evaluates the channel basis with coefficients `c` at leaf count `l`.
pub fn chan(l: i128, c: [i128; 8]) -> (r: Big)
    requires
        0 <= l <= 41,
    ensures
        r.wf(),
        r@ == chan_spec(l as int, c),
{
    let a_s: [i128; 4] = [1, 2, 4, 8];
    let mut acc = Big::zero();
    let mut k = 0usize;
    while k < 4
        invariant
            0 <= l <= 41,
            k <= 4,
            a_s@ == seq![1i128, 2, 4, 8],
            acc.wf(),
            acc@ == chan_part(l as int, c, k as int),
        decreases 4 - k,
    {
        let base_k = a_s[k];
        proof {
            assert(base_k == chan_base(k as int));
        }
        let ghost before = acc@;
        if c[k] != 0 {
            let t = f_p(l);
            let al = small_pow(base_k, l);
            let t2 = t.mul_i128(al).mul_i128(c[k]);
            acc = acc.add(&t2);
            proof {
                let p_part = c[k as int] * fp_spec(l as int) * ipow(chan_base(k as int), l as nat);
                assert(t2@ == fp_spec(l as int) * al * c[k as int]);
                assert(fp_spec(l as int) * al * c[k as int] == p_part) by (nonlinear_arith)
                    requires
                        al == ipow(chan_base(k as int), l as nat),
                        p_part == c[k as int] * fp_spec(l as int) * ipow(chan_base(k as int), l as nat),
                ;
            }
        } else {
            proof {
                let ck = c[k as int] as int;
                let f = fp_spec(l as int);
                let ip = ipow(chan_base(k as int), l as nat);
                assert(ck * f * ip == 0) by (nonlinear_arith)
                    requires
                        ck == 0,
                ;
            }
        }
        let ghost mid = acc@;
        if c[4 + k] != 0 {
            let t = f_q(l);
            let e = if l - 1 > 0 { l - 1 } else { 0 };
            let al = small_pow(base_k, e);
            if l >= 1 {
                let t2 = t.mul_i128(al).mul_i128(c[4 + k]);
                acc = acc.add(&t2);
                proof {
                    let q_part = c[4 + k] * fq_spec(l as int) * ipow(chan_base(k as int), (l - 1) as nat);
                    assert(e == l - 1);
                    assert(fq_spec(l as int) * al * c[4 + k] == q_part) by (nonlinear_arith)
                        requires
                            al == ipow(chan_base(k as int), (l - 1) as nat),
                            q_part == c[4 + k] * fq_spec(l as int) * ipow(chan_base(k as int), (l - 1) as nat),
                    ;
                }
            }
        } else {
            proof {
                if l >= 1 {
                    let ck = c[4 + k] as int;
                    let f = fq_spec(l as int);
                    let ip = ipow(chan_base(k as int), (l - 1) as nat);
                    assert(ck * f * ip == 0) by (nonlinear_arith)
                        requires
                            ck == 0,
                    ;
                }
            }
        }
        proof {
            assert(chan_part(l as int, c, (k + 1) as int) == chan_part(l as int, c, k as int) + chan_term(l as int, c, k as int));
        }
        k += 1;
    }
    acc
}

/// `Within(K_{1,m})`: `2^C(m,2) + m 2^C(m-1,2)`.
pub open spec fn star_spec(m: int) -> int {
    fp_spec(m) + fq_spec(m)
}

/// `Within` of a star with `m` leaves.
pub fn star(m: i128) -> (r: Big)
    requires
        0 <= m <= 65536,
    ensures
        r.wf(),
        r@ == star_spec(m as int),
{
    f_p(m).add(&f_q(m))
}

proof fn lemma_two_pow_is_pow2(e: nat)
    ensures
        two_pow(e) == vstd::arithmetic::power2::pow2(e),
    decreases e,
{
    if e == 0 {
        assert(vstd::arithmetic::power2::pow2(0) == 1) by {
            vstd::arithmetic::power2::lemma_pow2(0);
            vstd::arithmetic::power::lemma_pow0(2);
        }
    } else {
        lemma_two_pow_is_pow2((e - 1) as nat);
        vstd::arithmetic::power2::lemma_pow2_unfold(e);
    }
}

/// The star `K_{1,m}` has `2^C(m,2) + m * 2^C(m-1,2)` tournaments whose
/// out-neighbourhoods are all independent: either the centre beats every
/// leaf and the leaves play freely, or exactly one of the `m` leaves beats
/// the centre, loses to every other leaf, and the others play freely. A
/// one-vertex spine is the star.
pub proof fn lemma_star_count(m: int)
    requires
        m >= 0,
    ensures
        star_spec(m) == vstd::arithmetic::power2::pow2((m * (m - 1) / 2) as nat) + m * vstd::arithmetic::power2::pow2(
            ((m - 1) * (m - 2) / 2) as nat,
        ),
        m <= i128::MAX ==> within_spec(seq![m as i128]) == star_spec(m),
{
    assert(m * (m - 1) / 2 >= 0) by (nonlinear_arith)
        requires
            m >= 0,
    ;
    lemma_two_pow_is_pow2((m * (m - 1) / 2) as nat);
    if m > 0 {
        assert((m - 1) * (m - 2) / 2 >= 0) by (nonlinear_arith)
            requires
                m >= 1,
        ;
        lemma_two_pow_is_pow2(((m - 1) * (m - 2) / 2) as nat);
        assert(c2_spec(m - 1) == (m - 1) * (m - 2) / 2);
    }
    if m <= i128::MAX {
        let s = seq![m as i128];
        assert(s.len() == 1);
        assert(s[0] as int == m);
    }
}

/// Double-star channel coefficients for one, two and three leaves on the short side.
pub const D1: [i128; 8] = [3, 0, 0, 0, 1, 0, 0, 0];
pub const D2: [i128; 8] = [6, 0, 0, 0, 2, 0, 0, 0];
pub const D3: [i128; 8] = [22, 0, 0, 0, 8, 0, 0, 0];

/// `DS(p, q) = Within` of the double star with `p` and `q` leaves.
pub open spec fn ds_spec(p: int, q: int) -> int {
    if p == 0 {
        star_spec(q + 1)
    } else if q == 0 {
        star_spec(p + 1)
    } else {
        let a = if q < 4 { p } else { q };
        let b = if q < 4 { q } else { p };
        if b == 1 {
            chan_spec(a, D1)
        } else if b == 2 {
            chan_spec(a, D2)
        } else {
            chan_spec(a, D3)
        }
    }
}

/// The leaf counts `p`, `q` have a closed form: one side empty, or one side at most three.
pub open spec fn ds_ok(p: int, q: int) -> bool {
    &&& 0 <= p <= 40
    &&& 0 <= q <= 40
    &&& (p == 0 || q == 0 || (1 <= q <= 3) || (1 <= p <= 3))
}

/// `Within` of the double star with `p` and `q` leaves.
pub fn ds(p: i128, q: i128) -> (r: Big)
    requires
        ds_ok(p as int, q as int),
    ensures
        r.wf(),
        r@ == ds_spec(p as int, q as int),
{
    if p == 0 {
        return star(q + 1);
    }
    if q == 0 {
        return star(p + 1);
    }
    let (a, b) = if q < 4 { (p, q) } else { (q, p) };
    if b == 1 {
        chan(a, D1)
    } else if b == 2 {
        chan(a, D2)
    } else {
        chan(a, D3)
    }
}

pub const G00: [i128; 8] = [0, 2, 2, 0, 0, 0, 2, 0];
pub const G01: [i128; 8] = [1, 3, 0, 0, 0, 1, 0, 0];
pub const G02: [i128; 8] = [2, 6, 0, 0, 0, 2, 0, 0];
pub const G03: [i128; 8] = [8, 22, 0, 0, 0, 8, 0, 0];
pub const G11: [i128; 8] = [4, 0, 0, 0, 0, 0, 0, 0];
pub const G12: [i128; 8] = [8, 0, 0, 0, 0, 0, 0, 0];
pub const G13: [i128; 8] = [30, 0, 0, 0, 0, 0, 0, 0];
pub const G22: [i128; 8] = [16, 0, 0, 0, 0, 0, 0, 0];
pub const G23: [i128; 8] = [60, 0, 0, 0, 0, 0, 0, 0];
pub const G33: [i128; 8] = [224, 0, 0, 0, 0, 0, 0, 0];

/// Channel coefficients of the three-vertex spine `[a, l, c]`, by `(min, max)` of the ends.
pub open spec fn triple_coeff(x: int, y: int) -> [i128; 8] {
    if x == 0 && y == 0 {
        G00
    } else if x == 0 && y == 1 {
        G01
    } else if x == 0 && y == 2 {
        G02
    } else if x == 0 && y == 3 {
        G03
    } else if x == 1 && y == 1 {
        G11
    } else if x == 1 && y == 2 {
        G12
    } else if x == 1 && y == 3 {
        G13
    } else if x == 2 && y == 2 {
        G22
    } else if x == 2 && y == 3 {
        G23
    } else {
        G33
    }
}

/// `Within([a, l, c])` for end leaf counts `a, c` in `0..=3`.
pub open spec fn triple_spec(a: int, l: int, c: int) -> int {
    let x = if a < c { a } else { c };
    let y = if a < c { c } else { a };
    chan_spec(l, triple_coeff(x, y))
}

/// `Within` of the three-vertex spine with leaf counts `a`, `l`, `c`.
pub fn triple(a: i128, l: i128, c: i128) -> (r: Big)
    requires
        0 <= a <= 3,
        0 <= c <= 3,
        0 <= l <= 41,
    ensures
        r.wf(),
        r@ == triple_spec(a as int, l as int, c as int),
{
    let (x, y) = if a < c { (a, c) } else { (c, a) };
    let co = if x == 0 && y == 0 {
        G00
    } else if x == 0 && y == 1 {
        G01
    } else if x == 0 && y == 2 {
        G02
    } else if x == 0 && y == 3 {
        G03
    } else if x == 1 && y == 1 {
        G11
    } else if x == 1 && y == 2 {
        G12
    } else if x == 1 && y == 3 {
        G13
    } else if x == 2 && y == 2 {
        G22
    } else if x == 2 && y == 3 {
        G23
    } else {
        G33
    };
    chan(l, co)
}

/// `144 * G^{-1}` for the double-star matrix `G[a][d] = DS(a, d)`, `det G = 144`.
pub const ADJ: [[i128; 4]; 4] = [
    [0, -48, 24, 0],
    [-48, -30112, 22928, -2088],
    [24, 22928, -17416, 1584],
    [0, -2088, 1584, -144],
];

/// Division truncating the magnitude, as the big integers divide.
pub open spec fn tdiv(x: int, d: int) -> int {
    if x < 0 {
        -((-x) / d)
    } else {
        x / d
    }
}

/// `sum_{d < k} r[d] * ADJ[d][a]`.
pub open spec fn adj_part(r: Seq<int>, a: int, k: int) -> int
    decreases k,
{
    if k <= 0 {
        0
    } else {
        adj_part(r, a, k - 1) + r[k - 1] * ADJ[k - 1][a]
    }
}

/// `sum_{a < k} Within([a, l, j]) * s[a]`.
pub open spec fn tri_part(s: Seq<int>, l: int, j: int, k: int) -> int
    decreases k,
{
    if k <= 0 {
        0
    } else {
        tri_part(s, l, j, k - 1) + triple_spec(k - 1, l, j) * s[k - 1]
    }
}

/// One transfer step: the state after a middle spine vertex with `l` leaves.
pub open spec fn step_state(r: Seq<int>, l: int) -> Seq<int> {
    let s = Seq::new(4, |a: int| adj_part(r, a, 4));
    Seq::new(4, |j: int| tdiv(tri_part(s, l, j, 4), 144))
}

/// State after the first `k` spine vertices: entry `j` is `Within` of that
/// prefix followed by a spine vertex with `j` leaves.
pub open spec fn wstate(seq: Seq<i128>, k: int) -> Seq<int>
    decreases k,
{
    if k <= 1 {
        Seq::new(4, |j: int| ds_spec(seq[0] as int, j))
    } else {
        step_state(wstate(seq, k - 1), seq[k - 1] as int)
    }
}

/// `sum_{a < k} DS(a, x) * ADJ[d][a]`.
pub open spec fn rho_part(x: int, d: int, k: int) -> int
    decreases k,
{
    if k <= 0 {
        0
    } else {
        rho_part(x, d, k - 1) + ds_spec(k - 1, x) * ADJ[d][k - 1]
    }
}

/// `sum_{d < k} rho(x)[d] * r[d]`.
pub open spec fn read_part(r: Seq<int>, x: int, k: int) -> int
    decreases k,
{
    if k <= 0 {
        0
    } else {
        read_part(r, x, k - 1) + rho_part(x, k - 1, 4) * r[k - 1]
    }
}

/// `Within` of the caterpillar with spine leaf counts `seq`, by the transfer matrix.
pub open spec fn within_spec(seq: Seq<i128>) -> int {
    let m = seq.len() as int;
    if m == 0 {
        1
    } else if m == 1 {
        star_spec(seq[0] as int)
    } else {
        tdiv(read_part(wstate(seq, m - 1), seq[m - 1] as int, 4), 144)
    }
}

/// Leaf counts the closed forms cover.
pub open spec fn spine_ok(seq: Seq<i128>) -> bool {
    forall|i: int| 0 <= i < seq.len() ==> 0 <= #[trigger] seq[i] <= 40
}

pub proof fn lemma_div_tdiv(b: Big, r: Big, d: u64)
    requires
        b.wf(),
        d > 0,
        r@ == if b.neg { -((val(b.mag@) / (d as nat)) as int) } else { (val(b.mag@) / (d as nat)) as int },
    ensures
        r@ == tdiv(b@, d as int),
{
    crate::limbs::lemma_val_zero(b.mag@);
}

/// `Within` of the caterpillar whose spine vertices carry `seq[i]` leaves.
pub fn within(seq: &[i128]) -> (r: Big)
    requires
        spine_ok(seq@),
    ensures
        r.wf(),
        r@ == within_spec(seq@),
{
    let m = seq.len();
    if m == 0 {
        return Big::from_i128(1);
    }
    if m == 1 {
        return star(seq[0]);
    }
    let mut r: Vec<Big> = Vec::new();
    let mut j = 0usize;
    while j < 4
        invariant
            spine_ok(seq@),
            m == seq@.len(),
            m >= 2,
            j <= 4,
            r@.len() == j,
            forall|t: int| 0 <= t < j ==> (#[trigger] r@[t]).wf() && r@[t]@ == wstate(seq@, 1)[t],
        decreases 4 - j,
    {
        proof {
            assert(0 <= seq@[0] <= 40);
        }
        let b = ds(seq[0], j as i128);
        r.push(b);
        j += 1;
    }
    let mut idx = 1usize;
    while idx + 1 < m
        invariant
            spine_ok(seq@),
            m == seq@.len(),
            1 <= idx,
            idx + 1 <= m,
            r@.len() == 4,
            forall|t: int| 0 <= t < 4 ==> (#[trigger] r@[t]).wf() && r@[t]@ == wstate(seq@, idx as int)[t],
        decreases m - idx,
    {
        let l = seq[idx];
        proof {
            assert(0 <= seq@[idx as int] <= 40);
        }
        let ghost st = wstate(seq@, idx as int);
        let ghost sv = Seq::new(4, |a: int| adj_part(st, a, 4));
        let mut s: Vec<Big> = Vec::new();
        let mut a = 0usize;
        while a < 4
            invariant
                a <= 4,
                r@.len() == 4,
                forall|t: int| 0 <= t < 4 ==> (#[trigger] r@[t]).wf() && r@[t]@ == st[t],
                s@.len() == a,
                sv == Seq::new(4, |a: int| adj_part(st, a, 4)),
                forall|t: int| 0 <= t < a ==> (#[trigger] s@[t]).wf() && s@[t]@ == sv[t],
            decreases 4 - a,
        {
            let mut acc = Big::zero();
            let mut d = 0usize;
            while d < 4
                invariant
                    a < 4,
                    d <= 4,
                    r@.len() == 4,
                    forall|t: int| 0 <= t < 4 ==> (#[trigger] r@[t]).wf() && r@[t]@ == st[t],
                    acc.wf(),
                    acc@ == adj_part(st, a as int, d as int),
                decreases 4 - d,
            {
                let t = r[d].mul_i128(ADJ[d][a]);
                acc = acc.add(&t);
                d += 1;
            }
            s.push(acc);
            a += 1;
        }
        let ghost nst = step_state(st, l as int);
        let mut nr: Vec<Big> = Vec::new();
        let mut jj = 0usize;
        while jj < 4
            invariant
                0 <= l <= 40,
                jj <= 4,
                s@.len() == 4,
                forall|t: int| 0 <= t < 4 ==> (#[trigger] s@[t]).wf() && s@[t]@ == sv[t],
                nst == step_state(st, l as int),
                sv == Seq::new(4, |a: int| adj_part(st, a, 4)),
                nr@.len() == jj,
                forall|t: int| 0 <= t < jj ==> (#[trigger] nr@[t]).wf() && nr@[t]@ == nst[t],
            decreases 4 - jj,
        {
            let mut acc = Big::zero();
            let mut a = 0usize;
            while a < 4
                invariant
                    0 <= l <= 40,
                    jj < 4,
                    a <= 4,
                    s@.len() == 4,
                    forall|t: int| 0 <= t < 4 ==> (#[trigger] s@[t]).wf() && s@[t]@ == sv[t],
                    acc.wf(),
                    acc@ == tri_part(sv, l as int, jj as int, a as int),
                decreases 4 - a,
            {
                let w = triple(a as i128, l, jj as i128);
                let t = mul_big(&w, &s[a]);
                acc = acc.add(&t);
                a += 1;
            }
            let q = acc.div_small_exact(144);
            proof {
                lemma_div_tdiv(acc, q, 144);
            }
            nr.push(q);
            jj += 1;
        }
        r = nr;
        proof {
            assert(wstate(seq@, (idx + 1) as int) == step_state(wstate(seq@, idx as int), seq@[idx as int] as int));
        }
        idx += 1;
    }
    let x = seq[m - 1];
    proof {
        assert(0 <= seq@[m - 1] <= 40);
    }
    let ghost st = wstate(seq@, (m - 1) as int);
    let mut acc = Big::zero();
    let mut d = 0usize;
    while d < 4
        invariant
            0 <= x <= 40,
            d <= 4,
            r@.len() == 4,
            forall|t: int| 0 <= t < 4 ==> (#[trigger] r@[t]).wf() && r@[t]@ == st[t],
            acc.wf(),
            acc@ == read_part(st, x as int, d as int),
        decreases 4 - d,
    {
        let mut coeff = Big::zero();
        let mut a = 0usize;
        while a < 4
            invariant
                0 <= x <= 40,
                d < 4,
                a <= 4,
                coeff.wf(),
                coeff@ == rho_part(x as int, d as int, a as int),
            decreases 4 - a,
        {
            let t = ds(a as i128, x).mul_i128(ADJ[d][a]);
            coeff = coeff.add(&t);
            a += 1;
        }
        let t = mul_big(&coeff, &r[d]);
        acc = acc.add(&t);
        d += 1;
    }
    let res = acc.div_small_exact(144);
    proof {
        lemma_div_tdiv(acc, res, 144);
    }
    res
}

} // verus!
