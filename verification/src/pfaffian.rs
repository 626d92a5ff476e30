//! Exact integer Pfaffians of skew minors, and the completely-mixed test that
//! reads the kernel of an odd skew matrix off its principal Pfaffians.
use vstd::prelude::*;
use vstd::std_specs::bits::u64_trailing_zeros;
use crate::bits::{bit, drop_bit, lemma_bit_and, lemma_bit_not, lemma_bit_single, lemma_clear_bit, lemma_lowest_bit, lemma_no_bits_zero, lemma_small_mask};
use crate::game::card;

verus! {

/// Entry `(i, j)` of the matrix, zero off the 16 x 16 grid.
pub open spec fn entry(m: [[i64; 16]; 16], i: int, j: int) -> int {
    if 0 <= i < 16 && 0 <= j < 16 {
        m[i][j] as int
    } else {
        0
    }
}

/// `(-1)^c`.
pub open spec fn alt(c: int) -> int {
    if c % 2 == 0 {
        1
    } else {
        -1
    }
}

pub open spec fn absi(x: int) -> int {
    if x < 0 {
        -x
    } else {
        x
    }
}

/// Pfaffian of the skew minor of `m` on the vertex set `mask`, expanded along
/// its lowest member `i0`: the sum over the other members `j` of
/// `(-1)^t m[i0][j] Pf(mask - {i0, j})`, `j` being the `t`-th of them (from 0).
/// The empty minor has Pfaffian 1, a one-vertex minor 0.
pub open spec fn pf_spec(m: [[i64; 16]; 16], mask: u64) -> int
    decreases mask, 0int,
{
    if mask == 0 {
        1
    } else {
        let i0 = u64_trailing_zeros(mask) as int;
        let rest = drop_bit(mask, i0);
        proof {
            lemma_lowest_bit(mask);
        }
        if rest == 0 {
            0
        } else {
            pf_terms(m, i0, rest, 0)
        }
    }
}

/// The terms of the expansion of `pf_spec` for the members `j >= k` of `rest`.
pub open spec fn pf_terms(m: [[i64; 16]; 16], i0: int, rest: u64, k: int) -> int
    decreases rest, 64 - k,
{
    if k < 0 || k >= 64 {
        0
    } else {
        let here = if bit(rest, k) {
            proof {
                lemma_clear_bit(rest, k as u64);
            }
            alt(card(rest, k)) * entry(m, i0, k) * pf_spec(m, drop_bit(rest, k))
        } else {
            0
        };
        here + pf_terms(m, i0, rest, k + 1)
    }
}

/// The same expansion with every term taken in absolute value: a bound on every
/// partial sum that the expansion computes.
pub open spec fn pf_bound(m: [[i64; 16]; 16], mask: u64) -> int
    decreases mask, 0int,
{
    if mask == 0 {
        1
    } else {
        let i0 = u64_trailing_zeros(mask) as int;
        let rest = drop_bit(mask, i0);
        proof {
            lemma_lowest_bit(mask);
        }
        if rest == 0 {
            0
        } else {
            bound_terms(m, i0, rest, 0)
        }
    }
}

pub open spec fn bound_terms(m: [[i64; 16]; 16], i0: int, rest: u64, k: int) -> int
    decreases rest, 64 - k,
{
    if k < 0 || k >= 64 {
        0
    } else {
        let here = if bit(rest, k) {
            proof {
                lemma_clear_bit(rest, k as u64);
            }
            absi(entry(m, i0, k)) * pf_bound(m, drop_bit(rest, k))
        } else {
            0
        };
        here + bound_terms(m, i0, rest, k + 1)
    }
}

/// No entry is `i64::MIN`, so every entry can be negated.
pub open spec fn negatable(m: [[i64; 16]; 16]) -> bool {
    forall|i: int, j: int| 0 <= i < 16 && 0 <= j < 16 ==> #[trigger] m[i][j] > i64::MIN
}

/// No entry between two vertices of `mask` is `i64::MIN`.
pub open spec fn negatable_on(m: [[i64; 16]; 16], mask: u64) -> bool {
    forall|i: int, j: int| 0 <= i < 16 && 0 <= j < 16 && bit(mask, i) && bit(mask, j) ==> #[trigger] m[i][j] > i64::MIN
}

/// Every entry lies in `{-1, 0, 1}`, as in the payoff matrix of a game.
pub open spec fn unit_entries(m: [[i64; 16]; 16]) -> bool {
    forall|i: int, j: int| 0 <= i < 16 && 0 <= j < 16 ==> -1 <= #[trigger] m[i][j] <= 1
}

/// Number of perfect matchings of the complete graph on `k` vertices, `(k-1)!!`
/// (1 below two vertices).
pub open spec fn matchings(k: int) -> int
    decreases k,
{
    if k < 2 {
        1
    } else {
        (k - 1) * matchings(k - 2)
    }
}

proof fn lemma_bound_nonneg(m: [[i64; 16]; 16], mask: u64)
    ensures
        pf_bound(m, mask) >= 0,
    decreases mask, 0int,
{
    if mask != 0 {
        lemma_lowest_bit(mask);
        let i0 = u64_trailing_zeros(mask) as int;
        let rest = drop_bit(mask, i0);
        if rest != 0 {
            lemma_bound_terms_nonneg(m, i0, rest, 0);
        }
    }
}

proof fn lemma_bound_terms_nonneg(m: [[i64; 16]; 16], i0: int, rest: u64, k: int)
    ensures
        bound_terms(m, i0, rest, k) >= 0,
    decreases rest, 64 - k,
{
    if 0 <= k < 64 {
        if bit(rest, k) {
            lemma_clear_bit(rest, k as u64);
            lemma_bound_nonneg(m, drop_bit(rest, k));
            let a = absi(entry(m, i0, k));
            let b = pf_bound(m, drop_bit(rest, k));
            assert(a * b >= 0) by (nonlinear_arith)
                requires
                    a >= 0,
                    b >= 0,
            ;
        }
        lemma_bound_terms_nonneg(m, i0, rest, k + 1);
    }
}

/// `|Pf| <= pf_bound`, and likewise for every tail of the expansion.
proof fn lemma_pf_within_bound(m: [[i64; 16]; 16], mask: u64)
    ensures
        absi(pf_spec(m, mask)) <= pf_bound(m, mask),
    decreases mask, 0int,
{
    if mask != 0 {
        lemma_lowest_bit(mask);
        let i0 = u64_trailing_zeros(mask) as int;
        let rest = drop_bit(mask, i0);
        if rest != 0 {
            lemma_terms_within_bound(m, i0, rest, 0);
        }
    }
}

proof fn lemma_terms_within_bound(m: [[i64; 16]; 16], i0: int, rest: u64, k: int)
    ensures
        absi(pf_terms(m, i0, rest, k)) <= bound_terms(m, i0, rest, k),
    decreases rest, 64 - k,
{
    if 0 <= k < 64 {
        if bit(rest, k) {
            lemma_clear_bit(rest, k as u64);
            let sub = drop_bit(rest, k);
            lemma_pf_within_bound(m, sub);
            let s = alt(card(rest, k));
            let e = entry(m, i0, k);
            let p = pf_spec(m, sub);
            let b = pf_bound(m, sub);
            assert(absi(s * e * p) <= absi(e) * b) by (nonlinear_arith)
                requires
                    s == 1 || s == -1,
                    absi(p) <= b,
                    absi(e) >= 0,
            {
                assert(absi(s * e * p) == absi(e) * absi(p));
                assert(absi(e) * absi(p) <= absi(e) * b);
            }
        }
        lemma_terms_within_bound(m, i0, rest, k + 1);
    }
}

/// Positions `q..j` hold no member of `rest`: the expansion tails and the member
/// count agree at `q` and at `j`.
proof fn lemma_terms_skip(m: [[i64; 16]; 16], i0: int, rest: u64, q: int, j: int)
    requires
        0 <= q <= j <= 64,
        forall|t: int| q <= t < j ==> !#[trigger] bit(rest, t),
    ensures
        pf_terms(m, i0, rest, q) == pf_terms(m, i0, rest, j),
        bound_terms(m, i0, rest, q) == bound_terms(m, i0, rest, j),
        card(rest, q) == card(rest, j),
    decreases j - q,
{
    if q < j {
        lemma_terms_skip(m, i0, rest, q + 1, j);
        assert(!bit(rest, q));
    }
}

/// Pfaffian of the skew minor of `m` on the vertices in `mask` (see `pf_spec`).
/// `pf_bound` below `i64::MAX` and no `i64::MIN` entry inside the minor are
/// what keep every product and partial sum of the expansion inside `i64`;
/// `lemma_unit_pf_bound` gives both for a game's payoff matrix.
pub fn pf(m: &[[i64; 16]; 16], mask: u16) -> (r: i64)
    requires
        negatable_on(*m, mask as u64),
        pf_bound(*m, mask as u64) <= i64::MAX,
    ensures
        r == pf_spec(*m, mask as u64),
    decreases mask,
{
    let mask64 = mask as u64;
    if mask64 == 0 {
        return 1;
    }
    proof {
        lemma_lowest_bit(mask64);
        lemma_small_mask(mask64);
    }
    let i0 = mask64.trailing_zeros() as usize;
    let rest = mask64 & !(1u64 << (i0 as u64));
    if rest == 0 {
        return 0;
    }
    proof {
        assert(rest == drop_bit(mask64, i0 as int));
        assert(pf_spec(*m, mask64) == pf_terms(*m, i0 as int, rest, 0));
        assert(pf_bound(*m, mask64) == bound_terms(*m, i0 as int, rest, 0));
        assert(rest < mask64);
        assert forall|t: int| 0 <= t < 64 implies #[trigger] bit(rest, t) == (bit(mask64, t) && t != i0) by {
            lemma_bit_and(mask64, !(1u64 << (i0 as u64)), t as u64);
            lemma_bit_not(1u64 << (i0 as u64), t as u64);
            lemma_bit_single(i0 as u64, t as u64);
        }
        lemma_bound_terms_nonneg(*m, i0 as int, rest, 0);
    }
    let mut acc: i64 = 0;
    let mut sign: i64 = 1;
    let mut r = rest;
    let ghost mut q: int = 0;
    while r != 0
        invariant
            negatable_on(*m, mask64),
            bit(mask64, i0 as int),
            forall|t: int| 0 <= t < 64 && #[trigger] bit(rest, t) ==> bit(mask64, t),
            i0 < 16,
            rest < mask64 <= 0xffff,
            mask64 == mask as u64,
            bound_terms(*m, i0 as int, rest, 0) <= i64::MAX,
            pf_bound(*m, mask64) == bound_terms(*m, i0 as int, rest, 0),
            0 <= q <= 64,
            forall|t: int| 0 <= t < 64 ==> #[trigger] bit(r, t) == (bit(rest, t) && t >= q),
            forall|t: int| 0 <= t < 64 && #[trigger] bit(rest, t) ==> t < 16,
            acc + pf_terms(*m, i0 as int, rest, q) == pf_terms(*m, i0 as int, rest, 0),
            absi(acc as int) <= bound_terms(*m, i0 as int, rest, 0) - bound_terms(*m, i0 as int, rest, q),
            sign == alt(card(rest, q)),
        decreases 64 - q,
    {
        proof {
            lemma_lowest_bit(r);
        }
        let j = r.trailing_zeros() as usize;
        proof {
            assert(bit(r, j as int));
            assert forall|t: int| q <= t < j implies !#[trigger] bit(rest, t) by {
                assert(!bit(r, t));
            }
            lemma_terms_skip(*m, i0 as int, rest, q, j as int);
            assert(j < 16);
            lemma_bound_terms_nonneg(*m, i0 as int, rest, j + 1);
        }
        let ghost r0 = r;
        r &= r - 1;
        let a = m[i0][j];
        let ghost sub = drop_bit(rest, j as int);
        proof {
            assert(entry(*m, i0 as int, j as int) == a);
            assert(pf_terms(*m, i0 as int, rest, j as int)
                == alt(card(rest, j as int)) * a * pf_spec(*m, sub) + pf_terms(*m, i0 as int, rest, j + 1));
            assert(bound_terms(*m, i0 as int, rest, j as int)
                == absi(a as int) * pf_bound(*m, sub) + bound_terms(*m, i0 as int, rest, j + 1));
            assert forall|t: int| 0 <= t < 64 implies #[trigger] bit(r, t) == (bit(rest, t) && t >= j + 1) by {
                lemma_bit_and(r0, !(1u64 << (j as u64)), t as u64);
                lemma_bit_not(1u64 << (j as u64), t as u64);
                lemma_bit_single(j as u64, t as u64);
            }
        }
        if a != 0 {
            proof {
                lemma_clear_bit(rest, j as u64);
            }
            let sub16 = (rest & !(1u64 << (j as u64))) as u16;
            proof {
                lemma_bound_nonneg(*m, sub);
                lemma_pf_within_bound(*m, sub);
                let b = pf_bound(*m, sub);
                let ab = absi(a as int);
                assert(b <= ab * b) by (nonlinear_arith)
                    requires
                        ab >= 1,
                        b >= 0,
                ;
            }
            proof {
                assert(sub16 as u64 == sub);
                assert forall|t: int| 0 <= t < 64 && #[trigger] bit(sub, t) implies bit(mask64, t) by {
                    lemma_bit_and(rest, !(1u64 << (j as u64)), t as u64);
                    assert(bit(rest, t));
                }
            }
            let p = pf(m, sub16);
            proof {
                let b = pf_bound(*m, sub);
                let ab = absi(a as int);
                let s = sign as int;
                assert(absi(s * a * p) <= ab * b) by (nonlinear_arith)
                    requires
                        s == 1 || s == -1,
                        absi(p as int) <= b,
                        ab == absi(a as int),
                {
                    assert(absi(s * a * p) == ab * absi(p as int));
                    assert(ab * absi(p as int) <= ab * b);
                }
            }
            assert(a > i64::MIN);
            assert(sign == 1 || sign == -1);
            assert(i64::MIN <= sign * a <= i64::MAX) by (nonlinear_arith)
                requires
                    sign == 1 || sign == -1,
                    a > i64::MIN,
            ;
            let sa = sign * a;
            assert(absi(sa * p) <= absi(a as int) * pf_bound(*m, sub));
            acc = acc + sa * p;
        } else {
            proof {
                let s = alt(card(rest, j as int));
                let x = pf_spec(*m, sub);
                assert(s * 0 * x == 0) by (nonlinear_arith);
                assert(0 * pf_bound(*m, sub) == 0) by (nonlinear_arith);
            }
        }
        sign = -sign;
        proof {
            q = j + 1;
        }
    }
    proof {
        assert forall|t: int| q <= t < 64 implies !#[trigger] bit(rest, t) by {
            lemma_no_bits_zero(r);
            assert(!bit(r, t));
        }
        lemma_terms_skip(*m, i0 as int, rest, q, 64);
    }
    acc
}

proof fn lemma_matchings_pos(k: int)
    ensures
        matchings(k) >= 1,
    decreases k,
{
    if k >= 2 {
        lemma_matchings_pos(k - 2);
        let a = k - 1;
        let b = matchings(k - 2);
        assert(a * b >= 1) by (nonlinear_arith)
            requires
                a >= 1,
                b >= 1,
        ;
    }
}

proof fn lemma_matchings_mono(a: int, b: int)
    requires
        0 <= a <= b,
    ensures
        matchings(a) <= matchings(b),
    decreases b,
{
    if a < b {
        lemma_matchings_mono(a, b - 1);
        if b >= 3 {
            assert(matchings(b) == (b - 1) * matchings(b - 2));
            assert(matchings(b - 1) == (b - 2) * matchings(b - 3));
            lemma_matchings_mono(b - 3, b - 2);
            lemma_matchings_pos(b - 3);
            let x = matchings(b - 3);
            let y = matchings(b - 2);
            let c = b - 2;
            assert(c * x <= (c + 1) * y) by (nonlinear_arith)
                requires
                    c >= 1,
                    1 <= x <= y,
            ;
        } else {
            lemma_matchings_pos(b - 2);
        }
    }
}

proof fn lemma_matchings_16()
    ensures
        matchings(16) == 2027025,
{
    assert(matchings(0) == 1);
    assert(matchings(2) == 1);
    assert(matchings(4) == 3);
    assert(matchings(6) == 15);
    assert(matchings(8) == 105);
    assert(matchings(10) == 945);
    assert(matchings(12) == 10395);
    assert(matchings(14) == 135135);
    assert(matchings(16) == 2027025);
}

/// Removing member `x` of `s` leaves one member fewer.
proof fn lemma_card_drop(s: u64, x: int)
    requires
        0 <= x < 64,
        bit(s, x),
    ensures
        card(drop_bit(s, x), 64) + 1 == card(s, 64),
{
    let d = drop_bit(s, x);
    assert forall|t: int| 0 <= t < 64 implies #[trigger] bit(s, t) == (bit(d, t) || t == x) by {
        lemma_bit_and(s, !(1u64 << (x as u64)), t as u64);
        lemma_bit_not(1u64 << (x as u64), t as u64);
        lemma_bit_single(x as u64, t as u64);
    }
    assert(!bit(d, x)) by {
        lemma_bit_and(s, !(1u64 << (x as u64)), x as u64);
        lemma_bit_not(1u64 << (x as u64), x as u64);
        lemma_bit_single(x as u64, x as u64);
    }
    crate::game::lemma_card_add(d, s, x, 64);
}

proof fn lemma_unit_bound(m: [[i64; 16]; 16], mask: u64)
    requires
        unit_entries(m),
    ensures
        pf_bound(m, mask) <= matchings(card(mask, 64)),
    decreases mask, 0int,
{
    lemma_matchings_pos(card(mask, 64));
    if mask != 0 {
        lemma_lowest_bit(mask);
        let i0 = u64_trailing_zeros(mask) as int;
        let rest = drop_bit(mask, i0);
        if rest != 0 {
            lemma_unit_terms(m, i0, rest, 0);
            lemma_card_drop(mask, i0);
            let c = card(rest, 64);
            crate::game::lemma_card_bounds(rest, 64);
            lemma_matchings_pos(c - 1);
            if c >= 1 {
                assert(matchings(c + 1) == c * matchings(c - 1));
            } else {
                let mm = matchings(c - 1);
                assert((c - 0) * mm <= 0) by (nonlinear_arith)
                    requires
                        c <= 0,
                        mm >= 1,
                ;
            }
        }
    }
}

proof fn lemma_unit_terms(m: [[i64; 16]; 16], i0: int, rest: u64, k: int)
    requires
        unit_entries(m),
        0 <= k <= 64,
    ensures
        bound_terms(m, i0, rest, k) <= (card(rest, 64) - card(rest, k)) * matchings(card(rest, 64) - 1),
    decreases rest, 64 - k,
{
    let c = card(rest, 64);
    let mm = matchings(c - 1);
    lemma_matchings_pos(c - 1);
    if k < 64 {
        lemma_unit_terms(m, i0, rest, k + 1);
        let ck = card(rest, k);
        if bit(rest, k) {
            lemma_clear_bit(rest, k as u64);
            let sub = drop_bit(rest, k);
            lemma_unit_bound(m, sub);
            lemma_card_drop(rest, k);
            lemma_bound_nonneg(m, sub);
            let e = absi(entry(m, i0, k));
            let b = pf_bound(m, sub);
            assert(e <= 1);
            assert(e * b <= mm) by (nonlinear_arith)
                requires
                    0 <= e <= 1,
                    0 <= b <= mm,
            ;
            assert((c - (ck + 1)) * mm + mm == (c - ck) * mm) by (nonlinear_arith);
        }
    } else {
        assert((c - c) * mm == 0) by (nonlinear_arith);
    }
}

proof fn lemma_card_small(mask: u64, k: int)
    requires
        mask <= 0xffff,
        16 <= k <= 64,
    ensures
        card(mask, k) == card(mask, 16),
    decreases k,
{
    if k > 16 {
        lemma_small_mask(mask);
        lemma_card_small(mask, k - 1);
    }
}

/// A matrix with entries in `{-1, 0, 1}` meets the requirements of `pf` on every
/// minor of at most 16 vertices: its Pfaffians, and every partial sum of their
/// expansions, stay within `(16 - 1)!! = 2027025` in absolute value.
pub proof fn lemma_unit_pf_bound(m: [[i64; 16]; 16], mask: u64)
    requires
        unit_entries(m),
        mask <= 0xffff,
    ensures
        negatable(m),
        pf_bound(m, mask) <= 2027025,
        absi(pf_spec(m, mask)) <= 2027025,
{
    lemma_unit_bound(m, mask);
    lemma_card_small(mask, 64);
    crate::game::lemma_card_bounds(mask, 16);
    lemma_matchings_mono(card(mask, 64), 16);
    lemma_matchings_16();
    lemma_pf_within_bound(m, mask);
    assert forall|i: int, j: int| 0 <= i < 16 && 0 <= j < 16 implies m[i][j] > i64::MIN by {
        assert(-1 <= m[i][j]);
    }
}

/// The vertex set `{0, .., n-1}` without `i`, as the 16-bit mask the test builds.
pub open spec fn cofactor_mask(n: int, i: int) -> u16 {
    (((1u16 << (n as u16)) - 1) as u16) & !(1u16 << (i as u16))
}

/// `v_i = (-1)^i Pf(M with row and column i deleted)`.
pub open spec fn cofactor_value(m: [[i64; 16]; 16], n: int, i: int) -> int {
    let p = pf_spec(m, cofactor_mask(n, i) as u64);
    if i % 2 == 0 {
        p
    } else {
        -p
    }
}

pub open spec fn signum(x: int) -> int {
    if x > 0 {
        1
    } else if x < 0 {
        -1
    } else {
        0
    }
}

/// Every cofactor value is nonzero and all share one sign.
pub open spec fn completely_mixed_spec(m: [[i64; 16]; 16], n: int) -> bool {
    forall|i: int|
        0 <= i < n ==> #[trigger] cofactor_value(m, n, i) != 0 && signum(cofactor_value(m, n, i)) == signum(
            cofactor_value(m, n, 0),
        )
}

fn sign_of(x: i64) -> (r: i64)
    ensures
        r == signum(x as int),
{
    if x > 0 {
        1
    } else if x < 0 {
        -1
    } else {
        0
    }
}

/// The completely-mixed test for an odd skew payoff matrix on `n` vertices:
/// all `n` Pfaffian cofactors are nonzero and the vector `v_i = (-1)^i Pf_i` is
/// one-signed. Stops at the first zero or sign clash.
pub fn completely_mixed(m: &[[i64; 16]; 16], n: usize) -> (r: bool)
    requires
        n <= 15,
        unit_entries(*m),
    ensures
        r == completely_mixed_spec(*m, n as int),
{
    assert((1u16 << (n as u16)) >= 1) by (bit_vector)
        requires
            n < 16,
    ;
    let full: u16 = (1u16 << n) - 1;
    let mut want: i64 = 0;
    let mut i = 0usize;
    while i < n
        invariant
            n <= 15,
            unit_entries(*m),
            (1u16 << (n as u16)) >= 1,
            full == ((1u16 << (n as u16)) - 1) as u16,
            i <= n,
            i > 0 ==> want == signum(cofactor_value(*m, n as int, 0)),
            forall|k: int|
                0 <= k < i ==> #[trigger] cofactor_value(*m, n as int, k) != 0 && signum(cofactor_value(*m, n as int, k))
                    == signum(cofactor_value(*m, n as int, 0)),
        decreases n - i,
    {
        let mask = full & !(1u16 << i);
        proof {
            assert(mask == cofactor_mask(n as int, i as int));
            lemma_unit_pf_bound(*m, mask as u64);
        }
        let p = pf(m, mask);
        proof {
            lemma_unit_pf_bound(*m, mask as u64);
        }
        if p == 0 {
            assert(cofactor_value(*m, n as int, i as int) == 0);
            return false;
        }
        let v = if i % 2 == 0 { p } else { -p };
        assert(cofactor_value(*m, n as int, i as int) == v);
        if i == 0 {
            want = sign_of(v);
        } else if sign_of(v) != want {
            return false;
        }
        i += 1;
    }
    true
}


proof fn lemma_card_empty(k: int)
    requires
        0 <= k <= 64,
    ensures
        card(0u64, k) == 0,
    decreases k,
{
    if k > 0 {
        crate::bits::lemma_bit_zero((k - 1) as u64);
        lemma_card_empty(k - 1);
    }
}

/// A skew minor on an odd number of vertices has Pfaffian zero (odd skew
/// matrices are singular).
pub proof fn lemma_pf_odd(m: [[i64; 16]; 16], mask: u64)
    requires
        card(mask, 64) % 2 == 1,
    ensures
        pf_spec(m, mask) == 0,
    decreases mask, 0int,
{
    if mask == 0 {
        lemma_card_empty(64);
    } else {
        let i0 = u64_trailing_zeros(mask) as int;
        let rest = drop_bit(mask, i0);
        lemma_lowest_bit(mask);
        crate::bits::lemma_drop_bit(mask, i0);
        crate::game::lemma_card_add(rest, mask, i0, 64);
        if rest != 0 {
            lemma_terms_even(m, i0, rest, 0);
        }
    }
}

proof fn lemma_terms_even(m: [[i64; 16]; 16], i0: int, rest: u64, k: int)
    requires
        card(rest, 64) % 2 == 0,
    ensures
        pf_terms(m, i0, rest, k) == 0,
    decreases rest, 64 - k,
{
    if 0 <= k < 64 {
        if bit(rest, k) {
            lemma_clear_bit(rest, k as u64);
            crate::bits::lemma_drop_bit(rest, k);
            crate::game::lemma_card_add(drop_bit(rest, k), rest, k, 64);
            lemma_pf_odd(m, drop_bit(rest, k));
        }
        lemma_terms_even(m, i0, rest, k + 1);
    }
}


proof fn lemma_alt_next(x: int)
    ensures
        alt(x + 1) == -alt(x),
{
}

/// Reversing every arc (negating every entry) multiplies the Pfaffian of a
/// minor on `k` vertices, `k` even, by `(-1)^(k/2)`.
pub proof fn lemma_pf_reverse(m: [[i64; 16]; 16], m2: [[i64; 16]; 16], mask: u64)
    requires
        forall|i: int, j: int| 0 <= i < 16 && 0 <= j < 16 ==> #[trigger] m2[i][j] as int == -(m[i][j] as int),
        card(mask, 64) % 2 == 0,
    ensures
        pf_spec(m2, mask) == alt(card(mask, 64) / 2) * pf_spec(m, mask),
    decreases mask, 0int,
{
    if mask == 0 {
        lemma_card_empty(64);
    } else {
        let i0 = u64_trailing_zeros(mask) as int;
        let rest = drop_bit(mask, i0);
        lemma_lowest_bit(mask);
        crate::bits::lemma_drop_bit(mask, i0);
        crate::game::lemma_card_add(rest, mask, i0, 64);
        if rest != 0 {
            lemma_terms_reverse(m, m2, i0, rest, 0);
            assert((card(rest, 64) + 1) / 2 == card(mask, 64) / 2);
        } else {
            lemma_card_empty(64);
        }
    }
}

proof fn lemma_terms_reverse(m: [[i64; 16]; 16], m2: [[i64; 16]; 16], i0: int, rest: u64, k: int)
    requires
        forall|i: int, j: int| 0 <= i < 16 && 0 <= j < 16 ==> #[trigger] m2[i][j] as int == -(m[i][j] as int),
        card(rest, 64) % 2 == 1,
    ensures
        pf_terms(m2, i0, rest, k) == alt((card(rest, 64) + 1) / 2) * pf_terms(m, i0, rest, k),
    decreases rest, 64 - k,
{
    let s = alt((card(rest, 64) + 1) / 2);
    if 0 <= k < 64 {
        lemma_terms_reverse(m, m2, i0, rest, k + 1);
        let t1 = pf_terms(m, i0, rest, k + 1);
        let t2 = pf_terms(m2, i0, rest, k + 1);
        if bit(rest, k) {
            lemma_clear_bit(rest, k as u64);
            let d = drop_bit(rest, k);
            crate::bits::lemma_drop_bit(rest, k);
            crate::game::lemma_card_add(d, rest, k, 64);
            lemma_pf_reverse(m, m2, d);
            let sd = alt(card(d, 64) / 2);
            assert(card(d, 64) / 2 + 1 == (card(rest, 64) + 1) / 2);
            lemma_alt_next(card(d, 64) / 2);
            assert(s == -sd);
            let e = entry(m, i0, k);
            let e2 = entry(m2, i0, k);
            assert(e2 == -e);
            let a = alt(card(rest, k));
            let p = pf_spec(m, d);
            let p2 = pf_spec(m2, d);
            assert(p2 == sd * p);
            assert(a * e2 * p2 == s * (a * e * p)) by (nonlinear_arith)
                requires
                    e2 == -e,
                    p2 == sd * p,
                    s == -sd,
            ;
            assert(t2 == s * t1);
            assert(a * e2 * p2 + t2 == s * (a * e * p + t1)) by (nonlinear_arith)
                requires
                    a * e2 * p2 == s * (a * e * p),
                    t2 == s * t1,
            ;
        } else {
            assert(t2 == s * t1);
        }
    } else {
        assert(s * 0 == 0) by (nonlinear_arith);
    }
}
} // verus!
