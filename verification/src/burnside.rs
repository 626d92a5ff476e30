//! Burnside counting of tournaments over the cycle types of `S_n`.
use vstd::prelude::*;
use crate::seqs::copy_u64s;
use crate::tournament::{build_perm, count_s_lambda, cycle_image, full_rows, orbits_spec, ov, perm_ok, s2_assignments};

verus! {

/// Greatest common divisor by Euclid's rule.
pub open spec fn gcd_spec(a: nat, b: nat) -> nat
    decreases b,
{
    if b == 0 {
        a
    } else {
        gcd_spec(b, a % b)
    }
}

/// `n!`.
pub open spec fn fact(n: nat) -> nat
    decreases n,
{
    if n == 0 {
        1
    } else {
        n * fact((n - 1) as nat)
    }
}

/// Greatest common divisor.
pub fn gcd(a: u64, b: u64) -> (r: u64)
    ensures
        r == gcd_spec(a as nat, b as nat),
    decreases b,
{
    if b == 0 {
        a
    } else {
        gcd(b, a % b)
    }
}

/// `gcd(a, b) <= b` for `b > 0`, and `gcd(a, 0) == a`.
pub proof fn lemma_gcd_le(a: nat, b: nat)
    ensures
        b > 0 ==> gcd_spec(a, b) <= b,
    decreases b,
{
    if b > 0 {
        lemma_gcd_le(b, a % b);
        if a % b > 0 {
            assert(gcd_spec(b, a % b) <= a % b);
        }
    }
}

pub proof fn lemma_fact_pos(n: nat)
    ensures
        fact(n) >= 1,
    decreases n,
{
    if n > 0 {
        lemma_fact_pos((n - 1) as nat);
        assert(n * fact((n - 1) as nat) >= 1) by (nonlinear_arith)
            requires
                n >= 1,
                fact((n - 1) as nat) >= 1,
        ;
    }
}

pub proof fn lemma_fact_mono(m: nat, n: nat)
    requires
        m <= n,
    ensures
        fact(m) <= fact(n),
    decreases n,
{
    if m < n {
        lemma_fact_mono(m, (n - 1) as nat);
        lemma_fact_pos((n - 1) as nat);
        assert(fact((n - 1) as nat) <= n * fact((n - 1) as nat)) by (nonlinear_arith)
            requires
                n >= 1,
        ;
    }
}

/// `n!` as a 128-bit integer.
pub fn factorial(n: u64) -> (r: u128)
    requires
        fact(n as nat) <= u128::MAX,
    ensures
        r == fact(n as nat),
{
    let mut r: u128 = 1;
    let mut i: u64 = 0;
    while i < n
        invariant
            i <= n,
            fact(n as nat) <= u128::MAX,
            r == fact(i as nat),
        decreases n - i,
    {
        let x = (i as u128) + 1;
        proof {
            lemma_fact_mono((i + 1) as nat, n as nat);
            assert(fact((i + 1) as nat) == (i + 1) * fact(i as nat));
            assert(r * x == (i + 1) * fact(i as nat)) by (nonlinear_arith)
                requires
                    r == fact(i as nat),
                    x == i + 1,
            ;
        }
        r = r * x;
        i += 1;
    }
    r
}

/// Number of positions `j < k` with `s[j] == v`.
pub open spec fn count_eq(s: Seq<u64>, v: u64, k: int) -> nat
    decreases k,
{
    if k <= 0 {
        0
    } else {
        count_eq(s, v, k - 1) + if s[k - 1] == v { 1nat } else { 0nat }
    }
}

/// `z_lambda` over the first `k` parts: each part times its rank among the equal parts before it.
pub open spec fn zp(s: Seq<u64>, k: int) -> nat
    decreases k,
{
    if k <= 0 {
        1
    } else {
        zp(s, k - 1) * ((s[k - 1] as nat) * count_eq(s, s[k - 1], k))
    }
}

/// `z_lambda = prod_k k^(m_k) m_k!`, the centralizer order of the cycle type.
pub open spec fn z_spec(s: Seq<u64>) -> nat {
    zp(s, s.len() as int)
}

proof fn lemma_count_pos(s: Seq<u64>, k: int)
    requires
        1 <= k <= s.len(),
    ensures
        count_eq(s, s[k - 1], k) >= 1,
{
}

proof fn lemma_zp_mono(s: Seq<u64>, k: int, m: int)
    requires
        0 <= k <= m <= s.len(),
        forall|i: int| 0 <= i < s.len() ==> s[i] >= 1,
    ensures
        1 <= zp(s, k) <= zp(s, m),
    decreases m,
{
    if k < m {
        lemma_zp_mono(s, k, m - 1);
        lemma_count_pos(s, m);
        let c = count_eq(s, s[m - 1], m);
        let z = zp(s, m - 1);
        let x = s[m - 1] as nat;
        assert(z <= z * (x * c)) by (nonlinear_arith)
            requires
                x >= 1,
                c >= 1,
                z >= 1,
        ;
    } else if k > 0 {
        lemma_zp_mono(s, k - 1, k - 1);
        lemma_count_pos(s, k);
        let c = count_eq(s, s[k - 1], k);
        let z = zp(s, k - 1);
        let x = s[k - 1] as nat;
        assert(z * (x * c) >= 1) by (nonlinear_arith)
            requires
                x >= 1,
                c >= 1,
                z >= 1,
        ;
    }
}

/// `z_lambda` of a cycle type given as its list of cycle lengths (any order).
pub fn z_lambda(parts: &[u64]) -> (z: u128)
    requires
        forall|i: int| 0 <= i < parts@.len() ==> parts@[i] >= 1,
        z_spec(parts@) <= u128::MAX,
    ensures
        z == z_spec(parts@),
{
    let mut z: u128 = 1;
    let mut i = 0usize;
    while i < parts.len()
        invariant
            i <= parts@.len(),
            forall|t: int| 0 <= t < parts@.len() ==> parts@[t] >= 1,
            z_spec(parts@) <= u128::MAX,
            z == zp(parts@, i as int),
        decreases parts@.len() - i,
    {
        let l = parts[i];
        let mut rank: u64 = 0;
        let mut j = 0usize;
        while j <= i
            invariant
                i < parts@.len(),
                j <= i + 1,
                l == parts@[i as int],
                rank == count_eq(parts@, l, j as int),
                rank <= j,
            decreases i + 1 - j,
        {
            if parts[j] == l {
                rank += 1;
            }
            j += 1;
        }
        proof {
            lemma_zp_mono(parts@, i as int, parts@.len() as int);
            lemma_zp_mono(parts@, (i + 1) as int, parts@.len() as int);
            assert(zp(parts@, (i + 1) as int) == z * (l * rank));
            assert(l * rank <= z * (l * rank)) by (nonlinear_arith)
                requires
                    z >= 1,
            ;
            assert(z * (l * rank) <= u128::MAX);
        }
        let f = (l as u128) * (rank as u128);
        z = z * f;
        i += 1;
    }
    z
}

/// Edge-orbit count contribution of parts `i..` paired with the later parts.
pub open spec fn row_gcds(s: Seq<u64>, i: int, j: int) -> nat
    decreases s.len() - j,
{
    if j >= s.len() || j < 0 {
        0
    } else {
        gcd_spec(s[i] as nat, s[j] as nat) + row_gcds(s, i, j + 1)
    }
}

/// Edge orbits of a permutation of the given cycle type, summed over the first `k` cycles:
/// `(l_i - 1) / 2` inside each cycle plus `gcd(l_i, l_j)` for each later cycle `j`.
pub open spec fn eo_prefix(s: Seq<u64>, k: int) -> nat
    decreases k,
{
    if k <= 0 {
        0
    } else {
        eo_prefix(s, k - 1) + ((s[k - 1] - 1) / 2) as nat + row_gcds(s, k - 1, k)
    }
}

/// `E(lambda)`: the number of edge orbits of a permutation of cycle type `lambda`.
pub open spec fn edge_orbit_count(s: Seq<u64>) -> nat {
    eo_prefix(s, s.len() as int)
}

proof fn lemma_row_bound(s: Seq<u64>, i: int, j: int)
    requires
        0 <= i < s.len(),
        0 <= j <= s.len(),
        forall|t: int| 0 <= t < s.len() ==> 1 <= #[trigger] s[t] <= 64,
    ensures
        row_gcds(s, i, j) <= 64 * (s.len() - j),
    decreases s.len() - j,
{
    if j < s.len() {
        lemma_row_bound(s, i, j + 1);
        lemma_gcd_le(s[i] as nat, s[j] as nat);
    }
}

proof fn lemma_eo_bound(s: Seq<u64>, k: int)
    requires
        0 <= k <= s.len() <= 64,
        forall|t: int| 0 <= t < s.len() ==> 1 <= #[trigger] s[t] <= 64,
    ensures
        eo_prefix(s, k) <= 4200 * k,
    decreases k,
{
    if k > 0 {
        lemma_eo_bound(s, k - 1);
        lemma_row_bound(s, k - 1, k);
    }
}

/// `E(lambda)` for a cycle type with at most 64 cycles of length at most 64.
pub fn edge_orbits(parts: &[u64]) -> (e: u64)
    requires
        parts@.len() <= 64,
        forall|t: int| 0 <= t < parts@.len() ==> 1 <= #[trigger] parts@[t] <= 64,
    ensures
        e == edge_orbit_count(parts@),
{
    let mut e = 0u64;
    let mut i = 0usize;
    while i < parts.len()
        invariant
            i <= parts@.len() <= 64,
            forall|t: int| 0 <= t < parts@.len() ==> 1 <= #[trigger] parts@[t] <= 64,
            e == eo_prefix(parts@, i as int),
            e <= 4200 * i,
        decreases parts@.len() - i,
    {
        let mut row = 0u64;
        let mut j = parts.len();
        while j > i + 1
            invariant
                i < parts@.len() <= 64,
                i + 1 <= j <= parts@.len(),
                forall|t: int| 0 <= t < parts@.len() ==> 1 <= #[trigger] parts@[t] <= 64,
                row == row_gcds(parts@, i as int, j as int),
                row <= 64 * (parts@.len() - j),
            decreases j,
        {
            j -= 1;
            let g = gcd(parts[i], parts[j]);
            proof {
                lemma_gcd_le(parts@[i as int] as nat, parts@[j as int] as nat);
            }
            row = row + g;
        }
        proof {
            lemma_row_bound(parts@, i as int, (i + 1) as int);
        }
        e = e + (parts[i] - 1) / 2 + row;
        i += 1;
    }
    e
}

/// The partitions of `n` into parts of size at most `max`, nonincreasing,
/// listed with the largest first part first.
pub open spec fn plist(n: nat, max: nat) -> Seq<Seq<u64>>
    decreases n, max + 1,
{
    if n == 0 {
        seq![Seq::<u64>::empty()]
    } else {
        plist_from(n, if max < n { max } else { n })
    }
}

/// The partitions of `n > 0` whose first part is at most `p <= n`.
pub open spec fn plist_from(n: nat, p: nat) -> Seq<Seq<u64>>
    decreases n, p,
{
    if p == 0 || n == 0 || p > n {
        Seq::empty()
    } else {
        prefixed(p as u64, plist((n - p) as nat, p)) + plist_from(n, (p - 1) as nat)
    }
}

/// Each sequence of `l` with `x` put in front.
pub open spec fn prefixed(x: u64, l: Seq<Seq<u64>>) -> Seq<Seq<u64>> {
    l.map_values(|q: Seq<u64>| seq![x] + q)
}

/// Each sequence of `l` with `c` put in front.
pub open spec fn prepend_all(c: Seq<u64>, l: Seq<Seq<u64>>) -> Seq<Seq<u64>> {
    l.map_values(|q: Seq<u64>| c + q)
}

/// The contents of a vector of vectors.
pub open spec fn deep(v: Seq<Vec<u64>>) -> Seq<Seq<u64>> {
    v.map_values(|x: Vec<u64>| x@)
}

proof fn lemma_prepend_concat(c: Seq<u64>, a: Seq<Seq<u64>>, b: Seq<Seq<u64>>)
    ensures
        prepend_all(c, a + b) == prepend_all(c, a) + prepend_all(c, b),
{
    assert(prepend_all(c, a + b) =~= prepend_all(c, a) + prepend_all(c, b));
}

proof fn lemma_prepend_prefixed(c: Seq<u64>, p: u64, l: Seq<Seq<u64>>)
    ensures
        prepend_all(c, prefixed(p, l)) == prepend_all(c.push(p), l),
{
    assert forall|i: int| 0 <= i < l.len() implies prepend_all(c, prefixed(p, l))[i] =~= prepend_all(c.push(p), l)[i] by {
    }
    assert(prepend_all(c, prefixed(p, l)) =~= prepend_all(c.push(p), l));
}

/// Appends every partition of `n` with parts at most `max` (nonincreasing,
/// largest first part first) to `out`, each behind the prefix `cur`.
pub fn partitions(n: u64, max: u64, cur: &mut Vec<u64>, out: &mut Vec<Vec<u64>>)
    ensures
        final(cur)@ == old(cur)@,
        deep(final(out)@) == deep(old(out)@) + prepend_all(old(cur)@, plist(n as nat, max as nat)),
    decreases n,
{
    if n == 0 {
        let c = copy_u64s(cur);
        out.push(c);
        proof {
            assert(prepend_all(cur@, plist(0, max as nat)) =~= seq![cur@ + Seq::<u64>::empty()]);
            assert(cur@ + Seq::<u64>::empty() =~= cur@);
            assert(deep(out@) =~= deep(old(out)@) + prepend_all(old(cur)@, plist(n as nat, max as nat)));
        }
        return;
    }
    let hi = if max < n { max } else { n };
    let mut p = hi;
    let ghost c0 = cur@;
    let ghost out0 = deep(out@);
    proof {
        assert(plist(n as nat, max as nat) == plist_from(n as nat, hi as nat));
        assert(deep(out@) + prepend_all(c0, plist_from(n as nat, p as nat)) == out0 + prepend_all(c0, plist_from(n as nat, hi as nat)));
    }
    while p >= 1
        invariant
            0 < n,
            p <= hi <= n,
            cur@ == c0,
            deep(out@) + prepend_all(c0, plist_from(n as nat, p as nat)) == out0 + prepend_all(c0, plist_from(n as nat, hi as nat)),
        decreases p,
    {
        cur.push(p);
        let ghost before = deep(out@);
        partitions(n - p, p, cur, out);
        cur.pop();
        proof {
            assert(cur@ =~= c0);
            let rest = plist((n - p) as nat, p as nat);
            assert(plist_from(n as nat, p as nat) == prefixed(p, rest) + plist_from(n as nat, (p - 1) as nat));
            lemma_prepend_concat(c0, prefixed(p, rest), plist_from(n as nat, (p - 1) as nat));
            lemma_prepend_prefixed(c0, p, rest);
            assert(deep(out@) == before + prepend_all(c0.push(p), rest));
            assert(deep(out@) + prepend_all(c0, plist_from(n as nat, (p - 1) as nat)) =~= before + prepend_all(c0, plist_from(n as nat, p as nat)));
        }
        p -= 1;
    }
    proof {
        assert(plist_from(n as nat, 0) =~= Seq::<Seq<u64>>::empty());
        assert(prepend_all(c0, Seq::<Seq<u64>>::empty()) =~= Seq::<Seq<u64>>::empty());
        assert(deep(out@) =~= deep(out@) + prepend_all(c0, plist_from(n as nat, 0)));
    }
}

/// Sum of the first `k` entries.
pub open spec fn psum(s: Seq<u64>, k: int) -> nat
    decreases k,
{
    if k <= 0 {
        0
    } else {
        psum(s, k - 1) + s[k - 1] as nat
    }
}

/// A nonincreasing-free description of a partition of `n` with parts in `1..=max`.
pub open spec fn is_partition(q: Seq<u64>, n: nat, max: nat) -> bool {
    &&& psum(q, q.len() as int) == n
    &&& forall|j: int| 0 <= j < q.len() ==> 1 <= #[trigger] q[j] <= max
}

proof fn lemma_psum_prepend(x: u64, q: Seq<u64>, k: int)
    requires
        0 <= k <= q.len(),
    ensures
        psum(seq![x] + q, k + 1) == x + psum(q, k),
    decreases k,
{
    let t = seq![x] + q;
    if k == 0 {
        assert(psum(t, 1) == psum(t, 0) + t[0] as nat);
    } else {
        lemma_psum_prepend(x, q, k - 1);
        assert(t[k] == q[k - 1]);
    }
}

proof fn lemma_plist_valid(n: nat, max: nat)
    requires
        n <= u64::MAX,
    ensures
        forall|i: int| 0 <= i < plist(n, max).len() ==> is_partition(#[trigger] plist(n, max)[i], n, max),
    decreases n, max + 1,
{
    if n == 0 {
        assert(psum(Seq::<u64>::empty(), 0) == 0);
    } else {
        let m = if max < n { max } else { n };
        lemma_plist_from_valid(n, m);
        assert forall|i: int| 0 <= i < plist(n, max).len() implies is_partition(#[trigger] plist(n, max)[i], n, max) by {
            assert(is_partition(plist_from(n, m)[i], n, m));
        }
    }
}

proof fn lemma_plist_from_valid(n: nat, p: nat)
    requires
        n <= u64::MAX,
    ensures
        forall|i: int| 0 <= i < plist_from(n, p).len() ==> is_partition(#[trigger] plist_from(n, p)[i], n, p),
    decreases n, p,
{
    if p == 0 || n == 0 || p > n {
    } else {
        let rest = plist((n - p) as nat, p);
        lemma_plist_valid((n - p) as nat, p);
        lemma_plist_from_valid(n, (p - 1) as nat);
        let a = prefixed(p as u64, rest);
        let b = plist_from(n, (p - 1) as nat);
        assert forall|i: int| 0 <= i < (a + b).len() implies is_partition(#[trigger] (a + b)[i], n, p) by {
            if i < a.len() {
                let q = rest[i];
                assert(is_partition(q, (n - p) as nat, p));
                lemma_psum_prepend(p as u64, q, q.len() as int);
                assert((a + b)[i] == seq![p as u64] + q);
                assert forall|j: int| 0 <= j < (seq![p as u64] + q).len() implies 1 <= #[trigger] (seq![p as u64] + q)[j] <= p by {
                    if j > 0 {
                        assert((seq![p as u64] + q)[j] == q[j - 1]);
                    }
                }
            } else {
                assert((a + b)[i] == b[i - a.len()]);
            }
        }
    }
}

proof fn lemma_count_sum(s: Seq<u64>, v: u64, k: int)
    requires
        0 <= k <= s.len(),
    ensures
        count_eq(s, v, k) * v <= psum(s, k),
    decreases k,
{
    let vv = v as nat;
    if k == 0 {
        assert(count_eq(s, v, 0) == 0);
        assert(0 * vv == 0) by (nonlinear_arith);
    } else {
        lemma_count_sum(s, v, k - 1);
        let c = count_eq(s, v, k - 1);
        let p0 = psum(s, k - 1);
        assert(psum(s, k) == p0 + s[k - 1] as nat);
        if s[k - 1] == v {
            assert(count_eq(s, v, k) == c + 1);
            assert((c + 1) * vv <= p0 + vv) by (nonlinear_arith)
                requires
                    c * vv <= p0,
            ;
        } else {
            assert(count_eq(s, v, k) == c);
        }
    }
}

proof fn lemma_zp_fact(s: Seq<u64>, k: int)
    requires
        0 <= k <= s.len(),
        forall|i: int| 0 <= i < s.len() ==> #[trigger] s[i] >= 1,
    ensures
        zp(s, k) <= fact(psum(s, k)),
    decreases k,
{
    if k > 0 {
        lemma_zp_fact(s, k - 1);
        let l = s[k - 1];
        let c = count_eq(s, l, k);
        lemma_count_sum(s, l, k);
        assert(l * c == c * l) by (nonlinear_arith);
        lemma_count_pos(s, k);
        let big_s = psum(s, k);
        let prev = psum(s, k - 1);
        assert(big_s >= 1);
        lemma_fact_mono(prev, (big_s - 1) as nat);
        assert(fact(big_s) == big_s * fact((big_s - 1) as nat));
        let z = zp(s, k - 1);
        let f1 = fact((big_s - 1) as nat);
        assert(z * (l * c) <= big_s * f1) by (nonlinear_arith)
            requires
                z <= f1,
                l * c <= big_s,
                z >= 0,
                l * c >= 0,
        ;
    }
}

/// `2^e`.
pub open spec fn two_pow(e: nat) -> nat
    decreases e,
{
    if e == 0 {
        1
    } else {
        2 * two_pow((e - 1) as nat)
    }
}

/// Every part is odd.
pub open spec fn all_odd(q: Seq<u64>) -> bool {
    forall|j: int| 0 <= j < q.len() ==> #[trigger] q[j] % 2 == 1
}

/// Burnside term of a cycle type: `(n!/z) * 2^E` when every cycle is odd, else 0.
pub open spec fn tour_term(q: Seq<u64>, n: nat) -> nat {
    if all_odd(q) {
        (fact(n) / z_spec(q)) * two_pow(edge_orbit_count(q))
    } else {
        0
    }
}

/// Sum of the first `k` Burnside terms.
pub open spec fn tour_sum(l: Seq<Seq<u64>>, k: int, n: nat) -> nat
    decreases k,
{
    if k <= 0 {
        0
    } else {
        tour_sum(l, k - 1, n) + tour_term(l[k - 1], n)
    }
}

/// `n!` times the number of tournaments on `n` vertices up to isomorphism.
pub open spec fn tour_total(n: nat) -> nat {
    tour_sum(plist(n, n), plist(n, n).len() as int, n)
}

proof fn lemma_tour_sum_mono(l: Seq<Seq<u64>>, k: int, m: int, n: nat)
    requires
        0 <= k <= m,
    ensures
        tour_sum(l, k, n) <= tour_sum(l, m, n),
    decreases m,
{
    if k < m {
        lemma_tour_sum_mono(l, k, m - 1, n);
    }
}

pub proof fn lemma_two_pow_pos(e: nat)
    ensures
        two_pow(e) >= 1,
    decreases e,
{
    if e > 0 {
        lemma_two_pow_pos((e - 1) as nat);
    }
}

/// The factorials up to `34!`.
pub proof fn lemma_fact_values()
    ensures
        fact(33) == 8683317618811886495518194401280000000,
        fact(34) == 295232799039604140847618609643520000000,
{
    assert(fact(0) == 1);
    assert(fact(1) == 1);
    assert(fact(2) == 2);
    assert(fact(3) == 6);
    assert(fact(4) == 24);
    assert(fact(5) == 120);
    assert(fact(6) == 720);
    assert(fact(7) == 5040);
    assert(fact(8) == 40320);
    assert(fact(9) == 362880);
    assert(fact(10) == 3628800);
    assert(fact(11) == 39916800);
    assert(fact(12) == 479001600);
    assert(fact(13) == 6227020800);
    assert(fact(14) == 87178291200);
    assert(fact(15) == 1307674368000);
    assert(fact(16) == 20922789888000);
    assert(fact(17) == 355687428096000);
    assert(fact(18) == 6402373705728000);
    assert(fact(19) == 121645100408832000);
    assert(fact(20) == 2432902008176640000);
    assert(fact(21) == 51090942171709440000);
    assert(fact(22) == 1124000727777607680000);
    assert(fact(23) == 25852016738884976640000);
    assert(fact(24) == 620448401733239439360000);
    assert(fact(25) == 15511210043330985984000000);
    assert(fact(26) == 403291461126605635584000000);
    assert(fact(27) == 10888869450418352160768000000);
    assert(fact(28) == 304888344611713860501504000000);
    assert(fact(29) == 8841761993739701954543616000000);
    assert(fact(30) == 265252859812191058636308480000000);
    assert(fact(31) == 8222838654177922817725562880000000);
    assert(fact(32) == 263130836933693530167218012160000000);
    assert(fact(33) == 8683317618811886495518194401280000000);
    assert(fact(34) == 295232799039604140847618609643520000000);
}

/// Tournaments on `n` vertices up to isomorphism, by Burnside over the
/// all-odd cycle types: returns the quotient and remainder of the Burnside
/// sum by `n!` (the remainder is zero), or `None` when the sum exceeds 128 bits.
#[verifier::loop_isolation(false)]
pub fn tournament_iso_count(n: u64) -> (r: Option<(u128, u128)>)
    requires
        n <= 34,
    ensures
        match r {
            Some((q, rem)) => tour_total(n as nat) <= u128::MAX && q * fact(n as nat) + rem == tour_total(n as nat)
                && rem < fact(n as nat),
            None => tour_total(n as nat) > u128::MAX,
        },
{
    let mut parts_list: Vec<Vec<u64>> = Vec::new();
    let mut cur: Vec<u64> = Vec::new();
    partitions(n, n, &mut cur, &mut parts_list);
    proof {
        lemma_fact_values();
        lemma_fact_mono(n as nat, 34);
        lemma_plist_valid(n as nat, n as nat);
        assert(deep(parts_list@) =~= plist(n as nat, n as nat)) by {
            assert(prepend_all(Seq::<u64>::empty(), plist(n as nat, n as nat)) =~= plist(n as nat, n as nat)) by {
                assert forall|i: int| 0 <= i < plist(n as nat, n as nat).len() implies
                    prepend_all(Seq::<u64>::empty(), plist(n as nat, n as nat))[i] =~= plist(n as nat, n as nat)[i] by {}
            }
        }
        lemma_fact_pos(n as nat);
    }
    let nfac = factorial(n);
    let ghost l = plist(n as nat, n as nat);
    let mut total: u128 = 0;
    let mut i = 0usize;
    while i < parts_list.len()
        invariant
            n <= 34,
            nfac == fact(n as nat),
            nfac >= 1,
            fact(n as nat) <= u128::MAX,
            l == plist(n as nat, n as nat),
            deep(parts_list@) == l,
            forall|k: int| 0 <= k < l.len() ==> is_partition(#[trigger] l[k], n as nat, n as nat),
            i <= parts_list@.len(),
            total == tour_sum(l, i as int, n as nat),
        decreases parts_list@.len() - i,
    {
        let parts = &parts_list[i];
        proof {
            assert(parts@ == l[i as int]);
        }
        let mut odd = true;
        let mut j = 0usize;
        while j < parts.len()
            invariant
                j <= parts@.len(),
                odd == (forall|t: int| 0 <= t < j ==> #[trigger] parts@[t] % 2 == 1),
            decreases parts@.len() - j,
        {
            if parts[j] % 2 == 0 {
                odd = false;
            }
            j += 1;
        }
        if !odd {
            proof {
                assert(!all_odd(parts@));
            }
            i += 1;
            continue;
        }
        proof {
            let q = parts@;
            assert(is_partition(q, n as nat, n as nat));
            assert forall|t: int| 0 <= t < q.len() implies #[trigger] q[t] >= 1 by {
                assert(1 <= q[t]);
            }
            lemma_zp_fact(q, q.len() as int);
            lemma_fact_mono(n as nat, 34);
            lemma_len_le_sum(q, q.len() as int);
        }
        let z = z_lambda(parts);
        proof {
            assert(z >= 1) by {
                lemma_zp_mono(parts@, 0, parts@.len() as int);
            }
        }
        let coeff = nfac / z;
        let e = edge_orbits(parts);
        proof {
            assert(all_odd(parts@));
            assert(coeff >= 1) by (nonlinear_arith)
                requires
                    z <= nfac,
                    z >= 1,
                    coeff == nfac / z,
            ;
        }
        let mut t: u128 = coeff;
        let mut k: u64 = 0;
        while k < e
            invariant
                k <= e,
                t == coeff * two_pow(k as nat),
            decreases e - k,
        {
            match t.checked_mul(2) {
                Some(t2) => {
                    t = t2;
                },
                None => {
                    proof {
                        assert(t * 2 > u128::MAX);
                        assert(two_pow((k + 1) as nat) == 2 * two_pow(k as nat));
                        assert(t * 2 == coeff * two_pow((k + 1) as nat)) by (nonlinear_arith)
                            requires
                                t == coeff * two_pow(k as nat),
                                two_pow((k + 1) as nat) == 2 * two_pow(k as nat),
                        ;
                        assert(tour_sum(l, (i + 1) as int, n as nat) == tour_sum(l, i as int, n as nat) + tour_term(l[i as int], n as nat));
                        lemma_two_pow_grow(k as nat, e as nat);
                        assert(coeff * two_pow((k + 1) as nat) <= coeff * two_pow(e as nat)) by (nonlinear_arith)
                            requires
                                two_pow((k + 1) as nat) <= two_pow(e as nat),
                                coeff >= 1,
                        ;
                        assert(tour_term(parts@, n as nat) == coeff * two_pow(e as nat));
                        lemma_tour_sum_mono(l, (i + 1) as int, l.len() as int, n as nat);
                    }
                    return None;
                },
            }
            proof {
                assert(two_pow((k + 1) as nat) == 2 * two_pow(k as nat));
                assert(coeff * (2 * two_pow(k as nat)) == coeff * two_pow(k as nat) * 2) by (nonlinear_arith);
            }
            k += 1;
        }
        proof {
            assert(tour_term(parts@, n as nat) == t);
        }
        match total.checked_add(t) {
            Some(s2) => {
                total = s2;
            },
            None => {
                proof {
                    lemma_tour_sum_mono(l, (i + 1) as int, l.len() as int, n as nat);
                }
                return None;
            },
        }
        i += 1;
    }
    proof {
        assert(deep(parts_list@).len() == parts_list@.len());
        vstd::arithmetic::div_mod::lemma_fundamental_div_mod(total as int, nfac as int);
        assert((total / nfac) * nfac == nfac * (total / nfac)) by (nonlinear_arith);
    }
    Some((total / nfac, total % nfac))
}

/// The permutation of `0..n` with cycle type `q`, block by block.
pub open spec fn cycle_perm(q: Seq<u64>, n: int) -> Seq<usize> {
    Seq::new(n as nat, |x: int| cycle_image(q, 0, x) as usize)
}

/// `e` is the number of pair orbits of the permutation of cycle type `q` on
/// `0..n`, and, when `e <= thresh`, `s` counts the S2 tournaments that the
/// permutation fixes, over that list of orbits (one orientation bit each).
pub open spec fn term_ok(q: Seq<u64>, n: int, e: int, s: int, thresh: int) -> bool {
    exists|o: Seq<Seq<(usize, usize)>>|
        #[trigger] orbits_spec(cycle_perm(q, n), n, o) && o.len() == e && (e <= thresh ==> s == s2_assignments(
            cycle_perm(q, n),
            o,
            n,
            full_rows(n),
            two_pow(e as nat) as int,
        ))
}

/// The orbit counts `es` and fixed-S2 counts `ss` describe the first `k`
/// cycle types of `l`.
pub open spec fn s2_terms_ok(l: Seq<Seq<u64>>, es: Seq<int>, ss: Seq<int>, k: int, n: int, thresh: int) -> bool {
    &&& es.len() == k
    &&& ss.len() == k
    &&& forall|j: int| 0 <= j < k && all_odd(l[j]) ==> #[trigger] term_ok(l[j], n, es[j], ss[j], thresh)
}

/// The Burnside terms `(n!/z) * S` of the all-odd cycle types among the first
/// `k` of `l` that have at most `thresh` pair orbits.
pub open spec fn s2_partial(l: Seq<Seq<u64>>, es: Seq<int>, ss: Seq<int>, k: int, n: nat, thresh: int) -> int
    decreases k,
{
    if k <= 0 {
        0
    } else {
        s2_partial(l, es, ss, k - 1, n, thresh) + if all_odd(l[k - 1]) && es[k - 1] <= thresh {
            (fact(n) / z_spec(l[k - 1])) as int * ss[k - 1]
        } else {
            0
        }
    }
}

/// The all-odd cycle types among the first `k` of `l` with more than `thresh`
/// pair orbits, each with its orbit count and coefficient `n!/z`.
pub open spec fn s2_residual(l: Seq<Seq<u64>>, es: Seq<int>, k: int, n: nat, thresh: int) -> Seq<(int, int, Seq<u64>)>
    decreases k,
{
    if k <= 0 {
        Seq::empty()
    } else {
        s2_residual(l, es, k - 1, n, thresh) + if all_odd(l[k - 1]) && es[k - 1] > thresh {
            seq![(es[k - 1], (fact(n) / z_spec(l[k - 1])) as int, l[k - 1])]
        } else {
            Seq::empty()
        }
    }
}

/// The residual list as plain values.
pub open spec fn residual_view(v: Seq<(usize, u128, Vec<u64>)>) -> Seq<(int, int, Seq<u64>)> {
    Seq::new(v.len(), |i: int| (v[i].0 as int, v[i].1 as int, v[i].2@))
}

proof fn lemma_s2_push(l: Seq<Seq<u64>>, es: Seq<int>, ss: Seq<int>, a: int, b: int, k: int, n: nat, thresh: int)
    requires
        0 <= k <= es.len(),
        k <= ss.len(),
    ensures
        s2_partial(l, es.push(a), ss.push(b), k, n, thresh) == s2_partial(l, es, ss, k, n, thresh),
        s2_residual(l, es.push(a), k, n, thresh) == s2_residual(l, es, k, n, thresh),
    decreases k,
{
    if k > 0 {
        lemma_s2_push(l, es, ss, a, b, k - 1, n, thresh);
        assert(es.push(a)[k - 1] == es[k - 1]);
        assert(ss.push(b)[k - 1] == ss[k - 1]);
    }
}

/// S2 tournaments up to isomorphism by Burnside, over the all-odd cycle types
/// of `S_n` in the order of `partitions`: returns the sum of `(n!/z) * S`
/// over the types with at most `thresh` pair orbits, where `S` counts the S2
/// tournaments that the type's permutation fixes, and the other all-odd types
/// with their orbit counts and coefficients; `None` when the sum leaves 128 bits.
/// The orbit list that the count runs over is the one `edge_orbits` builds;
/// the contract names it by what it is, a list of the pair orbits.
#[verifier::loop_isolation(false)]
pub fn s2_burnside_sum(n: usize, thresh: usize) -> (r: Option<(u128, Vec<(usize, u128, Vec<u64>)>)>)
    requires
        n <= 16,
        thresh < 64,
    ensures
        match r {
            Some((total, residual)) => exists|es: Seq<int>, ss: Seq<int>|
                s2_terms_ok(plist(n as nat, n as nat), es, ss, plist(n as nat, n as nat).len() as int, n as int, thresh as int)
                    && total == s2_partial(plist(n as nat, n as nat), es, ss, plist(n as nat, n as nat).len() as int, n as nat, thresh as int)
                    && residual_view(residual@) == s2_residual(
                    plist(n as nat, n as nat),
                    es,
                    plist(n as nat, n as nat).len() as int,
                    n as nat,
                    thresh as int,
                ),
            None => exists|es: Seq<int>, ss: Seq<int>, k: int|
                0 <= k <= plist(n as nat, n as nat).len() && s2_terms_ok(plist(n as nat, n as nat), es, ss, k, n as int, thresh as int)
                    && s2_partial(plist(n as nat, n as nat), es, ss, k, n as nat, thresh as int) > u128::MAX,
        },
{
    let mut parts_list: Vec<Vec<u64>> = Vec::new();
    let mut cur: Vec<u64> = Vec::new();
    partitions(n as u64, n as u64, &mut cur, &mut parts_list);
    proof {
        lemma_fact_values();
        lemma_fact_mono(n as nat, 34);
        lemma_plist_valid(n as nat, n as nat);
        assert(deep(parts_list@) =~= plist(n as nat, n as nat)) by {
            assert(prepend_all(Seq::<u64>::empty(), plist(n as nat, n as nat)) =~= plist(n as nat, n as nat)) by {
                assert forall|i: int| 0 <= i < plist(n as nat, n as nat).len() implies
                    prepend_all(Seq::<u64>::empty(), plist(n as nat, n as nat))[i] =~= plist(n as nat, n as nat)[i] by {}
            }
        }
        lemma_fact_pos(n as nat);
    }
    let nfac = factorial(n as u64);
    let ghost l = plist(n as nat, n as nat);
    let ghost mut es: Seq<int> = Seq::empty();
    let ghost mut ss: Seq<int> = Seq::empty();
    let mut total: u128 = 0;
    let mut residual: Vec<(usize, u128, Vec<u64>)> = Vec::new();
    let mut i = 0usize;
    while i < parts_list.len()
        invariant
            n <= 16,
            thresh < 64,
            nfac == fact(n as nat),
            nfac >= 1,
            fact(n as nat) <= u128::MAX,
            l == plist(n as nat, n as nat),
            deep(parts_list@) == l,
            forall|k: int| 0 <= k < l.len() ==> is_partition(#[trigger] l[k], n as nat, n as nat),
            i <= parts_list@.len(),
            s2_terms_ok(l, es, ss, i as int, n as int, thresh as int),
            total == s2_partial(l, es, ss, i as int, n as nat, thresh as int),
            residual_view(residual@) == s2_residual(l, es, i as int, n as nat, thresh as int),
        decreases parts_list@.len() - i,
    {
        let parts = &parts_list[i];
        proof {
            assert(parts@ == l[i as int]);
        }
        let mut odd = true;
        let mut j = 0usize;
        while j < parts.len()
            invariant
                j <= parts@.len(),
                odd == (forall|t: int| 0 <= t < j ==> #[trigger] parts@[t] % 2 == 1),
            decreases parts@.len() - j,
        {
            if parts[j] % 2 == 0 {
                odd = false;
            }
            j += 1;
        }
        if !odd {
            proof {
                assert(!all_odd(parts@));
                lemma_s2_push(l, es, ss, 0, 0, i as int, n as nat, thresh as int);
                es = es.push(0);
                ss = ss.push(0);
                assert(residual_view(residual@) =~= s2_residual(l, es, i + 1, n as nat, thresh as int));
            }
            i += 1;
            continue;
        }
        proof {
            let q = parts@;
            assert(is_partition(q, n as nat, n as nat));
            assert forall|t: int| 0 <= t < q.len() implies #[trigger] q[t] >= 1 by {
                assert(1 <= q[t]);
            }
            lemma_zp_fact(q, q.len() as int);
            lemma_fact_mono(n as nat, 34);
            lemma_len_le_sum(q, q.len() as int);
        }
        let z = z_lambda(parts);
        proof {
            assert(z >= 1) by {
                lemma_zp_mono(parts@, 0, parts@.len() as int);
            }
        }
        let coeff = nfac / z;
        let perm = build_perm(parts, n);
        proof {
            assert(perm@ =~= cycle_perm(parts@, n as int));
            assert(psum(parts@, parts@.len() as int) == n);
            assert(forall|j: int| 0 <= j < parts@.len() ==> #[trigger] parts@[j] >= 1);
            assert(perm_ok(perm@, n as int));
            assert(n * n <= 256) by (nonlinear_arith)
                requires
                    n <= 16,
            ;
        }
        let orbits = crate::tournament::edge_orbits(&perm, n);
        let e = orbits.len();
        let ghost o = ov(orbits@);
        if e <= thresh {
            let s = count_s_lambda(&orbits, &perm, n);
            proof {
                assert(all_odd(parts@));
                assert(term_ok(parts@, n as int, e as int, s as int, thresh as int)) by {
                    assert(o.len() == e);
                    assert(orbits_spec(cycle_perm(parts@, n as int), n as int, o));
                }
                lemma_s2_push(l, es, ss, e as int, s as int, i as int, n as nat, thresh as int);
                es = es.push(e as int);
                ss = ss.push(s as int);
                assert(s2_partial(l, es, ss, i + 1, n as nat, thresh as int) == total + coeff * s);
                assert(residual_view(residual@) =~= s2_residual(l, es, i + 1, n as nat, thresh as int));
                assert(s2_terms_ok(l, es, ss, i + 1, n as int, thresh as int));
            }
            let t = match coeff.checked_mul(s) {
                Some(t) => t,
                None => {
                    proof {
                        assert(total + coeff * s > u128::MAX);
                    }
                    return None;
                },
            };
            match total.checked_add(t) {
                Some(t2) => {
                    total = t2;
                },
                None => {
                    proof {
                        assert(s2_partial(l, es, ss, i + 1, n as nat, thresh as int) > u128::MAX);
                    }
                    return None;
                },
            }
        } else {
            let c = copy_u64s(parts);
            residual.push((e, coeff, c));
            proof {
                lemma_s2_push(l, es, ss, e as int, 0, i as int, n as nat, thresh as int);
                es = es.push(e as int);
                ss = ss.push(0);
                assert(residual_view(residual@) =~= s2_residual(l, es, i + 1, n as nat, thresh as int));
                assert(s2_terms_ok(l, es, ss, i + 1, n as int, thresh as int)) by {
                    assert(term_ok(parts@, n as int, e as int, 0, thresh as int)) by {
                        assert(o.len() == e);
                        assert(orbits_spec(cycle_perm(parts@, n as int), n as int, o));
                    }
                }
            }
        }
        i += 1;
    }
    proof {
        assert(deep(parts_list@).len() == parts_list@.len());
        assert(s2_terms_ok(l, es, ss, l.len() as int, n as int, thresh as int));
    }
    Some((total, residual))
}

/// `lcm(1, 2, .., n)`, folded one factor at a time as `l / gcd(l, x) * x`.
pub open spec fn lcm_upto(n: nat) -> nat
    decreases n,
{
    if n == 0 {
        1
    } else {
        let l = lcm_upto((n - 1) as nat);
        l / gcd_spec(l, n) * n
    }
}

/// Each fold step keeps or raises the running lcm.
proof fn lemma_lcm_step(k: nat)
    requires
        k >= 1,
    ensures
        lcm_upto(k) >= lcm_upto((k - 1) as nat) >= 1,
    decreases k,
{
    if k > 1 {
        lemma_lcm_step((k - 1) as nat);
    }
    let l = lcm_upto((k - 1) as nat);
    assert(l >= 1);
    crate::kernel::lemma_gcd_divides(l, k);
    lemma_gcd_le(l, k);
    let g = gcd_spec(l, k);
    vstd::arithmetic::div_mod::lemma_fundamental_div_mod(l as int, g as int);
    assert(l / g * k >= l) by (nonlinear_arith)
        requires
            l == g * (l / g) + l % g,
            l % g == 0,
            1 <= g <= k,
    ;
}

proof fn lemma_lcm_mono(a: nat, b: nat)
    requires
        a <= b,
    ensures
        lcm_upto(a) <= lcm_upto(b),
    decreases b - a,
{
    if a < b {
        lemma_lcm_step(b);
        lemma_lcm_mono(a, (b - 1) as nat);
    }
}

/// `lcm(1, .., n)`, the common denominator of the weights `1/t` for `t <= n`.
pub fn lcm_to(n: u64) -> (r: u64)
    requires
        lcm_upto(n as nat) <= u64::MAX,
    ensures
        r == lcm_upto(n as nat),
{
    let mut l: u64 = 1;
    let mut x: u64 = 0;
    while x < n
        invariant
            x <= n,
            l == lcm_upto(x as nat),
            lcm_upto(n as nat) <= u64::MAX,
        decreases n - x,
    {
        let y = x + 1;
        proof {
            lemma_lcm_step(y as nat);
            lemma_lcm_mono(y as nat, n as nat);
            crate::kernel::lemma_gcd_divides(l as nat, y as nat);
            assert((y - 1) as nat == x as nat);
        }
        let g = gcd(l, y);
        let h = l / g;
        proof {
            assert(h * y == lcm_upto(y as nat));
        }
        l = h * y;
        x = y;
    }
    l
}

/// The all-odd cycle types among the first `k` of `l`, each with its pair
/// orbit count `E` and its coefficient `n!/z`.
pub open spec fn odd_terms(l: Seq<Seq<u64>>, k: int, n: nat) -> Seq<(int, int, Seq<u64>)>
    decreases k,
{
    if k <= 0 {
        Seq::empty()
    } else {
        odd_terms(l, k - 1, n) + if all_odd(l[k - 1]) {
            seq![(edge_orbit_count(l[k - 1]) as int, (fact(n) / z_spec(l[k - 1])) as int, l[k - 1])]
        } else {
            Seq::empty()
        }
    }
}

/// A list of terms as plain values.
pub open spec fn terms_view(v: Seq<(u64, u128, Vec<u64>)>) -> Seq<(int, int, Seq<u64>)> {
    Seq::new(v.len(), |i: int| (v[i].0 as int, v[i].1 as int, v[i].2@))
}

/// The all-odd cycle types of `S_n`, in the order of `partitions`, each with
/// its number of pair orbits `E` and its Burnside coefficient `n!/z`.
pub fn odd_cycle_terms(n: u64) -> (r: Vec<(u64, u128, Vec<u64>)>)
    requires
        n <= 34,
    ensures
        terms_view(r@) == odd_terms(plist(n as nat, n as nat), plist(n as nat, n as nat).len() as int, n as nat),
{
    let mut parts_list: Vec<Vec<u64>> = Vec::new();
    let mut cur: Vec<u64> = Vec::new();
    partitions(n, n, &mut cur, &mut parts_list);
    proof {
        lemma_fact_values();
        lemma_fact_mono(n as nat, 34);
        lemma_plist_valid(n as nat, n as nat);
        assert(deep(parts_list@) =~= plist(n as nat, n as nat)) by {
            assert(prepend_all(Seq::<u64>::empty(), plist(n as nat, n as nat)) =~= plist(n as nat, n as nat)) by {
                assert forall|i: int| 0 <= i < plist(n as nat, n as nat).len() implies
                    prepend_all(Seq::<u64>::empty(), plist(n as nat, n as nat))[i] =~= plist(n as nat, n as nat)[i] by {}
            }
        }
        lemma_fact_pos(n as nat);
    }
    let nfac = factorial(n);
    let ghost l = plist(n as nat, n as nat);
    let mut rows: Vec<(u64, u128, Vec<u64>)> = Vec::new();
    let mut i = 0usize;
    while i < parts_list.len()
        invariant
            n <= 34,
            nfac == fact(n as nat),
            nfac >= 1,
            fact(n as nat) <= u128::MAX,
            l == plist(n as nat, n as nat),
            deep(parts_list@) == l,
            forall|k: int| 0 <= k < l.len() ==> is_partition(#[trigger] l[k], n as nat, n as nat),
            i <= parts_list@.len(),
            terms_view(rows@) == odd_terms(l, i as int, n as nat),
        decreases parts_list@.len() - i,
    {
        let parts = &parts_list[i];
        proof {
            assert(parts@ == l[i as int]);
        }
        let mut odd = true;
        let mut j = 0usize;
        while j < parts.len()
            invariant
                j <= parts@.len(),
                odd == (forall|t: int| 0 <= t < j ==> #[trigger] parts@[t] % 2 == 1),
            decreases parts@.len() - j,
        {
            if parts[j] % 2 == 0 {
                odd = false;
            }
            j += 1;
        }
        if !odd {
            proof {
                assert(!all_odd(parts@));
                assert(terms_view(rows@) =~= odd_terms(l, i + 1, n as nat));
            }
            i += 1;
            continue;
        }
        proof {
            let q = parts@;
            assert(is_partition(q, n as nat, n as nat));
            assert forall|t: int| 0 <= t < q.len() implies #[trigger] q[t] >= 1 by {
                assert(1 <= q[t]);
            }
            lemma_zp_fact(q, q.len() as int);
            lemma_fact_mono(n as nat, 34);
            lemma_len_le_sum(q, q.len() as int);
            assert(all_odd(q));
        }
        let z = z_lambda(parts);
        proof {
            assert(z >= 1) by {
                lemma_zp_mono(parts@, 0, parts@.len() as int);
            }
        }
        let coeff = nfac / z;
        let e = edge_orbits(parts);
        let c = copy_u64s(parts);
        rows.push((e, coeff, c));
        proof {
            assert(terms_view(rows@) =~= odd_terms(l, i + 1, n as nat));
        }
        i += 1;
    }
    proof {
        assert(deep(parts_list@).len() == parts_list@.len());
    }
    rows
}

proof fn lemma_two_pow_grow(k: nat, e: nat)
    requires
        k < e,
    ensures
        two_pow(k + 1) <= two_pow(e),
    decreases e,
{
    if k + 1 < e {
        lemma_two_pow_grow(k, (e - 1) as nat);
        lemma_two_pow_pos((e - 1) as nat);
    }
}

proof fn lemma_len_le_sum(q: Seq<u64>, k: int)
    requires
        0 <= k <= q.len(),
        forall|j: int| 0 <= j < q.len() ==> 1 <= #[trigger] q[j],
    ensures
        k <= psum(q, k),
    decreases k,
{
    if k > 0 {
        lemma_len_le_sum(q, k - 1);
    }
}

} // verus!
