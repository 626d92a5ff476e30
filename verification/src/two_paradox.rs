//! Labelled two-paradox tournaments by inclusion-exclusion: the combinatorial
//! helpers (binomials, independent-set counts, caterpillars, odd-cycle suns).
use vstd::prelude::*;
use crate::bigint::Big;
use crate::burnside::{fact, lemma_fact_mono, two_pow};
use crate::within::ipow;
use crate::bits::{bit, lemma_bit_and, lemma_bit_not, lemma_bit_single, lemma_bits_ext, lemma_lowest_bit};
use crate::game::{card, first_n, lemma_card_add, lemma_card_bounds, lemma_card_subset, lemma_first_n_bits};
use vstd::std_specs::bits::u64_trailing_zeros;
use std::collections::HashMap;
use crate::bigint::mul_big;
use crate::within::{c2, c2_spec, pow2};

verus! {

/// Binomial coefficient by Pascal's rule.
pub open spec fn binom(n: int, k: int) -> int
    decreases n,
{
    if k < 0 || k > n || n < 0 {
        0
    } else if k == 0 || k == n {
        1
    } else {
        binom(n - 1, k - 1) + binom(n - 1, k)
    }
}

pub proof fn lemma_binom_nonneg(n: int, k: int)
    ensures
        binom(n, k) >= 0,
    decreases n,
{
    if !(k < 0 || k > n || n < 0) && !(k == 0 || k == n) {
        lemma_binom_nonneg(n - 1, k - 1);
        lemma_binom_nonneg(n - 1, k);
    }
}

pub proof fn lemma_binom_bound(n: int, k: int)
    requires
        n >= 0,
    ensures
        binom(n, k) <= two_pow(n as nat),
    decreases n,
{
    if !(k < 0 || k > n) && !(k == 0 || k == n) {
        lemma_binom_bound(n - 1, k - 1);
        lemma_binom_bound(n - 1, k);
        assert(two_pow(n as nat) == 2 * two_pow((n - 1) as nat));
    } else {
        crate::burnside::lemma_two_pow_pos(n as nat);
    }
}

proof fn lemma_binom_symm(n: int, k: int)
    requires
        0 <= k <= n,
    ensures
        binom(n, k) == binom(n, n - k),
    decreases n,
{
    if k == 0 || k == n {
    } else {
        lemma_binom_symm(n - 1, k - 1);
        lemma_binom_symm(n - 1, k);
    }
}

/// `k C(n,k) == n C(n-1,k-1)`.
proof fn lemma_absorb(n: int, k: int)
    requires
        1 <= k <= n,
    ensures
        k * binom(n, k) == n * binom(n - 1, k - 1),
    decreases n,
{
    if k == n {
        assert(binom(n - 1, k - 1) == 1);
    } else {
        // k < n, so C(n,k) = C(n-1,k-1) + C(n-1,k)
        lemma_absorb(n - 1, k);
        let a = binom(n - 1, k - 1);
        let b = binom(n - 1, k);
        if k == 1 {
            assert(a == 1);
            assert(binom(n - 2, 0) == 1);
            assert(k * (a + b) == n * a) by (nonlinear_arith)
                requires
                    k == 1,
                    a == 1,
                    k * b == (n - 1) * 1,
            ;
        } else {
            lemma_absorb(n - 1, k - 1);
            let c = binom(n - 2, k - 2);
            let d = binom(n - 2, k - 1);
            assert(a == c + d);
            assert(k * (a + b) == n * a) by (nonlinear_arith)
                requires
                    k * b == (n - 1) * d,
                    (k - 1) * a == (n - 1) * c,
                    a == c + d,
            ;
        }
    }
}

/// `C(n,i+1) (i+1) == C(n,i) (n-i)`.
proof fn lemma_binom_step(n: int, i: int)
    requires
        0 <= i < n,
    ensures
        binom(n, i + 1) * (i + 1) == binom(n, i) * (n - i),
{
    lemma_absorb(n, i + 1);
    // (n - i) C(n, i) = (n - i) C(n, n - i) = n C(n-1, n-i-1) = n C(n-1, i)
    lemma_binom_symm(n, i);
    lemma_absorb(n, n - i);
    lemma_binom_symm(n - 1, i);
    assert(binom(n, i + 1) * (i + 1) == (i + 1) * binom(n, i + 1)) by (nonlinear_arith);
    assert(binom(n, i) * (n - i) == (n - i) * binom(n, n - i)) by (nonlinear_arith)
        requires
            binom(n, i) == binom(n, n - i),
    ;
}

/// Binomial coefficient `C(n, k)` (zero outside `0 <= k <= n`).
pub fn comb(n: i128, k: i128) -> (r: i128)
    requires
        n <= 62,
    ensures
        r == binom(n as int, k as int),
{
    if k < 0 || k > n {
        return 0;
    }
    proof {
        lemma_binom_symm(n as int, k as int);
    }
    let k = if k < n - k { k } else { n - k };
    let mut r: i128 = 1;
    let mut i: i128 = 0;
    while i < k
        invariant
            0 <= i <= k,
            2 * k <= n <= 62,
            r == binom(n as int, i as int),
        decreases k - i,
    {
        proof {
            lemma_binom_step(n as int, i as int);
            lemma_binom_bound(n as int, (i + 1) as int);
            lemma_binom_nonneg(n as int, (i + 1) as int);
            crate::within::lemma_two_pow_mono_pub(n as nat, 62);
            assert(binom(n as int, (i + 1) as int) * (i + 1) <= two_pow(62) * 62) by (nonlinear_arith)
                requires
                    binom(n as int, (i + 1) as int) <= two_pow(62),
                    0 <= binom(n as int, (i + 1) as int),
                    i + 1 <= 62,
            ;
            crate::within::lemma_two_pow_62();
        }
        let num = r * (n - i);
        proof {
            vstd::arithmetic::div_mod::lemma_div_by_multiple(binom(n as int, (i + 1) as int), (i + 1) as int);
        }
        r = num / (i + 1);
        i += 1;
    }
    r
}

proof fn lemma_fact_33()
    ensures
        fact(33) <= 0x7fff_ffff_ffff_ffff_ffff_ffff_ffff_ffff,
{
    crate::burnside::lemma_fact_values();
}

/// `k!` for `k <= 33` (one for `k <= 1`).
pub fn factorial(k: i128) -> (r: i128)
    requires
        k <= 33,
    ensures
        r == if k <= 0 { 1 } else { fact(k as nat) as int },
{
    let mut r: i128 = 1;
    let mut i: i128 = 2;
    proof {
        lemma_fact_33();
        assert(fact(0) == 1);
        assert(fact(1) == 1 * fact(0));
    }
    while i <= k
        invariant
            2 <= i <= k + 1 || (k < 2 && i == 2),
            k <= 33,
            fact(33) <= 0x7fff_ffff_ffff_ffff_ffff_ffff_ffff_ffff,
            r == fact((i - 1) as nat),
        decreases k + 1 - i,
    {
        proof {
            lemma_fact_mono(i as nat, 33);
            assert(fact(i as nat) == i * fact((i - 1) as nat));
            assert(r * i == i * r) by (nonlinear_arith);
        }
        r = r * i;
        i += 1;
    }
    r
}

/// `base^t` as a big integer.
pub fn ipow_big(base: i128, t: usize) -> (r: Big)
    ensures
        r.wf(),
        r@ == ipow(base as int, t as nat),
{
    let mut r = Big::from_i128(1);
    let mut i = 0usize;
    while i < t
        invariant
            i <= t,
            r.wf(),
            r@ == ipow(base as int, i as nat),
        decreases t - i,
    {
        r = r.mul_i128(base);
        proof {
            assert(ipow(base as int, (i + 1) as nat) == base * ipow(base as int, i as nat));
            assert(ipow(base as int, i as nat) * base == base * ipow(base as int, i as nat)) by (nonlinear_arith);
        }
        i += 1;
    }
    r
}

/// Number of independent sets (the empty set included) of the graph with
/// neighbour masks `adjm`, restricted to the vertex set `avail`: branch on the
/// lowest available vertex, leaving it out or taking it and dropping its neighbours.
pub open spec fn indep_spec(avail: u64, adjm: Seq<u64>) -> nat
    decreases avail,
{
    if avail == 0 {
        1
    } else {
        let x = u64_trailing_zeros(avail);
        let without = avail & !(1u64 << (x as u64));
        let nb = if (x as int) < adjm.len() { adjm[x as int] } else { 0u64 };
        proof {
            lemma_lowest_bit(avail);
        }
        indep_spec(without, adjm) + indep_spec(without & !nb, adjm)
    }
}

proof fn lemma_indep_bound(avail: u64, adjm: Seq<u64>)
    ensures
        1 <= indep_spec(avail, adjm) <= two_pow(card(avail, 64) as nat),
    decreases avail,
{
    if avail == 0 {
        crate::burnside::lemma_two_pow_pos(card(avail, 64) as nat);
    } else {
        lemma_lowest_bit(avail);
        let x = u64_trailing_zeros(avail) as int;
        let without = avail & !(1u64 << (x as u64));
        let nb = if x < adjm.len() { adjm[x] } else { 0u64 };
        let w2 = without & !nb;
        lemma_indep_bound(without, adjm);
        lemma_indep_bound(w2, adjm);
        assert forall|j: int| 0 <= j < 64 implies #[trigger] bit(avail, j) == (bit(without, j) || j == x) by {
            lemma_bit_and(avail, !(1u64 << (x as u64)), j as u64);
            lemma_bit_not(1u64 << (x as u64), j as u64);
            lemma_bit_single(x as u64, j as u64);
        }
        assert(!bit(without, x)) by {
            lemma_bit_and(avail, !(1u64 << (x as u64)), x as u64);
            lemma_bit_not(1u64 << (x as u64), x as u64);
            lemma_bit_single(x as u64, x as u64);
        }
        lemma_card_add(without, avail, x, 64);
        assert forall|j: int| 0 <= j < 64 && #[trigger] bit(w2, j) implies bit(without, j) by {
            lemma_bit_and(without, !nb, j as u64);
        }
        lemma_card_subset(w2, without, 64);
        lemma_card_bounds(w2, 64);
        lemma_card_bounds(without, 64);
        crate::within::lemma_two_pow_mono_pub(card(w2, 64) as nat, card(without, 64) as nat);
        lemma_card_bounds(without, 64);
        assert(two_pow(card(avail, 64) as nat) == 2 * two_pow(card(without, 64) as nat));
    }
}

proof fn lemma_sub_within(s: u64, t: u64, n: int)
    requires
        forall|j: int| 0 <= j < 64 && #[trigger] bit(s, j) ==> bit(t, j),
        forall|j: int| 0 <= j < 64 && #[trigger] bit(t, j) ==> j < n,
    ensures
        forall|j: int| 0 <= j < 64 && #[trigger] bit(s, j) ==> j < n,
{
}

/// Memoised independent-set count of `avail` (see `indep_spec`).
pub fn indep_rec(avail: u64, adjm: &[u64], memo: &mut HashMap<u64, i128>) -> (r: i128)
    requires
        forall|j: int| 0 <= j < 64 && #[trigger] bit(avail, j) ==> j < adjm@.len(),
        forall|k: u64| #[trigger] old(memo)@.contains_key(k) ==> old(memo)@[k] == indep_spec(k, adjm@),
    ensures
        r == indep_spec(avail, adjm@),
        forall|k: u64| #[trigger] final(memo)@.contains_key(k) ==> final(memo)@[k] == indep_spec(k, adjm@),
    decreases avail,
{
    broadcast use vstd::std_specs::hash::group_hash_axioms;
    if avail == 0 {
        return 1;
    }
    match memo.get(&avail) {
        Some(x) => {
            return *x;
        },
        None => {},
    }
    proof {
        lemma_lowest_bit(avail);
        lemma_indep_bound(avail, adjm@);
    }
    let x = avail.trailing_zeros() as usize;
    let without = avail & !(1u64 << (x as u64));
    proof {
        assert forall|j: int| 0 <= j < 64 && #[trigger] bit(without, j) implies bit(avail, j) by {
            lemma_bit_and(avail, !(1u64 << (x as u64)), j as u64);
        }
        assert(x < adjm@.len());
    }
    let w2 = without & !adjm[x];
    proof {
        assert forall|j: int| 0 <= j < 64 && #[trigger] bit(w2, j) implies bit(without, j) by {
            lemma_bit_and(without, !adjm@[x as int], j as u64);
        }
        lemma_indep_bound(without, adjm@);
        lemma_indep_bound(w2, adjm@);
        lemma_card_bounds(without, 64);
        lemma_card_bounds(w2, 64);
        lemma_card_bounds(avail, 64);
        crate::within::lemma_two_pow_mono_pub(card(avail, 64) as nat, 64);
        crate::within::lemma_two_pow_mono_pub(card(without, 64) as nat, 64);
        crate::within::lemma_two_pow_mono_pub(card(w2, 64) as nat, 64);
        lemma_two_pow_64();
    }
    let a = indep_rec(without, adjm, memo);
    let b = indep_rec(w2, adjm, memo);
    let r = a + b;
    memo.insert(avail, r);
    r
}

proof fn lemma_two_pow_64()
    ensures
        two_pow(64) == 0x1_0000_0000_0000_0000,
{
    crate::within::lemma_two_pow_62();
    assert(two_pow(64) == 2 * two_pow(63));
    assert(two_pow(63) == 2 * two_pow(62));
}

/// Number of independent sets of the graph on vertices `0..nv` with neighbour masks `adjm`.
pub fn indep_count(nv: usize, adjm: &[u64]) -> (r: i128)
    requires
        nv <= 64,
        adjm@.len() >= nv,
    ensures
        r == indep_spec(first_n(nv as int), adjm@),
{
    let mut memo: HashMap<u64, i128> = HashMap::new();
    let full = crate::game::full_mask(nv);
    proof {
        lemma_first_n_bits(nv as int);
    }
    indep_rec(full, adjm, &mut memo)
}

/// A coefficient table `(I, c)` as integers.
pub open spec fn tview(c: Seq<(i128, Big)>) -> Seq<(int, int)> {
    Seq::new(c.len(), |k: int| (c[k].0 as int, c[k].1@))
}

/// Every coefficient of the table is a well-formed big integer.
pub open spec fn table_ok(c: Seq<(i128, Big)>) -> bool {
    forall|k: int| 0 <= k < c.len() ==> (#[trigger] c[k]).1.wf()
}

/// `sum_{k < m} c_k I_k^t`.
pub open spec fn poly_spec(tv: Seq<(int, int)>, t: nat, m: int) -> int
    decreases m,
{
    if m <= 0 {
        0
    } else {
        poly_spec(tv, t, m - 1) + tv[m - 1].1 * ipow(tv[m - 1].0, t)
    }
}

/// `sum_I c_I I^t` over a coefficient table of distinct `I`.
pub fn poly_eval(coeff: &Vec<(i128, Big)>, t: usize) -> (r: Big)
    requires
        table_ok(coeff@),
    ensures
        r.wf(),
        r@ == poly_spec(tview(coeff@), t as nat, coeff@.len() as int),
{
    let mut s = Big::zero();
    let mut k = 0usize;
    while k < coeff.len()
        invariant
            table_ok(coeff@),
            k <= coeff@.len(),
            s.wf(),
            s@ == poly_spec(tview(coeff@), t as nat, k as int),
        decreases coeff@.len() - k,
    {
        let p = ipow_big(coeff[k].0, t);
        proof {
            assert(coeff@[k as int].1.wf());
        }
        let term = mul_big(&coeff[k].1, &p);
        s = s.add(&term);
        k += 1;
    }
    s
}

/// The forest recurrence `D(v, j)`: 1 for `v = 0`, else
/// `sum_{k=1..v} C(v-1, k-1) w_k 2^j D(v-k, j+1)`.
pub open spec fn d_spec(w: Seq<int>, vv: int, j: int) -> int
    decreases vv, vv + 1,
{
    if vv <= 0 {
        1
    } else {
        d_terms(w, vv, j, vv)
    }
}

/// The terms `k = 1..=kk` of `D(vv, j)`.
pub open spec fn d_terms(w: Seq<int>, vv: int, j: int, kk: int) -> int
    decreases vv, kk,
{
    if kk <= 0 || vv <= 0 {
        0
    } else {
        d_terms(w, vv, j, kk - 1) + if kk <= vv {
            w[kk] * d_spec(w, vv - kk, j + 1) * binom(vv - 1, kk - 1) * two_pow(j as nat)
        } else {
            0
        }
    }
}

/// The per-size weights as integers.
pub open spec fn wview(w: Seq<Big>) -> Seq<int> {
    Seq::new(w.len(), |k: int| w[k]@)
}

/// Each memo entry `vv * 1024 + j` holds `D(vv, j)`.
pub open spec fn dmemo_ok(memo: Map<u64, Big>, w: Seq<int>) -> bool {
    forall|key: u64|
        #[trigger] memo.contains_key(key) ==> memo[key].wf() && memo[key]@ == d_spec(w, (key / 1024) as int, (key % 1024) as int)
}

/// `2^j` as an `i128`, `j <= 126`.
pub fn two_to(j: usize) -> (r: i128)
    requires
        j <= 126,
    ensures
        r == two_pow(j as nat),
{
    let mut r: i128 = 1;
    let mut i = 0usize;
    while i < j
        invariant
            i <= j <= 126,
            r == two_pow(i as nat),
        decreases j - i,
    {
        proof {
            crate::within::lemma_two_pow_mono_pub((i + 1) as nat, 126);
            lemma_two_pow_126();
        }
        r = r * 2;
        i += 1;
    }
    r
}

proof fn lemma_two_pow_126()
    ensures
        two_pow(126) < 0x7fff_ffff_ffff_ffff_ffff_ffff_ffff_ffff,
{
    crate::within::lemma_two_pow_62();
    crate::within::lemma_two_pow_add(62, 62);
    assert(two_pow(124) == 0x4000_0000_0000_0000 * 0x4000_0000_0000_0000);
    assert(two_pow(125) == 2 * two_pow(124));
    assert(two_pow(126) == 2 * two_pow(125));
}

/// Memoised forest recurrence `D(vv, j)` (see `d_spec`).
pub fn d_rec(vv: usize, j: usize, wcache: &Vec<Big>, memo: &mut HashMap<u64, Big>) -> (r: Big)
    requires
        vv + j <= 62,
        wcache@.len() > vv,
        forall|k: int| 0 <= k < wcache@.len() ==> (#[trigger] wcache@[k]).wf(),
        dmemo_ok(old(memo)@, wview(wcache@)),
    ensures
        r.wf(),
        r@ == d_spec(wview(wcache@), vv as int, j as int),
        dmemo_ok(final(memo)@, wview(wcache@)),
    decreases vv,
{
    broadcast use vstd::std_specs::hash::group_hash_axioms;
    if vv == 0 {
        return Big::from_i128(1);
    }
    let key = (vv as u64) * 1024 + (j as u64);
    proof {
        assert(key / 1024 == vv && key % 1024 == j);
    }
    match memo.get(&key) {
        Some(x) => {
            return x.duplicate();
        },
        None => {},
    }
    let ghost w = wview(wcache@);
    let mut s = Big::zero();
    let mut k = 1usize;
    while k <= vv
        invariant
            1 <= vv,
            vv + j <= 62,
            wcache@.len() > vv,
            forall|q: int| 0 <= q < wcache@.len() ==> (#[trigger] wcache@[q]).wf(),
            w == wview(wcache@),
            dmemo_ok(memo@, w),
            1 <= k <= vv + 1,
            s.wf(),
            s@ == d_terms(w, vv as int, j as int, (k - 1) as int),
        decreases vv + 1 - k,
    {
        if wcache[k].is_zero() {
            proof {
                assert(w[k as int] == 0);
                let x = d_spec(w, vv - k, j + 1) * binom(vv - 1, k - 1) * two_pow(j as nat);
                assert(0 * d_spec(w, vv - k, j + 1) * binom(vv - 1, k - 1) * two_pow(j as nat) == 0) by (nonlinear_arith);
            }
        } else {
            let sub = d_rec(vv - k, j + 1, wcache, memo);
            let mut term = mul_big(&wcache[k], &sub);
            let c = comb((vv - 1) as i128, (k - 1) as i128);
            term = term.mul_i128(c);
            let p = two_to(j);
            term = term.mul_i128(p);
            proof {
                assert(term@ == w[k as int] * d_spec(w, vv - k, j + 1) * binom(vv - 1, k - 1) * two_pow(j as nat));
            }
            s = s.add(&term);
        }
        k += 1;
    }
    let saved = s.duplicate();
    memo.insert(key, saved);
    s
}

/// `sum_{k} C(n, k) ... `: the tree part `A_tree(v, t) = D(v, 0)` with the
/// weights `w_k = sum_I c_{k,I} I^t` of the caterpillar table.
pub open spec fn tree_weights(cat: Seq<Vec<(i128, Big)>>, v: int, t: nat) -> Seq<int> {
    Seq::new((v + 1) as nat, |k: int| if k == 0 { 0 } else { poly_spec(tview(cat[k]@), t, cat[k]@.len() as int) })
}

/// Every table of the list is well formed.
pub open spec fn tables_ok(c: Seq<Vec<(i128, Big)>>) -> bool {
    forall|k: int| 0 <= k < c.len() ==> table_ok(#[trigger] c[k]@)
}

/// The caterpillar-forest part of `A_v(t)`: `D(v, 0)` with per-size weights
/// read off the caterpillar coefficient table at `t`.
pub fn a_tree(v: usize, t: usize, cat_coeff: &Vec<Vec<(i128, Big)>>) -> (r: Big)
    requires
        v <= 62,
        cat_coeff@.len() > v,
        tables_ok(cat_coeff@),
    ensures
        r.wf(),
        r@ == d_spec(tree_weights(cat_coeff@, v as int, t as nat), v as int, 0),
{
    let mut wcache: Vec<Big> = Vec::new();
    wcache.push(Big::zero());
    let mut k = 1usize;
    while k <= v
        invariant
            v <= 62,
            cat_coeff@.len() > v,
            tables_ok(cat_coeff@),
            1 <= k <= v + 1,
            wcache@.len() == k,
            forall|q: int| 0 <= q < k ==> (#[trigger] wcache@[q]).wf(),
            forall|q: int| 0 <= q < k ==> (#[trigger] wcache@[q])@ == tree_weights(cat_coeff@, v as int, t as nat)[q],
        decreases v + 1 - k,
    {
        proof {
            assert(table_ok(cat_coeff@[k as int]@));
        }
        let x = poly_eval(&cat_coeff[k], t);
        wcache.push(x);
        k += 1;
    }
    let mut memo: HashMap<u64, Big> = HashMap::new();
    proof {
        assert(wview(wcache@) =~= tree_weights(cat_coeff@, v as int, t as nat));
        broadcast use vstd::std_specs::hash::group_hash_axioms;
        assert(memo@ == Map::<u64, Big>::empty());
    }
    d_rec(v, 0, &wcache, &mut memo)
}

/// `L(n) = 2^C(n,2) + sum_{v=2..n} C(n,v) 2^C(n-v,2) (A_tree(v, n-v) + sum_I o_{v,I} I^(n-v))`.
pub open spec fn l_spec(cat: Seq<Vec<(i128, Big)>>, oc: Seq<Vec<(i128, Big)>>, n: int, v: int) -> int
    decreases v,
{
    if v < 2 {
        two_pow(c2_spec(n) as nat) as int
    } else {
        l_spec(cat, oc, n, v - 1) + (d_spec(tree_weights(cat, v, (n - v) as nat), v, 0) + poly_spec(
            tview(oc[v]@),
            (n - v) as nat,
            oc[v]@.len() as int,
        )) * binom(n, v) * two_pow(c2_spec(n - v) as nat)
    }
}

/// `L(n)`: the labelled tournaments on `n` vertices with no dominating pair,
/// from the caterpillar and odd-cycle-sun coefficient tables.
pub fn l_count(n: usize, cat_coeff: &Vec<Vec<(i128, Big)>>, oc_coeff: &Vec<Vec<(i128, Big)>>) -> (r: Big)
    requires
        n <= 62,
        cat_coeff@.len() > n,
        oc_coeff@.len() > n,
        tables_ok(cat_coeff@),
        tables_ok(oc_coeff@),
    ensures
        r.wf(),
        r@ == l_spec(cat_coeff@, oc_coeff@, n as int, n as int),
{
    let mut total = pow2(c2(n as i128));
    let mut v = 2usize;
    while v <= n
        invariant
            n <= 62,
            cat_coeff@.len() > n,
            oc_coeff@.len() > n,
            tables_ok(cat_coeff@),
            tables_ok(oc_coeff@),
            2 <= v <= n + 1 || (n < 2 && v == 2),
            total.wf(),
            total@ == l_spec(cat_coeff@, oc_coeff@, n as int, (v - 1) as int),
        decreases n + 1 - v,
    {
        let t = n - v;
        let at = a_tree(v, t, cat_coeff);
        proof {
            assert(table_ok(oc_coeff@[v as int]@));
        }
        let pe = poly_eval(&oc_coeff[v], t);
        let av = at.add(&pe);
        let mut term = av.mul_i128(comb(n as i128, v as i128));
        let p = pow2(c2(t as i128));
        term = mul_big(&term, &p);
        total = total.add(&term);
        v += 1;
    }
    total
}

} // verus!
