//! The coefficient tables of the caterpillar-forest and odd-cycle-sun
//! expansion of `L(n)`: for each size, the signed labelled weights of the
//! shapes grouped by their number of independent sets `I`, so that a size's
//! weight at `t` is `sum_I c_I I^t`.
use vstd::prelude::*;
use crate::bigint::Big;
use crate::bits::{bit, lemma_bits_ext};
use crate::burnside::{fact, lemma_fact_pos, lemma_fact_mono, two_pow};
use crate::game::first_n;
use crate::shapes::{
    clist, cfrom, front, nested, compositions, dihedral_canon, dihedral_min, turned, lex_lt, lemma_lex_total,
    usum, fact_prod, fixed_count, lemma_fact_prod_mono, sun_edges, joined, build_sun, aut_oc, seqs_upto,
    gen_seqs, cat_edges, nbr_lists, build_caterpillar, adj_bitmask, lemma_cat_adj,
};
use crate::tree_canon::{tree_canon_aut, tree_canon_spec, lemma_tree_canon_pos, adj_ok, bytes_eq};
use crate::within::{within, within_spec, spine_ok};
use crate::two_paradox::{factorial, indep_count, indep_spec, poly_spec, tview, table_ok, tables_ok};
use crate::within::{ipow, pow2};

verus! {

/// The keys of a coefficient table are pairwise distinct.
pub open spec fn keys_distinct(c: Seq<(i128, Big)>) -> bool {
    forall|i: int, j: int| 0 <= i < j < c.len() ==> #[trigger] c[i].0 != #[trigger] c[j].0
}

proof fn lemma_poly_prefix(a: Seq<(int, int)>, b: Seq<(int, int)>, t: nat, m: int)
    requires
        0 <= m <= a.len(),
        m <= b.len(),
        forall|i: int| 0 <= i < m ==> #[trigger] a[i] == b[i],
    ensures
        poly_spec(a, t, m) == poly_spec(b, t, m),
    decreases m,
{
    if m > 0 {
        lemma_poly_prefix(a, b, t, m - 1);
    }
}

proof fn lemma_poly_update(a: Seq<(int, int)>, p: int, w: int, t: nat, m: int)
    requires
        0 <= p < m <= a.len(),
    ensures
        poly_spec(a.update(p, (a[p].0, a[p].1 + w)), t, m) == poly_spec(a, t, m) + w * ipow(a[p].0, t),
    decreases m,
{
    let b = a.update(p, (a[p].0, a[p].1 + w));
    if m - 1 == p {
        lemma_poly_prefix(a, b, t, m - 1);
        assert((a[p].1 + w) * ipow(a[p].0, t) == a[p].1 * ipow(a[p].0, t) + w * ipow(a[p].0, t)) by (nonlinear_arith);
    } else {
        lemma_poly_update(a, p, w, t, m - 1);
    }
}

/// Adds `w I^t` to the table's polynomial, merging into the entry with key
/// `key` when there is one.
fn add_term(row: &mut Vec<(i128, Big)>, key: i128, w: Big)
    requires
        table_ok(old(row)@),
        keys_distinct(old(row)@),
        w.wf(),
    ensures
        table_ok(final(row)@),
        keys_distinct(final(row)@),
        forall|t: nat|
            poly_spec(tview(final(row)@), t, final(row)@.len() as int) == poly_spec(tview(old(row)@), t, old(row)@.len() as int) + w@ * ipow(
                key as int,
                t,
            ),
{
    let ghost r0 = row@;
    let mut p = 0usize;
    while p < row.len()
        invariant
            row@ == r0,
            r0 == old(row)@,
            table_ok(r0),
            keys_distinct(r0),
            w.wf(),
            p <= row@.len(),
            forall|q: int| 0 <= q < p ==> #[trigger] row@[q].0 != key,
        decreases row@.len() - p,
    {
        if row[p].0 == key {
            let nc = row[p].1.add(&w);
            row.set(p, (key, nc));
            proof {
                assert(tview(row@) =~= tview(r0).update(p as int, (tview(r0)[p as int].0, tview(r0)[p as int].1 + w@)));
                assert forall|t: nat|
                    poly_spec(tview(row@), t, row@.len() as int) == poly_spec(tview(r0), t, r0.len() as int) + w@ * ipow(key as int, t) by {
                    lemma_poly_update(tview(r0), p as int, w@, t, r0.len() as int);
                    assert(tview(r0)[p as int].0 == key as int);
                }
                assert forall|i: int, j: int| 0 <= i < j < row@.len() implies #[trigger] row@[i].0 != #[trigger] row@[j].0 by {
                    assert(row@[i].0 == r0[i].0 && row@[j].0 == r0[j].0);
                }
            }
            return;
        }
        p += 1;
    }
    row.push((key, w));
    proof {
        assert forall|t: nat|
            poly_spec(tview(row@), t, row@.len() as int) == poly_spec(tview(r0), t, r0.len() as int) + w@ * ipow(key as int, t) by {
            lemma_poly_prefix(tview(row@), tview(r0), t, r0.len() as int);
        }
    }
}

/// The dihedral canonical form of a cyclic sequence (its least reading).
pub open spec fn dcanon(s: Seq<usize>) -> Seq<usize> {
    choose|b: Seq<usize>| dihedral_min(s, b)
}

proof fn lemma_dcanon(s: Seq<usize>, b: Seq<usize>)
    requires
        dihedral_min(s, b),
    ensures
        dcanon(s) == b,
{
    let c = dcanon(s);
    assert(dihedral_min(s, c));
    let (rb, kb) = choose|rot: bool, r: int| 0 <= r < s.len() && b == #[trigger] turned(s, rot, r);
    let (rc, kc) = choose|rot: bool, r: int| 0 <= r < s.len() && c == #[trigger] turned(s, rot, r);
    assert(!lex_lt(turned(s, rb, kb), c));
    assert(!lex_lt(turned(s, rc, kc), b));
    lemma_lex_total(b, c);
}

/// Composition `idx` of the list is the first of its dihedral class.
pub open spec fn first_of_class(cs: Seq<Seq<usize>>, idx: int) -> bool {
    forall|j: int| 0 <= j < idx ==> dcanon(#[trigger] cs[j]) != dcanon(cs[idx])
}

/// Bit `b` of `x` says whether vertex `a` of the sun is joined to vertex `b`.
pub open spec fn sun_row_bits(x: u64, g: int, leaves: Seq<usize>, a: int) -> bool {
    forall|b: int| 0 <= b < 64 ==> #[trigger] bit(x, b) == joined(sun_edges(g, leaves), sun_edges(g, leaves).len() as int, a, b)
}

/// The adjacency row of vertex `a` of the sun with cycle length `g` and leaf counts `leaves`.
pub open spec fn sun_row(g: int, leaves: Seq<usize>, a: int) -> u64 {
    choose|x: u64| #[trigger] sun_row_bits(x, g, leaves, a)
}

/// The adjacency rows of the sun.
pub open spec fn sun_adj(g: int, leaves: Seq<usize>) -> Seq<u64> {
    Seq::new((g + usum(leaves, g)) as nat, |a: int| sun_row(g, leaves, a))
}

/// The number of independent sets of the sun (the empty set included).
pub open spec fn sun_indep(g: int, leaves: Seq<usize>) -> int {
    indep_spec(first_n(g + usum(leaves, g)), sun_adj(g, leaves)) as int
}

/// `sum_{i < k} C(leaves[i], 2)`.
pub open spec fn pair_part(leaves: Seq<usize>, k: int) -> int
    decreases k,
{
    if k <= 0 {
        0
    } else {
        pair_part(leaves, k - 1) + leaves[k - 1] * (leaves[k - 1] - 1) / 2
    }
}

/// The automorphism count of the sun: dihedral stabiliser times the leaf permutations.
pub open spec fn sun_aut(g: int, leaves: Seq<usize>) -> int {
    (fixed_count(leaves, true, g) + fixed_count(leaves, false, g)) * fact_prod(leaves, g)
}

/// `(-1)^v`.
pub open spec fn alt_sign(v: int) -> int {
    if v % 2 == 0 {
        1
    } else {
        -1
    }
}

/// The signed labelled weight of a sun on `v` vertices: `(-1)^v (v!/|Aut|)
/// Within`, with `Within = 2^(1 + sum C(l_i, 2))`.
pub open spec fn sun_weight(v: int, g: int, leaves: Seq<usize>) -> int {
    two_pow((1 + pair_part(leaves, g)) as nat) * (alt_sign(v) * (fact(v as nat) as int / sun_aut(g, leaves)))
}

/// `(I, weight)` of the first-of-class compositions among the first `m` of `cs`.
pub open spec fn class_terms(v: int, g: int, cs: Seq<Seq<usize>>, m: int) -> Seq<(int, int)>
    decreases m,
{
    if m <= 0 {
        Seq::empty()
    } else {
        class_terms(v, g, cs, m - 1) + if first_of_class(cs, m - 1) {
            seq![(sun_indep(g, cs[m - 1]), sun_weight(v, g, cs[m - 1]))]
        } else {
            Seq::empty()
        }
    }
}

/// The sun terms on `v` vertices for the cycle lengths `g = 3, 5, ..., 2h + 1`.
pub open spec fn oc_terms(v: int, h: int) -> Seq<(int, int)>
    decreases h,
{
    if h <= 0 {
        Seq::empty()
    } else {
        let g = 2 * h + 1;
        let cs = clist(g as nat, (v - g) as nat);
        oc_terms(v, h - 1) + class_terms(v, g, cs, cs.len() as int)
    }
}

/// All the sun terms on `v` vertices (odd cycle lengths up to `v`).
pub open spec fn oc_all(v: int) -> Seq<(int, int)> {
    if v < 3 {
        Seq::empty()
    } else {
        oc_terms(v, (v - 1) / 2)
    }
}

proof fn lemma_usum_cons(x: usize, q: Seq<usize>, k: int)
    requires
        0 <= k <= q.len(),
    ensures
        usum(seq![x] + q, k + 1) == x + usum(q, k),
    decreases k,
{
    let s = seq![x] + q;
    if k > 0 {
        lemma_usum_cons(x, q, k - 1);
        assert(s[k] == q[k - 1]);
        assert(usum(s, k + 1) == usum(s, k) + s[k]);
        assert(usum(q, k) == usum(q, k - 1) + q[k - 1]);
    } else {
        assert(s[0] == x);
        assert(usum(s, 1) == usum(s, 0) + s[0]);
    }
}

/// Each composition in `clist(p, t)` has `p` parts, each at most `t`, summing to `t`.
pub open spec fn comp_shape(c: Seq<usize>, p: int, t: int) -> bool {
    &&& c.len() == p
    &&& usum(c, p) == t
    &&& forall|i: int| 0 <= i < p ==> #[trigger] c[i] <= t
}

proof fn lemma_clist_shape(p: nat, t: nat)
    requires
        t <= 1000,
    ensures
        forall|i: int| 0 <= i < clist(p, t).len() ==> comp_shape(#[trigger] clist(p, t)[i], p as int, t as int),
    decreases p, t + 2,
{
    if p == 0 {
        if t == 0 {
            assert(clist(p, t) == seq![Seq::<usize>::empty()]);
            assert(comp_shape(Seq::<usize>::empty(), 0, 0));
        }
    } else {
        lemma_cfrom_shape(p, t, 0);
        assert(clist(p, t) == cfrom(p, t, 0));
    }
}

proof fn lemma_cfrom_shape(p: nat, t: nat, f: nat)
    requires
        p > 0,
        t <= 1000,
    ensures
        forall|i: int| 0 <= i < cfrom(p, t, f).len() ==> comp_shape(#[trigger] cfrom(p, t, f)[i], p as int, t as int),
    decreases p, t + 1 - f,
{
    if f <= t {
        let rest = clist((p - 1) as nat, (t - f) as nat);
        lemma_clist_shape((p - 1) as nat, (t - f) as nat);
        lemma_cfrom_shape(p, t, f + 1);
        let a = front(f as usize, rest);
        let b = cfrom(p, t, f + 1);
        assert(cfrom(p, t, f) == a + b);
        assert forall|i: int| 0 <= i < cfrom(p, t, f).len() implies comp_shape(#[trigger] cfrom(p, t, f)[i], p as int, t as int) by {
            if i < a.len() {
                let q = rest[i];
                assert(comp_shape(q, p - 1, t - f));
                assert(cfrom(p, t, f)[i] == seq![f as usize] + q);
                lemma_usum_cons(f as usize, q, p - 1);
                assert forall|j: int| 0 <= j < p implies #[trigger] (seq![f as usize] + q)[j] <= t by {
                    if j > 0 {
                        assert((seq![f as usize] + q)[j] == q[j - 1]);
                    }
                }
            } else {
                assert(cfrom(p, t, f)[i] == b[i - a.len()]);
            }
        }
    }
}

proof fn lemma_fact_mul(a: nat, b: nat)
    ensures
        fact(a) * fact(b) <= fact(a + b),
    decreases b,
{
    if b == 0 {
        assert(fact(0) == 1);
        assert(fact(a) * 1 == fact(a));
    } else {
        lemma_fact_mul(a, (b - 1) as nat);
        lemma_fact_pos(a);
        lemma_fact_pos((b - 1) as nat);
        lemma_fact_pos((a + b - 1) as nat);
        let x = fact(a);
        let y = fact((b - 1) as nat);
        let z = fact((a + b - 1) as nat);
        assert(fact(b) == b * y);
        assert(fact(a + b) == (a + b) * z);
        assert(x * (b * y) <= (a + b) * z) by (nonlinear_arith)
            requires
                x * y <= z,
                x >= 1,
                y >= 1,
                b >= 1,
        ;
    }
}

proof fn lemma_fact_prod_le(s: Seq<usize>, k: int)
    requires
        0 <= k <= s.len(),
    ensures
        fact_prod(s, k) <= fact(usum(s, k) as nat),
        usum(s, k) >= 0,
    decreases k,
{
    if k > 0 {
        lemma_fact_prod_le(s, k - 1);
        lemma_fact_mul(usum(s, k - 1) as nat, s[k - 1] as nat);
        lemma_fact_prod_mono(s, k - 1, k - 1);
        lemma_fact_pos(s[k - 1] as nat);
        let p = fact_prod(s, k - 1);
        let q = fact(s[k - 1] as nat);
        let f = fact(usum(s, k - 1) as nat);
        assert(p * q <= f * q) by (nonlinear_arith)
            requires
                p <= f,
                q >= 1,
        ;
    }
}

proof fn lemma_fixed_count_mono(s: Seq<usize>, rot: bool, k: int)
    requires
        k >= 1,
    ensures
        fixed_count(s, rot, k) >= fixed_count(s, rot, 1),
    decreases k,
{
    if k > 1 {
        lemma_fixed_count_mono(s, rot, k - 1);
    }
}

proof fn lemma_sun_aut_pos(g: int, leaves: Seq<usize>)
    requires
        1 <= g <= leaves.len(),
    ensures
        sun_aut(g, leaves) >= 1,
{
    assert(turned(leaves, true, 0) =~= leaves.subrange(0, leaves.len() as int)) by {
        assert forall|i: int| 0 <= i < leaves.len() implies turned(leaves, true, 0)[i] == leaves[i] by {
            vstd::arithmetic::div_mod::lemma_small_mod(i as nat, leaves.len());
        }
    }
    assert(leaves.subrange(0, leaves.len() as int) =~= leaves);
    assert(turned(leaves, true, 0) == leaves);
    assert(fixed_count(leaves, true, 0) == 0);
    assert(fixed_count(leaves, true, 1) == fixed_count(leaves, true, 0) + if turned(leaves, true, 0) == leaves { 1int } else { 0int });
    assert(fixed_count(leaves, true, 1) == 1);
    lemma_fixed_count_mono(leaves, true, g);
    lemma_fixed_count_nonneg(leaves, false, g);
    lemma_fact_prod_mono(leaves, 0, g);
    let a = fixed_count(leaves, true, g) + fixed_count(leaves, false, g);
    let b = fact_prod(leaves, g);
    assert(a * b >= 1) by (nonlinear_arith)
        requires
            a >= 1,
            b >= 1,
    ;
}

proof fn lemma_fixed_count_nonneg(s: Seq<usize>, rot: bool, k: int)
    ensures
        fixed_count(s, rot, k) >= 0,
    decreases k,
{
    if k > 0 {
        lemma_fixed_count_nonneg(s, rot, k - 1);
    }
}

proof fn lemma_poly_concat(a: Seq<(int, int)>, b: Seq<(int, int)>, t: nat, m: int)
    requires
        0 <= m <= b.len(),
    ensures
        poly_spec(a + b, t, a.len() + m) == poly_spec(a, t, a.len() as int) + poly_spec(b, t, m),
    decreases m,
{
    if m == 0 {
        lemma_poly_prefix(a + b, a, t, a.len() as int);
    } else {
        lemma_poly_concat(a, b, t, m - 1);
        assert((a + b)[a.len() + m - 1] == b[m - 1]);
    }
}

proof fn lemma_fact30()
    ensures
        fact(30) == 265252859812191058636308480000000,
{
    crate::burnside::lemma_fact_values();
    assert(fact(33) == 33 * fact(32));
    assert(fact(32) == 32 * fact(31));
    assert(fact(31) == 31 * fact(30));
    assert(fact(33) == 32736 * fact(30));
}

fn same_usizes(a: &Vec<usize>, b: &Vec<usize>) -> (r: bool)
    ensures
        r == (a@ == b@),
{
    if a.len() != b.len() {
        return false;
    }
    let mut i = 0usize;
    while i < a.len()
        invariant
            i <= a@.len(),
            a@.len() == b@.len(),
            forall|q: int| 0 <= q < i ==> a@[q] == b@[q],
        decreases a@.len() - i,
    {
        if a[i] != b[i] {
            return false;
        }
        i += 1;
    }
    proof {
        assert(a@ =~= b@);
    }
    true
}

/// Some entry of `seen` holds `x`.
pub open spec fn seen_rep(seen: Seq<Vec<usize>>, x: Seq<usize>) -> bool {
    exists|k: int| 0 <= k < seen.len() && (#[trigger] seen[k])@ == x
}

/// One of the first `idx` compositions of `cs` has dihedral canonical form `x`.
pub open spec fn class_seen(cs: Seq<Seq<usize>>, idx: int, x: Seq<usize>) -> bool {
    exists|j: int| 0 <= j < idx && dcanon(#[trigger] cs[j]) == x
}

fn seen_has(seen: &Vec<Vec<usize>>, x: &Vec<usize>) -> (r: bool)
    ensures
        r == seen_rep(seen@, x@),
{
    let mut k = 0usize;
    while k < seen.len()
        invariant
            k <= seen@.len(),
            forall|q: int| 0 <= q < k ==> (#[trigger] seen@[q])@ != x@,
        decreases seen@.len() - k,
    {
        if same_usizes(&seen[k], x) {
            return true;
        }
        k += 1;
    }
    false
}

/// `1 + sum_i C(leaves[i], 2)`.
fn pair_exponent(leaves: &Vec<usize>, g: usize) -> (e: u32)
    requires
        g <= 30,
        leaves@.len() == g,
        forall|i: int| 0 <= i < g ==> #[trigger] leaves@[i] <= 30,
    ensures
        e == 1 + pair_part(leaves@, g as int),
{
    let mut e: u32 = 1;
    let mut i = 0usize;
    while i < g
        invariant
            g <= 30,
            leaves@.len() == g,
            forall|q: int| 0 <= q < g ==> #[trigger] leaves@[q] <= 30,
            i <= g,
            e == 1 + pair_part(leaves@, i as int),
            e <= 1 + 435 * i,
        decreases g - i,
    {
        let x = leaves[i] as u32;
        proof {
            if x >= 1 {
                assert(x * (x - 1) <= 870) by (nonlinear_arith)
                    requires
                        1 <= x <= 30,
                ;
                assert(x * (x - 1) >= 0) by (nonlinear_arith)
                    requires
                        1 <= x,
                ;
            }
        }
        let c = if x == 0 { 0 } else { x * (x - 1) / 2 };
        proof {
            let li = leaves@[i as int] as int;
            assert(leaves@[i as int] <= 30);
            assert(x as int == li);
            if x == 0 {
                assert(li == 0);
                assert(li * (li - 1) == 0) by (nonlinear_arith)
                    requires
                        li == 0,
                ;
            } else {
                assert(c == li * (li - 1) / 2);
            }
            assert(c == leaves@[i as int] * (leaves@[i as int] - 1) / 2);
            assert(pair_part(leaves@, i + 1) == pair_part(leaves@, i as int) + leaves@[i as int] * (leaves@[i as int] - 1) / 2);
        }
        e = e + c;
        i += 1;
    }
    e
}

proof fn lemma_sun_adj(g: int, leaves: Seq<usize>, adjm: Seq<u64>)
    requires
        adjm.len() == g + usum(leaves, g),
        forall|a: int, b: int|
            0 <= a < adjm.len() && 0 <= b < 64 ==> #[trigger] bit(adjm[a], b) == joined(sun_edges(g, leaves), sun_edges(g, leaves).len() as int, a, b),
    ensures
        adjm == sun_adj(g, leaves),
{
    assert forall|a: int| 0 <= a < adjm.len() implies #[trigger] adjm[a] == sun_adj(g, leaves)[a] by {
        assert(sun_row_bits(adjm[a], g, leaves, a));
        let x = sun_row(g, leaves, a);
        assert(sun_row_bits(x, g, leaves, a));
        assert forall|b: int| 0 <= b < 64 implies bit(adjm[a], b) == bit(x, b) by {
            assert(bit(x, b) == joined(sun_edges(g, leaves), sun_edges(g, leaves).len() as int, a, b));
        }
        lemma_bits_ext(adjm[a], x);
    }
    assert(adjm =~= sun_adj(g, leaves));
}

/// Adds the sun terms of cycle length `g` on `v` vertices to `row`: one per
/// dihedral class of leaf compositions (the first composition of each class
/// in lexicographic order stands for it).
fn class_row(row: &mut Vec<(i128, Big)>, v: usize, g: usize, vf: i128, sign: i128)
    requires
        3 <= g <= v <= 30,
        vf == fact(v as nat),
        sign == alt_sign(v as int),
        table_ok(old(row)@),
        keys_distinct(old(row)@),
    ensures
        table_ok(final(row)@),
        keys_distinct(final(row)@),
        forall|t: nat|
            poly_spec(tview(final(row)@), t, final(row)@.len() as int) == poly_spec(tview(old(row)@), t, old(row)@.len() as int) + poly_spec(
                class_terms(v as int, g as int, clist(g as nat, (v - g) as nat), clist(g as nat, (v - g) as nat).len() as int),
                t,
                class_terms(v as int, g as int, clist(g as nat, (v - g) as nat), clist(g as nat, (v - g) as nat).len() as int).len() as int,
            ),
{
    let l = v - g;
    let comps = compositions(l, g);
    let ghost cs = clist(g as nat, l as nat);
    let ghost r0 = row@;
    proof {
        lemma_clist_shape(g as nat, l as nat);
        lemma_fact30();
        assert(nested(comps@) == cs);
        assert(comps@.len() == cs.len());
    }
    let mut seen: Vec<Vec<usize>> = Vec::new();
    let mut idx = 0usize;
    while idx < comps.len()
        invariant
            3 <= g <= v <= 30,
            l == v - g,
            vf == fact(v as nat),
            sign == alt_sign(v as int),
            fact(30) == 265252859812191058636308480000000,
            nested(comps@) == cs,
            cs == clist(g as nat, l as nat),
            forall|i: int| 0 <= i < cs.len() ==> comp_shape(#[trigger] cs[i], g as int, l as int),
            r0 == old(row)@,
            idx <= comps@.len(),
            table_ok(row@),
            keys_distinct(row@),
            forall|x: Seq<usize>| #[trigger] seen_rep(seen@, x) <==> class_seen(cs, idx as int, x),
            forall|t: nat|
                poly_spec(tview(row@), t, row@.len() as int) == poly_spec(tview(r0), t, r0.len() as int) + poly_spec(
                    class_terms(v as int, g as int, cs, idx as int),
                    t,
                    class_terms(v as int, g as int, cs, idx as int).len() as int,
                ),
        decreases comps@.len() - idx,
    {
        let comp = &comps[idx];
        proof {
            assert(comp@ == cs[idx as int]);
            assert(comp_shape(cs[idx as int], g as int, l as int));
        }
        let dc = dihedral_canon(comp);
        proof {
            lemma_dcanon(comp@, dc@);
        }
        let ghost prev = class_terms(v as int, g as int, cs, idx as int);
        if !seen_has(&seen, &dc) {
            proof {
                assert forall|j: int| 0 <= j < idx implies dcanon(#[trigger] cs[j]) != dcanon(cs[idx as int]) by {
                    if dcanon(cs[j]) == dcanon(cs[idx as int]) {
                        assert(class_seen(cs, idx as int, dc@));
                        assert(seen_rep(seen@, dc@));
                    }
                }
                assert(first_of_class(cs, idx as int));
            }
            let (nn, adjm) = build_sun(g, comp);
            proof {
                lemma_sun_adj(g as int, comp@, adjm@);
            }
            let ic = indep_count(nn, &adjm);
            proof {
                lemma_fact_prod_le(comp@, g as int);
                lemma_fact_mono(l as nat, 30);
                lemma_sun_aut_pos(g as int, comp@);
                lemma_fact_prod_mono(comp@, 0, g as int);
                let fp = fact_prod(comp@, g as int);
                assert(2 * g * fp <= 60 * fact(30)) by (nonlinear_arith)
                    requires
                        g <= 30,
                        0 <= fp <= fact(30),
                ;
            }
            let aut = aut_oc(g, comp);
            let e = pair_exponent(comp, g);
            let w = pow2(e);
            proof {
                lemma_fact_mono(v as nat, 30);
                assert(vf / aut <= vf) by (nonlinear_arith)
                    requires
                        aut >= 1,
                        vf >= 0,
                ;
                assert(vf / aut >= 0) by (nonlinear_arith)
                    requires
                        aut >= 1,
                        vf >= 0,
                ;
            }
            let mult = vf / aut;
            let term = w.mul_i128(sign * mult);
            proof {
                assert(term@ == sun_weight(v as int, g as int, cs[idx as int]));
                assert(ic as int == sun_indep(g as int, cs[idx as int]));
            }
            add_term(row, ic, term);
            let ghost s0 = seen@;
            seen.push(dc);
            proof {
                let item = (sun_indep(g as int, cs[idx as int]), sun_weight(v as int, g as int, cs[idx as int]));
                assert(class_terms(v as int, g as int, cs, idx + 1) == prev + seq![item]);
                assert forall|t: nat|
                    poly_spec(tview(row@), t, row@.len() as int) == poly_spec(tview(r0), t, r0.len() as int) + poly_spec(
                        class_terms(v as int, g as int, cs, idx + 1),
                        t,
                        class_terms(v as int, g as int, cs, idx + 1).len() as int,
                    ) by {
                    lemma_poly_concat(prev, seq![item], t, 1);
                    assert(poly_spec(seq![item], t, 0) == 0);
                    assert(poly_spec(seq![item], t, 1) == item.1 * ipow(item.0, t));
                }
                assert forall|x: Seq<usize>| #[trigger] seen_rep(seen@, x) <==> class_seen(cs, idx + 1, x) by {
                    if seen_rep(seen@, x) {
                        let k = choose|k: int| 0 <= k < seen@.len() && (#[trigger] seen@[k])@ == x;
                        if k < s0.len() {
                            assert(s0[k]@ == x);
                            assert(seen_rep(s0, x));
                            let j = choose|j: int| 0 <= j < idx && dcanon(#[trigger] cs[j]) == x;
                            assert(dcanon(cs[j]) == x);
                        } else {
                            assert(dcanon(cs[idx as int]) == x);
                        }
                    }
                    if class_seen(cs, idx + 1, x) {
                        let j = choose|j: int| 0 <= j < idx + 1 && dcanon(#[trigger] cs[j]) == x;
                        if j < idx {
                            assert(class_seen(cs, idx as int, x));
                            assert(seen_rep(s0, x));
                            let k = choose|k: int| 0 <= k < s0.len() && (#[trigger] s0[k])@ == x;
                            assert(seen@[k] == s0[k]);
                        } else {
                            assert(seen@[s0.len() as int]@ == x);
                        }
                    }
                }
            }
        } else {
            proof {
                assert(seen_rep(seen@, dc@));
                assert(class_seen(cs, idx as int, dc@));
                let j = choose|j: int| 0 <= j < idx && dcanon(#[trigger] cs[j]) == dc@;
                assert(!first_of_class(cs, idx as int));
                assert(class_terms(v as int, g as int, cs, idx + 1) =~= prev);
                assert forall|x: Seq<usize>| #[trigger] seen_rep(seen@, x) <==> class_seen(cs, idx + 1, x) by {
                    if class_seen(cs, idx + 1, x) {
                        let j2 = choose|j: int| 0 <= j < idx + 1 && dcanon(#[trigger] cs[j]) == x;
                        if j2 == idx {
                            assert(dcanon(cs[j]) == x);
                        }
                        assert(class_seen(cs, idx as int, x));
                    }
                    if seen_rep(seen@, x) {
                        assert(class_seen(cs, idx as int, x));
                        let j3 = choose|j: int| 0 <= j < idx && dcanon(#[trigger] cs[j]) == x;
                        assert(dcanon(cs[j3]) == x);
                    }
                }
            }
        }
        idx += 1;
    }
}

/// The sun table of size `v`: coefficients of `oc_v(t) = sum_I c_I I^t`.
fn oc_row(v: usize) -> (row: Vec<(i128, Big)>)
    requires
        v <= 30,
    ensures
        table_ok(row@),
        keys_distinct(row@),
        forall|t: nat| poly_spec(tview(row@), t, row@.len() as int) == poly_spec(oc_all(v as int), t, oc_all(v as int).len() as int),
{
    let mut row: Vec<(i128, Big)> = Vec::new();
    if v < 3 {
        proof {
            assert forall|t: nat| poly_spec(tview(row@), t, row@.len() as int) == poly_spec(oc_all(v as int), t, oc_all(v as int).len() as int) by {
                assert(oc_all(v as int).len() == 0);
            }
        }
        return row;
    }
    let vf = factorial(v as i128);
    let sign: i128 = if v % 2 == 0 { 1 } else { -1 };
    let mut h = 1usize;
    while 2 * h + 1 <= v
        invariant
            3 <= v <= 30,
            1 <= h,
            2 * h - 1 <= v,
            vf == fact(v as nat),
            sign == alt_sign(v as int),
            table_ok(row@),
            keys_distinct(row@),
            forall|t: nat|
                poly_spec(tview(row@), t, row@.len() as int) == poly_spec(oc_terms(v as int, h - 1), t, oc_terms(v as int, h - 1).len() as int),
        decreases v - h,
    {
        let g = 2 * h + 1;
        let ghost r0 = row@;
        class_row(&mut row, v, g, vf, sign);
        proof {
            let cs = clist(g as nat, (v - g) as nat);
            let ct = class_terms(v as int, g as int, cs, cs.len() as int);
            assert(oc_terms(v as int, h as int) == oc_terms(v as int, h - 1) + ct);
            assert forall|t: nat|
                poly_spec(tview(row@), t, row@.len() as int) == poly_spec(oc_terms(v as int, h as int), t, oc_terms(v as int, h as int).len() as int) by {
                lemma_poly_concat(oc_terms(v as int, h - 1), ct, t, ct.len() as int);
            }
        }
        h += 1;
    }
    proof {
        assert(h - 1 == (v - 1) / 2);
    }
    row
}

/// The odd-cycle-sun coefficient tables for sizes `0..=nmax`: entry `v` holds,
/// grouped by the number of independent sets `I`, the signed labelled weights
/// `(-1)^v (v!/|Aut S|) Within(S)` of the odd-cycle suns `S` on `v` vertices
/// (one per dihedral class of leaf compositions around the cycle).
pub fn build_oc_coeff(nmax: usize) -> (tab: Vec<Vec<(i128, Big)>>)
    requires
        nmax <= 30,
    ensures
        tab@.len() == nmax + 1,
        tables_ok(tab@),
        forall|v: int| 0 <= v <= nmax ==> keys_distinct(#[trigger] tab@[v]@),
        forall|v: int, t: nat|
            0 <= v <= nmax ==> #[trigger] poly_spec(tview(tab@[v]@), t, tab@[v]@.len() as int) == poly_spec(oc_all(v), t, oc_all(v).len() as int),
{
    let mut tab: Vec<Vec<(i128, Big)>> = Vec::new();
    let mut v = 0usize;
    while v <= nmax
        invariant
            nmax <= 30,
            v <= nmax + 1,
            tab@.len() == v,
            tables_ok(tab@),
            forall|q: int| 0 <= q < v ==> keys_distinct(#[trigger] tab@[q]@),
            forall|q: int, t: nat|
                0 <= q < v ==> #[trigger] poly_spec(tview(tab@[q]@), t, tab@[q]@.len() as int) == poly_spec(oc_all(q), t, oc_all(q).len() as int),
        decreases nmax + 1 - v,
    {
        let row = oc_row(v);
        tab.push(row);
        v += 1;
    }
    tab
}

/// Vertex count of the caterpillar with leaf-count word `s`.
pub open spec fn cat_size(s: Seq<usize>) -> int {
    s.len() + usum(s, s.len() as int)
}

/// Neighbour lists of the caterpillar with leaf-count word `s`.
pub open spec fn cat_lists(s: Seq<usize>) -> Seq<Seq<usize>> {
    nbr_lists(cat_edges(s), cat_size(s), cat_edges(s).len() as int)
}

/// Canonical string and automorphism count of the caterpillar.
pub open spec fn cat_canon(s: Seq<usize>) -> Option<(Seq<u8>, int)> {
    tree_canon_spec(cat_lists(s), cat_size(s))
}

/// Bit `u` of `x` says whether vertex `v` of the caterpillar is joined to `u`.
pub open spec fn cat_row_bits(x: u64, s: Seq<usize>, v: int) -> bool {
    forall|u: int| 0 <= u < 64 ==> #[trigger] bit(x, u) == cat_lists(s)[v].contains(u as usize)
}

/// Adjacency row of vertex `v` of the caterpillar.
pub open spec fn cat_row(s: Seq<usize>, v: int) -> u64 {
    choose|x: u64| #[trigger] cat_row_bits(x, s, v)
}

/// Number of independent sets of the caterpillar (the empty set included).
pub open spec fn cat_indep(s: Seq<usize>) -> int {
    indep_spec(first_n(cat_size(s)), Seq::new(cat_size(s) as nat, |v: int| cat_row(s, v))) as int
}

/// The leaf-count word as 128-bit integers.
pub open spec fn spine_i128(s: Seq<usize>) -> Seq<i128> {
    Seq::new(s.len(), |i: int| s[i] as i128)
}

/// Signed labelled weight of a caterpillar on `k` vertices:
/// `(-1)^(k-1) (k!/|Aut|) Within`.
pub open spec fn cat_weight(k: int, s: Seq<usize>) -> int {
    within_spec(spine_i128(s)) * (alt_sign(k - 1) * (fact(k as nat) as int / cat_canon(s).unwrap().1))
}

/// Word `idx` of `ss` is the first with its caterpillar's canonical string.
pub open spec fn first_cat(ss: Seq<Seq<usize>>, idx: int) -> bool {
    forall|j: int| 0 <= j < idx ==> (#[trigger] cat_canon(ss[j])).unwrap().0 != cat_canon(ss[idx]).unwrap().0
}

/// `(I, weight)` of the first-of-shape words among the first `m` of `ss`.
pub open spec fn cat_terms(k: int, ss: Seq<Seq<usize>>, m: int) -> Seq<(int, int)>
    decreases m,
{
    if m <= 0 {
        Seq::empty()
    } else {
        cat_terms(k, ss, m - 1) + if first_cat(ss, m - 1) {
            seq![(cat_indep(ss[m - 1]), cat_weight(k, ss[m - 1]))]
        } else {
            Seq::empty()
        }
    }
}

/// All the caterpillar terms on `k` vertices.
pub open spec fn cat_all(k: int) -> Seq<(int, int)> {
    if k < 2 {
        Seq::empty()
    } else {
        cat_terms(k, seqs_upto(k as nat, k as nat), seqs_upto(k as nat, k as nat).len() as int)
    }
}

/// Every caterpillar on `k` vertices has a canonical form whose count fits in an `i128`.
pub open spec fn cats_fit(k: int) -> bool {
    forall|i: int|
        0 <= i < seqs_upto(k as nat, k as nat).len() ==> (#[trigger] cat_canon(seqs_upto(k as nat, k as nat)[i])) is Some && cat_canon(
            seqs_upto(k as nat, k as nat)[i],
        ).unwrap().1 <= i128::MAX
}

proof fn lemma_seqs_shape(k: nat, m: nat)
    requires
        k <= 1000,
    ensures
        forall|i: int|
            0 <= i < seqs_upto(k, m).len() ==> 1 <= (#[trigger] seqs_upto(k, m)[i]).len() <= k && comp_shape(
                seqs_upto(k, m)[i],
                seqs_upto(k, m)[i].len() as int,
                k - seqs_upto(k, m)[i].len(),
            ),
    decreases m,
{
    if !(m == 0 || m > k) {
        lemma_seqs_shape(k, (m - 1) as nat);
        lemma_clist_shape(m, (k - m) as nat);
        let a = seqs_upto(k, (m - 1) as nat);
        let b = clist(m, (k - m) as nat);
        assert(seqs_upto(k, m) == a + b);
        assert forall|i: int| 0 <= i < seqs_upto(k, m).len() implies 1 <= (#[trigger] seqs_upto(k, m)[i]).len() <= k && comp_shape(
            seqs_upto(k, m)[i],
            seqs_upto(k, m)[i].len() as int,
            k - seqs_upto(k, m)[i].len(),
        ) by {
            if i < a.len() {
                assert(seqs_upto(k, m)[i] == a[i]);
            } else {
                assert(seqs_upto(k, m)[i] == b[i - a.len()]);
                assert(comp_shape(b[i - a.len()], m as int, k - m));
            }
        }
    }
}

/// Some entry of `seen` holds `x`.
pub open spec fn seen_key(seen: Seq<Vec<u8>>, x: Seq<u8>) -> bool {
    exists|q: int| 0 <= q < seen.len() && (#[trigger] seen[q])@ == x
}

/// One of the first `idx` words of `ss` has canonical string `x`.
pub open spec fn key_seen(ss: Seq<Seq<usize>>, idx: int, x: Seq<u8>) -> bool {
    exists|j: int| 0 <= j < idx && (#[trigger] cat_canon(ss[j])).unwrap().0 == x
}

fn seen_has_key(seen: &Vec<Vec<u8>>, x: &Vec<u8>) -> (r: bool)
    ensures
        r == seen_key(seen@, x@),
{
    let mut q = 0usize;
    while q < seen.len()
        invariant
            q <= seen@.len(),
            forall|t: int| 0 <= t < q ==> (#[trigger] seen@[t])@ != x@,
        decreases seen@.len() - q,
    {
        if bytes_eq(&seen[q], x) {
            return true;
        }
        q += 1;
    }
    false
}

proof fn lemma_cat_rows(s: Seq<usize>, m: Seq<u64>)
    requires
        m.len() == cat_size(s),
        forall|v: int, u: int| 0 <= v < m.len() && 0 <= u < 64 ==> #[trigger] bit(m[v], u) == cat_lists(s)[v].contains(u as usize),
    ensures
        m == Seq::new(cat_size(s) as nat, |v: int| cat_row(s, v)),
{
    assert forall|v: int| 0 <= v < m.len() implies #[trigger] m[v] == cat_row(s, v) by {
        assert(cat_row_bits(m[v], s, v));
        let x = cat_row(s, v);
        assert(cat_row_bits(x, s, v));
        assert forall|u: int| 0 <= u < 64 implies bit(m[v], u) == bit(x, u) by {
            assert(bit(x, u) == cat_lists(s)[v].contains(u as usize));
        }
        lemma_bits_ext(m[v], x);
    }
    assert(m =~= Seq::new(cat_size(s) as nat, |v: int| cat_row(s, v)));
}

/// `(I, weight)` of the caterpillar with leaf-count word `s` on `k` vertices.
fn cat_shape_term(k: usize, s: &Vec<usize>, adj: &Vec<Vec<usize>>, aut: i128, kf: i128, sign: i128) -> (r: (i128, Big))
    requires
        2 <= k <= 30,
        cat_size(s@) == k,
        1 <= s@.len() <= k,
        forall|t: int| 0 <= t < s@.len() ==> #[trigger] s@[t] <= 30,
        nested(adj@) == cat_lists(s@),
        adj@.len() == k,
        forall|v: int, t: int| 0 <= v < k && 0 <= t < adj@[v]@.len() ==> #[trigger] adj@[v]@[t] < k,
        cat_canon(s@) is Some,
        cat_canon(s@).unwrap().1 == aut as int,
        aut >= 1,
        kf == fact(k as nat),
        fact(k as nat) <= fact(30),
        fact(30) == 265252859812191058636308480000000,
        sign == alt_sign(k - 1),
    ensures
        r.0 as int == cat_indep(s@),
        r.1.wf(),
        r.1@ == cat_weight(k as int, s@),
{
    let bm = adj_bitmask(k, adj);
    proof {
        assert forall|v: int, u: int| 0 <= v < bm@.len() && 0 <= u < 64 implies #[trigger] bit(bm@[v], u) == cat_lists(s@)[v].contains(u as usize) by {
            assert(nested(adj@)[v] == adj@[v]@);
        }
        lemma_cat_rows(s@, bm@);
    }
    let ic = indep_count(k, &bm);
    let mut seqi: Vec<i128> = Vec::new();
    let mut q = 0usize;
    while q < s.len()
        invariant
            q <= s@.len(),
            s@.len() <= 30,
            forall|t: int| 0 <= t < s@.len() ==> #[trigger] s@[t] <= 30,
            seqi@ == spine_i128(s@).take(q as int),
        decreases s@.len() - q,
    {
        seqi.push(s[q] as i128);
        proof {
            assert(seqi@ =~= spine_i128(s@).take(q + 1));
        }
        q += 1;
    }
    proof {
        assert(seqi@ =~= spine_i128(s@));
        assert(spine_ok(seqi@));
        assert(kf / aut <= kf) by (nonlinear_arith)
            requires
                aut >= 1,
                kf >= 0,
        ;
        assert(kf / aut >= 0) by (nonlinear_arith)
            requires
                aut >= 1,
                kf >= 0,
        ;
    }
    let w = within(seqi.as_slice());
    let mult = kf / aut;
    let term = w.mul_i128(sign * mult);
    (ic, term)
}

proof fn lemma_keys_push(ss: Seq<Seq<usize>>, idx: int, s0: Seq<Vec<u8>>, s1: Seq<Vec<u8>>, key: Seq<u8>)
    requires
        0 <= idx < ss.len(),
        forall|x: Seq<u8>| #[trigger] seen_key(s0, x) <==> key_seen(ss, idx, x),
        s1.len() == s0.len() + 1,
        forall|q: int| 0 <= q < s0.len() ==> #[trigger] s1[q] == s0[q],
        s1[s0.len() as int]@ == key,
        cat_canon(ss[idx]).unwrap().0 == key,
    ensures
        forall|x: Seq<u8>| #[trigger] seen_key(s1, x) <==> key_seen(ss, idx + 1, x),
{
    assert forall|x: Seq<u8>| #[trigger] seen_key(s1, x) <==> key_seen(ss, idx + 1, x) by {
        if seen_key(s1, x) {
            let q2 = choose|q: int| 0 <= q < s1.len() && (#[trigger] s1[q])@ == x;
            if q2 < s0.len() {
                assert(s0[q2]@ == x);
                assert(seen_key(s0, x));
                let j = choose|j: int| 0 <= j < idx && (#[trigger] cat_canon(ss[j])).unwrap().0 == x;
                assert(cat_canon(ss[j]).unwrap().0 == x);
            } else {
                assert(cat_canon(ss[idx]).unwrap().0 == x);
            }
        }
        if key_seen(ss, idx + 1, x) {
            let j = choose|j: int| 0 <= j < idx + 1 && (#[trigger] cat_canon(ss[j])).unwrap().0 == x;
            if j < idx {
                assert(key_seen(ss, idx, x));
                assert(seen_key(s0, x));
                let q3 = choose|q: int| 0 <= q < s0.len() && (#[trigger] s0[q])@ == x;
                assert(s1[q3] == s0[q3]);
            } else {
                assert(s1[s0.len() as int]@ == x);
            }
        }
    }
}

proof fn lemma_keys_same(ss: Seq<Seq<usize>>, idx: int, seen: Seq<Vec<u8>>, key: Seq<u8>)
    requires
        0 <= idx < ss.len(),
        forall|x: Seq<u8>| #[trigger] seen_key(seen, x) <==> key_seen(ss, idx, x),
        seen_key(seen, key),
        cat_canon(ss[idx]).unwrap().0 == key,
    ensures
        forall|x: Seq<u8>| #[trigger] seen_key(seen, x) <==> key_seen(ss, idx + 1, x),
        !first_cat(ss, idx),
{
    assert(key_seen(ss, idx, key));
    let j = choose|j: int| 0 <= j < idx && (#[trigger] cat_canon(ss[j])).unwrap().0 == key;
    assert(cat_canon(ss[j]).unwrap().0 == key);
    assert forall|x: Seq<u8>| #[trigger] seen_key(seen, x) <==> key_seen(ss, idx + 1, x) by {
        if key_seen(ss, idx + 1, x) {
            let j2 = choose|j: int| 0 <= j < idx + 1 && (#[trigger] cat_canon(ss[j])).unwrap().0 == x;
            if j2 == idx {
                assert(cat_canon(ss[j]).unwrap().0 == x);
            }
            assert(key_seen(ss, idx, x));
        }
        if seen_key(seen, x) {
            assert(key_seen(ss, idx, x));
            let j3 = choose|j: int| 0 <= j < idx && (#[trigger] cat_canon(ss[j])).unwrap().0 == x;
            assert(cat_canon(ss[j3]).unwrap().0 == x);
        }
    }
}

proof fn lemma_first_key(ss: Seq<Seq<usize>>, idx: int, seen: Seq<Vec<u8>>, key: Seq<u8>)
    requires
        0 <= idx < ss.len(),
        forall|x: Seq<u8>| #[trigger] seen_key(seen, x) <==> key_seen(ss, idx, x),
        !seen_key(seen, key),
        cat_canon(ss[idx]).unwrap().0 == key,
    ensures
        first_cat(ss, idx),
{
    assert forall|j: int| 0 <= j < idx implies (#[trigger] cat_canon(ss[j])).unwrap().0 != cat_canon(ss[idx]).unwrap().0 by {
        if cat_canon(ss[j]).unwrap().0 == key {
            assert(key_seen(ss, idx, key));
        }
    }
}

proof fn lemma_terms_step(k: int, ss: Seq<Seq<usize>>, idx: int, row0: Seq<(i128, Big)>, row1: Seq<(i128, Big)>, ic: int, w: int)
    requires
        0 <= idx < ss.len(),
        first_cat(ss, idx),
        ic == cat_indep(ss[idx]),
        w == cat_weight(k, ss[idx]),
        forall|t: nat|
            #[trigger] poly_spec(tview(row0), t, row0.len() as int) == poly_spec(cat_terms(k, ss, idx), t, cat_terms(k, ss, idx).len() as int),
        forall|t: nat| poly_spec(tview(row1), t, row1.len() as int) == poly_spec(tview(row0), t, row0.len() as int) + w * ipow(ic, t),
    ensures
        forall|t: nat|
            #[trigger] poly_spec(tview(row1), t, row1.len() as int) == poly_spec(cat_terms(k, ss, idx + 1), t, cat_terms(k, ss, idx + 1).len() as int),
{
    let prev = cat_terms(k, ss, idx);
    let item = (ic, w);
    assert(cat_terms(k, ss, idx + 1) == prev + seq![item]);
    assert forall|t: nat|
        #[trigger] poly_spec(tview(row1), t, row1.len() as int) == poly_spec(cat_terms(k, ss, idx + 1), t, cat_terms(k, ss, idx + 1).len() as int) by {
        lemma_poly_concat(prev, seq![item], t, 1);
        assert(poly_spec(seq![item], t, 0) == 0);
        assert(poly_spec(seq![item], t, 1) == item.1 * ipow(item.0, t));
        assert(poly_spec(tview(row0), t, row0.len() as int) == poly_spec(prev, t, prev.len() as int));
    }
}

/// The caterpillar table of size `k`, or `None` when some caterpillar on `k`
/// vertices has no canonical form fitting in an `i128`.
fn cat_table_row(k: usize) -> (r: Option<Vec<(i128, Big)>>)
    requires
        2 <= k <= 30,
    ensures
        match r {
            Some(row) => cats_fit(k as int) && table_ok(row@) && keys_distinct(row@) && forall|t: nat|
                #[trigger] poly_spec(tview(row@), t, row@.len() as int) == poly_spec(cat_all(k as int), t, cat_all(k as int).len() as int),
            None => !cats_fit(k as int),
        },
{
    let seqs = gen_seqs(k);
    let ghost ss = seqs_upto(k as nat, k as nat);
    proof {
        lemma_seqs_shape(k as nat, k as nat);
        lemma_fact30();
        crate::burnside::lemma_fact_mono(k as nat, 30);
        assert(nested(seqs@) == ss);
        assert(seqs@.len() == ss.len());
    }
    let kf = factorial(k as i128);
    let sign: i128 = if (k - 1) % 2 == 0 { 1 } else { -1 };
    let mut row: Vec<(i128, Big)> = Vec::new();
    let mut seen: Vec<Vec<u8>> = Vec::new();
    let mut idx = 0usize;
    proof {
        assert(cat_terms(k as int, ss, 0) =~= Seq::<(int, int)>::empty());
        assert forall|x: Seq<u8>| #[trigger] seen_key(seen@, x) <==> key_seen(ss, 0, x) by {
        }
    }
    while idx < seqs.len()
        invariant
            2 <= k <= 30,
            kf == fact(k as nat),
            fact(30) == 265252859812191058636308480000000,
            fact(k as nat) <= fact(30),
            sign == alt_sign(k - 1),
            nested(seqs@) == ss,
            ss == seqs_upto(k as nat, k as nat),
            seqs@.len() == ss.len(),
            forall|i: int|
                0 <= i < ss.len() ==> 1 <= (#[trigger] ss[i]).len() <= k && comp_shape(ss[i], ss[i].len() as int, k - ss[i].len()),
            idx <= seqs@.len(),
            table_ok(row@),
            keys_distinct(row@),
            forall|i: int| 0 <= i < idx ==> (#[trigger] cat_canon(ss[i])) is Some && cat_canon(ss[i]).unwrap().1 <= i128::MAX,
            forall|x: Seq<u8>| #[trigger] seen_key(seen@, x) <==> key_seen(ss, idx as int, x),
            forall|t: nat|
                #[trigger] poly_spec(tview(row@), t, row@.len() as int) == poly_spec(
                    cat_terms(k as int, ss, idx as int),
                    t,
                    cat_terms(k as int, ss, idx as int).len() as int,
                ),
        decreases seqs@.len() - idx,
    {
        let s = &seqs[idx];
        proof {
            assert(s@ == ss[idx as int]);
            assert(comp_shape(ss[idx as int], ss[idx as int].len() as int, k - ss[idx as int].len()));
            assert(cat_size(s@) == k);
            lemma_cat_adj(s@);
        }
        let (kk, adj) = build_caterpillar(s);
        proof {
            assert(nested(adj@) == cat_lists(s@));
            assert(kk == k);
            assert(nested(adj@).len() == adj@.len());
            assert(adj_ok(nested(adj@)));
            assert forall|v: int, t: int| 0 <= v < k && 0 <= t < adj@[v]@.len() implies #[trigger] adj@[v]@[t] < k by {
                assert(nested(adj@)[v] == adj@[v]@);
            }
        }
        let canon = tree_canon_aut(kk, &adj);
        match canon {
            None => {
                return None;
            },
            Some(kv) => {
                let (key, aut) = kv;
                proof {
                    lemma_tree_canon_pos(cat_lists(s@), cat_size(s@));
                    assert(cat_canon(ss[idx as int]) == Some((key@, aut as int)));
                }
                if !seen_has_key(&seen, &key) {
                    proof {
                        lemma_first_key(ss, idx as int, seen@, key@);
                    }
                    let (ic, term) = cat_shape_term(k, s, &adj, aut, kf, sign);
                    let ghost row0 = row@;
                    add_term(&mut row, ic, term);
                    proof {
                        lemma_terms_step(k as int, ss, idx as int, row0, row@, ic as int, term@);
                    }
                    let ghost s0 = seen@;
                    seen.push(key);
                    proof {
                        lemma_keys_push(ss, idx as int, s0, seen@, key@);
                    }
                } else {
                    proof {
                        lemma_keys_same(ss, idx as int, seen@, key@);
                        assert(cat_terms(k as int, ss, idx + 1) =~= cat_terms(k as int, ss, idx as int));
                    }
                }
            },
        }
        idx += 1;
    }
    Some(row)
}

/// The caterpillar coefficient tables for sizes `0..=nmax`: entry `k` holds,
/// grouped by the number of independent sets `I`, the signed labelled weights
/// `(-1)^(k-1) (k!/|Aut C|) Within(C)` of the caterpillars `C` on `k` vertices
/// (one per shape, identified by the tree's canonical string). `None` when
/// some caterpillar's automorphism count does not fit in an `i128`.
pub fn build_cat_coeff(nmax: usize) -> (r: Option<Vec<Vec<(i128, Big)>>>)
    requires
        nmax <= 30,
    ensures
        match r {
            Some(tab) => {
                &&& tab@.len() == nmax + 1
                &&& tables_ok(tab@)
                &&& forall|k: int| 0 <= k <= nmax ==> keys_distinct(#[trigger] tab@[k]@)
                &&& forall|k: int, t: nat|
                    0 <= k <= nmax ==> #[trigger] poly_spec(tview(tab@[k]@), t, tab@[k]@.len() as int) == poly_spec(
                        cat_all(k),
                        t,
                        cat_all(k).len() as int,
                    )
                &&& forall|k: int| 2 <= k <= nmax ==> #[trigger] cats_fit(k)
            },
            None => exists|k: int| 2 <= k <= nmax && !#[trigger] cats_fit(k),
        },
{
    let mut tab: Vec<Vec<(i128, Big)>> = Vec::new();
    let mut k = 0usize;
    while k <= nmax
        invariant
            nmax <= 30,
            k <= nmax + 1,
            tab@.len() == k,
            tables_ok(tab@),
            forall|q: int| 0 <= q < k ==> keys_distinct(#[trigger] tab@[q]@),
            forall|q: int, t: nat|
                0 <= q < k ==> #[trigger] poly_spec(tview(tab@[q]@), t, tab@[q]@.len() as int) == poly_spec(cat_all(q), t, cat_all(q).len() as int),
            forall|q: int| 2 <= q < k ==> #[trigger] cats_fit(q),
        decreases nmax + 1 - k,
    {
        if k < 2 {
            let row: Vec<(i128, Big)> = Vec::new();
            proof {
                assert(cat_all(k as int).len() == 0);
            }
            tab.push(row);
        } else {
            match cat_table_row(k) {
                Some(row) => {
                    tab.push(row);
                },
                None => {
                    return None;
                },
            }
        }
        k += 1;
    }
    Some(tab)
}

} // verus!
