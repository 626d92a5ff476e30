//! Canonical strings and automorphism counts of trees, by the rooted
//! parenthesis encoding from the centre (or both centres): the children's
//! strings sorted, repeated subtrees contributing the factorial of their
//! multiplicity to the automorphism count.
use vstd::prelude::*;
use vstd::relations::{sorted_by, total_ordering};
use crate::burnside::{fact, lemma_fact_pos};
use crate::two_paradox::factorial;
use crate::shapes::nested;

verus! {

/// Byte-string order `a < b`: lexicographic, a proper prefix first.
pub open spec fn blt(a: Seq<u8>, b: Seq<u8>) -> bool
    decreases a.len(),
{
    if a.len() == 0 {
        b.len() > 0
    } else if b.len() == 0 {
        false
    } else if a[0] != b[0] {
        a[0] < b[0]
    } else {
        blt(a.drop_first(), b.drop_first())
    }
}

/// Byte-string order `a <= b`.
pub open spec fn ble(a: Seq<u8>, b: Seq<u8>) -> bool {
    a == b || blt(a, b)
}

/// `ble` as a relation.
pub open spec fn ble_rel() -> spec_fn(Seq<u8>, Seq<u8>) -> bool {
    |a: Seq<u8>, b: Seq<u8>| ble(a, b)
}

proof fn lemma_blt_irrefl(a: Seq<u8>)
    ensures
        !blt(a, a),
    decreases a.len(),
{
    if a.len() > 0 {
        lemma_blt_irrefl(a.drop_first());
    }
}

proof fn lemma_blt_trans(a: Seq<u8>, b: Seq<u8>, c: Seq<u8>)
    requires
        blt(a, b),
        blt(b, c),
    ensures
        blt(a, c),
    decreases a.len(),
{
    if a.len() > 0 && b.len() > 0 && c.len() > 0 && a[0] == b[0] && b[0] == c[0] {
        lemma_blt_trans(a.drop_first(), b.drop_first(), c.drop_first());
    }
}

proof fn lemma_blt_total(a: Seq<u8>, b: Seq<u8>)
    ensures
        blt(a, b) || blt(b, a) || a == b,
    decreases a.len(),
{
    if a.len() > 0 && b.len() > 0 && a[0] == b[0] {
        lemma_blt_total(a.drop_first(), b.drop_first());
        if a.drop_first() == b.drop_first() {
            assert(a =~= seq![a[0]] + a.drop_first());
            assert(b =~= seq![b[0]] + b.drop_first());
        }
    } else if a.len() == 0 && b.len() == 0 {
        assert(a =~= b);
    }
}

proof fn lemma_blt_asym(a: Seq<u8>, b: Seq<u8>)
    requires
        blt(a, b),
    ensures
        !blt(b, a),
{
    if blt(b, a) {
        lemma_blt_trans(a, b, a);
        lemma_blt_irrefl(a);
    }
}

/// `ble` is a total order.
pub proof fn lemma_ble_total_ordering()
    ensures
        total_ordering(ble_rel()),
{
    assert forall|a: Seq<u8>| #[trigger] ble_rel()(a, a) by {
    }
    assert forall|a: Seq<u8>, b: Seq<u8>| #[trigger] ble_rel()(a, b) && #[trigger] ble_rel()(b, a) implies a == b by {
        if a != b {
            lemma_blt_asym(a, b);
        }
    }
    assert forall|a: Seq<u8>, b: Seq<u8>, c: Seq<u8>| #[trigger] ble_rel()(a, b) && #[trigger] ble_rel()(b, c) implies ble_rel()(a, c) by {
        if a != b && b != c {
            lemma_blt_trans(a, b, c);
        }
    }
    assert forall|a: Seq<u8>, b: Seq<u8>| #[trigger] ble_rel()(a, b) || #[trigger] ble_rel()(b, a) by {
        lemma_blt_total(a, b);
    }
}

proof fn lemma_blt_step(a: Seq<u8>, b: Seq<u8>, i: int)
    requires
        0 <= i < a.len(),
        i < b.len(),
        forall|t: int| 0 <= t < i ==> a[t] == b[t],
    ensures
        blt(a, b) == if a[i] != b[i] {
            a[i] < b[i]
        } else {
            blt(a.subrange(i + 1, a.len() as int), b.subrange(i + 1, b.len() as int))
        },
    decreases i,
{
    if i == 0 {
        assert(a.drop_first() =~= a.subrange(1, a.len() as int));
        assert(b.drop_first() =~= b.subrange(1, b.len() as int));
    } else {
        lemma_blt_step(a.drop_first(), b.drop_first(), i - 1);
        assert(a.drop_first().subrange(i, a.len() - 1) =~= a.subrange(i + 1, a.len() as int));
        assert(b.drop_first().subrange(i, b.len() - 1) =~= b.subrange(i + 1, b.len() as int));
    }
}

proof fn lemma_blt_tail(a: Seq<u8>, b: Seq<u8>, i: int)
    requires
        0 <= i <= a.len(),
        i <= b.len(),
        i == a.len() || i == b.len(),
        forall|t: int| 0 <= t < i ==> a[t] == b[t],
    ensures
        blt(a, b) == (a.len() == i && b.len() > i),
    decreases i,
{
    if i > 0 {
        lemma_blt_tail(a.drop_first(), b.drop_first(), i - 1);
    }
}

/// `a < b` in byte-string order.
pub fn bytes_lt(a: &Vec<u8>, b: &Vec<u8>) -> (r: bool)
    ensures
        r == blt(a@, b@),
{
    let mut i = 0usize;
    while i < a.len() && i < b.len()
        invariant
            i <= a@.len(),
            i <= b@.len(),
            forall|t: int| 0 <= t < i ==> a@[t] == b@[t],
        decreases a@.len() - i,
    {
        proof {
            lemma_blt_step(a@, b@, i as int);
        }
        if a[i] != b[i] {
            return a[i] < b[i];
        }
        i += 1;
    }
    proof {
        lemma_blt_tail(a@, b@, i as int);
    }
    a.len() == i && b.len() > i
}

/// `a == b` for byte strings.
pub fn bytes_eq(a: &Vec<u8>, b: &Vec<u8>) -> (r: bool)
    ensures
        r == (a@ == b@),
{
    if a.len() != b.len() {
        return false;
    }
    let mut i = 0usize;
    while i < a.len()
        invariant
            i <= a@.len(),
            a@.len() == b@.len(),
            forall|q: int| 0 <= q < i ==> a@[q] == b@[q],
        decreases a@.len() - i,
    {
        if a[i] != b[i] {
            return false;
        }
        i += 1;
    }
    proof {
        assert(a@ =~= b@);
    }
    true
}

/// Neighbour lists of at most 64 vertices, each of length at most 30, naming vertices in range.
pub open spec fn adj_ok(adj: Seq<Seq<usize>>) -> bool {
    &&& adj.len() <= 64
    &&& forall|v: int| 0 <= v < adj.len() ==> (#[trigger] adj[v]).len() <= 30
    &&& forall|v: int, t: int| 0 <= v < adj.len() && 0 <= t < adj[v].len() ==> #[trigger] adj[v][t] < adj.len()
}

/// The strings of a list of (string, count) results.
pub open spec fn kid_strs(k: Seq<(Seq<u8>, int)>) -> Seq<Seq<u8>> {
    Seq::new(k.len(), |i: int| k[i].0)
}

/// The product of the counts of a list of results.
pub open spec fn kid_aut(k: Seq<(Seq<u8>, int)>) -> int
    decreases k.len(),
{
    if k.len() == 0 {
        1
    } else {
        kid_aut(k.drop_last()) * k.last().1
    }
}

/// The strings of a list, concatenated.
pub open spec fn concat(ss: Seq<Seq<u8>>) -> Seq<u8>
    decreases ss.len(),
{
    if ss.len() == 0 {
        Seq::empty()
    } else {
        concat(ss.drop_last()) + ss.last()
    }
}

/// End of the run of entries equal to `s[i]`, scanning from `j`.
pub open spec fn run_end(s: Seq<Seq<u8>>, i: int, j: int) -> int
    decreases s.len() - j,
{
    if j >= s.len() || s[j] != s[i] {
        j
    } else {
        run_end(s, i, j + 1)
    }
}

pub proof fn lemma_run_end_ge(s: Seq<Seq<u8>>, i: int, j: int)
    ensures
        run_end(s, i, j) >= j,
        j <= s.len() ==> run_end(s, i, j) <= s.len(),
        forall|q: int| j <= q < run_end(s, i, j) ==> #[trigger] s[q] == s[i],
    decreases s.len() - j,
{
    if !(j >= s.len() || s[j] != s[i]) {
        lemma_run_end_ge(s, i, j + 1);
    }
}

/// The product of the factorials of the lengths of the runs of equal entries of `s` from `i`.
pub open spec fn run_prod_from(s: Seq<Seq<u8>>, i: int) -> int
    decreases s.len() - i,
{
    if i >= s.len() || i < 0 {
        1
    } else {
        let j = run_end(s, i, i + 1);
        proof {
            lemma_run_end_ge(s, i, i + 1);
        }
        fact((j - i) as nat) * run_prod_from(s, j)
    }
}

/// The canonical string and automorphism count of the subtree below `v`
/// (away from `parent`, `-1` for none), looking `fuel` levels deep.
pub open spec fn rooted_spec(adj: Seq<Seq<usize>>, v: int, parent: int, fuel: nat) -> (Seq<u8>, int)
    decreases fuel, adj[v].len() + 1,
{
    if fuel == 0 {
        (seq![40u8, 41u8], 1)
    } else {
        let kids = kid_specs(adj, v, parent, fuel, adj[v].len() as int);
        let strs = kid_strs(kids).sort_by(ble_rel());
        (seq![40u8] + concat(strs) + seq![41u8], kid_aut(kids) * run_prod_from(strs, 0))
    }
}

/// The results of the first `i` neighbours of `v` other than `parent`.
pub open spec fn kid_specs(adj: Seq<Seq<usize>>, v: int, parent: int, fuel: nat, i: int) -> Seq<(Seq<u8>, int)>
    decreases fuel, i,
{
    if i <= 0 || fuel == 0 {
        Seq::empty()
    } else {
        let c = adj[v][i - 1];
        kid_specs(adj, v, parent, fuel, i - 1) + if c as int != parent {
            seq![rooted_spec(adj, c as int, v, (fuel - 1) as nat)]
        } else {
            Seq::empty()
        }
    }
}

proof fn lemma_run_prod_pos(s: Seq<Seq<u8>>, i: int)
    ensures
        run_prod_from(s, i) >= 1,
    decreases s.len() - i,
{
    if !(i >= s.len() || i < 0) {
        let j = run_end(s, i, i + 1);
        lemma_run_end_ge(s, i, i + 1);
        lemma_run_prod_pos(s, j);
        lemma_fact_pos((j - i) as nat);
        let a = fact((j - i) as nat);
        let b = run_prod_from(s, j);
        assert(a * b >= 1) by (nonlinear_arith)
            requires
                a >= 1,
                b >= 1,
        ;
    }
}

/// Every count of the results is at least one.
pub open spec fn counts_pos(k: Seq<(Seq<u8>, int)>) -> bool {
    forall|i: int| 0 <= i < k.len() ==> (#[trigger] k[i]).1 >= 1
}

proof fn lemma_kid_aut_pos(k: Seq<(Seq<u8>, int)>)
    requires
        counts_pos(k),
    ensures
        kid_aut(k) >= 1,
    decreases k.len(),
{
    if k.len() > 0 {
        lemma_kid_aut_pos(k.drop_last());
        let a = kid_aut(k.drop_last());
        let b = k.last().1;
        assert(a * b >= 1) by (nonlinear_arith)
            requires
                a >= 1,
                b >= 1,
        ;
    }
}

proof fn lemma_rooted_pos(adj: Seq<Seq<usize>>, v: int, parent: int, fuel: nat)
    ensures
        rooted_spec(adj, v, parent, fuel).1 >= 1,
    decreases fuel, adj[v].len() + 1,
{
    if fuel > 0 {
        let kids = kid_specs(adj, v, parent, fuel, adj[v].len() as int);
        lemma_kid_specs_pos(adj, v, parent, fuel, adj[v].len() as int);
        lemma_kid_aut_pos(kids);
        lemma_run_prod_pos(kid_strs(kids).sort_by(ble_rel()), 0);
        let a = kid_aut(kids);
        let b = run_prod_from(kid_strs(kids).sort_by(ble_rel()), 0);
        assert(a * b >= 1) by (nonlinear_arith)
            requires
                a >= 1,
                b >= 1,
        ;
    }
}

proof fn lemma_kid_specs_pos(adj: Seq<Seq<usize>>, v: int, parent: int, fuel: nat, i: int)
    ensures
        counts_pos(kid_specs(adj, v, parent, fuel, i)),
    decreases fuel, i,
{
    if !(i <= 0 || fuel == 0) {
        lemma_kid_specs_pos(adj, v, parent, fuel, i - 1);
        let c = adj[v][i - 1];
        if c as int != parent {
            lemma_rooted_pos(adj, c as int, v, (fuel - 1) as nat);
        }
        let k = kid_specs(adj, v, parent, fuel, i);
        let k0 = kid_specs(adj, v, parent, fuel, i - 1);
        assert forall|q: int| 0 <= q < k.len() implies (#[trigger] k[q]).1 >= 1 by {
            if q < k0.len() {
                assert(k[q] == k0[q]);
            }
        }
    }
}

/// The strings of an executable result list.
pub open spec fn pstrs(s: Seq<(Vec<u8>, i128)>) -> Seq<Seq<u8>> {
    Seq::new(s.len(), |q: int| s[q].0@)
}

/// The product of the counts of an executable result list.
pub open spec fn pprod(s: Seq<(Vec<u8>, i128)>) -> int
    decreases s.len(),
{
    if s.len() == 0 {
        1
    } else {
        s[0].1 * pprod(s.drop_first())
    }
}

proof fn lemma_pprod_insert(s: Seq<(Vec<u8>, i128)>, p: int, x: (Vec<u8>, i128))
    requires
        0 <= p <= s.len(),
    ensures
        pprod(s.insert(p, x)) == pprod(s) * x.1,
    decreases s.len(),
{
    if p == 0 {
        assert(s.insert(0, x).drop_first() =~= s);
        assert(x.1 * pprod(s) == pprod(s) * x.1) by (nonlinear_arith);
    } else {
        lemma_pprod_insert(s.drop_first(), p - 1, x);
        assert(s.insert(p, x).drop_first() =~= s.drop_first().insert(p - 1, x));
        assert(s.insert(p, x)[0] == s[0]);
        let a = s[0].1 as int;
        let b = pprod(s.drop_first());
        assert(a * (b * x.1) == (a * b) * x.1) by (nonlinear_arith);
    }
}

proof fn lemma_pprod_prefix(s: Seq<(Vec<u8>, i128)>, q: int)
    requires
        0 <= q < s.len(),
    ensures
        pprod(s.take(q + 1)) == pprod(s.take(q)) * s[q].1,
{
    assert(s.take(q + 1) =~= s.take(q).insert(q, s[q]));
    lemma_pprod_insert(s.take(q), q, s[q]);
}

proof fn lemma_pprod_pos(s: Seq<(Vec<u8>, i128)>)
    requires
        forall|i: int| 0 <= i < s.len() ==> (#[trigger] s[i]).1 >= 1,
    ensures
        pprod(s) >= 1,
    decreases s.len(),
{
    if s.len() > 0 {
        lemma_pprod_pos(s.drop_first());
        let a = s[0].1 as int;
        let b = pprod(s.drop_first());
        assert(a * b >= 1) by (nonlinear_arith)
            requires
                a >= 1,
                b >= 1,
        ;
    }
}

proof fn lemma_pprod_mono(s: Seq<(Vec<u8>, i128)>, q: int)
    requires
        0 <= q <= s.len(),
        forall|i: int| 0 <= i < s.len() ==> (#[trigger] s[i]).1 >= 1,
    ensures
        pprod(s.take(q)) <= pprod(s),
        pprod(s.take(q)) >= 1,
    decreases s.len() - q,
{
    if q == s.len() {
        assert(s.take(q) =~= s);
        lemma_pprod_pos(s);
    } else {
        lemma_pprod_mono(s, q + 1);
        lemma_pprod_prefix(s, q);
        let a = pprod(s.take(q));
        let b = s[q].1 as int;
        lemma_pprod_pos(s.take(q));
        assert(a <= a * b) by (nonlinear_arith)
            requires
                a >= 1,
                b >= 1,
        ;
    }
}

proof fn lemma_concat_push(ss: Seq<Seq<u8>>, q: int)
    requires
        0 <= q < ss.len(),
    ensures
        concat(ss.take(q + 1)) == concat(ss.take(q)) + ss[q],
{
    assert(ss.take(q + 1).drop_last() =~= ss.take(q));
}

proof fn lemma_kid_total(adj: Seq<Seq<usize>>, v: int, parent: int, fuel: nat, i: int, n: int)
    requires
        0 <= i <= n,
        counts_pos(kid_specs(adj, v, parent, fuel, n)),
    ensures
        kid_aut(kid_specs(adj, v, parent, fuel, n)) >= kid_aut(kid_specs(adj, v, parent, fuel, i)),
        kid_aut(kid_specs(adj, v, parent, fuel, i)) >= 1,
    decreases n - i,
{
    let kn = kid_specs(adj, v, parent, fuel, n);
    if i == n {
        lemma_kid_aut_pos(kn);
    } else {
        let km = kid_specs(adj, v, parent, fuel, n - 1);
        if fuel > 0 && n > 0 {
            assert forall|q: int| 0 <= q < km.len() implies (#[trigger] km[q]).1 >= 1 by {
                assert(kn[q] == km[q]);
            }
        }
        if fuel == 0 || n <= 0 {
            assert(km =~= kn);
        }
        lemma_kid_total(adj, v, parent, fuel, i, n - 1);
        lemma_kid_aut_pos(km);
        if fuel > 0 && n > 0 && adj[v][n - 1] as int != parent {
            assert(kn.drop_last() =~= km);
            let a = kid_aut(km);
            let b = kn.last().1;
            assert(a * b >= a) by (nonlinear_arith)
                requires
                    a >= 1,
                    b >= 1,
            ;
        } else if fuel > 0 && n > 0 {
            assert(kn =~= km);
        }
    }
}

proof fn lemma_rooted_total(adj: Seq<Seq<usize>>, v: int, parent: int, fuel: nat, all: Seq<(Seq<u8>, int)>, strs: Seq<Seq<u8>>)
    requires
        fuel >= 1,
        all == kid_specs(adj, v, parent, fuel, adj[v].len() as int),
        strs == kid_strs(all).sort_by(ble_rel()),
    ensures
        rooted_spec(adj, v, parent, fuel) == (seq![40u8] + concat(strs) + seq![41u8], kid_aut(all) * run_prod_from(strs, 0)),
{
}

/// The canonical string and automorphism count of the subtree below `v` away
/// from `parent` (`-1` for none), `fuel` levels deep; `None` exactly when the
/// count does not fit in an `i128`.
pub fn rooted(v: usize, parent: isize, adj: &Vec<Vec<usize>>, fuel: usize) -> (r: Option<(Vec<u8>, i128)>)
    requires
        adj_ok(nested(adj@)),
        v < adj@.len(),
        -1 <= parent < 64,
    ensures
        match r {
            Some(x) => x.0@ == rooted_spec(nested(adj@), v as int, parent as int, fuel as nat).0 && x.1 as int == rooted_spec(
                nested(adj@),
                v as int,
                parent as int,
                fuel as nat,
            ).1,
            None => rooted_spec(nested(adj@), v as int, parent as int, fuel as nat).1 > i128::MAX,
        },
    decreases fuel,
{
    let ghost a = nested(adj@);
    if fuel == 0 {
        let mut e: Vec<u8> = Vec::new();
        e.push(40u8);
        e.push(41u8);
        proof {
            assert(e@ =~= seq![40u8, 41u8]);
        }
        return Some((e, 1));
    }
    let row = &adj[v];
    proof {
        assert(row@ == a[v as int]);
    }
    let ghost all = kid_specs(a, v as int, parent as int, fuel as nat, row@.len() as int);
    proof {
        lemma_kid_specs_pos(a, v as int, parent as int, fuel as nat, row@.len() as int);
        lemma_ble_total_ordering();
    }
    let mut sorted: Vec<(Vec<u8>, i128)> = Vec::new();
    let mut i = 0usize;
    proof {
        assert(kid_strs(kid_specs(a, v as int, parent as int, fuel as nat, 0)) =~= Seq::<Seq<u8>>::empty());
        assert(pstrs(sorted@) =~= Seq::<Seq<u8>>::empty());
    }
    while i < row.len()
        invariant
            adj_ok(a),
            a == nested(adj@),
            v < a.len(),
            row@ == a[v as int],
            -1 <= parent < 64,
            fuel >= 1,
            i <= row@.len(),
            total_ordering(ble_rel()),
            all == kid_specs(a, v as int, parent as int, fuel as nat, row@.len() as int),
            counts_pos(all),
            sorted_by(pstrs(sorted@), ble_rel()),
            pstrs(sorted@).to_multiset() == kid_strs(kid_specs(a, v as int, parent as int, fuel as nat, i as int)).to_multiset(),
            pprod(sorted@) == kid_aut(kid_specs(a, v as int, parent as int, fuel as nat, i as int)),
            forall|q: int| 0 <= q < sorted@.len() ==> (#[trigger] sorted@[q]).1 >= 1,
            sorted@.len() <= i,
            row@.len() <= 30,
        decreases row@.len() - i,
    {
        let c = row[i];
        let ghost ki = kid_specs(a, v as int, parent as int, fuel as nat, i as int);
        let ghost ki1 = kid_specs(a, v as int, parent as int, fuel as nat, i + 1);
        proof {
            assert(c < a.len());
        }
        if c as isize != parent {
            let ghost kr = rooted_spec(a, c as int, v as int, (fuel - 1) as nat);
            proof {
                assert(ki1 == ki + seq![kr]);
                assert(ki1.drop_last() =~= ki);
            }
            match rooted(c, v as isize, adj, fuel - 1) {
                None => {
                    proof {
                        lemma_kid_total(a, v as int, parent as int, fuel as nat, i + 1, row@.len() as int);
                        lemma_kid_total(a, v as int, parent as int, fuel as nat, i as int, row@.len() as int);
                        lemma_rooted_pos(a, v as int, parent as int, fuel as nat);
                        let ka = kid_aut(ki);
                        assert(ka * kr.1 >= kr.1) by (nonlinear_arith)
                            requires
                                ka >= 1,
                                kr.1 >= 1,
                        ;
                        lemma_run_prod_pos(kid_strs(all).sort_by(ble_rel()), 0);
                        lemma_rooted_total(a, v as int, parent as int, fuel as nat, all, kid_strs(all).sort_by(ble_rel()));
                        let t = kid_aut(all);
                        let rp = run_prod_from(kid_strs(all).sort_by(ble_rel()), 0);
                        assert(t * rp >= t) by (nonlinear_arith)
                            requires
                                t >= 1,
                                rp >= 1,
                        ;
                    }
                    return None;
                },
                Some(x) => {
                    let (sx, ax) = x;
                    proof {
                        lemma_rooted_pos(a, c as int, v as int, (fuel - 1) as nat);
                    }
                    let mut p = 0usize;
                    while p < sorted.len()
                        invariant
                            p <= sorted@.len(),
                            total_ordering(ble_rel()),
                            sorted_by(pstrs(sorted@), ble_rel()),
                            forall|q: int| 0 <= q < p ==> ble(#[trigger] pstrs(sorted@)[q], sx@),
                        ensures
                            p <= sorted@.len(),
                            forall|q: int| 0 <= q < p ==> ble(#[trigger] pstrs(sorted@)[q], sx@),
                            p < sorted@.len() ==> blt(sx@, pstrs(sorted@)[p as int]),
                        decreases sorted@.len() - p,
                    {
                        if bytes_lt(&sx, &sorted[p].0) {
                            break;
                        }
                        proof {
                            lemma_blt_total(sx@, pstrs(sorted@)[p as int]);
                        }
                        p += 1;
                    }
                    proof {
                        // everything from `p` on is above `sx`
                        assert forall|q: int| p <= q < sorted@.len() implies blt(sx@, #[trigger] pstrs(sorted@)[q]) by {
                            assert(blt(sx@, pstrs(sorted@)[p as int]));
                            if q > p {
                                assert(ble_rel()(pstrs(sorted@)[p as int], pstrs(sorted@)[q]));
                                if pstrs(sorted@)[p as int] != pstrs(sorted@)[q] {
                                    lemma_blt_trans(sx@, pstrs(sorted@)[p as int], pstrs(sorted@)[q]);
                                }
                            }
                        }
                    }
                    let ghost s0 = sorted@;
                    sorted.insert(p, (sx, ax));
                    proof {
                        let item = (sx, ax);
                        assert(pstrs(sorted@) =~= pstrs(s0).insert(p as int, sx@));
                        vstd::seq_lib::to_multiset_insert(pstrs(s0), p as int, sx@);
                        assert(kid_strs(ki1) =~= kid_strs(ki).push(sx@));
                        vstd::seq_lib::to_multiset_build(kid_strs(ki), sx@);
                        lemma_pprod_insert(s0, p as int, item);
                        assert forall|q1: int, q2: int| 0 <= q1 < q2 < sorted@.len() implies #[trigger] ble_rel()(
                            pstrs(sorted@)[q1],
                            pstrs(sorted@)[q2],
                        ) by {
                            if q2 < p {
                                assert(pstrs(sorted@)[q1] == pstrs(s0)[q1]);
                                assert(pstrs(sorted@)[q2] == pstrs(s0)[q2]);
                            } else if q2 == p {
                                assert(pstrs(sorted@)[q1] == pstrs(s0)[q1]);
                            } else if q1 < p {
                                assert(pstrs(sorted@)[q1] == pstrs(s0)[q1]);
                                assert(pstrs(sorted@)[q2] == pstrs(s0)[q2 - 1]);
                                assert(ble(pstrs(s0)[q1], sx@));
                                assert(blt(sx@, pstrs(s0)[q2 - 1]));
                                if pstrs(s0)[q1] != sx@ {
                                    lemma_blt_trans(pstrs(s0)[q1], sx@, pstrs(s0)[q2 - 1]);
                                }
                            } else if q1 == p {
                                assert(pstrs(sorted@)[q2] == pstrs(s0)[q2 - 1]);
                            } else {
                                assert(pstrs(sorted@)[q1] == pstrs(s0)[q1 - 1]);
                                assert(pstrs(sorted@)[q2] == pstrs(s0)[q2 - 1]);
                            }
                        }
                        assert forall|q: int| 0 <= q < sorted@.len() implies (#[trigger] sorted@[q]).1 >= 1 by {
                            if q < p {
                                assert(sorted@[q] == s0[q]);
                            } else if q > p {
                                assert(sorted@[q] == s0[q - 1]);
                            }
                        }
                    }
                },
            }
        } else {
            proof {
                assert(ki1 =~= ki);
            }
        }
        i += 1;
    }
    let ghost strs = kid_strs(all).sort_by(ble_rel());
    proof {
        kid_strs(all).lemma_sort_by_ensures(ble_rel());
        vstd::seq_lib::lemma_sorted_unique(pstrs(sorted@), strs, ble_rel());
        assert(pstrs(sorted@) == strs);
        lemma_run_prod_pos(strs, 0);
    }
    let n = sorted.len();
    let mut aut: i128 = 1;
    let mut q = 0usize;
    while q < n
        invariant
            fuel >= 1,
            a == nested(adj@),
            all == kid_specs(a, v as int, parent as int, fuel as nat, a[v as int].len() as int),
            strs == kid_strs(all).sort_by(ble_rel()),
            pprod(sorted@) == kid_aut(all),
            run_prod_from(strs, 0) >= 1,
            n == sorted@.len(),
            q <= n,
            forall|x: int| 0 <= x < sorted@.len() ==> (#[trigger] sorted@[x]).1 >= 1,
            aut as int == pprod(sorted@.take(q as int)),
            aut >= 1,
        decreases n - q,
    {
        proof {
            lemma_pprod_prefix(sorted@, q as int);
        }
        match aut.checked_mul(sorted[q].1) {
            None => {
                proof {
                    lemma_pprod_mono(sorted@, q + 1);
                    let t = pprod(sorted@);
                    let rp = run_prod_from(strs, 0);
                    assert(t * rp >= t) by (nonlinear_arith)
                        requires
                            t >= 1,
                            rp >= 1,
                    ;
                }
                return None;
            },
            Some(x) => {
                proof {
                    let b = sorted@[q as int].1 as int;
                    assert(aut * b >= 1) by (nonlinear_arith)
                        requires
                            aut >= 1,
                            b >= 1,
                    ;
                }
                aut = x;
            },
        }
        q += 1;
    }
    proof {
        assert(sorted@.take(n as int) =~= sorted@);
    }
    let ghost total = pprod(sorted@) * run_prod_from(strs, 0);
    let mut i = 0usize;
    while i < n
        invariant
            fuel >= 1,
            a == nested(adj@),
            all == kid_specs(a, v as int, parent as int, fuel as nat, a[v as int].len() as int),
            strs == kid_strs(all).sort_by(ble_rel()),
            total == kid_aut(all) * run_prod_from(strs, 0),
            n == sorted@.len(),
            n <= 30,
            pstrs(sorted@) == strs,
            i <= n,
            aut >= 1,
            aut as int * run_prod_from(strs, i as int) == total,
        decreases n - i,
    {
        let mut j = i + 1;
        while j < n && bytes_eq(&sorted[j].0, &sorted[i].0)
            invariant
                n == sorted@.len(),
                pstrs(sorted@) == strs,
                i < j <= n,
                run_end(strs, i as int, j as int) == run_end(strs, i as int, i + 1),
            decreases n - j,
        {
            j += 1;
        }
        proof {
            assert(run_end(strs, i as int, j as int) == j);
            lemma_run_end_ge(strs, i as int, i + 1);
            lemma_run_prod_pos(strs, j as int);
            lemma_fact_pos((j - i) as nat);
        }
        let f = factorial((j - i) as i128);
        match aut.checked_mul(f) {
            None => {
                proof {
                    let rp = run_prod_from(strs, j as int);
                    let af = aut * f;
                    assert(af >= 1) by (nonlinear_arith)
                        requires
                            aut >= 1,
                            f >= 1,
                            af == aut * f,
                    ;
                    assert(af * rp >= af) by (nonlinear_arith)
                        requires
                            af >= 1,
                            rp >= 1,
                    ;
                    assert(aut * run_prod_from(strs, i as int) == aut * (f * rp));
                    assert(aut * (f * rp) == af * rp) by (nonlinear_arith)
                        requires
                            af == aut * f,
                    ;
                    assert(aut >= 1);
                    lemma_rooted_total(a, v as int, parent as int, fuel as nat, all, strs);
                }
                return None;
            },
            Some(x) => {
                proof {
                    let rp = run_prod_from(strs, j as int);
                    assert(aut * run_prod_from(strs, i as int) == aut * (f * rp));
                    assert(aut * (f * rp) == (aut * f) * rp) by (nonlinear_arith);
                    assert(aut * f >= 1) by (nonlinear_arith)
                        requires
                            aut >= 1,
                            f >= 1,
                    ;
                }
                aut = x;
            },
        }
        i = j;
    }
    let mut out: Vec<u8> = Vec::new();
    out.push(40u8);
    let mut q = 0usize;
    while q < n
        invariant
            n == sorted@.len(),
            pstrs(sorted@) == strs,
            q <= n,
            out@ == seq![40u8] + concat(strs.take(q as int)),
        decreases n - q,
    {
        let piece = &sorted[q].0;
        let ghost o0 = out@;
        let mut b = 0usize;
        while b < piece.len()
            invariant
                b <= piece@.len(),
                out@ == o0 + piece@.take(b as int),
            decreases piece@.len() - b,
        {
            out.push(piece[b]);
            proof {
                assert(piece@.take(b + 1) =~= piece@.take(b as int).push(piece@[b as int]));
            }
            b += 1;
        }
        proof {
            assert(piece@.take(piece@.len() as int) =~= piece@);
            lemma_concat_push(strs, q as int);
            assert(strs[q as int] == piece@);
        }
        q += 1;
    }
    out.push(41u8);
    proof {
        assert(strs.take(n as int) =~= strs);
        assert(out@ =~= seq![40u8] + concat(strs) + seq![41u8]);
        lemma_rooted_total(a, v as int, parent as int, fuel as nat, all, strs);
    }
    Some((out, aut))
}

/// Leaf stripping state: remaining degrees, removed marks, count left, next layer.
pub type StripState = (Seq<int>, Seq<bool>, int, Seq<int>);

/// Neighbour `j` of the vertex `v` being stripped: its degree drops, and it
/// joins the next layer when that leaves it a leaf.
pub open spec fn nb_step(adj: Seq<Seq<usize>>, st: StripState, v: int, j: int) -> StripState {
    let u = adj[v][j] as int;
    if !st.1[u] {
        let d2 = if st.0[u] > 0 { st.0.update(u, st.0[u] - 1) } else { st.0 };
        (d2, st.1, st.2, if d2[u] == 1 { st.3.push(u) } else { st.3 })
    } else {
        st
    }
}

/// The first `j` neighbours of `v` processed.
pub open spec fn nb_fold(adj: Seq<Seq<usize>>, st: StripState, v: int, j: int) -> StripState
    decreases j,
{
    if j <= 0 {
        st
    } else {
        nb_step(adj, nb_fold(adj, st, v, j - 1), v, j - 1)
    }
}

/// Strips the vertex `v`.
pub open spec fn vertex_step(adj: Seq<Seq<usize>>, st: StripState, v: int) -> StripState {
    let st1 = (st.0, st.1.update(v, true), if st.2 > 0 { st.2 - 1 } else { st.2 }, st.3);
    nb_fold(adj, st1, v, adj[v].len() as int)
}

/// Strips the first `i` vertices of `layer`.
pub open spec fn layer_fold(adj: Seq<Seq<usize>>, st: StripState, layer: Seq<int>, i: int) -> StripState
    decreases i,
{
    if i <= 0 {
        st
    } else {
        vertex_step(adj, layer_fold(adj, st, layer, i - 1), layer[i - 1])
    }
}

/// Strips whole layers of leaves while more than two vertices remain (at most `fuel` layers).
pub open spec fn strip(adj: Seq<Seq<usize>>, d: Seq<int>, rm: Seq<bool>, cnt: int, layer: Seq<int>, fuel: nat) -> Seq<bool>
    decreases fuel,
{
    if fuel == 0 || cnt <= 2 {
        rm
    } else {
        let st = layer_fold(adj, (d, rm, cnt, Seq::empty()), layer, layer.len() as int);
        strip(adj, st.0, st.1, st.2, st.3, (fuel - 1) as nat)
    }
}

/// The vertices among the first `n` of degree one, in order.
pub open spec fn leaves_upto(adj: Seq<Seq<usize>>, n: int) -> Seq<int>
    decreases n,
{
    if n <= 0 {
        Seq::empty()
    } else {
        leaves_upto(adj, n - 1) + if adj[n - 1].len() == 1 { seq![n - 1] } else { Seq::empty() }
    }
}

/// The vertices among the first `n` not removed, in order.
pub open spec fn kept_upto(rm: Seq<bool>, n: int) -> Seq<int>
    decreases n,
{
    if n <= 0 {
        Seq::empty()
    } else {
        kept_upto(rm, n - 1) + if !rm[n - 1] { seq![n - 1] } else { Seq::empty() }
    }
}

/// The centre (or the two centres) of a tree on `k` vertices, by stripping
/// layers of leaves until at most two vertices remain.
pub open spec fn centers_spec(adj: Seq<Seq<usize>>, k: int) -> Seq<int> {
    if k == 1 {
        seq![0]
    } else {
        let d0 = Seq::new(k as nat, |v: int| adj[v].len() as int);
        let rm0 = Seq::new(k as nat, |v: int| false);
        kept_upto(strip(adj, d0, rm0, k, leaves_upto(adj, k), k as nat), k)
    }
}

/// The centres of the tree with neighbour lists `adj` on `k` vertices.
pub fn tree_centers(k: usize, adj: &Vec<Vec<usize>>) -> (r: Vec<usize>)
    requires
        1 <= k,
        adj@.len() == k,
        adj_ok(nested(adj@)),
    ensures
        r@.len() == centers_spec(nested(adj@), k as int).len(),
        forall|i: int| 0 <= i < r@.len() ==> #[trigger] r@[i] as int == centers_spec(nested(adj@), k as int)[i],
        forall|i: int| 0 <= i < r@.len() ==> #[trigger] r@[i] < k,
{
    let ghost a = nested(adj@);
    if k == 1 {
        let mut r: Vec<usize> = Vec::new();
        r.push(0);
        return r;
    }
    let mut d: Vec<usize> = Vec::new();
    let mut removed: Vec<bool> = Vec::new();
    let mut layer: Vec<usize> = Vec::new();
    let mut v = 0usize;
    while v < k
        invariant
            k == adj@.len(),
            a == nested(adj@),
            adj_ok(a),
            v <= k,
            d@.len() == v,
            removed@.len() == v,
            forall|x: int| 0 <= x < v ==> #[trigger] d@[x] as int == a[x].len(),
            forall|x: int| 0 <= x < v ==> !#[trigger] removed@[x],
            layer@.len() == leaves_upto(a, v as int).len(),
            forall|x: int| 0 <= x < layer@.len() ==> #[trigger] layer@[x] as int == leaves_upto(a, v as int)[x],
            forall|x: int| 0 <= x < layer@.len() ==> #[trigger] layer@[x] < v,
        decreases k - v,
    {
        let deg = adj[v].len();
        d.push(deg);
        removed.push(false);
        let ghost l0 = layer@;
        if deg == 1 {
            layer.push(v);
        }
        proof {
            assert(a[v as int] == adj@[v as int]@);
            assert forall|x: int| 0 <= x < layer@.len() implies #[trigger] layer@[x] as int == leaves_upto(a, v + 1)[x] by {
                if x < l0.len() {
                    assert(layer@[x] == l0[x]);
                }
            }
        }
        v += 1;
    }
    let ghost d0 = Seq::new(k as nat, |x: int| a[x].len() as int);
    let ghost rm0 = Seq::new(k as nat, |x: int| false);
    proof {
        assert(Seq::new(d@.len(), |x: int| d@[x] as int) =~= d0);
        assert(removed@ =~= rm0);
        assert(Seq::new(layer@.len(), |x: int| layer@[x] as int) =~= leaves_upto(a, k as int));
    }
    let mut cnt = k;
    let mut rounds = 0usize;
    while cnt > 2 && rounds < k
        invariant
            k == adj@.len(),
            a == nested(adj@),
            adj_ok(a),
            d@.len() == k,
            removed@.len() == k,
            rounds <= k,
            forall|x: int| 0 <= x < layer@.len() ==> #[trigger] layer@[x] < k,
            strip(a, Seq::new(k as nat, |x: int| d@[x] as int), removed@, cnt as int, Seq::new(layer@.len(), |x: int| layer@[x] as int), (k - rounds) as nat)
                == strip(a, d0, rm0, k as int, leaves_upto(a, k as int), k as nat),
        decreases k - rounds,
    {
        let ghost dsv = Seq::new(k as nat, |x: int| d@[x] as int);
        let ghost lsv = Seq::new(layer@.len(), |x: int| layer@[x] as int);
        let ghost st0: StripState = (dsv, removed@, cnt as int, Seq::<int>::empty());
        let ghost fuel: nat = (k - rounds) as nat;
        let mut nxt: Vec<usize> = Vec::new();
        proof {
            assert(layer_fold(a, st0, lsv, 0) == st0);
            assert(Seq::new(nxt@.len(), |x: int| nxt@[x] as int) =~= Seq::<int>::empty());
        }
        let mut i = 0usize;
        while i < layer.len()
            invariant
                k == adj@.len(),
                a == nested(adj@),
                adj_ok(a),
                d@.len() == k,
                removed@.len() == k,
                i <= layer@.len(),
                lsv == Seq::new(layer@.len(), |x: int| layer@[x] as int),
                st0.0 == dsv,
                st0.2 > 2,
                st0.3 == Seq::<int>::empty(),
                fuel >= 1,
                forall|x: int| 0 <= x < layer@.len() ==> #[trigger] layer@[x] < k,
                forall|x: int| 0 <= x < nxt@.len() ==> #[trigger] nxt@[x] < k,
                layer_fold(a, st0, lsv, i as int) == (
                    Seq::new(k as nat, |x: int| d@[x] as int),
                    removed@,
                    cnt as int,
                    Seq::new(nxt@.len(), |x: int| nxt@[x] as int),
                ),
            decreases layer@.len() - i,
        {
            let v = layer[i];
            let ghost before: StripState = (Seq::new(k as nat, |x: int| d@[x] as int), removed@, cnt as int, Seq::new(nxt@.len(), |x: int| nxt@[x] as int));
            removed.set(v, true);
            if cnt > 0 {
                cnt -= 1;
            }
            let row = &adj[v];
            proof {
                assert(row@ == a[v as int]);
                assert((before.0, before.1.update(v as int, true), if before.2 > 0 { before.2 - 1 } else { before.2 }, before.3) == (
                    Seq::new(k as nat, |x: int| d@[x] as int),
                    removed@,
                    cnt as int,
                    Seq::new(nxt@.len(), |x: int| nxt@[x] as int),
                ));
            }
            let ghost st1: StripState = (Seq::new(k as nat, |x: int| d@[x] as int), removed@, cnt as int, Seq::new(nxt@.len(), |x: int| nxt@[x] as int));
            let mut j = 0usize;
            while j < row.len()
                invariant
                    k == adj@.len(),
                    a == nested(adj@),
                    adj_ok(a),
                    v < k,
                    row@ == a[v as int],
                    d@.len() == k,
                    removed@.len() == k,
                    j <= row@.len(),
                    forall|x: int| 0 <= x < nxt@.len() ==> #[trigger] nxt@[x] < k,
                    nb_fold(a, st1, v as int, j as int) == (
                        Seq::new(k as nat, |x: int| d@[x] as int),
                        removed@,
                        cnt as int,
                        Seq::new(nxt@.len(), |x: int| nxt@[x] as int),
                    ),
                decreases row@.len() - j,
            {
                let u = row[j];
                proof {
                    assert(u < k);
                }
                let ghost pre: StripState = (Seq::new(k as nat, |x: int| d@[x] as int), removed@, cnt as int, Seq::new(nxt@.len(), |x: int| nxt@[x] as int));
                if !removed[u] {
                    if d[u] > 0 {
                        let du = d[u] - 1;
                        d.set(u, du);
                    }
                    if d[u] == 1 {
                        nxt.push(u);
                    }
                }
                proof {
                    let post = nb_step(a, pre, v as int, j as int);
                    assert(post.0 =~= Seq::new(k as nat, |x: int| d@[x] as int));
                    assert(post.3 =~= Seq::new(nxt@.len(), |x: int| nxt@[x] as int));
                }
                j += 1;
            }
            proof {
                assert(vertex_step(a, before, v as int) == nb_fold(a, st1, v as int, row@.len() as int));
                assert(lsv[i as int] == v as int);
            }
            i += 1;
        }
        proof {
            assert(lsv.len() == layer@.len());
            let newd = Seq::new(k as nat, |x: int| d@[x] as int);
            let newl = Seq::new(nxt@.len(), |x: int| nxt@[x] as int);
            assert(strip(a, st0.0, st0.1, st0.2, lsv, fuel) == strip(a, newd, removed@, cnt as int, newl, (fuel - 1) as nat));
        }
        layer = nxt;
        rounds += 1;
    }
    proof {
        assert(removed@ == strip(a, d0, rm0, k as int, leaves_upto(a, k as int), k as nat));
    }
    let mut r: Vec<usize> = Vec::new();
    let mut x = 0usize;
    while x < k
        invariant
            k == adj@.len(),
            removed@.len() == k,
            x <= k,
            r@.len() == kept_upto(removed@, x as int).len(),
            forall|q: int| 0 <= q < r@.len() ==> #[trigger] r@[q] as int == kept_upto(removed@, x as int)[q],
            forall|q: int| 0 <= q < r@.len() ==> #[trigger] r@[q] < x,
        decreases k - x,
    {
        let ghost r0 = r@;
        if !removed[x] {
            r.push(x);
        }
        proof {
            assert forall|q: int| 0 <= q < r@.len() implies #[trigger] r@[q] as int == kept_upto(removed@, x + 1)[q] by {
                if q < r0.len() {
                    assert(r@[q] == r0[q]);
                }
            }
        }
        x += 1;
    }
    r
}

/// The canonical string and automorphism count of a tree on `k` vertices:
/// rooted at its centre, or, for two centres, the two halves in order under
/// `BI(..|..)` with the swap counted when they agree (none without a centre).
pub open spec fn tree_canon_spec(adj: Seq<Seq<usize>>, k: int) -> Option<(Seq<u8>, int)> {
    let ctr = centers_spec(adj, k);
    if ctr.len() == 1 {
        Some(rooted_spec(adj, ctr[0], -1, k as nat))
    } else if ctr.len() >= 2 {
        let r1 = rooted_spec(adj, ctr[0], ctr[1], k as nat);
        let r2 = rooted_spec(adj, ctr[1], ctr[0], k as nat);
        let lo = if ble(r1.0, r2.0) { r1.0 } else { r2.0 };
        let hi = if ble(r1.0, r2.0) { r2.0 } else { r1.0 };
        Some((
            seq![66u8, 73u8, 40u8] + lo + seq![124u8] + hi + seq![41u8],
            r1.1 * r2.1 * if r1.0 == r2.0 { 2int } else { 1int },
        ))
    } else {
        None
    }
}

fn append_bytes(out: &mut Vec<u8>, piece: &Vec<u8>)
    ensures
        final(out)@ == old(out)@ + piece@,
{
    let mut b = 0usize;
    while b < piece.len()
        invariant
            b <= piece@.len(),
            out@ == old(out)@ + piece@.take(b as int),
        decreases piece@.len() - b,
    {
        out.push(piece[b]);
        proof {
            assert(piece@.take(b + 1) =~= piece@.take(b as int).push(piece@[b as int]));
        }
        b += 1;
    }
    proof {
        assert(piece@.take(piece@.len() as int) =~= piece@);
    }
}

/// The canonical string and automorphism count of the tree with neighbour
/// lists `adj` on `k` vertices; `None` when it has no centre or the count does
/// not fit in an `i128`.
pub fn tree_canon_aut(k: usize, adj: &Vec<Vec<usize>>) -> (r: Option<(Vec<u8>, i128)>)
    requires
        1 <= k,
        adj@.len() == k,
        adj_ok(nested(adj@)),
    ensures
        match r {
            Some(x) => tree_canon_spec(nested(adj@), k as int) == Some((x.0@, x.1 as int)),
            None => tree_canon_spec(nested(adj@), k as int) is None || tree_canon_spec(nested(adj@), k as int).unwrap().1 > i128::MAX,
        },
{
    let ghost a = nested(adj@);
    let ctr = tree_centers(k, adj);
    if ctr.len() == 1 {
        proof {
            lemma_rooted_pos(a, ctr@[0] as int, -1, k as nat);
        }
        return match rooted(ctr[0], -1, adj, k) {
            Some(x) => Some(x),
            None => None,
        };
    }
    if ctr.len() < 2 {
        return None;
    }
    let c1 = ctr[0];
    let c2 = ctr[1];
    let ghost s1 = rooted_spec(a, c1 as int, c2 as int, k as nat);
    let ghost s2 = rooted_spec(a, c2 as int, c1 as int, k as nat);
    proof {
        lemma_rooted_pos(a, c1 as int, c2 as int, k as nat);
        lemma_rooted_pos(a, c2 as int, c1 as int, k as nat);
        assert(s1.1 * s2.1 >= s1.1 && s1.1 * s2.1 >= s2.1) by (nonlinear_arith)
            requires
                s1.1 >= 1,
                s2.1 >= 1,
        ;
        let m: int = if s1.0 == s2.0 { 2int } else { 1int };
        assert(s1.1 * s2.1 * m >= s1.1 * s2.1) by (nonlinear_arith)
            requires
                s1.1 * s2.1 >= 1,
                m >= 1,
        ;
    }
    let (st1, a1) = match rooted(c1, c2 as isize, adj, k) {
        Some(x) => x,
        None => {
            return None;
        },
    };
    let (st2, a2) = match rooted(c2, c1 as isize, adj, k) {
        Some(x) => x,
        None => {
            return None;
        },
    };
    let same = bytes_eq(&st1, &st2);
    let m: i128 = if same { 2 } else { 1 };
    let p = match a1.checked_mul(a2) {
        Some(x) => x,
        None => {
            return None;
        },
    };
    let aut = match p.checked_mul(m) {
        Some(x) => x,
        None => {
            return None;
        },
    };
    let first_lo = same || bytes_lt(&st1, &st2);
    let mut out: Vec<u8> = Vec::new();
    out.push(66u8);
    out.push(73u8);
    out.push(40u8);
    if first_lo {
        append_bytes(&mut out, &st1);
        out.push(124u8);
        append_bytes(&mut out, &st2);
    } else {
        append_bytes(&mut out, &st2);
        out.push(124u8);
        append_bytes(&mut out, &st1);
    }
    out.push(41u8);
    proof {
        assert(first_lo == ble(s1.0, s2.0));
        if first_lo {
            assert(out@ =~= seq![66u8, 73u8, 40u8] + s1.0 + seq![124u8] + s2.0 + seq![41u8]);
        } else {
            assert(out@ =~= seq![66u8, 73u8, 40u8] + s2.0 + seq![124u8] + s1.0 + seq![41u8]);
        }
    }
    Some((out, aut))
}

/// A tree's automorphism count is at least one.
pub proof fn lemma_tree_canon_pos(adj: Seq<Seq<usize>>, k: int)
    requires
        tree_canon_spec(adj, k) is Some,
    ensures
        tree_canon_spec(adj, k).unwrap().1 >= 1,
{
    let ctr = centers_spec(adj, k);
    if ctr.len() == 1 {
        lemma_rooted_pos(adj, ctr[0], -1, k as nat);
    } else {
        let r1 = rooted_spec(adj, ctr[0], ctr[1], k as nat);
        let r2 = rooted_spec(adj, ctr[1], ctr[0], k as nat);
        lemma_rooted_pos(adj, ctr[0], ctr[1], k as nat);
        lemma_rooted_pos(adj, ctr[1], ctr[0], k as nat);
        let m: int = if r1.0 == r2.0 { 2int } else { 1int };
        assert(r1.1 * r2.1 * m >= 1) by (nonlinear_arith)
            requires
                r1.1 >= 1,
                r2.1 >= 1,
                m >= 1,
        ;
    }
}

} // verus!
