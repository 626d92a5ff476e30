//! Counting the orientations of a graph that are invariant under a vertex
//! permutation `sigma` and give every vertex out-degree `d`: each sigma-orbit
//! of edges is oriented as a unit, so the count is a degree-vector dynamic
//! programme over the orbits.
use vstd::prelude::*;
use std::collections::HashMap;
use crate::burnside::two_pow;
use crate::wl::{automorphisms, is_automorphism, simple_graph, adjacent, least_labellings, carry, no_dup_labs, rows_in};
use crate::signature::bit16;
use crate::tournament::{edge_orbits, orbits_spec, ov, perm_ok, srt, step};

verus! {

/// A sixteen-entry degree vector as integers.
pub open spec fn sv(x: [u8; 16]) -> Seq<int> {
    Seq::new(16, |i: int| x[i] as int)
}

/// `s` is at least `a` in every entry.
pub open spec fn covers(s: Seq<int>, a: Seq<int>) -> bool {
    forall|i: int| 0 <= i < 16 ==> #[trigger] s[i] >= a[i]
}

/// Entrywise difference.
pub open spec fn minus(s: Seq<int>, a: Seq<int>) -> Seq<int> {
    Seq::new(16, |i: int| s[i] - a[i])
}

/// Entrywise sum.
pub open spec fn plus(s: Seq<int>, a: Seq<int>) -> Seq<int> {
    Seq::new(16, |i: int| s[i] + a[i])
}

/// A degree vector of the first `n` vertices: entries in `0..=d` there and zero past them.
pub open spec fn in_box(s: Seq<int>, n: int, d: int) -> bool {
    &&& s.len() == 16
    &&& forall|i: int| 0 <= i < 16 ==> 0 <= #[trigger] s[i] && (i < n ==> s[i] <= d) && (i >= n ==> s[i] == 0)
}

pub open spec fn is_zero16(s: Seq<int>) -> bool {
    forall|i: int| 0 <= i < 16 ==> #[trigger] s[i] == 0
}

/// The target: out-degree `d` at each of the first `n` vertices.
pub open spec fn full_d(n: int, d: int) -> Seq<int> {
    Seq::new(16, |i: int| if i < n { d } else { 0 })
}

/// The two increment vectors of each orbit, as integers.
pub open spec fn incs_view(incs: Seq<([u8; 16], [u8; 16])>) -> Seq<(Seq<int>, Seq<int>)> {
    Seq::new(incs.len(), |o: int| (sv(incs[o].0), sv(incs[o].1)))
}

/// Number of ways to pick one of the two increment vectors of each of the
/// first `i` orbits so that they sum to `s`, every partial sum a degree
/// vector of the first `n` vertices with entries at most `d`.
pub open spec fn reach(incs: Seq<(Seq<int>, Seq<int>)>, i: int, s: Seq<int>, n: int, d: int) -> nat
    decreases i,
{
    if !in_box(s, n, d) {
        0
    } else if i <= 0 {
        if is_zero16(s) {
            1
        } else {
            0
        }
    } else {
        let a = incs[i - 1].0;
        let b = incs[i - 1].1;
        (if covers(s, a) {
            reach(incs, i - 1, minus(s, a), n, d)
        } else {
            0
        }) + (if covers(s, b) {
            reach(incs, i - 1, minus(s, b), n, d)
        } else {
            0
        })
    }
}

/// Base-16 value of the entries from `i` on.
pub open spec fn horner(s: Seq<int>, i: int) -> int
    decreases 16 - i,
{
    if i >= 16 || i < 0 {
        0
    } else {
        s[i] + 16 * horner(s, i + 1)
    }
}

pub open spec fn pow16(e: int) -> int
    decreases e,
{
    if e <= 0 {
        1
    } else {
        16 * pow16(e - 1)
    }
}

proof fn lemma_horner_bound(s: Seq<int>, i: int)
    requires
        0 <= i <= 16,
        forall|j: int| 0 <= j < 16 ==> 0 <= #[trigger] s[j] < 16,
    ensures
        0 <= horner(s, i) < pow16(16 - i),
    decreases 16 - i,
{
    if i < 16 {
        lemma_horner_bound(s, i + 1);
    }
}

/// Degree vectors with entries below 16 have distinct keys.
proof fn lemma_horner_inj(s: Seq<int>, t: Seq<int>, i: int)
    requires
        0 <= i <= 16,
        forall|j: int| 0 <= j < 16 ==> 0 <= #[trigger] s[j] < 16,
        forall|j: int| 0 <= j < 16 ==> 0 <= #[trigger] t[j] < 16,
        horner(s, i) == horner(t, i),
    ensures
        forall|j: int| i <= j < 16 ==> #[trigger] s[j] == t[j],
    decreases 16 - i,
{
    if i < 16 {
        lemma_horner_bound(s, i + 1);
        lemma_horner_bound(t, i + 1);
        vstd::arithmetic::div_mod::lemma_fundamental_div_mod_converse(horner(s, i), 16, horner(s, i + 1), s[i]);
        vstd::arithmetic::div_mod::lemma_fundamental_div_mod_converse(horner(t, i), 16, horner(t, i + 1), t[i]);
        lemma_horner_inj(s, t, i + 1);
    }
}

/// The key of a degree vector with entries below 16.
fn key_of(x: &[u8; 16]) -> (k: u64)
    requires
        forall|j: int| 0 <= j < 16 ==> #[trigger] x[j] < 16,
    ensures
        k == horner(sv(*x), 0),
{
    let ghost s = sv(*x);
    let mut k: u64 = 0;
    let mut i = 16usize;
    proof {
        lemma_pow16_16();
    }
    while i > 0
        invariant
            i <= 16,
            s == sv(*x),
            forall|j: int| 0 <= j < 16 ==> #[trigger] x[j] < 16,
            k == horner(s, i as int),
            pow16(16) == 0x1_0000_0000_0000_0000,
        decreases i,
    {
        proof {
            lemma_horner_bound(s, i as int);
            lemma_pow16_mono(16 - i as int, 15);
            assert(k < pow16(15));
            assert(pow16(16) == 16 * pow16(15));
        }
        i -= 1;
        k = (x[i] as u64) + 16 * k;
    }
    k
}

proof fn lemma_pow16_16()
    ensures
        pow16(16) == 0x1_0000_0000_0000_0000,
{
    reveal_with_fuel(pow16, 17);
}

proof fn lemma_pow16_mono(a: int, b: int)
    requires
        0 <= a <= b,
    ensures
        pow16(a) <= pow16(b),
        pow16(a) >= 1,
    decreases b,
{
    if b > a {
        lemma_pow16_mono(a, b - 1);
    } else if a > 0 {
        lemma_pow16_mono(a - 1, a - 1);
    }
}


/// Entrywise equality of two degree vectors.
pub open spec fn same16(a: Seq<int>, b: Seq<int>) -> bool {
    forall|i: int| 0 <= i < 16 ==> #[trigger] a[i] == b[i]
}

/// Sum of the counts `ct[u]`, `u < t`, whose state `st[u]` plus `inc` is `target`.
pub open spec fn inflow(st: Seq<[u8; 16]>, ct: Seq<u128>, t: int, target: Seq<int>, inc: Seq<int>) -> int
    decreases t,
{
    if t <= 0 {
        0
    } else {
        inflow(st, ct, t - 1, target, inc) + if same16(plus(sv(st[t - 1]), inc), target) {
            ct[t - 1] as int
        } else {
            0
        }
    }
}

/// The stored states are in the box and pairwise different.
pub open spec fn states_ok(st: Seq<[u8; 16]>, n: int, d: int) -> bool {
    &&& forall|j: int| 0 <= j < st.len() ==> #[trigger] in_box(sv(st[j]), n, d)
    &&& forall|j1: int, j2: int| 0 <= j1 < st.len() && 0 <= j2 < st.len() && j1 != j2 ==> !same16(#[trigger] sv(st[j1]), #[trigger] sv(st[j2]))
}

/// The index map sends the key of each stored state to its position, and holds nothing else.
pub open spec fn index_ok(st: Seq<[u8; 16]>, idx: Map<u64, usize>) -> bool {
    &&& forall|p: int| 0 <= p < st.len() ==> idx.contains_key(#[trigger] horner(sv(st[p]), 0) as u64) && idx[horner(sv(st[p]), 0) as u64] == p
    &&& forall|k: u64| #[trigger] idx.contains_key(k) ==> idx[k] < st.len() && horner(sv(st[idx[k] as int]), 0) == k
}

proof fn lemma_same_eq(a: Seq<int>, b: Seq<int>)
    requires
        a.len() == 16,
        b.len() == 16,
        same16(a, b),
    ensures
        a == b,
{
    assert(a =~= b);
}

proof fn lemma_box_digits(s: Seq<int>, n: int, d: int)
    requires
        in_box(s, n, d),
        d < 16,
    ensures
        forall|j: int| 0 <= j < 16 ==> 0 <= #[trigger] s[j] < 16,
{
}

/// In the box, equal keys mean equal vectors.
proof fn lemma_key_same(a: Seq<int>, b: Seq<int>, n: int, d: int)
    requires
        in_box(a, n, d),
        in_box(b, n, d),
        d < 16,
    ensures
        (horner(a, 0) == horner(b, 0)) == same16(a, b),
{
    lemma_box_digits(a, n, d);
    lemma_box_digits(b, n, d);
    if horner(a, 0) == horner(b, 0) {
        lemma_horner_inj(a, b, 0);
    }
    if same16(a, b) {
        lemma_same_eq(a, b);
    }
}

proof fn lemma_inflow_nonneg(st: Seq<[u8; 16]>, ct: Seq<u128>, t: int, target: Seq<int>, inc: Seq<int>)
    ensures
        inflow(st, ct, t, target, inc) >= 0,
    decreases t,
{
    if t > 0 {
        lemma_inflow_nonneg(st, ct, t - 1, target, inc);
    }
}

/// A positive contribution comes from some stored state.
proof fn lemma_inflow_witness(st: Seq<[u8; 16]>, ct: Seq<u128>, t: int, target: Seq<int>, inc: Seq<int>)
    requires
        inflow(st, ct, t, target, inc) > 0,
    ensures
        exists|u: int| 0 <= u < t && #[trigger] same16(plus(sv(st[u]), inc), target),
    decreases t,
{
    if t > 0 && !same16(plus(sv(st[t - 1]), inc), target) {
        lemma_inflow_witness(st, ct, t - 1, target, inc);
    }
}

/// With pairwise different states, at most one state reaches `target`: the
/// contribution is its count, or zero.
proof fn lemma_inflow_single(st: Seq<[u8; 16]>, ct: Seq<u128>, t: int, target: Seq<int>, inc: Seq<int>, n: int, d: int)
    requires
        0 <= t <= st.len(),
        st.len() == ct.len(),
        states_ok(st, n, d),
    ensures
        forall|u: int| 0 <= u < t && #[trigger] same16(plus(sv(st[u]), inc), target) ==> inflow(st, ct, t, target, inc) == ct[u] as int,
        (forall|u: int| 0 <= u < t ==> !#[trigger] same16(plus(sv(st[u]), inc), target)) ==> inflow(st, ct, t, target, inc) == 0,
    decreases t,
{
    if t > 0 {
        lemma_inflow_single(st, ct, t - 1, target, inc, n, d);
        assert forall|u: int| 0 <= u < t && #[trigger] same16(plus(sv(st[u]), inc), target) implies inflow(st, ct, t, target, inc)
            == ct[u] as int by {
            if u < t - 1 {
                if same16(plus(sv(st[t - 1]), inc), target) {
                    assert(same16(sv(st[u]), sv(st[t - 1]))) by {
                        assert forall|i: int| 0 <= i < 16 implies #[trigger] sv(st[u])[i] == sv(st[t - 1])[i] by {
                            assert(plus(sv(st[u]), inc)[i] == target[i]);
                            assert(plus(sv(st[t - 1]), inc)[i] == target[i]);
                        }
                    }
                }
            } else {
                assert forall|w: int| 0 <= w < t - 1 implies !#[trigger] same16(plus(sv(st[w]), inc), target) by {
                    if same16(plus(sv(st[w]), inc), target) {
                        assert(same16(sv(st[w]), sv(st[u]))) by {
                            assert forall|i: int| 0 <= i < 16 implies #[trigger] sv(st[w])[i] == sv(st[u])[i] by {
                                assert(plus(sv(st[w]), inc)[i] == target[i]);
                                assert(plus(sv(st[u]), inc)[i] == target[i]);
                            }
                        }
                    }
                }
            }
        }
    }
}

/// Adds, for every stored state `st[j]` whose sum with `inc` stays in the box,
/// its count `ct[j]` to the entry of that sum in `(nst, nct)`, appending the
/// sum as a new entry when it is not there yet.
fn spread(
    st: &Vec<[u8; 16]>,
    ct: &Vec<u128>,
    inc: &[u8; 16],
    n: usize,
    d: u8,
    nst: &mut Vec<[u8; 16]>,
    nct: &mut Vec<u128>,
    nidx: &mut HashMap<u64, usize>,
    Ghost(lo): Ghost<int>,
    Ghost(bound): Ghost<int>,
)
    requires
        n <= 16,
        d < 16,
        st@.len() == ct@.len(),
        states_ok(st@, n as int, d as int),
        forall|i: int| 0 <= i < 16 ==> #[trigger] inc[i] <= 120,
        forall|i: int| n <= i < 16 ==> #[trigger] inc[i] == 0,
        forall|j: int| 0 <= j < ct@.len() ==> #[trigger] ct@[j] <= bound,
        0 <= bound,
        0 <= lo,
        lo + bound <= u128::MAX,
        old(nst)@.len() == old(nct)@.len(),
        states_ok(old(nst)@, n as int, d as int),
        index_ok(old(nst)@, old(nidx)@),
        forall|p: int| 0 <= p < old(nct)@.len() ==> #[trigger] old(nct)@[p] <= lo,
    ensures
        final(nst)@.len() == final(nct)@.len(),
        final(nst)@.len() >= old(nst)@.len(),
        forall|p: int| 0 <= p < old(nst)@.len() ==> #[trigger] final(nst)@[p] == old(nst)@[p],
        states_ok(final(nst)@, n as int, d as int),
        index_ok(final(nst)@, final(nidx)@),
        forall|p: int| 0 <= p < final(nct)@.len() ==> #[trigger] final(nct)@[p] as int == (if p < old(nct)@.len() {
            old(nct)@[p] as int
        } else {
            0
        }) + inflow(st@, ct@, st@.len() as int, sv(final(nst)@[p]), sv(*inc)),
        forall|u: int| 0 <= u < st@.len() && #[trigger] in_box(plus(sv(st@[u]), sv(*inc)), n as int, d as int) ==> exists|p: int|
            0 <= p < final(nst)@.len() && #[trigger] same16(sv(final(nst)@[p]), plus(sv(st@[u]), sv(*inc))),
        forall|p: int| 0 <= p < final(nct)@.len() ==> #[trigger] final(nct)@[p] <= lo + bound,
{
    broadcast use vstd::std_specs::hash::group_hash_axioms;
    let ghost n0 = old(nst)@.len();
    let ghost nct0 = old(nct)@;
    let ghost nst0 = old(nst)@;
    let ghost incv = sv(*inc);
    let mut j = 0usize;
    while j < st.len()
        invariant
            n <= 16,
            d < 16,
            incv == sv(*inc),
            st@.len() == ct@.len(),
            states_ok(st@, n as int, d as int),
            forall|i: int| 0 <= i < 16 ==> #[trigger] inc[i] <= 120,
            forall|i: int| n <= i < 16 ==> #[trigger] inc[i] == 0,
            forall|jj: int| 0 <= jj < ct@.len() ==> #[trigger] ct@[jj] <= bound,
            0 <= bound,
            0 <= lo,
            lo + bound <= u128::MAX,
            j <= st@.len(),
            nst@.len() == nct@.len(),
            nst@.len() >= n0,
            nct0.len() == n0,
            forall|p: int| 0 <= p < n0 ==> #[trigger] nst@[p] == nst0[p],
            forall|p: int| 0 <= p < n0 ==> #[trigger] nct0[p] <= lo,
            states_ok(nst@, n as int, d as int),
            index_ok(nst@, nidx@),
            forall|p: int| 0 <= p < nct@.len() ==> #[trigger] nct@[p] as int == (if p < n0 {
                nct0[p] as int
            } else {
                0
            }) + inflow(st@, ct@, j as int, sv(nst@[p]), incv),
            forall|u: int| 0 <= u < j && #[trigger] in_box(plus(sv(st@[u]), incv), n as int, d as int) ==> exists|p: int|
                0 <= p < nst@.len() && #[trigger] same16(sv(nst@[p]), plus(sv(st@[u]), incv)),
        decreases st@.len() - j,
    {
        let cur = st[j];
        let c = ct[j];
        let mut ns = [0u8; 16];
        let mut ok = true;
        let mut i = 0usize;
        let ghost mut bad: int = -1;
        proof {
            assert(in_box(sv(st@[j as int]), n as int, d as int));
        }
        while i < 16
            invariant
                n <= 16,
                d < 16,
                i <= 16,
                cur == st@[j as int],
                in_box(sv(cur), n as int, d as int),
                forall|q: int| 0 <= q < 16 ==> #[trigger] inc[q] <= 120,
                forall|q: int| 0 <= q < i ==> #[trigger] ns[q] as int == cur[q] as int + inc[q] as int,
                ok ==> (forall|q: int| 0 <= q < i && q < n ==> #[trigger] ns[q] <= d),
                !ok ==> 0 <= bad < i && bad < n && ns[bad] > d,
            decreases 16 - i,
        {
            proof {
                assert(sv(cur)[i as int] == cur[i as int] as int);
            }
            ns[i] = cur[i] + inc[i];
            if i < n && ns[i] > d {
                ok = false;
                proof {
                    bad = i as int;
                }
            }
            i += 1;
        }
        let ghost target = plus(sv(cur), incv);
        proof {
            assert(sv(ns) =~= target);
            assert(in_box(target, n as int, d as int) == ok) by {
                if ok {
                    assert forall|q: int| 0 <= q < 16 implies 0 <= #[trigger] target[q] && (q < n ==> target[q] <= d) && (q
                        >= n ==> target[q] == 0) by {
                        assert(sv(cur)[q] == cur[q] as int);
                        assert(target[q] == ns[q] as int);
                    }
                } else {
                    assert(target[bad] == ns[bad] as int);
                }
            }
        }
        let ghost nst1 = nst@;
        let ghost nct1 = nct@;
        if ok {
            proof {
                lemma_box_digits(sv(ns), n as int, d as int);
                assert forall|q: int| 0 <= q < 16 implies #[trigger] ns[q] < 16 by {
                    assert(sv(ns)[q] == ns[q] as int);
                }
            }
            let key = key_of(&ns);
            match nidx.get(&key) {
                Some(pp) => {
                    let p = *pp;
                    proof {
                        assert(horner(sv(nst@[p as int]), 0) == key);
                        lemma_key_same(sv(nst@[p as int]), sv(ns), n as int, d as int);
                        lemma_inflow_single(st@, ct@, j as int, sv(nst@[p as int]), incv, n as int, d as int);
                        lemma_inflow_single(st@, ct@, st@.len() as int, sv(nst@[p as int]), incv, n as int, d as int);
                        lemma_inflow_nonneg(st@, ct@, j as int, sv(nst@[p as int]), incv);
                        if exists|u: int| 0 <= u < j && #[trigger] same16(plus(sv(st@[u]), incv), sv(nst@[p as int])) {
                            let u = choose|u: int| 0 <= u < j && #[trigger] same16(plus(sv(st@[u]), incv), sv(nst@[p as int]));
                            assert(same16(sv(st@[u]), sv(st@[j as int]))) by {
                                assert forall|q: int| 0 <= q < 16 implies #[trigger] sv(st@[u])[q] == sv(st@[j as int])[q] by {
                                    assert(plus(sv(st@[u]), incv)[q] == sv(nst@[p as int])[q]);
                                    assert(target[q] == sv(ns)[q]);
                                }
                            }
                        }
                        assert(inflow(st@, ct@, j as int, sv(nst@[p as int]), incv) == 0);
                        if p < n0 {
                            assert(nct@[p as int] == nct0[p as int]);
                        } else {
                            assert(nct@[p as int] == 0);
                        }
                    }
                    let v = nct[p] + c;
                    nct.set(p, v);
                    proof {
                        assert forall|q: int| 0 <= q < nct@.len() implies #[trigger] nct@[q] as int == (if q < n0 {
                            nct0[q] as int
                        } else {
                            0
                        }) + inflow(st@, ct@, j + 1, sv(nst@[q]), incv) by {
                            lemma_key_same(sv(nst@[q]), target, n as int, d as int);
                            if q != p {
                                assert(horner(sv(nst@[q]), 0) != key);
                                assert(nct@[q] == nct1[q]);
                            }
                        }
                    }
                },
                None => {
                    proof {
                        lemma_inflow_nonneg(st@, ct@, j as int, target, incv);
                        if inflow(st@, ct@, j as int, target, incv) > 0 {
                            lemma_inflow_witness(st@, ct@, j as int, target, incv);
                            let u = choose|u: int| 0 <= u < j && #[trigger] same16(plus(sv(st@[u]), incv), target);
                            lemma_same_eq(plus(sv(st@[u]), incv), target);
                            let p = choose|p: int| 0 <= p < nst@.len() && #[trigger] same16(sv(nst@[p]), plus(sv(st@[u]), incv));
                            lemma_key_same(sv(nst@[p]), target, n as int, d as int);
                            assert(nidx@.contains_key(key));
                        }
                        assert forall|p: int| 0 <= p < nst@.len() implies !#[trigger] same16(sv(nst@[p]), target) && !same16(target, sv(nst@[p])) by {
                            lemma_key_same(sv(nst@[p]), target, n as int, d as int);
                            lemma_key_same(target, sv(nst@[p]), n as int, d as int);
                            if same16(sv(nst@[p]), target) {
                                assert(nidx@.contains_key(key));
                            }
                        }
                    }
                    let len = nst.len();
                    nidx.insert(key, len);
                    nst.push(ns);
                    nct.push(c);
                    proof {
                        assert(sv(nst@[len as int]) == sv(ns));
                        assert forall|q: int| 0 <= q < len implies #[trigger] nst@[q] == nst1[q] by {}
                        assert(states_ok(nst@, n as int, d as int)) by {
                            assert forall|j1: int, j2: int| 0 <= j1 < nst@.len() && 0 <= j2 < nst@.len() && j1 != j2 implies !same16(
                                #[trigger] sv(nst@[j1]),
                                #[trigger] sv(nst@[j2]),
                            ) by {
                                if j1 < len && j2 < len {
                                    assert(nst@[j1] == nst1[j1]);
                                    assert(nst@[j2] == nst1[j2]);
                                } else if j1 < len {
                                    assert(nst@[j1] == nst1[j1]);
                                    assert(!same16(sv(nst1[j1]), target));
                                } else {
                                    assert(nst@[j2] == nst1[j2]);
                                    assert(!same16(sv(nst1[j2]), target));
                                    assert(!same16(target, sv(nst1[j2])));
                                }
                            }
                        }
                        assert forall|q: int| 0 <= q < nct@.len() implies #[trigger] nct@[q] as int == (if q < n0 {
                            nct0[q] as int
                        } else {
                            0
                        }) + inflow(st@, ct@, j + 1, sv(nst@[q]), incv) by {
                            if q < len {
                                assert(nst@[q] == nst1[q]);
                                assert(nct@[q] == nct1[q]);
                                assert(!same16(target, sv(nst@[q])));
                            } else {
                                assert(same16(target, sv(ns)));
                            }
                        }
                    }
                },
            }
        } else {
            proof {
                assert forall|q: int| 0 <= q < nct@.len() implies #[trigger] nct@[q] as int == (if q < n0 {
                    nct0[q] as int
                } else {
                    0
                }) + inflow(st@, ct@, j + 1, sv(nst@[q]), incv) by {
                    if same16(target, sv(nst@[q])) {
                        lemma_same_eq(target, sv(nst@[q]));
                    }
                }
            }
        }
        proof {
            assert forall|u: int| 0 <= u < j + 1 && #[trigger] in_box(plus(sv(st@[u]), incv), n as int, d as int) implies exists|p: int|
                0 <= p < nst@.len() && #[trigger] same16(sv(nst@[p]), plus(sv(st@[u]), incv)) by {
                if u < j {
                    let p = choose|p: int| 0 <= p < nst1.len() && #[trigger] same16(sv(nst1[p]), plus(sv(st@[u]), incv));
                    assert(nst@[p] == nst1[p]);
                } else {
                    let p = horner(sv(ns), 0);
                    assert(nidx@.contains_key(p as u64));
                    let pi = nidx@[p as u64] as int;
                    lemma_key_same(sv(nst@[pi]), sv(ns), n as int, d as int);
                    assert(same16(sv(nst@[pi]), plus(sv(st@[u]), incv)));
                }
            }
        }
        j += 1;
    }
    proof {
        assert forall|p: int| 0 <= p < nct@.len() implies #[trigger] nct@[p] <= lo + bound by {
            lemma_inflow_single(st@, ct@, st@.len() as int, sv(nst@[p]), incv, n as int, d as int);
            lemma_inflow_nonneg(st@, ct@, st@.len() as int, sv(nst@[p]), incv);
            if exists|u: int| 0 <= u < st@.len() && #[trigger] same16(plus(sv(st@[u]), incv), sv(nst@[p])) {
                let u = choose|u: int| 0 <= u < st@.len() && #[trigger] same16(plus(sv(st@[u]), incv), sv(nst@[p]));
                assert(ct@[u] <= bound);
            }
        }
    }
}


/// The states and counts after the first `i` orbits: pairwise different
/// states in the box, each with its `reach` count (at most `2^i`), and every
/// state of positive `reach` among them.
pub open spec fn level_ok(incs: Seq<(Seq<int>, Seq<int>)>, i: int, st: Seq<[u8; 16]>, ct: Seq<u128>, n: int, d: int) -> bool {
    &&& st.len() == ct.len()
    &&& states_ok(st, n, d)
    &&& forall|j: int| 0 <= j < st.len() ==> #[trigger] ct[j] as int == reach(incs, i, sv(st[j]), n, d)
    &&& forall|j: int| 0 <= j < st.len() ==> #[trigger] ct[j] <= two_pow(i as nat)
    &&& forall|s: Seq<int>| in_box(s, n, d) && #[trigger] reach(incs, i, s, n, d) > 0 ==> exists|j: int|
        0 <= j < st.len() && #[trigger] same16(sv(st[j]), s)
}

/// The contribution of one increment to the next level is the `reach` count
/// of the state it comes from.
proof fn lemma_inflow_reach(
    incs: Seq<(Seq<int>, Seq<int>)>,
    i: int,
    st: Seq<[u8; 16]>,
    ct: Seq<u128>,
    n: int,
    d: int,
    s: Seq<int>,
    inc: Seq<int>,
)
    requires
        0 <= i,
        level_ok(incs, i, st, ct, n, d),
        in_box(s, n, d),
        inc.len() == 16,
        forall|q: int| 0 <= q < 16 ==> 0 <= #[trigger] inc[q],
        forall|q: int| n <= q < 16 ==> #[trigger] inc[q] == 0,
    ensures
        inflow(st, ct, st.len() as int, s, inc) == if covers(s, inc) {
            reach(incs, i, minus(s, inc), n, d) as int
        } else {
            0
        },
{
    lemma_inflow_single(st, ct, st.len() as int, s, inc, n, d);
    if exists|u: int| 0 <= u < st.len() && #[trigger] same16(plus(sv(st[u]), inc), s) {
        let u = choose|u: int| 0 <= u < st.len() && #[trigger] same16(plus(sv(st[u]), inc), s);
        assert(covers(s, inc)) by {
            assert forall|q: int| 0 <= q < 16 implies #[trigger] s[q] >= inc[q] by {
                assert(plus(sv(st[u]), inc)[q] == s[q]);
                assert(in_box(sv(st[u]), n, d));
                assert(sv(st[u])[q] >= 0);
            }
        }
        assert(same16(sv(st[u]), minus(s, inc))) by {
            assert forall|q: int| 0 <= q < 16 implies #[trigger] sv(st[u])[q] == minus(s, inc)[q] by {
                assert(plus(sv(st[u]), inc)[q] == s[q]);
            }
        }
        lemma_same_eq(sv(st[u]), minus(s, inc));
    } else {
        if covers(s, inc) {
            let m = minus(s, inc);
            assert(in_box(m, n, d)) by {
                assert forall|q: int| 0 <= q < 16 implies 0 <= #[trigger] m[q] && (q < n ==> m[q] <= d) && (q >= n ==> m[q] == 0) by {
                    assert(s[q] >= inc[q]);
                }
            }
            if reach(incs, i, m, n, d) > 0 {
                let j = choose|j: int| 0 <= j < st.len() && #[trigger] same16(sv(st[j]), m);
                assert(same16(plus(sv(st[j]), inc), s)) by {
                    assert forall|q: int| 0 <= q < 16 implies #[trigger] plus(sv(st[j]), inc)[q] == s[q] by {
                        assert(sv(st[j])[q] == m[q]);
                    }
                }
            }
        }
    }
}

/// `reach` never exceeds `2^i`.
proof fn lemma_reach_bound(incs: Seq<(Seq<int>, Seq<int>)>, i: int, s: Seq<int>, n: int, d: int)
    requires
        0 <= i,
    ensures
        reach(incs, i, s, n, d) <= two_pow(i as nat),
    decreases i,
{
    if i > 0 {
        lemma_reach_bound(incs, i - 1, minus(s, incs[i - 1].0), n, d);
        lemma_reach_bound(incs, i - 1, minus(s, incs[i - 1].1), n, d);
    }
}

/// Number of ways to choose, for each orbit, one of its two increment vectors
/// so that the chosen vectors add up to out-degree `d` at each of the first
/// `n` vertices: the degree-vector programme over the orbits, one level per
/// orbit, keeping the count of each reachable partial degree vector.
pub fn count_choices(incs: &Vec<([u8; 16], [u8; 16])>, n: usize, d: u8) -> (r: u128)
    requires
        n <= 16,
        d < 16,
        incs@.len() <= 120,
        forall|o: int, i: int| 0 <= o < incs@.len() && 0 <= i < 16 ==> #[trigger] incs@[o].0[i] <= 120 && incs@[o].1[i] <= 120,
        forall|o: int, i: int| 0 <= o < incs@.len() && n <= i < 16 ==> #[trigger] incs@[o].0[i] == 0 && incs@[o].1[i] == 0,
    ensures
        r == reach(incs_view(incs@), incs@.len() as int, full_d(n as int, d as int), n as int, d as int),
{
    let ghost iv = incs_view(incs@);
    let mut st: Vec<[u8; 16]> = Vec::new();
    st.push([0u8; 16]);
    let mut ct: Vec<u128> = Vec::new();
    ct.push(1u128);
    proof {
        assert(in_box(sv(st@[0]), n as int, d as int));
        assert(is_zero16(sv(st@[0])));
        assert forall|x: Seq<int>| in_box(x, n as int, d as int) && #[trigger] reach(iv, 0, x, n as int, d as int) > 0 implies exists|j: int|
            0 <= j < st@.len() && #[trigger] same16(sv(st@[j]), x) by {
            assert(same16(sv(st@[0]), x));
        }
        assert(two_pow(0) == 1);
    }
    let mut o = 0usize;
    while o < incs.len()
        invariant
            n <= 16,
            d < 16,
            iv == incs_view(incs@),
            incs@.len() <= 120,
            forall|oo: int, i: int| 0 <= oo < incs@.len() && 0 <= i < 16 ==> #[trigger] incs@[oo].0[i] <= 120 && incs@[oo].1[i] <= 120,
            forall|oo: int, i: int| 0 <= oo < incs@.len() && n <= i < 16 ==> #[trigger] incs@[oo].0[i] == 0 && incs@[oo].1[i] == 0,
            o <= incs@.len(),
            level_ok(iv, o as int, st@, ct@, n as int, d as int),
        decreases incs@.len() - o,
    {
        let a = incs[o].0;
        let b = incs[o].1;
        let mut nst: Vec<[u8; 16]> = Vec::new();
        let mut nct: Vec<u128> = Vec::new();
        let mut nidx: HashMap<u64, usize> = HashMap::new();
        let ghost bnd = two_pow(o as nat) as int;
        proof {
            crate::within::lemma_two_pow_mono_pub(o as nat, 123);
            crate::within::lemma_two_pow_123();
            assert forall|i: int| 0 <= i < 16 implies #[trigger] a[i] <= 120 by {
                assert(incs@[o as int].0[i] <= 120 && incs@[o as int].1[i] <= 120);
            }
            assert forall|i: int| 0 <= i < 16 implies #[trigger] b[i] <= 120 by {
                assert(incs@[o as int].0[i] <= 120 && incs@[o as int].1[i] <= 120);
            }
            assert forall|i: int| n <= i < 16 implies #[trigger] a[i] == 0 by {
                assert(incs@[o as int].0[i] == 0 && incs@[o as int].1[i] == 0);
            }
            assert forall|i: int| n <= i < 16 implies #[trigger] b[i] == 0 by {
                assert(incs@[o as int].0[i] == 0 && incs@[o as int].1[i] == 0);
            }
            assert forall|i: int| n <= i < 16 implies #[trigger] sv(a)[i] == 0 && sv(b)[i] == 0 by {
                assert(a[i] == 0 && b[i] == 0);
            }
            assert forall|i: int| 0 <= i < 16 implies 0 <= #[trigger] sv(a)[i] && 0 <= sv(b)[i] by {}
        }
        spread(&st, &ct, &a, n, d, &mut nst, &mut nct, &mut nidx, Ghost(0int), Ghost(bnd));
        let ghost nst1 = nst@;
        let ghost nct1 = nct@;
        spread(&st, &ct, &b, n, d, &mut nst, &mut nct, &mut nidx, Ghost(bnd), Ghost(bnd));
        proof {
            let i = o as int;
            assert(iv[i] == (sv(a), sv(b)));
            assert forall|p: int| 0 <= p < nst@.len() implies #[trigger] nct@[p] as int == reach(iv, i + 1, sv(nst@[p]), n as int, d as int) by {
                let sp = sv(nst@[p]);
                assert(in_box(sp, n as int, d as int));
                lemma_inflow_reach(iv, i, st@, ct@, n as int, d as int, sp, sv(a));
                lemma_inflow_reach(iv, i, st@, ct@, n as int, d as int, sp, sv(b));
                if p >= nst1.len() {
                    lemma_inflow_nonneg(st@, ct@, st@.len() as int, sp, sv(a));
                    if inflow(st@, ct@, st@.len() as int, sp, sv(a)) > 0 {
                        lemma_inflow_witness(st@, ct@, st@.len() as int, sp, sv(a));
                        let u = choose|u: int| 0 <= u < st@.len() && #[trigger] same16(plus(sv(st@[u]), sv(a)), sp);
                        lemma_same_eq(plus(sv(st@[u]), sv(a)), sp);
                        let q = choose|q: int| 0 <= q < nst1.len() && #[trigger] same16(sv(nst1[q]), plus(sv(st@[u]), sv(a)));
                        assert(nst@[q] == nst1[q]);
                        assert(same16(sv(nst@[q]), sv(nst@[p])));
                    }
                }
            }
            assert forall|p: int| 0 <= p < nst@.len() implies #[trigger] nct@[p] <= two_pow((i + 1) as nat) by {
                assert(two_pow((i + 1) as nat) == 2 * two_pow(i as nat));
            }
            assert forall|x: Seq<int>| in_box(x, n as int, d as int) && #[trigger] reach(iv, i + 1, x, n as int, d as int) > 0 implies exists|p: int|
                0 <= p < nst@.len() && #[trigger] same16(sv(nst@[p]), x) by {
                let (inc, first) = if covers(x, sv(a)) && reach(iv, i, minus(x, sv(a)), n as int, d as int) > 0 {
                    (sv(a), true)
                } else {
                    (sv(b), false)
                };
                let m = minus(x, inc);
                assert(covers(x, inc) && reach(iv, i, m, n as int, d as int) > 0);
                assert(in_box(m, n as int, d as int));
                let u = choose|u: int| 0 <= u < st@.len() && #[trigger] same16(sv(st@[u]), m);
                assert(same16(plus(sv(st@[u]), inc), x)) by {
                    assert forall|q: int| 0 <= q < 16 implies #[trigger] plus(sv(st@[u]), inc)[q] == x[q] by {
                        assert(sv(st@[u])[q] == m[q]);
                    }
                }
                lemma_same_eq(plus(sv(st@[u]), inc), x);
                if first {
                    let q = choose|q: int| 0 <= q < nst1.len() && #[trigger] same16(sv(nst1[q]), plus(sv(st@[u]), sv(a)));
                    assert(nst@[q] == nst1[q]);
                    assert(same16(sv(nst@[q]), x));
                } else {
                    let q = choose|q: int| 0 <= q < nst@.len() && #[trigger] same16(sv(nst@[q]), plus(sv(st@[u]), sv(b)));
                    assert(same16(sv(nst@[q]), x));
                }
            }
        }
        st = nst;
        ct = nct;
        o += 1;
    }
    let ghost t = full_d(n as int, d as int);
    let mut p = 0usize;
    while p < st.len()
        invariant
            n <= 16,
            d < 16,
            t == full_d(n as int, d as int),
            iv == incs_view(incs@),
            level_ok(iv, incs@.len() as int, st@, ct@, n as int, d as int),
            p <= st@.len(),
            forall|q: int| 0 <= q < p ==> !#[trigger] same16(sv(st@[q]), t),
        decreases st@.len() - p,
    {
        let cur = st[p];
        let mut i = 0usize;
        let mut eq = true;
        while i < 16
            invariant
                n <= 16,
                d < 16,
                t == full_d(n as int, d as int),
                cur == st@[p as int],
                i <= 16,
                eq == (forall|q: int| 0 <= q < i ==> #[trigger] sv(cur)[q] == t[q]),
            decreases 16 - i,
        {
            let want: u8 = if i < n { d } else { 0 };
            if cur[i] != want {
                eq = false;
            }
            proof {
                assert(sv(cur)[i as int] == cur[i as int] as int);
                assert(t[i as int] == want as int);
            }
            i += 1;
        }
        if eq {
            proof {
                assert(same16(sv(st@[p as int]), t));
                lemma_same_eq(sv(st@[p as int]), t);
            }
            return ct[p];
        }
        p += 1;
    }
    proof {
        assert(in_box(t, n as int, d as int));
    }
    0
}


/// `{p.0, p.1}` is one of the listed edges.
pub open spec fn has_edge(edges: Seq<(usize, usize)>, p: (usize, usize)) -> bool {
    exists|e: int| 0 <= e < edges.len() && #[trigger] srt(edges[e].0, edges[e].1) == p
}

/// `sigma^k(x)`.
pub open spec fn siter(perm: Seq<usize>, x: int, k: int) -> int
    decreases k,
{
    if k <= 0 {
        x
    } else {
        perm[siter(perm, x, k - 1)] as int
    }
}

/// The end of the pair `p` other than `t`.
pub open spec fn other_end(p: (usize, usize), t: int) -> int {
    if p.0 as int == t {
        p.1 as int
    } else {
        p.0 as int
    }
}

/// The tail of the `j`-th pair of the orbit walk `w` when its first pair is
/// oriented away from its smaller end and the orientation is carried along by `perm`.
pub open spec fn walk_tail(perm: Seq<usize>, w: Seq<(usize, usize)>, j: int) -> int {
    siter(perm, w[0].0 as int, j)
}

/// How many of the first `k` pairs of `w` have tail `v`.
pub open spec fn tail_count(perm: Seq<usize>, w: Seq<(usize, usize)>, v: int, k: int) -> nat
    decreases k,
{
    if k <= 0 {
        0
    } else {
        tail_count(perm, w, v, k - 1) + if walk_tail(perm, w, k - 1) == v { 1nat } else { 0nat }
    }
}

/// How many of the first `k` pairs of `w` have head `v`.
pub open spec fn head_count(perm: Seq<usize>, w: Seq<(usize, usize)>, v: int, k: int) -> nat
    decreases k,
{
    if k <= 0 {
        0
    } else {
        head_count(perm, w, v, k - 1) + if other_end(w[k - 1], walk_tail(perm, w, k - 1)) == v { 1nat } else { 0nat }
    }
}

/// The out-degree increments of the two orientations of the orbit `w`.
pub open spec fn orbit_incs(perm: Seq<usize>, w: Seq<(usize, usize)>) -> (Seq<int>, Seq<int>) {
    (
        Seq::new(16, |v: int| tail_count(perm, w, v, w.len() as int) as int),
        Seq::new(16, |v: int| head_count(perm, w, v, w.len() as int) as int),
    )
}

/// Carrying the orientation once around the orbit brings it back to itself.
pub open spec fn consistent(perm: Seq<usize>, w: Seq<(usize, usize)>) -> bool {
    siter(perm, w[0].0 as int, w.len() as int) == w[0].0 as int
}

/// The orbits among the first `r` whose pairs are edges (judged by the first pair).
pub open spec fn kept(orbs: Seq<Seq<(usize, usize)>>, edges: Seq<(usize, usize)>, r: int) -> Seq<Seq<(usize, usize)>>
    decreases r,
{
    if r <= 0 {
        Seq::empty()
    } else if has_edge(edges, orbs[r - 1][0]) {
        kept(orbs, edges, r - 1).push(orbs[r - 1])
    } else {
        kept(orbs, edges, r - 1)
    }
}

/// The number of sigma-consistent choices of orientation, one per edge orbit,
/// giving every vertex `0..n` out-degree `d`; zero when some edge orbit cannot
/// be oriented consistently.
pub open spec fn fix_value(perm: Seq<usize>, orbs: Seq<Seq<(usize, usize)>>, edges: Seq<(usize, usize)>, n: int, d: int) -> nat {
    let ks = kept(orbs, edges, orbs.len() as int);
    if forall|i: int| 0 <= i < ks.len() ==> #[trigger] consistent(perm, ks[i]) {
        reach(Seq::new(ks.len(), |i: int| orbit_incs(perm, ks[i])), ks.len() as int, full_d(n, d), n, d)
    } else {
        0
    }
}

/// `0 + 1 + .. + (b - 1)`.
pub open spec fn tri_sum(b: int) -> int
    decreases b,
{
    if b <= 0 {
        0
    } else {
        tri_sum(b - 1) + (b - 1)
    }
}

/// Position of the pair `a < b < 16` among the 120 such pairs.
pub open spec fn pair_code(p: (usize, usize)) -> int {
    tri_sum(p.1 as int) + p.0 as int
}

proof fn lemma_tri_sum_gap(b: int, c: int)
    requires
        0 <= b < c,
    ensures
        tri_sum(c) >= tri_sum(b) + b,
    decreases c,
{
    if c > b + 1 {
        lemma_tri_sum_gap(b, c - 1);
    }
}

proof fn lemma_pair_code(p: (usize, usize), q: (usize, usize))
    requires
        p.0 < p.1 < 16,
        q.0 < q.1 < 16,
    ensures
        0 <= pair_code(p) < 120,
        pair_code(p) == pair_code(q) ==> p == q,
{
    reveal_with_fuel(tri_sum, 17);
    if p.1 < 15 {
        lemma_tri_sum_gap(p.1 as int, 15);
    }
    assert(tri_sum(15) == 105);
    if p.1 < q.1 {
        lemma_tri_sum_gap(p.1 as int, q.1 as int);
    }
    if q.1 < p.1 {
        lemma_tri_sum_gap(q.1 as int, p.1 as int);
    }
    lemma_tri_nonneg(p.1 as int);
}

proof fn lemma_tri_nonneg(b: int)
    ensures
        tri_sum(b) >= 0,
    decreases b,
{
    if b > 0 {
        lemma_tri_nonneg(b - 1);
    }
}

/// A sequence of distinct integers in `0..m` has at most `m` entries.
pub proof fn lemma_pigeon_pub(s: Seq<int>, m: int)
    requires
        0 <= m,
        s.no_duplicates(),
        forall|i: int| 0 <= i < s.len() ==> 0 <= #[trigger] s[i] < m,
    ensures
        s.len() <= m,
{
    lemma_pigeon(s, m);
}

proof fn lemma_pigeon(s: Seq<int>, m: int)
    requires
        0 <= m,
        s.no_duplicates(),
        forall|i: int| 0 <= i < s.len() ==> 0 <= #[trigger] s[i] < m,
    ensures
        s.len() <= m,
{
    s.unique_seq_to_set();
    vstd::set_lib::lemma_int_range(0, m);
    assert(s.to_set().subset_of(vstd::set_lib::set_int_range(0, m)));
    vstd::set_lib::lemma_len_subset(s.to_set(), vstd::set_lib::set_int_range(0, m));
}

/// Is `p` one of the listed edges?
fn is_edge(edges: &[(usize, usize)], p: (usize, usize)) -> (r: bool)
    ensures
        r == has_edge(edges@, p),
{
    let mut e = 0usize;
    while e < edges.len()
        invariant
            e <= edges@.len(),
            forall|f: int| 0 <= f < e ==> #[trigger] srt(edges@[f].0, edges@[f].1) != p,
        decreases edges@.len() - e,
    {
        let (u, v) = edges[e];
        let q = if u < v { (u, v) } else { (v, u) };
        if q.0 == p.0 && q.1 == p.1 {
            proof {
                assert(srt(edges@[e as int].0, edges@[e as int].1) == p);
            }
            return true;
        }
        e += 1;
    }
    false
}


/// The orbit `w` is a nonempty walk `p, step(p), ..` of pairs `a < b < n`.
pub open spec fn walk_ok(perm: Seq<usize>, n: int, w: Seq<(usize, usize)>) -> bool {
    &&& w.len() >= 1
    &&& forall|k: int| 0 <= k < w.len() ==> (#[trigger] w[k]).0 < w[k].1 < n
    &&& forall|k: int| 0 <= k && k + 1 < w.len() ==> #[trigger] w[k + 1] == step(perm, w[k])
}

/// The two orientations of the orbit walk `w` as out-degree increments, or
/// `None` when carrying the orientation once around the orbit reverses it.
fn orbit_choice(w: &Vec<(usize, usize)>, sigma: &[usize], n: usize) -> (r: Option<([u8; 16], [u8; 16])>)
    requires
        n <= 16,
        perm_ok(sigma@, n as int),
        walk_ok(sigma@, n as int, w@),
        w@.len() <= 120,
    ensures
        r is Some == consistent(sigma@, w@),
        r matches Some(ab) ==> (sv(ab.0), sv(ab.1)) == orbit_incs(sigma@, w@),
        r matches Some(ab) ==> forall|i: int| 0 <= i < 16 ==> #[trigger] ab.0[i] <= 120 && ab.1[i] <= 120,
        r matches Some(ab) ==> forall|i: int| n <= i < 16 ==> #[trigger] ab.0[i] == 0 && ab.1[i] == 0,
{
    let ghost ws = w@;
    let ghost sg = sigma@;
    let start = w[0].0;
    let mut t = start;
    let mut a = [0u8; 16];
    let mut b = [0u8; 16];
    let mut k = 0usize;
    while k < w.len()
        invariant
            n <= 16,
            perm_ok(sg, n as int),
            sg == sigma@,
            ws == w@,
            walk_ok(sg, n as int, ws),
            ws.len() <= 120,
            start == ws[0].0,
            k <= ws.len(),
            t as int == siter(sg, start as int, k as int),
            t < n,
            k < ws.len() ==> (t == ws[k as int].0 || t == ws[k as int].1),
            forall|v: int| 0 <= v < 16 ==> #[trigger] a[v] as int == tail_count(sg, ws, v, k as int),
            forall|v: int| 0 <= v < 16 ==> #[trigger] b[v] as int == head_count(sg, ws, v, k as int),
            forall|v: int| 0 <= v < 16 ==> #[trigger] a[v] <= k && b[v] <= k,
            forall|v: int| n <= v < 16 ==> #[trigger] a[v] == 0 && b[v] == 0,
        decreases ws.len() - k,
    {
        let p = w[k];
        let h = if p.0 == t { p.1 } else { p.0 };
        let ghost a0 = a;
        let ghost b0 = b;
        proof {
            assert(a0[h as int] <= k && b0[h as int] <= k);
            assert forall|v: int| n <= v < 16 implies a0[v] == 0 && b0[v] == 0 by {
                assert(a[v] == 0 && b[v] == 0);
            }
        }
        a[t] = a[t] + 1;
        b[h] = b[h] + 1;
        proof {
            assert(walk_tail(sg, ws, k as int) == t);
            assert(other_end(ws[k as int], t as int) == h);
            assert forall|v: int| 0 <= v < 16 implies #[trigger] a[v] as int == tail_count(sg, ws, v, k + 1) by {
                if v != t {
                    assert(a[v] == a0[v]);
                }
            }
            assert forall|v: int| 0 <= v < 16 implies #[trigger] b[v] as int == head_count(sg, ws, v, k + 1) by {
                if v != h {
                    assert(b[v] == b0[v]);
                }
            }
            assert forall|v: int| 0 <= v < 16 implies #[trigger] a[v] <= k + 1 && b[v] <= k + 1 by {
                assert(a0[v] <= k && b0[v] <= k);
            }
            assert forall|v: int| n <= v < 16 implies #[trigger] a[v] == 0 && b[v] == 0 by {
                assert(a0[v] == 0 && b0[v] == 0);
                assert(v != t && v != h);
            }
        }
        let t2 = sigma[t];
        proof {
            if k + 1 < ws.len() {
                assert(ws[k + 1] == step(sg, ws[k as int]));
            }
        }
        t = t2;
        k += 1;
    }
    if t != start {
        return None;
    }
    proof {
        assert(sv(a) =~= orbit_incs(sg, ws).0);
        assert(sv(b) =~= orbit_incs(sg, ws).1);
    }
    Some((a, b))
}

/// Number of orientations of the simple graph `edges` on `0..n` (pairs of
/// distinct vertices) that `sigma` carries to themselves and that give every
/// vertex out-degree `d`, counted orbit by orbit: each sigma-orbit of edges is
/// oriented as a unit (`fix_value`, over the orbit listing of `edge_orbits`);
/// zero as soon as some edge orbit cannot be oriented consistently.
pub fn fix_sigma(edges: &[(usize, usize)], sigma: &[usize], n: usize, d: u32) -> (r: u128)
    requires
        n <= 16,
        d < 15,
        perm_ok(sigma@, n as int),
        forall|e: int| 0 <= e < edges@.len() ==> (#[trigger] edges@[e]).0 < n && edges@[e].1 < n && edges@[e].0 != edges@[e].1,
    ensures
        exists|orbs: Seq<Seq<(usize, usize)>>| orbits_spec(sigma@, n as int, orbs) && r == fix_value(sigma@, orbs, edges@, n as int, d as int),
{
    proof {
        assert(n * n <= 256) by (nonlinear_arith)
            requires
                n <= 16,
        ;
    }
    let orbits = edge_orbits(sigma, n);
    let ghost o = ov(orbits@);
    let ghost sg = sigma@;
    let mut incs: Vec<([u8; 16], [u8; 16])> = Vec::new();
    let ghost mut codes: Seq<int> = Seq::empty();
    let mut r = 0usize;
    while r < orbits.len()
        invariant
            n <= 16,
            d < 15,
            perm_ok(sg, n as int),
            sg == sigma@,
            o == ov(orbits@),
            orbits_spec(sg, n as int, o),
            r <= o.len(),
            incs@.len() == kept(o, edges@, r as int).len(),
            forall|i: int| 0 <= i < incs@.len() ==> (sv(#[trigger] incs@[i].0), sv(incs@[i].1)) == orbit_incs(sg, kept(o, edges@, r as int)[i]),
            forall|i: int| 0 <= i < incs@.len() ==> consistent(sg, #[trigger] kept(o, edges@, r as int)[i]),
            forall|i: int, v: int| 0 <= i < incs@.len() && 0 <= v < 16 ==> #[trigger] incs@[i].0[v] <= 120 && incs@[i].1[v] <= 120,
            forall|i: int, v: int| 0 <= i < incs@.len() && n <= v < 16 ==> #[trigger] incs@[i].0[v] == 0 && incs@[i].1[v] == 0,
            codes.len() == incs@.len(),
            codes.no_duplicates(),
            forall|i: int| 0 <= i < codes.len() ==> 0 <= #[trigger] codes[i] < 120,
            forall|i: int| 0 <= i < codes.len() ==> exists|r2: int| 0 <= r2 < r && #[trigger] codes[i] == pair_code(o[r2][0]),
        decreases o.len() - r,
    {
        let w = &orbits[r];
        let ghost ws = o[r as int];
        proof {
            assert(ws == w@);
            assert(ws.len() >= 1);
            let cs = Seq::new(ws.len(), |k: int| pair_code(ws[k]));
            assert forall|k: int| 0 <= k < cs.len() implies 0 <= #[trigger] cs[k] < 120 by {
                lemma_pair_code(ws[k], ws[k]);
            }
            assert(cs.no_duplicates()) by {
                assert forall|k1: int, k2: int| 0 <= k1 < cs.len() && 0 <= k2 < cs.len() && k1 != k2 implies cs[k1] != cs[k2] by {
                    lemma_pair_code(ws[k1], ws[k2]);
                    if cs[k1] == cs[k2] {
                        assert(o[r as int][k1] == o[r as int][k2]);
                    }
                }
            }
            lemma_pigeon(cs, 120);
            assert forall|k: int| 0 <= k && k + 1 < ws.len() implies #[trigger] ws[k + 1] == step(sg, ws[k]) by {
                assert(o[r as int][k + 1] == step(sg, o[r as int][k]));
            }
            assert forall|k: int| 0 <= k < ws.len() implies (#[trigger] ws[k]).0 < ws[k].1 < n by {
                assert((o[r as int][k]).0 < o[r as int][k].1 < n);
            }
        }
        let ghost k0 = kept(o, edges@, r as int);
        if is_edge(edges, w[0]) {
            match orbit_choice(w, sigma, n) {
                None => {
                    proof {
                        let ks = kept(o, edges@, o.len() as int);
                        lemma_kept_prefix(o, edges@, r + 1, o.len() as int);
                        assert(kept(o, edges@, r + 1) == k0.push(ws));
                        assert(ks[k0.len() as int] == ws);
                        assert(!consistent(sg, ks[k0.len() as int]));
                        assert(fix_value(sg, o, edges@, n as int, d as int) == 0);
                    }
                    return 0;
                },
                Some(ab) => {
                    let ghost code = pair_code(ws[0]);
                    proof {
                        lemma_pair_code(ws[0], ws[0]);
                        assert forall|i: int| 0 <= i < codes.len() implies #[trigger] codes[i] != code by {
                            let r2 = choose|r2: int| 0 <= r2 < r && #[trigger] codes[i] == pair_code(o[r2][0]);
                            lemma_pair_code(o[r2][0], ws[0]);
                            if codes[i] == code {
                                assert(o[r2][0] == o[r as int][0]);
                            }
                        }
                    }
                    incs.push(ab);
                    proof {
                        let c0 = codes;
                        codes = codes.push(code);
                        assert(kept(o, edges@, r + 1) == k0.push(ws));
                        assert forall|i: int| 0 <= i < codes.len() implies exists|r2: int| 0 <= r2 < r + 1 && #[trigger] codes[i] == pair_code(o[r2][0]) by {
                            if i < c0.len() {
                                assert(codes[i] == c0[i]);
                                let r2 = choose|r2: int| 0 <= r2 < r && #[trigger] c0[i] == pair_code(o[r2][0]);
                            } else {
                                assert(codes[i] == pair_code(o[r as int][0]));
                            }
                        }
                        assert(codes.no_duplicates()) by {
                            assert forall|i1: int, i2: int| 0 <= i1 < codes.len() && 0 <= i2 < codes.len() && i1 != i2 implies codes[i1] != codes[i2] by {
                                if i1 < c0.len() && i2 < c0.len() {
                                    assert(codes[i1] == c0[i1] && codes[i2] == c0[i2]);
                                } else if i1 < c0.len() {
                                    assert(codes[i1] == c0[i1]);
                                } else if i2 < c0.len() {
                                    assert(codes[i2] == c0[i2]);
                                }
                            }
                        }
                    }
                },
            }
        } else {
            proof {
                assert(kept(o, edges@, r + 1) == k0);
                assert forall|i: int| 0 <= i < codes.len() implies exists|r2: int| 0 <= r2 < r + 1 && #[trigger] codes[i] == pair_code(o[r2][0]) by {
                    let r2 = choose|r2: int| 0 <= r2 < r && #[trigger] codes[i] == pair_code(o[r2][0]);
                }
            }
        }
        r += 1;
    }
    proof {
        lemma_pigeon(codes, 120);
    }
    let res = count_choices(&incs, n, d as u8);
    proof {
        let ks = kept(o, edges@, o.len() as int);
        assert(incs_view(incs@) =~= Seq::new(ks.len(), |i: int| orbit_incs(sg, ks[i])));
        assert(res == fix_value(sg, o, edges@, n as int, d as int));
    }
    res
}

proof fn lemma_kept_prefix(o: Seq<Seq<(usize, usize)>>, edges: Seq<(usize, usize)>, r: int, s: int)
    requires
        0 <= r <= s,
    ensures
        kept(o, edges, s).len() >= kept(o, edges, r).len(),
        forall|i: int| 0 <= i < kept(o, edges, r).len() ==> #[trigger] kept(o, edges, s)[i] == kept(o, edges, r)[i],
    decreases s - r,
{
    if s > r {
        lemma_kept_prefix(o, edges, r, s - 1);
    }
}


/// Sum of the first `k` entries.
pub open spec fn seq_sum(s: Seq<nat>, k: int) -> nat
    decreases k,
{
    if k <= 0 {
        0
    } else {
        seq_sum(s, k - 1) + s[k - 1]
    }
}

/// `f` is the orientation count `fix_value` of `sigma` under some listing of its pair orbits.
pub open spec fn is_fix_of(sigma: Seq<usize>, edges: Seq<(usize, usize)>, n: int, d: int, f: nat) -> bool {
    exists|orbs: Seq<Seq<(usize, usize)>>| orbits_spec(sigma, n, orbs) && f == fix_value(sigma, orbs, edges, n, d)
}

/// `{x, y}` is one of the first `e` listed edges.
pub open spec fn edge_upto(edges: Seq<(usize, usize)>, x: int, y: int, e: int) -> bool {
    exists|f: int| 0 <= f < e && #[trigger] srt(edges[f].0, edges[f].1) == srt(x as usize, y as usize)
}

/// `a` is a permutation of `0..n` that maps edges to edges and non-edges to non-edges.
pub open spec fn edge_automorphism(edges: Seq<(usize, usize)>, n: int, a: Seq<usize>) -> bool {
    &&& crate::wl::is_perm(a, n)
    &&& forall|x: int, y: int|
        0 <= x < n && 0 <= y < n && x != y ==> #[trigger] edge_upto(edges, a[x] as int, a[y] as int, edges.len() as int) == edge_upto(
            edges,
            x,
            y,
            edges.len() as int,
        )
}

/// Row `x` of the edge list's adjacency: bit `y` set when `x != y` and the edge `{x, y}` is listed.
pub open spec fn edge_row_ok(edges: Seq<(usize, usize)>, x: int, w: u16) -> bool {
    forall|y: int| 0 <= y < 16 ==> #[trigger] bit16(w, y) == (x != y && edge_upto(edges, x, y, edges.len() as int))
}

/// The 16 adjacency rows of the edge list.
pub open spec fn edge_rows(edges: Seq<(usize, usize)>) -> Seq<u16> {
    Seq::new(16, |x: int| choose|w: u16| edge_row_ok(edges, x, w))
}

/// The automorphisms of the graph of the edge list, as the search lists them:
/// one per least-code labelling, each carrying it onto the first (the
/// contract of `orientation_classes` shows that every automorphism is here).
pub open spec fn graph_automorphisms(edges: Seq<(usize, usize)>, n: int) -> Seq<Seq<usize>> {
    let ll = least_labellings(edge_rows(edges), n);
    Seq::new(ll.len(), |k: int| carry(ll[0], ll[k], n))
}

proof fn lemma_u16_from_bits(a: u16, b: u16)
    requires
        forall|j: int| 0 <= j < 16 ==> #[trigger] bit16(a, j) == bit16(b, j),
    ensures
        a == b,
{
    crate::bits::lemma_bit16_wide(a);
    crate::bits::lemma_bit16_wide(b);
    assert forall|j: int| 0 <= j < 64 implies #[trigger] crate::bits::bit(a as u64, j) == crate::bits::bit(b as u64, j) by {
        if j < 16 {
            assert(bit16(a, j) == bit16(b, j));
        }
    }
    crate::bits::lemma_bits_ext(a as u64, b as u64);
}

/// The adjacency rows of the edge list.
fn adjacency(edges: &[(usize, usize)], n: usize) -> (adj: Vec<u16>)
    requires
        n <= 16,
        forall|e: int| 0 <= e < edges@.len() ==> (#[trigger] edges@[e]).0 < n && edges@[e].1 < n && edges@[e].0 != edges@[e].1,
    ensures
        simple_graph(adj@, n as int),
        adj@.len() == 16,
        forall|x: int, y: int| 0 <= x < n && 0 <= y < n && x != y ==> #[trigger] adjacent(adj@, x, y) == edge_upto(edges@, x, y, edges@.len() as int),
        adj@ == edge_rows(edges@),
        rows_in(adj@, n as int),
{
    let mut adj: Vec<u16> = Vec::new();
    let mut i = 0usize;
    while i < 16
        invariant
            i <= 16,
            adj@.len() == i,
            forall|x: int| 0 <= x < i ==> #[trigger] adj@[x] == 0,
        decreases 16 - i,
    {
        adj.push(0);
        i += 1;
    }
    proof {
        assert forall|x: int, y: int| 0 <= x < 16 && 0 <= y < 16 implies !#[trigger] bit16(adj@[x], y) by {
            crate::bits::lemma_bit16_set(0, 0, y as u16);
        }
    }
    let mut e = 0usize;
    while e < edges.len()
        invariant
            n <= 16,
            forall|f: int| 0 <= f < edges@.len() ==> (#[trigger] edges@[f]).0 < n && edges@[f].1 < n && edges@[f].0 != edges@[f].1,
            adj@.len() == 16,
            e <= edges@.len(),
            forall|x: int, y: int| 0 <= x < 16 && 0 <= y < 16 ==> #[trigger] bit16(adj@[x], y) == (x != y && edge_upto(edges@, x, y, e as int)),
        decreases edges@.len() - e,
    {
        let (u, v) = edges[e];
        let ghost a0 = adj@;
        let ru = adj[u] | (1u16 << (v as u16));
        adj.set(u, ru);
        let rv = adj[v] | (1u16 << (u as u16));
        adj.set(v, rv);
        proof {
            assert forall|x: int, y: int| 0 <= x < 16 && 0 <= y < 16 implies #[trigger] bit16(adj@[x], y) == (x != y && edge_upto(
                edges@,
                x,
                y,
                e + 1,
            )) by {
                if x == u {
                    crate::bits::lemma_bit16_set(a0[x], v as u16, y as u16);
                } else if x == v {
                    crate::bits::lemma_bit16_set(a0[x], u as u16, y as u16);
                }
                let hit = srt(edges@[e as int].0, edges@[e as int].1) == srt(x as usize, y as usize);
                assert(hit == ((x == u && y == v) || (x == v && y == u)));
                if edge_upto(edges@, x, y, e + 1) && !hit {
                    let f = choose|f: int| 0 <= f < e + 1 && #[trigger] srt(edges@[f].0, edges@[f].1) == srt(x as usize, y as usize);
                    assert(f < e);
                    assert(edge_upto(edges@, x, y, e as int));
                }
                if edge_upto(edges@, x, y, e as int) {
                    let f = choose|f: int| 0 <= f < e && #[trigger] srt(edges@[f].0, edges@[f].1) == srt(x as usize, y as usize);
                    assert(srt(edges@[f].0, edges@[f].1) == srt(x as usize, y as usize));
                }
                if hit {
                    assert(srt(edges@[e as int].0, edges@[e as int].1) == srt(x as usize, y as usize));
                }
            }
        }
        e += 1;
    }
    proof {
        assert forall|x: int, y: int| 0 <= x < n && 0 <= y < n implies #[trigger] adjacent(adj@, x, y) == adjacent(adj@, y, x) by {
            assert(srt(x as usize, y as usize) == srt(y as usize, x as usize));
            assert(edge_upto(edges@, x, y, e as int) == edge_upto(edges@, y, x, e as int));
        }
        assert forall|x: int| 0 <= x < 16 implies #[trigger] edge_rows(edges@)[x] == adj@[x] by {
            assert(edge_row_ok(edges@, x, adj@[x]));
            let w = choose|w: u16| edge_row_ok(edges@, x, w);
            assert(edge_row_ok(edges@, x, w));
            assert forall|j: int| 0 <= j < 16 implies #[trigger] bit16(w, j) == bit16(adj@[x], j) by {}
            lemma_u16_from_bits(w, adj@[x]);
        }
        assert(adj@ =~= edge_rows(edges@));
        assert forall|i: int, j: int| 0 <= i < n && n <= j < 16 implies !#[trigger] bit16(adj@[i], j) by {
            if edge_upto(edges@, i, j, e as int) {
                let f = choose|f: int| 0 <= f < e && #[trigger] srt(edges@[f].0, edges@[f].1) == srt(i as usize, j as usize);
                assert(edges@[f].0 < n && edges@[f].1 < n);
            }
        }
    }
    adj
}

/// An automorphism of the adjacency rows of the edge list is an automorphism of the edge list.
proof fn lemma_aut_edges(adj: Seq<u16>, edges: Seq<(usize, usize)>, n: int, a: Seq<usize>)
    requires
        is_automorphism(adj, n, a),
        forall|x: int, y: int| 0 <= x < n && 0 <= y < n && x != y ==> #[trigger] adjacent(adj, x, y) == edge_upto(edges, x, y, edges.len() as int),
    ensures
        edge_automorphism(edges, n, a),
{
    assert forall|x: int, y: int| 0 <= x < n && 0 <= y < n && x != y implies #[trigger] edge_upto(edges, a[x] as int, a[y] as int, edges.len() as int)
        == edge_upto(edges, x, y, edges.len() as int) by {
        assert(adjacent(adj, a[x] as int, a[y] as int) == adjacent(adj, x, y));
        assert(a[x] != a[y]);
    }
}

/// An automorphism of the edge list is an automorphism of its adjacency rows.
proof fn lemma_edges_aut(adj: Seq<u16>, edges: Seq<(usize, usize)>, n: int, a: Seq<usize>)
    requires
        edge_automorphism(edges, n, a),
        simple_graph(adj, n),
        forall|x: int, y: int| 0 <= x < n && 0 <= y < n && x != y ==> #[trigger] adjacent(adj, x, y) == edge_upto(edges, x, y, edges.len() as int),
    ensures
        is_automorphism(adj, n, a),
{
    assert forall|v: int, w: int| 0 <= v < n && 0 <= w < n implies #[trigger] adjacent(adj, a[v] as int, a[w] as int) == adjacent(adj, v, w) by {
        if v != w {
            assert(a[v] != a[w]);
            assert(edge_upto(edges, a[v] as int, a[w] as int, edges.len() as int) == edge_upto(edges, v, w, edges.len() as int));
        }
    }
}

/// The Burnside count of the orientations of the simple graph `edges` on
/// `0..n` in which every vertex has out-degree `d`, up to its automorphisms
/// (`graph_automorphisms`, which lists every automorphism of the graph once):
/// the average over them of `fix_sigma`. `None` when a partial sum of the fixed counts
/// leaves `u128`.
pub fn orientation_classes(edges: &[(usize, usize)], n: usize, d: u32) -> (r: Option<u128>)
    requires
        1 <= n <= 16,
        d < 15,
        forall|e: int| 0 <= e < edges@.len() ==> (#[trigger] edges@[e]).0 < n && edges@[e].1 < n && edges@[e].0 != edges@[e].1,
    ensures
        r matches Some(c) ==> exists|autos: Seq<Seq<usize>>, fixes: Seq<nat>| {
            &&& autos == graph_automorphisms(edges@, n as int)
            &&& no_dup_labs(autos)
            &&& (forall|a: Seq<usize>| #[trigger] edge_automorphism(edges@, n as int, a) ==> autos.contains(a))
            &&& autos.len() >= 1
            &&& (forall|x: int| 0 <= x < n ==> #[trigger] autos[0][x] == x)
            &&& fixes.len() == autos.len()
            &&& (forall|k: int| 0 <= k < autos.len() ==> #[trigger] edge_automorphism(edges@, n as int, autos[k]))
            &&& (forall|k: int| 0 <= k < autos.len() ==> #[trigger] is_fix_of(autos[k], edges@, n as int, d as int, fixes[k]))
            &&& c == seq_sum(fixes, fixes.len() as int) / (autos.len() as nat)
        },
        r is None ==> exists|autos: Seq<Seq<usize>>, fixes: Seq<nat>| {
            &&& autos == graph_automorphisms(edges@, n as int)
            &&& no_dup_labs(autos)
            &&& (forall|a: Seq<usize>| #[trigger] edge_automorphism(edges@, n as int, a) ==> autos.contains(a))
            &&& autos.len() >= 1
            &&& fixes.len() <= autos.len()
            &&& (forall|x: int| 0 <= x < n ==> #[trigger] autos[0][x] == x)
            &&& (forall|k: int| 0 <= k < autos.len() ==> #[trigger] edge_automorphism(edges@, n as int, autos[k]))
            &&& (forall|k: int| 0 <= k < fixes.len() ==> #[trigger] is_fix_of(autos[k], edges@, n as int, d as int, fixes[k]))
            &&& seq_sum(fixes, fixes.len() as int) > u128::MAX
        },
{
    let adj = adjacency(edges, n);
    let autos = automorphisms(&adj, n);
    if autos.len() == 0 {
        return None;
    }
    let ghost av = Seq::new(autos@.len(), |k: int| autos@[k]@);
    proof {
        assert(av =~= graph_automorphisms(edges@, n as int));
        assert(no_dup_labs(av));
        assert forall|a: Seq<usize>| #[trigger] edge_automorphism(edges@, n as int, a) implies av.contains(a) by {
            lemma_edges_aut(adj@, edges@, n as int, a);
            let k = choose|k: int| 0 <= k < autos@.len() && autos@[k]@ == a;
            assert(av[k] == a);
        }
    }
    let mut fixes: Vec<u128> = Vec::new();
    let mut sum: u128 = 0;
    let mut k = 0usize;
    while k < autos.len()
        invariant
            1 <= n <= 16,
            d < 15,
            forall|e: int| 0 <= e < edges@.len() ==> (#[trigger] edges@[e]).0 < n && edges@[e].1 < n && edges@[e].0 != edges@[e].1,
            forall|q: int| 0 <= q < autos@.len() ==> is_automorphism(adj@, n as int, #[trigger] autos@[q]@),
            av == Seq::new(autos@.len(), |q: int| autos@[q]@),
            k <= autos@.len(),
            fixes@.len() == k,
            forall|x: int, y: int| 0 <= x < n && 0 <= y < n && x != y ==> #[trigger] adjacent(adj@, x, y) == edge_upto(edges@, x, y, edges@.len() as int),
            forall|q: int| 0 <= q < k ==> #[trigger] is_fix_of(av[q], edges@, n as int, d as int, fixes@[q] as nat),
            sum as int == seq_sum(Seq::new(k as nat, |q: int| fixes@[q] as nat), k as int),
            autos@.len() >= 1,
            forall|x: int| 0 <= x < n ==> #[trigger] av[0][x] == x,
            av == graph_automorphisms(edges@, n as int),
            no_dup_labs(av),
            forall|a: Seq<usize>| #[trigger] edge_automorphism(edges@, n as int, a) ==> av.contains(a),
        decreases autos@.len() - k,
    {
        let sigma = &autos[k];
        proof {
            assert(is_automorphism(adj@, n as int, autos@[k as int]@));
        }
        let f = fix_sigma(edges, sigma.as_slice(), n, d);
        let ghost fs0 = Seq::new(k as nat, |q: int| fixes@[q] as nat);
        fixes.push(f);
        proof {
            let fs1 = Seq::new((k + 1) as nat, |q: int| fixes@[q] as nat);
            assert(fs1.subrange(0, k as int) =~= fs0);
            lemma_seq_sum_prefix(fs1, fs0, k as int);
            assert(av[k as int] == sigma@);
        }
        sum = match sum.checked_add(f) {
            Some(x) => x,
            None => {
                proof {
                    let fs1 = Seq::new((k + 1) as nat, |q: int| fixes@[q] as nat);
                    assert(seq_sum(fs1, k + 1) > u128::MAX);
                    assert forall|q: int| 0 <= q < av.len() implies #[trigger] edge_automorphism(edges@, n as int, av[q]) by {
                        lemma_aut_edges(adj@, edges@, n as int, av[q]);
                    }
                    assert forall|q: int| 0 <= q < fs1.len() implies #[trigger] is_fix_of(av[q], edges@, n as int, d as int, fs1[q]) by {
                        if q < k {
                            assert(is_fix_of(av[q], edges@, n as int, d as int, fixes@[q] as nat));
                        }
                    }
                    assert(forall|x: int| 0 <= x < n ==> #[trigger] av[0][x] == x);
                }
                return None;
            },
        };
        k += 1;
    }
    let c = sum / (autos.len() as u128);
    proof {
        let fs = Seq::new(k as nat, |q: int| fixes@[q] as nat);
        assert forall|q: int| 0 <= q < av.len() implies #[trigger] edge_automorphism(edges@, n as int, av[q]) by {
            let a = av[q];
            assert(is_automorphism(adj@, n as int, a));
            assert forall|x: int, y: int| 0 <= x < n && 0 <= y < n && x != y implies #[trigger] edge_upto(edges@, a[x] as int, a[y] as int, edges@.len() as int)
                == edge_upto(edges@, x, y, edges@.len() as int) by {
                assert(adjacent(adj@, a[x] as int, a[y] as int) == adjacent(adj@, x, y));
                assert(a[x] != a[y]);
            }
        }
        assert(fs.len() == av.len());
    }
    Some(c)
}


proof fn lemma_seq_sum_prefix(s: Seq<nat>, t: Seq<nat>, k: int)
    requires
        0 <= k < s.len(),
        s.subrange(0, k) == t,
    ensures
        seq_sum(s, k + 1) == seq_sum(t, k) + s[k],
{
    lemma_seq_sum_same(s, t, k);
}

proof fn lemma_seq_sum_same(s: Seq<nat>, t: Seq<nat>, k: int)
    requires
        0 <= k <= s.len(),
        k <= t.len(),
        forall|i: int| 0 <= i < k ==> #[trigger] s[i] == t[i],
    ensures
        seq_sum(s, k) == seq_sum(t, k),
    decreases k,
{
    if k > 0 {
        lemma_seq_sum_same(s, t, k - 1);
    }
}
} // verus!
