//! Degree-refinement signatures of vertices, used to pick a canonical parent
//! among the deletions of a game.
use vstd::prelude::*;
use std::cmp::Ordering;

verus! {

/// Bit `j` of a 16-bit row.
pub open spec fn bit16(x: u16, j: int) -> bool {
    (x >> (j as u16)) & 1u16 == 1u16
}

/// The game rows use only the first `n` vertices.
pub open spec fn rows_within(beats: Seq<u16>, n: int) -> bool {
    &&& 0 <= n <= 16
    &&& beats.len() >= n
    &&& forall|v: int, j: int| 0 <= v < n && n <= j < 16 ==> !#[trigger] bit16(beats[v], j)
}

/// `rows_within` for a machine-sized vertex count.
pub open spec fn rows_fit(beats: Seq<u16>, n: usize) -> bool {
    rows_within(beats, n as int)
}

/// Number of `j < k` with bit `j` of `x` set.
pub open spec fn cnt16(x: u16, k: int) -> nat
    decreases k,
{
    if k <= 0 {
        0
    } else {
        cnt16(x, k - 1) + if bit16(x, k - 1) { 1nat } else { 0nat }
    }
}

/// Number of `u < k` whose row has bit `v` set (the in-degree of `v` so far).
pub open spec fn indeg(beats: Seq<u16>, v: int, k: int) -> nat
    decreases k,
{
    if k <= 0 {
        0
    } else {
        indeg(beats, v, k - 1) + if bit16(beats[k - 1], v) { 1nat } else { 0nat }
    }
}

/// The degree signature `(outdeg, indeg)` of vertex `u`, packed as `outdeg * 256 + indeg`.
pub open spec fn dsig(od: Seq<u8>, id: Seq<u8>, u: int) -> u16 {
    (od[u] as nat * 256 + id[u] as nat) as u16
}

/// Inserts `x` into the nonincreasing sequence `t`, before the first smaller entry.
pub open spec fn insert_desc(t: Seq<u16>, x: u16) -> Seq<u16>
    decreases t.len(),
{
    if t.len() == 0 {
        seq![x]
    } else if t[0] < x {
        seq![x] + t
    } else {
        seq![t[0]] + insert_desc(t.drop_first(), x)
    }
}

/// Degree signatures of the out-neighbours `u < k` of `v`, sorted nonincreasing.
pub open spec fn out_sig(beats: Seq<u16>, od: Seq<u8>, id: Seq<u8>, v: int, k: int) -> Seq<u16>
    decreases k,
{
    if k <= 0 {
        Seq::empty()
    } else if bit16(beats[v], k - 1) {
        insert_desc(out_sig(beats, od, id, v, k - 1), dsig(od, id, k - 1))
    } else {
        out_sig(beats, od, id, v, k - 1)
    }
}

/// Degree signatures of the in-neighbours `u < k` of `v`, sorted nonincreasing.
pub open spec fn in_sig(beats: Seq<u16>, od: Seq<u8>, id: Seq<u8>, v: int, k: int) -> Seq<u16>
    decreases k,
{
    if k <= 0 {
        Seq::empty()
    } else if bit16(beats[k - 1], v) {
        insert_desc(in_sig(beats, od, id, v, k - 1), dsig(od, id, k - 1))
    } else {
        in_sig(beats, od, id, v, k - 1)
    }
}

/// Lexicographic order of two sequences: `-1`, `0` or `1` (a proper prefix is smaller).
pub open spec fn lex(a: Seq<u16>, b: Seq<u16>) -> int
    decreases a.len(),
{
    if a.len() == 0 && b.len() == 0 {
        0
    } else if a.len() == 0 {
        -1
    } else if b.len() == 0 {
        1
    } else if a[0] < b[0] {
        -1
    } else if a[0] > b[0] {
        1
    } else {
        lex(a.drop_first(), b.drop_first())
    }
}

/// Order of the signature keys of `a` and `b`: out-degree, in-degree, then the
/// sorted out-neighbour and in-neighbour signature lists, lexicographically.
pub open spec fn key_order(beats: Seq<u16>, n: int, od: Seq<u8>, id: Seq<u8>, a: int, b: int) -> int {
    if od[a] < od[b] {
        -1
    } else if od[a] > od[b] {
        1
    } else if id[a] < id[b] {
        -1
    } else if id[a] > id[b] {
        1
    } else {
        let lo = lex(out_sig(beats, od, id, a, n), out_sig(beats, od, id, b, n));
        if lo != 0 {
            lo
        } else {
            lex(in_sig(beats, od, id, a, n), in_sig(beats, od, id, b, n))
        }
    }
}

/// Inserts `x` into a nonincreasing vector, before its first smaller entry.
fn insert_sorted(t: &mut Vec<u16>, x: u16)
    ensures
        final(t)@ == insert_desc(old(t)@, x),
{
    let mut i = 0usize;
    while i < t.len() && t[i] >= x
        invariant
            i <= t@.len(),
            forall|k: int| 0 <= k < i ==> t@[k] >= x,
        decreases t@.len() - i,
    {
        i += 1;
    }
    proof {
        lemma_insert_at(t@, x, i as int);
    }
    t.insert(i, x);
}

proof fn lemma_insert_at(t: Seq<u16>, x: u16, i: int)
    requires
        0 <= i <= t.len(),
        forall|k: int| 0 <= k < i ==> t[k] >= x,
        i == t.len() || t[i] < x,
    ensures
        t.insert(i, x) == insert_desc(t, x),
    decreases i,
{
    if i == 0 {
        if t.len() == 0 {
            assert(t.insert(0, x) =~= seq![x]);
        } else {
            assert(t.insert(0, x) =~= seq![x] + t);
        }
    } else {
        let u = t.drop_first();
        lemma_insert_at(u, x, i - 1);
        assert(t.insert(i, x) =~= seq![t[0]] + u.insert(i - 1, x));
    }
}

/// The packed degree signature of vertex `u`.
fn pack_sig(od: &[u8; 16], id: &[u8; 16], u: usize) -> (r: u16)
    requires
        u < 16,
    ensures
        r == dsig(od@, id@, u as int),
{
    let o = od[u] as u16;
    let i = id[u] as u16;
    proof {
        assert(o < 256 && i < 256 ==> (o << 8u16) | i == o * 256 + i) by (bit_vector);
    }
    (o << 8) | i
}

/// Sorted out- and in-neighbour signature lists of vertex `v`.
fn fill(beats: &[u16], n: usize, od: &[u8; 16], id: &[u8; 16], v: usize) -> (r: (Vec<u16>, Vec<u16>))
    requires
        rows_within(beats@, n as int),
        v < n,
    ensures
        r.0@ == out_sig(beats@, od@, id@, v as int, n as int),
        r.1@ == in_sig(beats@, od@, id@, v as int, n as int),
{
    let mut outs: Vec<u16> = Vec::new();
    let mut ins: Vec<u16> = Vec::new();
    let mut u = 0usize;
    while u < n
        invariant
            rows_within(beats@, n as int),
            v < n,
            u <= n,
            outs@ == out_sig(beats@, od@, id@, v as int, u as int),
            ins@ == in_sig(beats@, od@, id@, v as int, u as int),
        decreases n - u,
    {
        let du = pack_sig(od, id, u);
        if (beats[v] >> (u as u16)) & 1 == 1 {
            insert_sorted(&mut outs, du);
        }
        if (beats[u] >> (v as u16)) & 1 == 1 {
            insert_sorted(&mut ins, du);
        }
        u += 1;
    }
    (outs, ins)
}

/// Lexicographic order of two vectors as `-1`, `0` or `1`.
fn lex_order(a: &Vec<u16>, b: &Vec<u16>) -> (r: i8)
    ensures
        r as int == lex(a@, b@),
{
    let mut i = 0usize;
    proof {
        assert(a@.skip(0) =~= a@);
        assert(b@.skip(0) =~= b@);
    }
    while i < a.len() && i < b.len()
        invariant
            i <= a@.len(),
            i <= b@.len(),
            lex(a@, b@) == lex(a@.skip(i as int), b@.skip(i as int)),
        decreases a@.len() - i,
    {
        if a[i] < b[i] {
            return -1;
        }
        if a[i] > b[i] {
            return 1;
        }
        proof {
            assert(a@.skip(i as int).drop_first() =~= a@.skip(i + 1));
            assert(b@.skip(i as int).drop_first() =~= b@.skip(i + 1));
        }
        i += 1;
    }
    proof {
        assert(a@.skip(i as int).len() == 0 || b@.skip(i as int).len() == 0);
    }
    if a.len() == b.len() {
        0
    } else if a.len() < b.len() {
        -1
    } else {
        1
    }
}

/// The key order of `a` and `b` as `-1`, `0` or `1`.
fn key_order_exec(beats: &[u16], n: usize, od: &[u8; 16], id: &[u8; 16], a: usize, b: usize) -> (r: i8)
    requires
        rows_within(beats@, n as int),
        a < n,
        b < n,
    ensures
        r as int == key_order(beats@, n as int, od@, id@, a as int, b as int),
{
    if od[a] < od[b] {
        return -1;
    }
    if od[a] > od[b] {
        return 1;
    }
    if id[a] < id[b] {
        return -1;
    }
    if id[a] > id[b] {
        return 1;
    }
    let (ao, ai) = fill(beats, n, od, id, a);
    let (bo, bi) = fill(beats, n, od, id, b);
    let lo = lex_order(&ao, &bo);
    if lo != 0 {
        return lo;
    }
    lex_order(&ai, &bi)
}

/// The key order of two vertices given by machine indices.
pub open spec fn sig_order(beats: Seq<u16>, n: usize, od: [u8; 16], id: [u8; 16], a: usize, b: usize) -> int {
    key_order(beats, n as int, od@, id@, a as int, b as int)
}

/// Full-signature comparison of vertices `a` and `b` of the game `beats`,
/// given its out- and in-degree arrays.
pub fn sig_cmp_with(beats: &[u16], n: usize, od: &[u8; 16], id: &[u8; 16], a: usize, b: usize) -> (r: Ordering)
    requires
        rows_fit(beats@, n),
        a < n,
        b < n,
    ensures
        (r == Ordering::Less) == (sig_order(beats@, n, *od, *id, a, b) < 0),
        (r == Ordering::Equal) == (sig_order(beats@, n, *od, *id, a, b) == 0),
        (r == Ordering::Greater) == (sig_order(beats@, n, *od, *id, a, b) > 0),
{
    let k = key_order_exec(beats, n, od, id, a, b);
    if k < 0 {
        Ordering::Less
    } else if k == 0 {
        Ordering::Equal
    } else {
        Ordering::Greater
    }
}

/// Out-degrees (all sixteen bits of each row counted) of the first `n` vertices.
pub open spec fn od_seq(beats: Seq<u16>, n: int) -> Seq<u8> {
    Seq::new(16, |v: int| if v < n { cnt16(beats[v], 16) as u8 } else { 0u8 })
}

/// In-degrees of the first `n` vertices.
pub open spec fn id_seq(beats: Seq<u16>, n: int) -> Seq<u8> {
    Seq::new(16, |v: int| if v < n { indeg(beats, v, n) as u8 } else { 0u8 })
}

proof fn lemma_cnt16_bound(x: u16, k: int)
    requires
        0 <= k,
    ensures
        cnt16(x, k) <= k,
    decreases k,
{
    if k > 0 {
        lemma_cnt16_bound(x, k - 1);
    }
}

proof fn lemma_indeg_bound(beats: Seq<u16>, v: int, k: int)
    requires
        0 <= k,
    ensures
        indeg(beats, v, k) <= k,
    decreases k,
{
    if k > 0 {
        lemma_indeg_bound(beats, v, k - 1);
    }
}

/// Out- and in-degree arrays of the game.
fn degrees(beats: &[u16], n: usize) -> (r: ([u8; 16], [u8; 16]))
    requires
        rows_within(beats@, n as int),
    ensures
        r.0@ == od_seq(beats@, n as int),
        r.1@ == id_seq(beats@, n as int),
{
    let mut od = [0u8; 16];
    let mut id = [0u8; 16];
    let mut v = 0usize;
    while v < n
        invariant
            rows_within(beats@, n as int),
            v <= n,
            forall|w: int| 0 <= w < 16 ==> #[trigger] od@[w] == if w < v { cnt16(beats@[w], 16) as u8 } else { 0u8 },
            forall|w: int| 0 <= w < 16 ==> #[trigger] id@[w] == if w < v { indeg(beats@, w, n as int) as u8 } else { 0u8 },
        decreases n - v,
    {
        let mut c = 0u8;
        let mut j = 0usize;
        while j < 16
            invariant
                v < n <= 16,
                j <= 16,
                beats@.len() >= n,
                c == cnt16(beats@[v as int], j as int),
            decreases 16 - j,
        {
            proof {
                lemma_cnt16_bound(beats@[v as int], j as int);
            }
            if (beats[v] >> (j as u16)) & 1 == 1 {
                c += 1;
            }
            j += 1;
        }
        let mut inn = 0u8;
        let mut u = 0usize;
        while u < n
            invariant
                v < n <= 16,
                u <= n,
                beats@.len() >= n,
                inn == indeg(beats@, v as int, u as int),
            decreases n - u,
        {
            proof {
                lemma_indeg_bound(beats@, v as int, u as int);
            }
            if (beats[u] >> (v as u16)) & 1 == 1 {
                inn += 1;
            }
            u += 1;
        }
        od[v] = c;
        id[v] = inn;
        v += 1;
    }
    proof {
        assert(od@ =~= od_seq(beats@, n as int));
        assert(id@ =~= id_seq(beats@, n as int));
    }
    (od, id)
}

/// The closure `eligible` answers, for every vertex below `n`, whether it is in `e`.
pub open spec fn pure_eligible<F: Fn(usize) -> bool>(eligible: F, e: Set<int>, n: int) -> bool {
    forall|v: usize, b: bool| v < n && #[trigger] call_ensures(eligible, (v,), b) ==> b == e.contains(v as int)
}

/// No vertex of `e` other than `p` has a strictly larger key than `p`.
pub open spec fn maximal_in(beats: Seq<u16>, n: int, p: int, e: Set<int>) -> bool {
    forall|v: int| 0 <= v < n && v != p && #[trigger] e.contains(v) ==> key_order(beats, n, od_seq(beats, n), id_seq(beats, n), v, p) <= 0
}

/// Is vertex `p` signature-maximal among the vertices that `eligible` admits?
/// Returns `false` exactly when some admitted vertex other than `p` has a
/// strictly larger key.
pub fn sig_maximal(beats: &[u16], n: usize, p: usize, eligible: impl Fn(usize) -> bool) -> (r: bool)
    requires
        rows_within(beats@, n as int),
        p < n,
        forall|v: usize| v < n ==> call_requires(eligible, (v,)),
    ensures
        forall|e: Set<int>| #[trigger] pure_eligible(eligible, e, n as int) ==> r == maximal_in(beats@, n as int, p as int, e),
        r ==> forall|v: usize|
            v < n && v != p && #[trigger] key_order(beats@, n as int, od_seq(beats@, n as int), id_seq(beats@, n as int), v as int, p as int) > 0
                ==> call_ensures(eligible, (v,), false),
        !r ==> exists|v: usize|
            v < n && v != p && key_order(beats@, n as int, od_seq(beats@, n as int), id_seq(beats@, n as int), v as int, p as int) > 0
                && #[trigger] call_ensures(eligible, (v,), true),
{
    let (od, id) = degrees(beats, n);
    let mut v = 0usize;
    while v < n
        invariant
            rows_within(beats@, n as int),
            p < n,
            v <= n,
            od@ == od_seq(beats@, n as int),
            id@ == id_seq(beats@, n as int),
            forall|w: usize| w < n ==> call_requires(eligible, (w,)),
            forall|w: usize|
                w < v && w != p && #[trigger] key_order(beats@, n as int, od@, id@, w as int, p as int) > 0
                    ==> call_ensures(eligible, (w,), false),
        decreases n - v,
    {
        if v == p {
            v += 1;
            continue;
        }
        let ok = eligible(v);
        if !ok {
            v += 1;
            continue;
        }
        let k = key_order_exec(beats, n, &od, &id, v, p);
        if k > 0 {
            proof {
                assert forall|e: Set<int>| #[trigger] pure_eligible(eligible, e, n as int) implies !maximal_in(beats@, n as int, p as int, e) by {
                    assert(call_ensures(eligible, (v,), true));
                    assert(e.contains(v as int));
                }
            }
            return false;
        }
        v += 1;
    }
    proof {
        assert forall|e: Set<int>| #[trigger] pure_eligible(eligible, e, n as int) implies maximal_in(beats@, n as int, p as int, e) by {
            assert forall|w: int| 0 <= w < n && w != p && #[trigger] e.contains(w) implies key_order(beats@, n as int, od_seq(beats@, n as int), id_seq(
                beats@,
                n as int,
            ), w, p as int) <= 0 by {
                let wu = w as usize;
                if key_order(beats@, n as int, od@, id@, wu as int, p as int) > 0 {
                    assert(call_ensures(eligible, (wu,), false));
                }
            }
        }
    }
    true
}

/// Is the added vertex `p` signature-maximal among all vertices?
pub fn added_is_maximal(beats: &[u16], n: usize, p: usize) -> (r: bool)
    requires
        rows_within(beats@, n as int),
        p < n,
    ensures
        r == forall|v: int|
            0 <= v < n && v != p ==> key_order(beats@, n as int, od_seq(beats@, n as int), id_seq(beats@, n as int), v, p as int) <= 0,
{
    let all = |_v: usize| -> (b: bool)
        ensures
            b,
        { true };
    let r = sig_maximal(beats, n, p, all);
    proof {
        if r {
            assert forall|v: int|
                0 <= v < n && v != p implies key_order(beats@, n as int, od_seq(beats@, n as int), id_seq(beats@, n as int), v, p as int) <= 0 by {
                let vv = v as usize;
                if key_order(beats@, n as int, od_seq(beats@, n as int), id_seq(beats@, n as int), v, p as int) > 0 {
                    assert(key_order(beats@, n as int, od_seq(beats@, n as int), id_seq(beats@, n as int), vv as int, p as int) > 0);
                    assert(call_ensures(all, (vv,), false));
                }
            }
        }
    }
    r
}


proof fn lemma_lex_antisym(a: Seq<u16>, b: Seq<u16>)
    ensures
        lex(a, b) == -lex(b, a),
        lex(a, b) == 0 ==> a == b,
    decreases a.len(),
{
    if a.len() > 0 && b.len() > 0 && a[0] == b[0] {
        lemma_lex_antisym(a.drop_first(), b.drop_first());
        if lex(a, b) == 0 {
            assert(a =~= seq![a[0]] + a.drop_first());
            assert(b =~= seq![b[0]] + b.drop_first());
        }
    } else if a.len() == 0 && b.len() == 0 {
        assert(a =~= b);
    }
}

proof fn lemma_lex_trans(a: Seq<u16>, b: Seq<u16>, c: Seq<u16>)
    requires
        lex(a, b) <= 0,
        lex(b, c) <= 0,
    ensures
        lex(a, c) <= 0,
        lex(a, b) < 0 || lex(b, c) < 0 ==> lex(a, c) < 0,
    decreases a.len(),
{
    lemma_lex_antisym(a, b);
    lemma_lex_antisym(b, c);
    if a.len() > 0 && b.len() > 0 && c.len() > 0 && a[0] == b[0] && b[0] == c[0] {
        lemma_lex_trans(a.drop_first(), b.drop_first(), c.drop_first());
    }
}

/// The signature key order is a total preorder: reversing the pair negates it,
/// a vertex ties itself, and it is transitive (strictly where either step is).
pub proof fn lemma_key_order_preorder(beats: Seq<u16>, n: int, od: Seq<u8>, id: Seq<u8>, a: int, b: int, c: int)
    ensures
        key_order(beats, n, od, id, a, b) == -key_order(beats, n, od, id, b, a),
        key_order(beats, n, od, id, a, a) == 0,
        key_order(beats, n, od, id, a, b) <= 0 && key_order(beats, n, od, id, b, c) <= 0 ==> key_order(beats, n, od, id, a, c) <= 0,
        key_order(beats, n, od, id, a, b) < 0 && key_order(beats, n, od, id, b, c) <= 0 ==> key_order(beats, n, od, id, a, c) < 0,
        key_order(beats, n, od, id, a, b) <= 0 && key_order(beats, n, od, id, b, c) < 0 ==> key_order(beats, n, od, id, a, c) < 0,
{
    let oa = out_sig(beats, od, id, a, n);
    let ob = out_sig(beats, od, id, b, n);
    let oc = out_sig(beats, od, id, c, n);
    let ia = in_sig(beats, od, id, a, n);
    let ib = in_sig(beats, od, id, b, n);
    let ic = in_sig(beats, od, id, c, n);
    lemma_lex_antisym(oa, ob);
    lemma_lex_antisym(ia, ib);
    lemma_lex_antisym(oa, oa);
    lemma_lex_antisym(ia, ia);
    lemma_lex_antisym(ob, oc);
    lemma_lex_antisym(ib, ic);
    lemma_lex_antisym(oa, oc);
    lemma_lex_antisym(ia, ic);
    if lex(oa, ob) <= 0 && lex(ob, oc) <= 0 {
        lemma_lex_trans(oa, ob, oc);
    }
    if lex(ia, ib) <= 0 && lex(ib, ic) <= 0 {
        lemma_lex_trans(ia, ib, ic);
    }
}

/// Among the vertices `v < n` in `elig`, if there are any, some one has the
/// largest key: no vertex of `elig` has a strictly larger key. So the
/// signature-maximality test always admits some eligible vertex.
pub proof fn lemma_some_maximal(beats: Seq<u16>, n: int, od: Seq<u8>, id: Seq<u8>, elig: Set<int>) -> (p: int)
    requires
        exists|v: int| 0 <= v < n && #[trigger] elig.contains(v),
    ensures
        0 <= p < n,
        elig.contains(p),
        forall|v: int| 0 <= v < n && elig.contains(v) ==> #[trigger] key_order(beats, n, od, id, v, p) <= 0,
{
    lemma_some_maximal_at(beats, n, od, id, elig, n)
}

/// The largest-key vertex of `elig` among the first `k`, keys taken in the game on `n` vertices.
proof fn lemma_some_maximal_at(beats: Seq<u16>, n: int, od: Seq<u8>, id: Seq<u8>, elig: Set<int>, k: int) -> (p: int)
    requires
        k <= n,
        exists|v: int| 0 <= v < k && #[trigger] elig.contains(v),
    ensures
        0 <= p < k,
        elig.contains(p),
        forall|v: int| 0 <= v < k && elig.contains(v) ==> #[trigger] key_order(beats, n, od, id, v, p) <= 0,
    decreases k,
{
    if exists|v: int| 0 <= v < k - 1 && #[trigger] elig.contains(v) {
        let q = lemma_some_maximal_at(beats, n, od, id, elig, k - 1);
        if elig.contains(k - 1) && key_order(beats, n, od, id, k - 1, q) > 0 {
            assert forall|v: int| 0 <= v < k && elig.contains(v) implies #[trigger] key_order(beats, n, od, id, v, k - 1) <= 0 by {
                lemma_key_order_preorder(beats, n, od, id, v, q, k - 1);
                lemma_key_order_preorder(beats, n, od, id, k - 1, q, v);
                if v < k - 1 {
                    assert(key_order(beats, n, od, id, v, q) <= 0);
                }
            }
            k - 1
        } else {
            assert forall|v: int| 0 <= v < k && elig.contains(v) implies #[trigger] key_order(beats, n, od, id, v, q) <= 0 by {
                if v < k - 1 {
                    assert(key_order(beats, n, od, id, v, q) <= 0);
                }
            }
            q
        }
    } else {
        let w = choose|v: int| 0 <= v < k && #[trigger] elig.contains(v);
        assert(w == k - 1);
        assert forall|v: int| 0 <= v < k && elig.contains(v) implies #[trigger] key_order(beats, n, od, id, v, k - 1) <= 0 by {
            assert(v == k - 1);
            lemma_key_order_preorder(beats, n, od, id, v, v, v);
        }
        k - 1
    }
}

/// With the degree arrays that `sig_maximal` counts, the order `sig_cmp_with`
/// reports is the key order that `sig_maximal` and `added_is_maximal` use.
pub proof fn lemma_same_key(beats: Seq<u16>, n: usize, od: [u8; 16], id: [u8; 16], a: usize, b: usize)
    requires
        od@ == od_seq(beats, n as int),
        id@ == id_seq(beats, n as int),
    ensures
        sig_order(beats, n, od, id, a, b) == key_order(beats, n as int, od_seq(beats, n as int), id_seq(beats, n as int), a as int, b as int),
{
}

/// The entries never increase.
pub open spec fn nonincreasing(s: Seq<u16>) -> bool {
    forall|i: int, j: int| 0 <= i < j < s.len() ==> s[i] >= s[j]
}

proof fn lemma_insert_desc(t: Seq<u16>, x: u16)
    requires
        nonincreasing(t),
    ensures
        nonincreasing(insert_desc(t, x)),
        insert_desc(t, x).to_multiset() == t.to_multiset().insert(x),
    decreases t.len(),
{
    broadcast use vstd::seq_lib::group_to_multiset_ensures;
    broadcast use vstd::multiset::group_multiset_axioms;

    if t.len() == 0 {
        assert(insert_desc(t, x) == seq![x]);
        assert(seq![x] =~= Seq::<u16>::empty().push(x));
        assert(Seq::<u16>::empty().to_multiset() =~= vstd::multiset::Multiset::<u16>::empty());
    } else if t[0] < x {
        let r = seq![x] + t;
        assert(r =~= t.insert(0, x));
        vstd::seq_lib::to_multiset_insert(t, 0, x);
    } else {
        let rest = t.drop_first();
        assert forall|i: int, j: int| 0 <= i < j < rest.len() implies rest[i] >= rest[j] by {
            assert(rest[i] == t[i + 1] && rest[j] == t[j + 1]);
        }
        lemma_insert_desc(rest, x);
        let ir = insert_desc(rest, x);
        let r = seq![t[0]] + ir;
        assert forall|i: int, j: int| 0 <= i < j < r.len() implies r[i] >= r[j] by {
            if i == 0 {
                assert(ir.to_multiset().count(r[j]) > 0) by {
                    vstd::seq_lib::to_multiset_contains(ir, r[j]);
                    assert(ir[j - 1] == r[j]);
                }
                assert(rest.to_multiset().insert(x).count(r[j]) > 0);
                if r[j] != x {
                    vstd::seq_lib::to_multiset_contains(rest, r[j]);
                    let k = choose|k: int| 0 <= k < rest.len() && rest[k] == r[j];
                    assert(t[k + 1] == r[j]);
                }
            }
        }
        assert(t =~= seq![t[0]] + rest);
        vstd::seq_lib::lemma_seq_union_to_multiset_commutative(seq![t[0]], ir);
        vstd::seq_lib::lemma_seq_union_to_multiset_commutative(seq![t[0]], rest);
        vstd::seq_lib::lemma_multiset_commutative(seq![t[0]], ir);
        vstd::seq_lib::lemma_multiset_commutative(seq![t[0]], rest);
        assert(r.to_multiset() =~= t.to_multiset().insert(x));
    }
}

/// Two nonincreasing sequences with the same entries are equal.
proof fn lemma_sorted_unique(a: Seq<u16>, b: Seq<u16>)
    requires
        nonincreasing(a),
        nonincreasing(b),
        a.to_multiset() == b.to_multiset(),
    ensures
        a == b,
    decreases a.len(),
{
    broadcast use vstd::seq_lib::group_to_multiset_ensures;
    broadcast use vstd::multiset::group_multiset_axioms;

    vstd::seq_lib::to_multiset_len(a);
    vstd::seq_lib::to_multiset_len(b);
    if a.len() > 0 {
        vstd::seq_lib::to_multiset_contains(a, a[0]);
        vstd::seq_lib::to_multiset_contains(b, a[0]);
        vstd::seq_lib::to_multiset_contains(b, b[0]);
        vstd::seq_lib::to_multiset_contains(a, b[0]);
        let ka = choose|k: int| 0 <= k < a.len() && a[k] == b[0];
        let kb = choose|k: int| 0 <= k < b.len() && b[k] == a[0];
        assert(a[0] >= a[ka]);
        assert(b[0] >= b[kb]);
        assert(a[0] == b[0]);
        vstd::seq_lib::to_multiset_remove(a, 0);
        vstd::seq_lib::to_multiset_remove(b, 0);
        assert(a.remove(0) =~= a.drop_first());
        assert(b.remove(0) =~= b.drop_first());
        let a1 = a.drop_first();
        let b1 = b.drop_first();
        assert forall|i: int, j: int| 0 <= i < j < a1.len() implies a1[i] >= a1[j] by {
            assert(a1[i] == a[i + 1] && a1[j] == a[j + 1]);
        }
        assert forall|i: int, j: int| 0 <= i < j < b1.len() implies b1[i] >= b1[j] by {
            assert(b1[i] == b[i + 1] && b1[j] == b[j + 1]);
        }
        lemma_sorted_unique(a1, b1);
        assert forall|i: int| 0 <= i < a.len() implies a[i] == b[i] by {
            if i > 0 {
                assert(a[i] == a1[i - 1]);
                assert(b[i] == b1[i - 1]);
            }
        }
        assert(a =~= b);
    }
}


/// The number of out-neighbours `u < k` of `v` with degree signature `x`.
pub open spec fn out_count(beats: Seq<u16>, od: Seq<u8>, id: Seq<u8>, v: int, x: u16, k: int) -> nat
    decreases k,
{
    if k <= 0 {
        0
    } else {
        out_count(beats, od, id, v, x, k - 1) + if bit16(beats[v], k - 1) && dsig(od, id, k - 1) == x { 1nat } else { 0nat }
    }
}

/// The number of in-neighbours `u < k` of `v` with degree signature `x`.
pub open spec fn in_count(beats: Seq<u16>, od: Seq<u8>, id: Seq<u8>, v: int, x: u16, k: int) -> nat
    decreases k,
{
    if k <= 0 {
        0
    } else {
        in_count(beats, od, id, v, x, k - 1) + if bit16(beats[k - 1], v) && dsig(od, id, k - 1) == x { 1nat } else { 0nat }
    }
}

proof fn lemma_out_sig_shape(beats: Seq<u16>, od: Seq<u8>, id: Seq<u8>, v: int, k: int)
    ensures
        nonincreasing(out_sig(beats, od, id, v, k)),
        nonincreasing(in_sig(beats, od, id, v, k)),
        forall|x: u16| #[trigger] out_sig(beats, od, id, v, k).to_multiset().count(x) == out_count(beats, od, id, v, x, k),
        forall|x: u16| #[trigger] in_sig(beats, od, id, v, k).to_multiset().count(x) == in_count(beats, od, id, v, x, k),
    decreases k,
{
    broadcast use vstd::multiset::group_multiset_axioms;

    if k <= 0 {
        assert(Seq::<u16>::empty().to_multiset() =~= vstd::multiset::Multiset::<u16>::empty()) by {
            broadcast use vstd::seq_lib::group_to_multiset_ensures;
        }
    } else {
        lemma_out_sig_shape(beats, od, id, v, k - 1);
        let d = dsig(od, id, k - 1);
        if bit16(beats[v], k - 1) {
            lemma_insert_desc(out_sig(beats, od, id, v, k - 1), d);
        }
        if bit16(beats[k - 1], v) {
            lemma_insert_desc(in_sig(beats, od, id, v, k - 1), d);
        }
    }
}

/// The set of out-neighbours `u < k` of `v` with signature `x`.
pub open spec fn out_set(beats: Seq<u16>, od: Seq<u8>, id: Seq<u8>, v: int, x: u16, k: int) -> Set<int> {
    Set::new(|u: int| 0 <= u < k && bit16(beats[v], u) && dsig(od, id, u) == x)
}

/// The set of in-neighbours `u < k` of `v` with signature `x`.
pub open spec fn in_set(beats: Seq<u16>, od: Seq<u8>, id: Seq<u8>, v: int, x: u16, k: int) -> Set<int> {
    Set::new(|u: int| 0 <= u < k && bit16(beats[u], v) && dsig(od, id, u) == x)
}

proof fn lemma_count_sets(beats: Seq<u16>, od: Seq<u8>, id: Seq<u8>, v: int, x: u16, k: int)
    requires
        0 <= k,
    ensures
        out_set(beats, od, id, v, x, k).finite(),
        out_set(beats, od, id, v, x, k).len() == out_count(beats, od, id, v, x, k),
        in_set(beats, od, id, v, x, k).finite(),
        in_set(beats, od, id, v, x, k).len() == in_count(beats, od, id, v, x, k),
    decreases k,
{
    if k == 0 {
        assert(out_set(beats, od, id, v, x, k) =~= Set::<int>::empty());
        assert(in_set(beats, od, id, v, x, k) =~= Set::<int>::empty());
    } else {
        lemma_count_sets(beats, od, id, v, x, k - 1);
        let so = out_set(beats, od, id, v, x, k - 1);
        let si = in_set(beats, od, id, v, x, k - 1);
        if bit16(beats[v], k - 1) && dsig(od, id, k - 1) == x {
            assert(out_set(beats, od, id, v, x, k) =~= so.insert(k - 1));
        } else {
            assert(out_set(beats, od, id, v, x, k) =~= so);
        }
        if bit16(beats[k - 1], v) && dsig(od, id, k - 1) == x {
            assert(in_set(beats, od, id, v, x, k) =~= si.insert(k - 1));
        } else {
            assert(in_set(beats, od, id, v, x, k) =~= si);
        }
    }
}

/// `beats2`, `od2`, `id2` are `beats`, `od`, `id` relabelled by the permutation `pi` of `0..n`.
pub open spec fn relabelled(beats: Seq<u16>, od: Seq<u8>, id: Seq<u8>, beats2: Seq<u16>, od2: Seq<u8>, id2: Seq<u8>, pi: Seq<usize>, n: int) -> bool {
    &&& crate::wl::is_perm(pi, n)
    &&& n <= 16
    &&& forall|u: int, w: int| 0 <= u < n && 0 <= w < n ==> #[trigger] bit16(beats2[pi[u] as int], pi[w] as int) == bit16(beats[u], w)
    &&& forall|u: int| 0 <= u < n ==> #[trigger] od2[pi[u] as int] == od[u] && id2[pi[u] as int] == id[u]
}

proof fn lemma_counts_relabel(beats: Seq<u16>, od: Seq<u8>, id: Seq<u8>, beats2: Seq<u16>, od2: Seq<u8>, id2: Seq<u8>, pi: Seq<usize>, n: int, a: int, x: u16)
    requires
        relabelled(beats, od, id, beats2, od2, id2, pi, n),
        0 <= a < n,
    ensures
        out_count(beats2, od2, id2, pi[a] as int, x, n) == out_count(beats, od, id, a, x, n),
        in_count(beats2, od2, id2, pi[a] as int, x, n) == in_count(beats, od, id, a, x, n),
{
    let pa = pi[a] as int;
    let f = |u: int| pi[u] as int;
    lemma_count_sets(beats, od, id, a, x, n);
    lemma_count_sets(beats2, od2, id2, pa, x, n);
    let s1 = out_set(beats, od, id, a, x, n);
    let s2 = out_set(beats2, od2, id2, pa, x, n);
    let t1 = in_set(beats, od, id, a, x, n);
    let t2 = in_set(beats2, od2, id2, pa, x, n);
    assert forall|u: int, w: int| s1.contains(u) && s1.contains(w) && #[trigger] f(u) == #[trigger] f(w) implies u == w by {}
    assert forall|u: int, w: int| t1.contains(u) && t1.contains(w) && #[trigger] f(u) == #[trigger] f(w) implies u == w by {}
    assert(s1.map(f) =~= s2) by {
        assert forall|y: int| #[trigger] s2.contains(y) implies s1.map(f).contains(y) by {
            crate::wl::lemma_perm_onto(pi, n, y);
            let u = choose|u: int| 0 <= u < n && pi[u] == y;
            assert(bit16(beats2[pa], pi[u] as int) == bit16(beats[a], u));
            assert(od2[pi[u] as int] == od[u] && id2[pi[u] as int] == id[u]);
            assert(s1.contains(u));
            assert(f(u) == y);
        }
        assert forall|y: int| s1.map(f).contains(y) implies #[trigger] s2.contains(y) by {
            let u = choose|u: int| s1.contains(u) && f(u) == y;
            assert(bit16(beats2[pa], pi[u] as int) == bit16(beats[a], u));
            assert(od2[pi[u] as int] == od[u] && id2[pi[u] as int] == id[u]);
        }
    }
    assert(t1.map(f) =~= t2) by {
        assert forall|y: int| #[trigger] t2.contains(y) implies t1.map(f).contains(y) by {
            crate::wl::lemma_perm_onto(pi, n, y);
            let u = choose|u: int| 0 <= u < n && pi[u] == y;
            assert(bit16(beats2[pi[u] as int], pa) == bit16(beats[u], a));
            assert(od2[pi[u] as int] == od[u] && id2[pi[u] as int] == id[u]);
            assert(t1.contains(u));
            assert(f(u) == y);
        }
        assert forall|y: int| t1.map(f).contains(y) implies #[trigger] t2.contains(y) by {
            let u = choose|u: int| t1.contains(u) && f(u) == y;
            assert(bit16(beats2[pi[u] as int], pa) == bit16(beats[u], a));
            assert(od2[pi[u] as int] == od[u] && id2[pi[u] as int] == id[u]);
        }
    }
    vstd::set_lib::lemma_map_size(s1, s2, f);
    vstd::set_lib::lemma_map_size(t1, t2, f);
}

/// The signature key is invariant under relabelling: relabelling the game and
/// its degree arrays by a permutation `pi` relabels the key order.
pub proof fn lemma_key_order_relabel(
    beats: Seq<u16>,
    od: Seq<u8>,
    id: Seq<u8>,
    beats2: Seq<u16>,
    od2: Seq<u8>,
    id2: Seq<u8>,
    pi: Seq<usize>,
    n: int,
    a: int,
    b: int,
)
    requires
        relabelled(beats, od, id, beats2, od2, id2, pi, n),
        0 <= a < n,
        0 <= b < n,
    ensures
        key_order(beats2, n, od2, id2, pi[a] as int, pi[b] as int) == key_order(beats, n, od, id, a, b),
{
    broadcast use vstd::multiset::group_multiset_axioms;

    assert forall|v: int| 0 <= v < n implies #[trigger] out_sig(beats2, od2, id2, pi[v] as int, n) == out_sig(beats, od, id, v, n) && in_sig(
        beats2,
        od2,
        id2,
        pi[v] as int,
        n,
    ) == in_sig(beats, od, id, v, n) by {
        lemma_out_sig_shape(beats, od, id, v, n);
        lemma_out_sig_shape(beats2, od2, id2, pi[v] as int, n);
        assert forall|x: u16| #[trigger] out_sig(beats2, od2, id2, pi[v] as int, n).to_multiset().count(x) == out_sig(beats, od, id, v, n).to_multiset().count(x) by {
            lemma_counts_relabel(beats, od, id, beats2, od2, id2, pi, n, v, x);
        }
        assert forall|x: u16| #[trigger] in_sig(beats2, od2, id2, pi[v] as int, n).to_multiset().count(x) == in_sig(beats, od, id, v, n).to_multiset().count(x) by {
            lemma_counts_relabel(beats, od, id, beats2, od2, id2, pi, n, v, x);
        }
        assert(out_sig(beats2, od2, id2, pi[v] as int, n).to_multiset() =~= out_sig(beats, od, id, v, n).to_multiset());
        assert(in_sig(beats2, od2, id2, pi[v] as int, n).to_multiset() =~= in_sig(beats, od, id, v, n).to_multiset());
        lemma_sorted_unique(out_sig(beats2, od2, id2, pi[v] as int, n), out_sig(beats, od, id, v, n));
        lemma_sorted_unique(in_sig(beats2, od2, id2, pi[v] as int, n), in_sig(beats, od, id, v, n));
    }
    assert(od2[pi[a] as int] == od[a] && id2[pi[a] as int] == id[a]);
    assert(od2[pi[b] as int] == od[b] && id2[pi[b] as int] == id[b]);
    assert(out_sig(beats2, od2, id2, pi[a] as int, n) == out_sig(beats, od, id, a, n));
    assert(out_sig(beats2, od2, id2, pi[b] as int, n) == out_sig(beats, od, id, b, n));
    assert(in_sig(beats2, od2, id2, pi[a] as int, n) == in_sig(beats, od, id, a, n));
    assert(in_sig(beats2, od2, id2, pi[b] as int, n) == in_sig(beats, od, id, b, n));
}


proof fn lemma_deg_sets(beats: Seq<u16>, v: int, k: int)
    requires
        0 <= k <= 16,
    ensures
        Set::new(|w: int| 0 <= w < k && bit16(beats[v], w)).finite(),
        Set::new(|w: int| 0 <= w < k && bit16(beats[v], w)).len() == cnt16(beats[v], k),
        Set::new(|u: int| 0 <= u < k && bit16(beats[u], v)).finite(),
        Set::new(|u: int| 0 <= u < k && bit16(beats[u], v)).len() == indeg(beats, v, k),
    decreases k,
{
    let so = Set::new(|w: int| 0 <= w < k && bit16(beats[v], w));
    let si = Set::new(|u: int| 0 <= u < k && bit16(beats[u], v));
    if k == 0 {
        assert(so =~= Set::<int>::empty());
        assert(si =~= Set::<int>::empty());
    } else {
        lemma_deg_sets(beats, v, k - 1);
        let po = Set::new(|w: int| 0 <= w < k - 1 && bit16(beats[v], w));
        let pi = Set::new(|u: int| 0 <= u < k - 1 && bit16(beats[u], v));
        if bit16(beats[v], k - 1) {
            assert(so =~= po.insert(k - 1));
        } else {
            assert(so =~= po);
        }
        if bit16(beats[k - 1], v) {
            assert(si =~= pi.insert(k - 1));
        } else {
            assert(si =~= pi);
        }
    }
}

proof fn lemma_cnt16_tail(x: u16, n: int, k: int)
    requires
        0 <= n <= k <= 16,
        forall|j: int| n <= j < 16 ==> !#[trigger] bit16(x, j),
    ensures
        cnt16(x, k) == cnt16(x, n),
    decreases k,
{
    if k > n {
        lemma_cnt16_tail(x, n, k - 1);
    }
}

/// Relabelling a game relabels its counted degrees.
proof fn lemma_degrees_relabel(beats: Seq<u16>, beats2: Seq<u16>, pi: Seq<usize>, n: int, v: int)
    requires
        rows_within(beats, n),
        rows_within(beats2, n),
        crate::wl::is_perm(pi, n),
        forall|u: int, w: int| 0 <= u < n && 0 <= w < n ==> #[trigger] bit16(beats2[pi[u] as int], pi[w] as int) == bit16(beats[u], w),
        0 <= v < n,
    ensures
        od_seq(beats2, n)[pi[v] as int] == od_seq(beats, n)[v],
        id_seq(beats2, n)[pi[v] as int] == id_seq(beats, n)[v],
{
    let pv = pi[v] as int;
    let f = |u: int| pi[u] as int;
    lemma_deg_sets(beats, v, n);
    lemma_deg_sets(beats2, pv, n);
    let s1 = Set::new(|w: int| 0 <= w < n && bit16(beats[v], w));
    let s2 = Set::new(|w: int| 0 <= w < n && bit16(beats2[pv], w));
    let t1 = Set::new(|u: int| 0 <= u < n && bit16(beats[u], v));
    let t2 = Set::new(|u: int| 0 <= u < n && bit16(beats2[u], pv));
    assert forall|u: int, w: int| s1.contains(u) && s1.contains(w) && #[trigger] f(u) == #[trigger] f(w) implies u == w by {}
    assert forall|u: int, w: int| t1.contains(u) && t1.contains(w) && #[trigger] f(u) == #[trigger] f(w) implies u == w by {}
    assert(s1.map(f) =~= s2) by {
        assert forall|y: int| #[trigger] s2.contains(y) implies s1.map(f).contains(y) by {
            crate::wl::lemma_perm_onto(pi, n, y);
            let u = choose|u: int| 0 <= u < n && pi[u] == y;
            assert(bit16(beats2[pv], pi[u] as int) == bit16(beats[v], u));
            assert(s1.contains(u) && f(u) == y);
        }
        assert forall|y: int| s1.map(f).contains(y) implies #[trigger] s2.contains(y) by {
            let u = choose|u: int| s1.contains(u) && f(u) == y;
            assert(bit16(beats2[pv], pi[u] as int) == bit16(beats[v], u));
        }
    }
    assert(t1.map(f) =~= t2) by {
        assert forall|y: int| #[trigger] t2.contains(y) implies t1.map(f).contains(y) by {
            crate::wl::lemma_perm_onto(pi, n, y);
            let u = choose|u: int| 0 <= u < n && pi[u] == y;
            assert(bit16(beats2[pi[u] as int], pv) == bit16(beats[u], v));
            assert(t1.contains(u) && f(u) == y);
        }
        assert forall|y: int| t1.map(f).contains(y) implies #[trigger] t2.contains(y) by {
            let u = choose|u: int| t1.contains(u) && f(u) == y;
            assert(bit16(beats2[pi[u] as int], pv) == bit16(beats[u], v));
        }
    }
    vstd::set_lib::lemma_map_size(s1, s2, f);
    vstd::set_lib::lemma_map_size(t1, t2, f);
    lemma_cnt16_tail(beats[v], n, 16);
    lemma_cnt16_tail(beats2[pv], n, 16);
}

/// Signature maximality is invariant under relabelling: in a game relabelled by
/// a permutation `pi`, the image of `p` is maximal (no other move has a larger
/// key) exactly when `p` is in the original game.
pub proof fn lemma_maximal_relabel(beats: Seq<u16>, beats2: Seq<u16>, pi: Seq<usize>, n: int, p: int)
    requires
        rows_within(beats, n),
        rows_within(beats2, n),
        crate::wl::is_perm(pi, n),
        forall|u: int, w: int| 0 <= u < n && 0 <= w < n ==> #[trigger] bit16(beats2[pi[u] as int], pi[w] as int) == bit16(beats[u], w),
        0 <= p < n,
    ensures
        (forall|v: int| 0 <= v < n && v != p ==> key_order(beats, n, od_seq(beats, n), id_seq(beats, n), v, p) <= 0) <==> (forall|v: int|
            0 <= v < n && v != pi[p] ==> key_order(beats2, n, od_seq(beats2, n), id_seq(beats2, n), v, pi[p] as int) <= 0),
{
    let od = od_seq(beats, n);
    let id = id_seq(beats, n);
    let od2 = od_seq(beats2, n);
    let id2 = id_seq(beats2, n);
    assert forall|u: int| 0 <= u < n implies #[trigger] od2[pi[u] as int] == od[u] && id2[pi[u] as int] == id[u] by {
        lemma_degrees_relabel(beats, beats2, pi, n, u);
    }
    assert(relabelled(beats, od, id, beats2, od2, id2, pi, n));
    if forall|v: int| 0 <= v < n && v != p ==> key_order(beats, n, od, id, v, p) <= 0 {
        assert forall|v: int| 0 <= v < n && v != pi[p] implies key_order(beats2, n, od2, id2, v, pi[p] as int) <= 0 by {
            crate::wl::lemma_perm_onto(pi, n, v);
            let u = choose|u: int| 0 <= u < n && pi[u] == v;
            lemma_key_order_relabel(beats, od, id, beats2, od2, id2, pi, n, u, p);
            assert(u != p);
        }
    }
    if forall|v: int| 0 <= v < n && v != pi[p] ==> key_order(beats2, n, od2, id2, v, pi[p] as int) <= 0 {
        assert forall|v: int| 0 <= v < n && v != p implies key_order(beats, n, od, id, v, p) <= 0 by {
            lemma_key_order_relabel(beats, od, id, beats2, od2, id2, pi, n, v, p);
            assert(pi[v] != pi[p]);
            assert(key_order(beats2, n, od2, id2, pi[v] as int, pi[p] as int) <= 0);
        }
    }
}


/// With any eligibility set, some eligible vertex is maximal, so a call of
/// `sig_maximal` with a closure that answers for that set returns `true` at it.
pub proof fn lemma_some_maximal_in(beats: Seq<u16>, n: int, e: Set<int>) -> (p: int)
    requires
        exists|v: int| 0 <= v < n && #[trigger] e.contains(v),
    ensures
        0 <= p < n,
        e.contains(p),
        maximal_in(beats, n, p, e),
{
    lemma_some_maximal(beats, n, od_seq(beats, n), id_seq(beats, n), e)
}

/// Maximality within an eligibility set is invariant under relabelling: in
/// the game relabelled by `pi`, with the set relabelled alike, the image of
/// `p` is maximal exactly when `p` is.
pub proof fn lemma_maximal_in_relabel(beats: Seq<u16>, beats2: Seq<u16>, pi: Seq<usize>, n: int, p: int, e: Set<int>, e2: Set<int>)
    requires
        rows_within(beats, n),
        rows_within(beats2, n),
        crate::wl::is_perm(pi, n),
        forall|u: int, w: int| 0 <= u < n && 0 <= w < n ==> #[trigger] bit16(beats2[pi[u] as int], pi[w] as int) == bit16(beats[u], w),
        forall|u: int| 0 <= u < n ==> #[trigger] e2.contains(pi[u] as int) == e.contains(u),
        0 <= p < n,
    ensures
        maximal_in(beats2, n, pi[p] as int, e2) == maximal_in(beats, n, p, e),
{
    let od = od_seq(beats, n);
    let id = id_seq(beats, n);
    let od2 = od_seq(beats2, n);
    let id2 = id_seq(beats2, n);
    assert forall|u: int| 0 <= u < n implies #[trigger] od2[pi[u] as int] == od[u] && id2[pi[u] as int] == id[u] by {
        lemma_degrees_relabel(beats, beats2, pi, n, u);
    }
    assert(relabelled(beats, od, id, beats2, od2, id2, pi, n));
    if maximal_in(beats, n, p, e) {
        assert forall|v: int| 0 <= v < n && v != pi[p] && #[trigger] e2.contains(v) implies key_order(beats2, n, od2, id2, v, pi[p] as int) <= 0 by {
            crate::wl::lemma_perm_onto(pi, n, v);
            let u = choose|u: int| 0 <= u < n && pi[u] == v;
            lemma_key_order_relabel(beats, od, id, beats2, od2, id2, pi, n, u, p);
            assert(e.contains(u));
        }
    }
    if maximal_in(beats2, n, pi[p] as int, e2) {
        assert forall|v: int| 0 <= v < n && v != p && #[trigger] e.contains(v) implies key_order(beats, n, od, id, v, p) <= 0 by {
            lemma_key_order_relabel(beats, od, id, beats2, od2, id2, pi, n, v, p);
            assert(pi[v] != pi[p]);
            assert(e2.contains(pi[v] as int));
        }
    }
}

/// Given the game's own degree arrays, the full-signature comparison and the
/// maximality test agree: `p` is maximal among all vertices exactly when no
/// other vertex compares strictly greater than `p`.
pub proof fn lemma_sig_order_maximal(beats: Seq<u16>, n: usize, od: [u8; 16], id: [u8; 16], p: usize)
    requires
        p < n <= 16,
        od@ == od_seq(beats, n as int),
        id@ == id_seq(beats, n as int),
    ensures
        maximal_in(beats, n as int, p as int, Set::new(|v: int| 0 <= v < n))
            <==> (forall|v: usize| v < n && v != p ==> #[trigger] sig_order(beats, n, od, id, v, p) <= 0),
{
    let all = Set::new(|v: int| 0 <= v < n);
    if maximal_in(beats, n as int, p as int, all) {
        assert forall|v: usize| v < n && v != p implies #[trigger] sig_order(beats, n, od, id, v, p) <= 0 by {
            assert(all.contains(v as int));
        }
    }
    if forall|v: usize| v < n && v != p ==> #[trigger] sig_order(beats, n, od, id, v, p) <= 0 {
        assert forall|v: int| 0 <= v < n && v != p && #[trigger] all.contains(v) implies key_order(
            beats,
            n as int,
            od_seq(beats, n as int),
            id_seq(beats, n as int),
            v,
            p as int,
        ) <= 0 by {
            let vu = v as usize;
            assert(sig_order(beats, n, od, id, vu, p) <= 0);
        }
    }
}

}
