//! Automorphisms of a small simple graph by colour refinement and
//! individualisation: every labelling that reaches the least code at a leaf of
//! the search is an isomorphism onto the same canonical graph, so any two of
//! them differ by an automorphism.
use vstd::prelude::*;
use crate::signature::{bit16, cnt16};
use crate::tournament::Tour;

verus! {

/// Vertex `i` is adjacent to vertex `j`.
pub open spec fn adjacent(adj: Seq<u16>, i: int, j: int) -> bool {
    bit16(adj[i], j)
}

/// A simple graph on `0..n`: symmetric adjacency without loops.
pub open spec fn simple_graph(adj: Seq<u16>, n: int) -> bool {
    &&& 0 <= n <= 16
    &&& adj.len() >= n
    &&& forall|i: int, j: int| 0 <= i < n && 0 <= j < n ==> #[trigger] adjacent(adj, i, j) == adjacent(adj, j, i)
    &&& forall|i: int| 0 <= i < n ==> !#[trigger] adjacent(adj, i, i)
}

/// `p` lists each of `0..n` exactly once.
pub open spec fn is_perm(p: Seq<usize>, n: int) -> bool {
    &&& p.len() == n
    &&& forall|i: int| 0 <= i < n ==> #[trigger] p[i] < n
    &&& forall|i: int, j: int| 0 <= i < n && 0 <= j < n && i != j ==> #[trigger] p[i] != #[trigger] p[j]
}

/// `a` is a permutation of `0..n` that maps edges to edges and non-edges to non-edges.
pub open spec fn is_automorphism(adj: Seq<u16>, n: int, a: Seq<usize>) -> bool {
    &&& is_perm(a, n)
    &&& forall|v: int, w: int| 0 <= v < n && 0 <= w < n ==> #[trigger] adjacent(adj, a[v] as int, a[w] as int) == adjacent(adj, v, w)
}

/// Bit `t` of a 128-bit code.
pub open spec fn bit128(x: u128, t: int) -> bool {
    (x >> (t as u128)) & 1u128 == 1u128
}

proof fn lemma_bit128_set(x: u128, b: u128, t: u128)
    requires
        b < 128,
        t < 128,
    ensures
        bit128(x | (1u128 << b), t as int) == (bit128(x, t as int) || t == b),
        !bit128(0u128, t as int),
{
    assert((((x | (1u128 << b)) >> t) & 1u128 == 1u128) == (((x >> t) & 1u128 == 1u128) || t == b) && (0u128 >> t) & 1u128
        == 0u128) by (bit_vector)
        requires
            b < 128,
            t < 128,
    ;
}

/// Position of the pair `a < b` in the row-by-row order of the pairs of `0..n`.
pub open spec fn pair_index(n: int, a: int, b: int) -> int
    decreases a,
{
    if a <= 0 {
        b - 1
    } else {
        pair_index(n, a - 1, n - 1) + (b - a)
    }
}

proof fn lemma_pair_index(n: int, a: int, b: int)
    requires
        0 <= a < b < n <= 16,
    ensures
        0 <= pair_index(n, a, b) < n * (n - 1) / 2,
        pair_index(n, a, b) < 120,
        pair_index(n, a, b) == pair_index(n, a, a + 1) + (b - a - 1),
    decreases a,
{
    if a > 0 {
        lemma_pair_index(n, a - 1, n - 1);
        lemma_pair_index(n, a - 1, a);
    }
    assert(n * (n - 1) / 2 <= 120) by (nonlinear_arith)
        requires
            n <= 16,
            n >= 0,
    ;
    lemma_pair_index_bound(n, a, b);
}

proof fn lemma_pair_index_bound(n: int, a: int, b: int)
    requires
        0 <= a < b < n <= 16,
    ensures
        0 <= pair_index(n, a, b),
        pair_index(n, a, b) + (n - 1 - b) + (n - 1 - a) * (n - 2 - a) / 2 == n * (n - 1) / 2 - 1,
    decreases a,
{
    if a > 0 {
        lemma_pair_index_bound(n, a - 1, n - 1);
        assert((n - a) * (n - 1 - a) / 2 == (n - 1 - a) + (n - 1 - a) * (n - 2 - a) / 2) by (nonlinear_arith)
            requires
                a < n,
        ;
    } else {
        assert(n * (n - 1) / 2 - 1 == (n - 1 - b) + (b - 1) + (n - 1) * (n - 2) / 2) by (nonlinear_arith)
            requires
                0 < b < n,
        ;
    }
}

/// Pair positions are distinct.
proof fn lemma_pair_index_inj(n: int, a: int, b: int, c: int, e: int)
    requires
        0 <= a < b < n <= 16,
        0 <= c < e < n,
        pair_index(n, a, b) == pair_index(n, c, e),
    ensures
        a == c && b == e,
{
    lemma_pair_index_bound(n, a, b);
    lemma_pair_index_bound(n, c, e);
    if a < c {
        lemma_row_gap(n, a, c);
        lemma_pair_index_bound(n, a, n - 1);
        assert(pair_index(n, a, n - 1) == pair_index(n, a, b) + (n - 1 - b)) by {
            lemma_pair_index(n, a, b);
            lemma_pair_index(n, a, n - 1);
        }
    } else if c < a {
        lemma_row_gap(n, c, a);
        assert(pair_index(n, c, n - 1) == pair_index(n, c, e) + (n - 1 - e)) by {
            lemma_pair_index(n, c, e);
            lemma_pair_index(n, c, n - 1);
        }
    } else {
        lemma_pair_index(n, a, b);
        lemma_pair_index(n, a, e);
    }
}

/// Every pair of a later row comes after the last pair of an earlier row.
proof fn lemma_row_gap(n: int, a: int, c: int)
    requires
        0 <= a < c < n <= 16,
        c + 1 < n || c + 1 == n,
    ensures
        c + 1 < n ==> pair_index(n, c, c + 1) > pair_index(n, a, n - 1),
        forall|e: int| c < e < n ==> #[trigger] pair_index(n, c, e) > pair_index(n, a, n - 1),
    decreases c - a,
{
    assert forall|e: int| c < e < n implies #[trigger] pair_index(n, c, e) > pair_index(n, a, n - 1) by {
        lemma_pair_index(n, c, e);
        if c == a + 1 {
            assert(pair_index(n, c, c + 1) == pair_index(n, c - 1, n - 1) + 1);
        } else {
            lemma_row_gap(n, a, c - 1);
            assert(pair_index(n, c, c + 1) == pair_index(n, c - 1, n - 1) + 1);
            lemma_pair_index(n, c - 1, n - 1);
            lemma_pair_index(n, c - 1, c);
        }
    }
    if c + 1 < n {
        assert(pair_index(n, c, c + 1) > pair_index(n, a, n - 1));
    }
}


/// `(x, y)` comes before `(a, b)` in row-by-row order.
proof fn lemma_pair_lex(n: int, x: int, y: int, a: int, b: int)
    requires
        0 <= x < y < n <= 16,
        0 <= a < b < n,
        x < a || (x == a && y < b),
    ensures
        pair_index(n, x, y) < pair_index(n, a, b),
{
    lemma_pair_index(n, x, y);
    lemma_pair_index(n, a, b);
    if x < a {
        lemma_pair_index(n, x, n - 1);
        lemma_row_gap(n, x, a);
    }
}

/// The code `c` records, at the position of each pair `x < y`, whether the
/// vertices labelled `x` and `y` are adjacent.
pub open spec fn code_matches(adj: Seq<u16>, n: int, lab: Seq<usize>, c: u128) -> bool {
    forall|x: int, y: int| 0 <= x < y < n ==> #[trigger] bit128(c, pair_index(n, x, y)) == adjacent(adj, lab[x] as int, lab[y] as int)
}

/// The code `c` has bits set only at the positions of pairs of `0..n`.
pub open spec fn code_exact(n: int, c: u128) -> bool {
    forall|t: int| 0 <= t < 128 && #[trigger] bit128(c, t) ==> exists|x: int, y: int| 0 <= x < y < n && pair_index(n, x, y) == t
}

/// The adjacency code of the labelling `lab`: the code that records the
/// adjacency of each pair of labels and has no other bit set.
pub open spec fn lab_code(adj: Seq<u16>, n: int, lab: Seq<usize>) -> u128 {
    choose|c: u128| code_matches(adj, n, lab, c) && code_exact(n, c)
}

/// The low `k` bits of `x`.
pub open spec fn low_bits(x: u128, k: u128) -> u128 {
    x & !(0xffff_ffff_ffff_ffff_ffff_ffff_ffff_ffffu128 << k)
}

proof fn lemma_bit128_step(x: u128, y: u128, k: u128)
    requires
        k < 128,
        ((x >> k) & 1u128 == 1u128) == ((y >> k) & 1u128 == 1u128),
        k == 0 || low_bits(x, k) == low_bits(y, k),
    ensures
        k < 127 ==> low_bits(x, (k + 1) as u128) == low_bits(y, (k + 1) as u128),
        k == 127 ==> x == y,
        bit128(0xffff_ffff_ffff_ffff_ffff_ffff_ffff_ffffu128, 127),
{
    assert(((0xffff_ffff_ffff_ffff_ffff_ffff_ffff_ffffu128 >> 127u128) & 1u128 == 1u128) && (k < 127 ==> x & !(0xffff_ffff_ffff_ffff_ffff_ffff_ffff_ffffu128 << ((k + 1) as u128)) == y & !(
    0xffff_ffff_ffff_ffff_ffff_ffff_ffff_ffffu128 << ((k + 1) as u128))) && (k == 127 ==> x == y)) by (bit_vector)
        requires
            k < 128,
            ((x >> k) & 1u128 == 1u128) == ((y >> k) & 1u128 == 1u128),
            k == 0 || x & !(0xffff_ffff_ffff_ffff_ffff_ffff_ffff_ffffu128 << k) == y & !(0xffff_ffff_ffff_ffff_ffff_ffff_ffff_ffffu128 << k),
    ;
}

proof fn lemma_low_bits(x: u128, y: u128, k: u128)
    requires
        k <= 126,
        forall|t: int| 0 <= t < 128 ==> #[trigger] bit128(x, t) == bit128(y, t),
    ensures
        low_bits(x, (k + 1) as u128) == low_bits(y, (k + 1) as u128),
    decreases k,
{
    if k > 0 {
        lemma_low_bits(x, y, (k - 1) as u128);
    }
    assert(bit128(x, k as int) == bit128(y, k as int));
    lemma_bit128_step(x, y, k);
}

/// Two 128-bit values with the same bits are equal.
proof fn lemma_bit128_ext(x: u128, y: u128)
    requires
        forall|t: int| 0 <= t < 128 ==> #[trigger] bit128(x, t) == bit128(y, t),
    ensures
        x == y,
{
    lemma_low_bits(x, y, 126);
    assert(bit128(x, 127) == bit128(y, 127));
    lemma_bit128_step(x, y, 127);
}

/// An exact code is never `u128::MAX`: that has bit 127 set, past every pair position.
proof fn lemma_exact_not_max(n: int, c: u128)
    requires
        1 <= n <= 16,
        code_exact(n, c),
    ensures
        c != u128::MAX,
{
    lemma_bit128_step(0, 0, 0);
    if c == u128::MAX {
        assert(bit128(c, 127));
        let (x, y) = choose|x: int, y: int| 0 <= x < y < n && pair_index(n, x, y) == 127;
        lemma_pair_index(n, x, y);
    }
}

/// A labelling has exactly one exact code.
proof fn lemma_code_unique(adj: Seq<u16>, n: int, lab: Seq<usize>, c: u128)
    requires
        1 <= n <= 16,
        code_matches(adj, n, lab, c),
        code_exact(n, c),
    ensures
        lab_code(adj, n, lab) == c,
{
    let d = lab_code(adj, n, lab);
    assert(code_matches(adj, n, lab, d) && code_exact(n, d));
    assert forall|t: int| 0 <= t < 128 implies #[trigger] bit128(c, t) == bit128(d, t) by {
        if bit128(c, t) {
            let (x, y) = choose|x: int, y: int| 0 <= x < y < n && pair_index(n, x, y) == t;
            assert(bit128(c, pair_index(n, x, y)) == bit128(d, pair_index(n, x, y)));
        }
        if bit128(d, t) {
            let (x, y) = choose|x: int, y: int| 0 <= x < y < n && pair_index(n, x, y) == t;
            assert(bit128(c, pair_index(n, x, y)) == bit128(d, pair_index(n, x, y)));
        }
    }
    lemma_bit128_ext(c, d);
}

/// The adjacency code of the labelling `vert_at` (vertex `vert_at[p]` at position `p`).
fn code_of(adj: &[u16], n: usize, vert_at: &Vec<usize>) -> (code: u128)
    requires
        1 <= n <= 16,
        adj@.len() >= n,
        is_perm(vert_at@, n as int),
    ensures
        code_matches(adj@, n as int, vert_at@, code),
        code_exact(n as int, code),
        code == lab_code(adj@, n as int, vert_at@),
{
    let mut code: u128 = 0;
    let mut bit: u128 = 0;
    let mut a = 0usize;
    proof {
        if n >= 2 {
            lemma_pair_index(n as int, 0, 1);
        }
        assert forall|x: int, y: int| 0 <= x < y < n implies !#[trigger] bit128(code, pair_index(n as int, x, y)) by {
            lemma_pair_index(n as int, x, y);
            lemma_bit128_set(0, 0, pair_index(n as int, x, y) as u128);
        }
        assert forall|t: int| 0 <= t < 128 implies !#[trigger] bit128(code, t) by {
            lemma_bit128_set(0, 0, t as u128);
        }
    }
    while a < n
        invariant
            1 <= n <= 16,
            adj@.len() >= n,
            is_perm(vert_at@, n as int),
            a <= n,
            a + 1 < n ==> bit == pair_index(n as int, a as int, a + 1),
            bit <= 120,
            forall|x: int, y: int| 0 <= x < y < n ==> #[trigger] bit128(code, pair_index(n as int, x, y)) == ((x < a)
                && adjacent(adj@, vert_at@[x] as int, vert_at@[y] as int)),
            code_exact(n as int, code),
        decreases n - a,
    {
        let mut b = a + 1;
        while b < n
            invariant
                1 <= n <= 16,
                adj@.len() >= n,
                is_perm(vert_at@, n as int),
                a < n,
                a + 1 <= b <= n,
                b < n ==> bit == pair_index(n as int, a as int, b as int),
                b == n && a + 1 < n ==> bit == pair_index(n as int, a as int, n - 1) + 1,
                bit <= 120,
                forall|x: int, y: int| 0 <= x < y < n ==> #[trigger] bit128(code, pair_index(n as int, x, y)) == ((x < a || (x == a
                    && y < b)) && adjacent(adj@, vert_at@[x] as int, vert_at@[y] as int)),
                code_exact(n as int, code),
            decreases n - b,
        {
            proof {
                lemma_pair_index(n as int, a as int, b as int);
            }
            let va = vert_at[a];
            let vb = vert_at[b];
            let c0 = code;
            if (adj[va] >> (vb as u16)) & 1 == 1 {
                code = code | (1u128 << bit);
            }
            proof {
                assert forall|x: int, y: int| 0 <= x < y < n implies #[trigger] bit128(code, pair_index(n as int, x, y)) == ((x < a || (
                x == a && y < b + 1)) && adjacent(adj@, vert_at@[x] as int, vert_at@[y] as int)) by {
                    let t = pair_index(n as int, x, y);
                    lemma_pair_index(n as int, x, y);
                    lemma_bit128_set(c0, bit, t as u128);
                    if t == bit {
                        lemma_pair_index_inj(n as int, x, y, a as int, b as int);
                    } else if x == a as int && y == b as int {
                        assert(false);
                    }
                }
                assert forall|t: int| 0 <= t < 128 && #[trigger] bit128(code, t) implies exists|x: int, y: int| 0 <= x < y < n && pair_index(
                    n as int,
                    x,
                    y,
                ) == t by {
                    lemma_bit128_set(c0, bit, t as u128);
                    if t == bit {
                        assert(pair_index(n as int, a as int, b as int) == t);
                    } else {
                        assert(bit128(c0, t));
                    }
                }
                if b + 1 < n {
                    lemma_pair_index(n as int, a as int, b + 1);
                } else {
                    assert(b == n - 1);
                }
            }
            bit = bit + 1;
            b += 1;
        }
        proof {
            if a + 2 < n {
                assert(pair_index(n as int, a + 1, a + 2) == pair_index(n as int, a as int, n - 1) + 1);
            }
        }
        a += 1;
    }
    proof {
        lemma_code_unique(adj@, n as int, vert_at@, code);
    }
    code
}


/// Lexicographic comparison of `a` and `b` from position `i` on: the first
/// difference decides, and a list that ends first is the smaller.
pub open spec fn colours_lex_from(a: Seq<u32>, b: Seq<u32>, i: int) -> bool
    decreases a.len() - i,
{
    if i < 0 || i >= a.len() || i >= b.len() {
        a.len() < b.len()
    } else if a[i] != b[i] {
        a[i] < b[i]
    } else {
        colours_lex_from(a, b, i + 1)
    }
}

/// `a` comes strictly before `b` in lexicographic order (a proper prefix first).
pub open spec fn colours_lex_lt(a: Seq<u32>, b: Seq<u32>) -> bool {
    colours_lex_from(a, b, 0)
}

proof fn lemma_lex_irreflexive(a: Seq<u32>, i: int)
    requires
        0 <= i,
    ensures
        !colours_lex_from(a, a, i),
    decreases a.len() - i,
{
    if i < a.len() {
        lemma_lex_irreflexive(a, i + 1);
    }
}

/// Lexicographic `a < b` (a proper prefix comes first).
fn lex_less(a: &Vec<u32>, b: &Vec<u32>) -> (r: bool)
    ensures
        r == colours_lex_lt(a@, b@),
{
    let mut i = 0usize;
    while i < a.len() && i < b.len()
        invariant
            i <= a@.len(),
            i <= b@.len(),
            colours_lex_lt(a@, b@) == colours_lex_from(a@, b@, i as int),
        decreases a@.len() - i,
    {
        if a[i] != b[i] {
            return a[i] < b[i];
        }
        i += 1;
    }
    a.len() < b.len()
}

/// `a` and `b` hold the same entries.
fn same_list(a: &Vec<u32>, b: &Vec<u32>) -> (r: bool)
    ensures
        r == (a@ == b@),
{
    if a.len() != b.len() {
        return false;
    }
    let mut i = 0usize;
    while i < a.len()
        invariant
            i <= a@.len(),
            a@.len() == b@.len(),
            forall|x: int| 0 <= x < i ==> a@[x] == b@[x],
        decreases a@.len() - i,
    {
        if a[i] != b[i] {
            return false;
        }
        i += 1;
    }
    proof {
        assert(a@ =~= b@);
    }
    true
}

/// The colours of the vertices `j < m` with bit `j` of row `i` equal to
/// `set` (the vertex `i` itself left out when `skip_self`), in vertex order.
pub open spec fn picked_colours(adj: Seq<u16>, col: Seq<u32>, i: int, set: bool, skip_self: bool, m: int) -> Seq<u32>
    decreases m,
{
    if m <= 0 {
        Seq::empty()
    } else {
        let prev = picked_colours(adj, col, i, set, skip_self, m - 1);
        if bit16(adj[i], m - 1) == set && !(skip_self && m - 1 == i) {
            prev.push(col[m - 1])
        } else {
            prev
        }
    }
}

/// The entries never decrease.
pub open spec fn nondecreasing(s: Seq<u32>) -> bool {
    forall|a: int, b: int| 0 <= a < b < s.len() ==> s[a] <= s[b]
}

/// Exchanging two neighbouring entries keeps the multiset of entries.
proof fn lemma_swap_multiset(s: Seq<u32>, m: int)
    requires
        0 < m < s.len(),
    ensures
        s.update(m - 1, s[m]).update(m, s[m - 1]).to_multiset() == s.to_multiset(),
{
    broadcast use vstd::seq_lib::to_multiset_update;
    broadcast use vstd::multiset::group_multiset_axioms;

    let x = s[m - 1];
    let y = s[m];
    let t = s.update(m - 1, y);
    assert(t.to_multiset() == s.to_multiset().insert(y).remove(x));
    assert(t[m] == y);
    assert(t.update(m, x).to_multiset() == t.to_multiset().insert(x).remove(y));
    let ms = s.to_multiset();
    vstd::seq_lib::to_multiset_contains(s, x);
    vstd::seq_lib::to_multiset_contains(s, y);
    assert(s.contains(x));
    assert(s.contains(y));
    assert forall|v: u32| #[trigger] ms.insert(y).remove(x).insert(x).remove(y).count(v) == ms.count(v) by {
        assert(ms.count(x) > 0);
        assert(ms.count(y) > 0);
    }
    assert(ms.insert(y).remove(x).insert(x).remove(y) =~= ms);
}

/// The order `<=` on colours.
pub open spec fn colour_leq() -> spec_fn(u32, u32) -> bool {
    |x: u32, y: u32| x <= y
}

/// In increasing order, the colours picked by [`picked_colours`] over all `n` vertices.
pub open spec fn sorted_picked(adj: Seq<u16>, col: Seq<u32>, i: int, set: bool, skip_self: bool, n: int) -> Seq<u32> {
    picked_colours(adj, col, i, set, skip_self, n).sort_by(colour_leq())
}

proof fn lemma_colour_leq_total()
    ensures
        vstd::relations::total_ordering(colour_leq()),
{
    let leq = colour_leq();
    assert(vstd::relations::reflexive(leq));
    assert(vstd::relations::antisymmetric(leq));
    assert(vstd::relations::transitive(leq));
    assert(vstd::relations::strongly_connected(leq));
}

/// A nondecreasing arrangement of the picked colours is their sorted list.
proof fn lemma_sorted_is_spec(nb: Seq<u32>, adj: Seq<u16>, col: Seq<u32>, i: int, set: bool, skip_self: bool, n: int)
    requires
        nondecreasing(nb),
        nb.to_multiset() == picked_colours(adj, col, i, set, skip_self, n).to_multiset(),
    ensures
        nb == sorted_picked(adj, col, i, set, skip_self, n),
{
    let leq = colour_leq();
    let pk = picked_colours(adj, col, i, set, skip_self, n);
    lemma_colour_leq_total();
    pk.lemma_sort_by_ensures(leq);
    assert(vstd::relations::sorted_by(nb, leq));
    vstd::seq_lib::lemma_sorted_unique(nb, pk.sort_by(leq), leq);
}

/// In increasing order, the colours of the vertices `j` with bit `j` of row
/// `i` equal to `set` (the vertex `i` itself left out when `skip_self`).
fn sorted_neighbour_colours(adj: &[u16], n: usize, col: &Vec<u32>, i: usize, set: bool, skip_self: bool) -> (nb: Vec<u32>)
    requires
        n <= 16,
        adj@.len() >= n,
        col@.len() == n,
        i < n,
    ensures
        nondecreasing(nb@),
        nb@.to_multiset() == picked_colours(adj@, col@, i as int, set, skip_self, n as int).to_multiset(),
        nb@ == sorted_picked(adj@, col@, i as int, set, skip_self, n as int),
{
    let mut nb: Vec<u32> = Vec::new();
    let mut j = 0usize;
    while j < n
        invariant
            n <= 16,
            adj@.len() >= n,
            col@.len() == n,
            i < n,
            j <= n,
            nb@ == picked_colours(adj@, col@, i as int, set, skip_self, j as int),
        decreases n - j,
    {
        if ((adj[i] >> (j as u16)) & 1 == 1) == set && !(skip_self && j == i) {
            nb.push(col[j]);
        }
        j += 1;
    }
    let ghost picked = nb@;
    let mut k = 1usize;
    let len = nb.len();
    while k < nb.len()
        invariant
            1 <= k,
            nb@.len() == len,
            k <= len || len == 0,
            nb@.to_multiset() == picked.to_multiset(),
            forall|a: int, b: int| 0 <= a < b < k && b < len ==> nb@[a] <= nb@[b],
        decreases len - k,
    {
        let mut m = k;
        while m > 0 && nb[m - 1] > nb[m]
            invariant
                m <= k < nb@.len(),
                nb@.len() == len,
                nb@.to_multiset() == picked.to_multiset(),
                forall|a: int, b: int| 0 <= a < b <= k && a != m && b != m ==> nb@[a] <= nb@[b],
                forall|b: int| m < b <= k ==> nb@[m as int] <= nb@[b],
            decreases m,
        {
            let x = nb[m - 1];
            let y = nb[m];
            proof {
                lemma_swap_multiset(nb@, m as int);
            }
            nb.set(m - 1, y);
            nb.set(m, x);
            m -= 1;
        }
        proof {
            assert forall|a: int, b: int| 0 <= a < b < k + 1 && b < len implies nb@[a] <= nb@[b] by {
                if a == m {
                    assert(nb@[m as int] <= nb@[b]);
                } else if b == m {
                    assert(m > 0);
                    assert(nb@[m - 1] <= nb@[m as int]);
                    if a < m - 1 {
                        assert(nb@[a] <= nb@[m - 1]);
                    }
                }
            }
        }
        k += 1;
    }
    proof {
        assert(nondecreasing(nb@)) by {
            assert forall|a: int, b: int| 0 <= a < b < nb@.len() implies nb@[a] <= nb@[b] by {}
        }
        lemma_sorted_is_spec(nb@, adj@, col@, i as int, set, skip_self, n as int);
    }
    nb
}

proof fn lemma_lex_trans_from(a: Seq<u32>, b: Seq<u32>, c: Seq<u32>, i: int)
    requires
        0 <= i <= a.len(),
        i <= b.len(),
        i <= c.len(),
        colours_lex_from(a, b, i),
        colours_lex_from(b, c, i),
    ensures
        colours_lex_from(a, c, i),
    decreases a.len() - i,
{
    if i < a.len() && i < b.len() && i < c.len() && a[i] == b[i] && b[i] == c[i] {
        lemma_lex_trans_from(a, b, c, i + 1);
    }
}

proof fn lemma_lex_total_from(a: Seq<u32>, b: Seq<u32>, i: int)
    requires
        0 <= i <= a.len(),
        i <= b.len(),
        forall|t: int| 0 <= t < i ==> a[t] == b[t],
    ensures
        colours_lex_from(a, b, i) || colours_lex_from(b, a, i) || a == b,
        !(colours_lex_from(a, b, i) && colours_lex_from(b, a, i)),
    decreases a.len() - i,
{
    if i < a.len() && i < b.len() && a[i] == b[i] {
        lemma_lex_total_from(a, b, i + 1);
    } else if i == a.len() && i == b.len() {
        assert(a =~= b);
    }
}

/// Vertex `j`'s refinement signature (colour, then the two neighbour-colour
/// lists) comes strictly before vertex `i`'s.
pub open spec fn sig_less(c: Seq<u32>, a: Seq<Seq<u32>>, b: Seq<Seq<u32>>, j: int, i: int) -> bool {
    c[j] < c[i] || (c[j] == c[i] && (colours_lex_lt(a[j], a[i]) || (a[j] == a[i] && colours_lex_lt(b[j], b[i]))))
}

/// Vertices `j` and `i` have the same refinement signature.
pub open spec fn sig_same(c: Seq<u32>, a: Seq<Seq<u32>>, b: Seq<Seq<u32>>, j: int, i: int) -> bool {
    c[j] == c[i] && a[j] == a[i] && b[j] == b[i]
}

/// Vertex `j` is the first of its signature class.
pub open spec fn class_first(c: Seq<u32>, a: Seq<Seq<u32>>, b: Seq<Seq<u32>>, j: int) -> bool {
    forall|j2: int| 0 <= j2 < j ==> !#[trigger] sig_same(c, a, b, j2, j)
}

/// The number of `x < k` with `f(x)`.
pub open spec fn count_where(f: spec_fn(int) -> bool, k: int) -> nat
    decreases k,
{
    if k <= 0 {
        0
    } else {
        count_where(f, k - 1) + if f(k - 1) { 1nat } else { 0nat }
    }
}

/// The new colour of vertex `i`: the number of signature classes below its own.
pub open spec fn sig_rank(c: Seq<u32>, a: Seq<Seq<u32>>, b: Seq<Seq<u32>>, i: int, n: int) -> nat {
    count_where(|x: int| class_first(c, a, b, x) && sig_less(c, a, b, x, i), n)
}

proof fn lemma_rank_step_up(c: Seq<u32>, a: Seq<Seq<u32>>, b: Seq<Seq<u32>>, i: int, k: int)
    requires
        0 <= k,
    ensures
        sig_rank(c, a, b, i, k + 1) == sig_rank(c, a, b, i, k) + if class_first(c, a, b, k) && sig_less(c, a, b, k, i) {
            1nat
        } else {
            0nat
        },
{
}

/// Every colour below one in use is in use too.
pub open spec fn contiguous(col: Seq<u32>, n: int) -> bool {
    forall|i: int, t: int| #![trigger col[i], colour_used(col, n, t)] 0 <= i < n && 0 <= t <= col[i] ==> colour_used(col, n, t)
}

/// Some vertex `j < n` has colour `t`.
pub open spec fn colour_used(col: Seq<u32>, n: int, t: int) -> bool {
    exists|j: int| 0 <= j < n && #[trigger] col[j] == t
}

/// A strictly smaller old colour stays strictly smaller.
pub open spec fn order_kept(col: Seq<u32>, nc: Seq<u32>, n: int) -> bool {
    forall|i: int, j: int| 0 <= i < n && 0 <= j < n && col[j] < col[i] ==> #[trigger] nc[j] < #[trigger] nc[i]
}

proof fn lemma_sig_facts(c: Seq<u32>, a: Seq<Seq<u32>>, b: Seq<Seq<u32>>, x: int, y: int, z: int)
    ensures
        !sig_less(c, a, b, x, x),
        sig_less(c, a, b, x, y) || sig_less(c, a, b, y, x) || sig_same(c, a, b, x, y),
        !(sig_less(c, a, b, x, y) && sig_less(c, a, b, y, x)),
        !(sig_less(c, a, b, x, y) && sig_same(c, a, b, x, y)),
        sig_less(c, a, b, x, y) && sig_less(c, a, b, y, z) ==> sig_less(c, a, b, x, z),
{
    lemma_lex_irreflexive(a[x], 0);
    lemma_lex_irreflexive(b[x], 0);
    lemma_lex_total_from(a[x], a[y], 0);
    lemma_lex_total_from(b[x], b[y], 0);
    if sig_less(c, a, b, x, y) && sig_less(c, a, b, y, z) {
        if c[x] == c[y] && c[y] == c[z] {
            if colours_lex_lt(a[x], a[y]) && colours_lex_lt(a[y], a[z]) {
                lemma_lex_trans_from(a[x], a[y], a[z], 0);
            }
            if a[x] == a[y] && a[y] == a[z] && colours_lex_lt(b[x], b[y]) && colours_lex_lt(b[y], b[z]) {
                lemma_lex_trans_from(b[x], b[y], b[z], 0);
            }
        }
    }
}

proof fn lemma_count_mono(f: spec_fn(int) -> bool, g: spec_fn(int) -> bool, k: int)
    requires
        forall|x: int| 0 <= x < k && #[trigger] f(x) ==> g(x),
    ensures
        count_where(f, k) <= count_where(g, k),
    decreases k,
{
    if k > 0 {
        lemma_count_mono(f, g, k - 1);
    }
}

proof fn lemma_count_strict(f: spec_fn(int) -> bool, g: spec_fn(int) -> bool, k: int, w: int)
    requires
        forall|x: int| 0 <= x < k && #[trigger] f(x) ==> g(x),
        0 <= w < k,
        g(w),
        !f(w),
    ensures
        count_where(f, k) < count_where(g, k),
    decreases k,
{
    if w < k - 1 {
        lemma_count_strict(f, g, k - 1, w);
    } else {
        lemma_count_mono(f, g, k - 1);
    }
}

proof fn lemma_count_plus_one(f: spec_fn(int) -> bool, g: spec_fn(int) -> bool, k: int, w: int)
    requires
        0 <= w < k,
        forall|x: int| 0 <= x < k ==> #[trigger] f(x) == (g(x) || x == w),
        !g(w),
    ensures
        count_where(f, k) == count_where(g, k) + 1,
    decreases k,
{
    if k > 0 {
        if w < k - 1 {
            lemma_count_plus_one(f, g, k - 1, w);
        } else {
            lemma_count_same(f, g, k - 1);
        }
    }
}

proof fn lemma_count_same(f: spec_fn(int) -> bool, g: spec_fn(int) -> bool, k: int)
    requires
        forall|x: int| 0 <= x < k ==> #[trigger] f(x) == g(x),
    ensures
        count_where(f, k) == count_where(g, k),
    decreases k,
{
    if k > 0 {
        lemma_count_same(f, g, k - 1);
    }
}

proof fn lemma_count_witness(f: spec_fn(int) -> bool, k: int)
    requires
        count_where(f, k) > 0,
    ensures
        exists|x: int| 0 <= x < k && #[trigger] f(x),
    decreases k,
{
    if k > 0 && !f(k - 1) {
        lemma_count_witness(f, k - 1);
    }
}

/// Every vertex has the first vertex of its class at or before it.
proof fn lemma_class_first_of(c: Seq<u32>, a: Seq<Seq<u32>>, b: Seq<Seq<u32>>, j: int) -> (r: int)
    requires
        0 <= j,
    ensures
        0 <= r <= j,
        class_first(c, a, b, r),
        sig_same(c, a, b, r, j),
    decreases j,
{
    if class_first(c, a, b, j) {
        j
    } else {
        let j2 = choose|j2: int| 0 <= j2 < j && #[trigger] sig_same(c, a, b, j2, j);
        let r = lemma_class_first_of(c, a, b, j2);
        r
    }
}

/// The ranks keep the signature order strictly.
proof fn lemma_rank_less(c: Seq<u32>, a: Seq<Seq<u32>>, b: Seq<Seq<u32>>, j: int, i: int, n: int)
    requires
        0 <= j < n,
        0 <= i < n,
        sig_less(c, a, b, j, i),
    ensures
        sig_rank(c, a, b, j, n) < sig_rank(c, a, b, i, n),
{
    let f = |x: int| class_first(c, a, b, x) && sig_less(c, a, b, x, j);
    let g = |x: int| class_first(c, a, b, x) && sig_less(c, a, b, x, i);
    assert forall|x: int| 0 <= x < n && #[trigger] f(x) implies g(x) by {
        lemma_sig_facts(c, a, b, x, j, i);
    }
    let r = lemma_class_first_of(c, a, b, j);
    lemma_sig_facts(c, a, b, r, j, i);
    lemma_sig_facts(c, a, b, j, j, j);
    assert(g(r));
    assert(!f(r));
    lemma_count_strict(f, g, n, r);
}

/// Two different class-first vertices have different signatures.
proof fn lemma_firsts_differ(c: Seq<u32>, a: Seq<Seq<u32>>, b: Seq<Seq<u32>>, x: int, y: int)
    requires
        0 <= x,
        0 <= y,
        x != y,
        class_first(c, a, b, x),
        class_first(c, a, b, y),
    ensures
        !sig_same(c, a, b, x, y),
{
    if x < y {
        assert(!sig_same(c, a, b, x, y));
    } else {
        assert(!sig_same(c, a, b, y, x));
    }
}

/// The class-first vertex with the largest signature among those below `i`.
proof fn lemma_top_below(c: Seq<u32>, a: Seq<Seq<u32>>, b: Seq<Seq<u32>>, i: int, k: int) -> (r: int)
    requires
        0 <= k,
        exists|x: int| 0 <= x < k && class_first(c, a, b, x) && #[trigger] sig_less(c, a, b, x, i),
    ensures
        0 <= r < k,
        class_first(c, a, b, r),
        sig_less(c, a, b, r, i),
        forall|x: int| 0 <= x < k && class_first(c, a, b, x) && sig_less(c, a, b, x, i) && x != r ==> #[trigger] sig_less(c, a, b, x, r),
    decreases k,
{
    if exists|x: int| 0 <= x < k - 1 && class_first(c, a, b, x) && #[trigger] sig_less(c, a, b, x, i) {
        let q = lemma_top_below(c, a, b, i, k - 1);
        let y = k - 1;
        if class_first(c, a, b, y) && sig_less(c, a, b, y, i) && sig_less(c, a, b, q, y) {
            assert forall|x: int| 0 <= x < k && class_first(c, a, b, x) && sig_less(c, a, b, x, i) && x != y implies #[trigger] sig_less(c, a, b, x, y) by {
                if x != q {
                    assert(sig_less(c, a, b, x, q));
                    lemma_sig_facts(c, a, b, x, q, y);
                }
            }
            y
        } else {
            assert forall|x: int| 0 <= x < k && class_first(c, a, b, x) && sig_less(c, a, b, x, i) && x != q implies #[trigger] sig_less(c, a, b, x, q) by {
                if x == y {
                    lemma_sig_facts(c, a, b, y, q, q);
                    lemma_firsts_differ(c, a, b, y, q);
                }
            }
            q
        }
    } else {
        let w = choose|x: int| 0 <= x < k && class_first(c, a, b, x) && #[trigger] sig_less(c, a, b, x, i);
        assert(w == k - 1);
        k - 1
    }
}

/// A vertex of rank `t > 0` has a vertex of rank `t - 1` below it.
proof fn lemma_rank_step(c: Seq<u32>, a: Seq<Seq<u32>>, b: Seq<Seq<u32>>, i: int, n: int) -> (r: int)
    requires
        0 <= i < n,
        sig_rank(c, a, b, i, n) > 0,
    ensures
        0 <= r < n,
        sig_rank(c, a, b, r, n) + 1 == sig_rank(c, a, b, i, n),
{
    let g = |x: int| class_first(c, a, b, x) && sig_less(c, a, b, x, i);
    lemma_count_witness(g, n);
    let w = choose|x: int| 0 <= x < n && #[trigger] g(x);
    assert(class_first(c, a, b, w) && sig_less(c, a, b, w, i));
    let r = lemma_top_below(c, a, b, i, n);
    let f = |x: int| class_first(c, a, b, x) && sig_less(c, a, b, x, r);
    assert forall|x: int| 0 <= x < n implies #[trigger] g(x) == (f(x) || x == r) by {
        lemma_sig_facts(c, a, b, x, r, i);
        lemma_sig_facts(c, a, b, r, r, r);
    }
    lemma_sig_facts(c, a, b, r, r, r);
    lemma_count_plus_one(g, f, n, r);
    r
}

/// Every rank below a rank in use is in use.
proof fn lemma_rank_down(c: Seq<u32>, a: Seq<Seq<u32>>, b: Seq<Seq<u32>>, i: int, n: int, t: int) -> (j: int)
    requires
        0 <= i < n,
        0 <= t <= sig_rank(c, a, b, i, n),
    ensures
        0 <= j < n,
        sig_rank(c, a, b, j, n) == t,
    decreases sig_rank(c, a, b, i, n) - t,
{
    if t == sig_rank(c, a, b, i, n) {
        i
    } else {
        let r = lemma_rank_step(c, a, b, i, n);
        lemma_rank_down(c, a, b, r, n, t)
    }
}

/// A colouring that keeps the order of a contiguous one never lowers a colour.
proof fn lemma_order_kept_grows(col: Seq<u32>, nc: Seq<u32>, n: int, i: int)
    requires
        contiguous(col, n),
        order_kept(col, nc, n),
        0 <= i < n,
    ensures
        nc[i] >= col[i],
    decreases col[i],
{
    if col[i] > 0 {
        let t = (col[i] - 1) as int;
        assert(0 <= t <= col[i]);
        assert(colour_used(col, n, t));
        let j = choose|j: int| 0 <= j < n && #[trigger] col[j] == t;
        lemma_order_kept_grows(col, nc, n, j);
        assert(nc[j] < nc[i]);
    }
}

/// One round of colour refinement: each vertex's new colour is the number of
/// distinct signatures below its own. A signature is the vertex's colour with
/// the sorted colours of its neighbours, or, `directed`, with the sorted
/// colours of the vertices it beats and then of those that beat it.
/// The sorted colours of the vertices that `x` points to (its other neighbours, undirected).
pub open spec fn out_list(adj: Seq<u16>, n: int, col: Seq<u32>, directed: bool, x: int) -> Seq<u32> {
    sorted_picked(adj, col, x, true, directed, n)
}

/// The sorted colours of the vertices that point to `x` (empty, undirected).
pub open spec fn in_list(adj: Seq<u16>, n: int, col: Seq<u32>, directed: bool, x: int) -> Seq<u32> {
    if directed { sorted_picked(adj, col, x, false, true, n) } else { Seq::empty() }
}

/// One refinement round: each vertex's new colour is the rank of its
/// signature (old colour, then the two neighbour-colour lists).
pub open spec fn round_spec(adj: Seq<u16>, n: int, col: Seq<u32>, directed: bool) -> Seq<u32> {
    let a = Seq::new(n as nat, |x: int| out_list(adj, n, col, directed, x));
    let b = Seq::new(n as nat, |x: int| in_list(adj, n, col, directed, x));
    Seq::new(n as nat, |x: int| sig_rank(col, a, b, x, n) as u32)
}

fn refine_round(adj: &[u16], n: usize, col: &Vec<u32>, directed: bool) -> (nc: Vec<u32>)
    requires
        1 <= n <= 16,
        adj@.len() >= n,
        col@.len() == n,
    ensures
        nc@.len() == n,
        forall|i: int| 0 <= i < n ==> #[trigger] nc@[i] < n,
        contiguous(nc@, n as int),
        order_kept(col@, nc@, n as int),
        nc@ == round_spec(adj@, n as int, col@, directed),
{
    let mut nbs: Vec<Vec<u32>> = Vec::new();
    let mut ins: Vec<Vec<u32>> = Vec::new();
    let mut i = 0usize;
    while i < n
        invariant
            n <= 16,
            adj@.len() >= n,
            col@.len() == n,
            i <= n,
            nbs@.len() == i,
            ins@.len() == i,
            forall|x: int| 0 <= x < i ==> #[trigger] nbs@[x]@ == out_list(adj@, n as int, col@, directed, x),
            forall|x: int| 0 <= x < i ==> #[trigger] ins@[x]@ == in_list(adj@, n as int, col@, directed, x),
        decreases n - i,
    {
        nbs.push(sorted_neighbour_colours(adj, n, col, i, true, directed));
        if directed {
            ins.push(sorted_neighbour_colours(adj, n, col, i, false, true));
        } else {
            ins.push(Vec::new());
        }
        i += 1;
    }
    let ghost ca = Seq::new(n as nat, |x: int| nbs@[x]@);
    let ghost cb = Seq::new(n as nat, |x: int| ins@[x]@);
    proof {
        assert(ca =~= Seq::new(n as nat, |x: int| out_list(adj@, n as int, col@, directed, x)));
        assert(cb =~= Seq::new(n as nat, |x: int| in_list(adj@, n as int, col@, directed, x)));
    }
    let mut nc: Vec<u32> = Vec::new();
    let mut i = 0usize;
    while i < n
        invariant
            1 <= n <= 16,
            col@.len() == n,
            nbs@.len() == n,
            i <= n,
            nc@.len() == i,
            ins@.len() == n,
            forall|x: int| 0 <= x < i ==> #[trigger] nc@[x] < n,
            ca == Seq::new(n as nat, |x: int| nbs@[x]@),
            cb == Seq::new(n as nat, |x: int| ins@[x]@),
            forall|x: int| 0 <= x < i ==> #[trigger] nc@[x] as int == sig_rank(col@, ca, cb, x, n as int),
        decreases n - i,
    {
        let mut cnt: u32 = 0;
        let mut j = 0usize;
        while j < n
            invariant
                1 <= n <= 16,
                col@.len() == n,
                nbs@.len() == n,
                ins@.len() == n,
                i < n,
                j <= n,
                cnt <= j,
                j > i ==> cnt < j,
                ca == Seq::new(n as nat, |x: int| nbs@[x]@),
                cb == Seq::new(n as nat, |x: int| ins@[x]@),
                cnt as int == sig_rank(col@, ca, cb, i as int, j as int),
            decreases n - j,
        {
            proof {
                lemma_rank_step_up(col@, ca, cb, i as int, j as int);
                assert(ca[j as int] == nbs@[j as int]@);
                assert(ca[i as int] == nbs@[i as int]@);
                assert(cb[j as int] == ins@[j as int]@);
                assert(cb[i as int] == ins@[i as int]@);
            }
            let less = col[j] < col[i] || (col[j] == col[i] && (lex_less(&nbs[j], &nbs[i]) || (same_list(&nbs[j], &nbs[i])
                && lex_less(&ins[j], &ins[i]))));
            proof {
                if j == i {
                    lemma_lex_irreflexive(nbs@[i as int]@, 0);
                    lemma_lex_irreflexive(ins@[i as int]@, 0);
                    assert(!less);
                }
            }
            if less {
                let mut first = true;
                let mut j2 = 0usize;
                while j2 < j
                    invariant
                        j < n,
                        col@.len() == n,
                        nbs@.len() == n,
                        ins@.len() == n,
                        j2 <= j,
                        ca == Seq::new(n as nat, |x: int| nbs@[x]@),
                        cb == Seq::new(n as nat, |x: int| ins@[x]@),
                        first == forall|x: int| 0 <= x < j2 ==> !#[trigger] sig_same(col@, ca, cb, x, j as int),
                    decreases j - j2,
                {
                    proof {
                        assert(ca[j2 as int] == nbs@[j2 as int]@);
                        assert(ca[j as int] == nbs@[j as int]@);
                        assert(cb[j2 as int] == ins@[j2 as int]@);
                        assert(cb[j as int] == ins@[j as int]@);
                    }
                    let ghost f0 = first;
                    if col[j2] == col[j] && same_list(&nbs[j2], &nbs[j]) && same_list(&ins[j2], &ins[j]) {
                        first = false;
                    }
                    proof {
                        assert(first == (f0 && !sig_same(col@, ca, cb, j2 as int, j as int)));
                        assert((forall|x: int| 0 <= x < j2 + 1 ==> !#[trigger] sig_same(col@, ca, cb, x, j as int)) == (f0 && !sig_same(
                            col@,
                            ca,
                            cb,
                            j2 as int,
                            j as int,
                        ))) by {
                            if f0 && !sig_same(col@, ca, cb, j2 as int, j as int) {
                                assert forall|x: int| 0 <= x < j2 + 1 implies !#[trigger] sig_same(col@, ca, cb, x, j as int) by {
                                    if x < j2 {
                                    }
                                }
                            }
                        }
                    }
                    j2 += 1;
                }
                if first {
                    cnt += 1;
                }
            }
            j += 1;
        }
        nc.push(cnt);
        i += 1;
    }
    proof {
        assert forall|x: int, t: int| #![trigger nc@[x], colour_used(nc@, n as int, t)] 0 <= x < n && 0 <= t <= nc@[x] implies colour_used(nc@, n as int, t) by {
            let j = lemma_rank_down(col@, ca, cb, x, n as int, t);
            assert(nc@[j] as int == t);
        }
        assert forall|x: int, y: int| 0 <= x < n && 0 <= y < n && col@[y] < col@[x] implies #[trigger] nc@[y] < #[trigger] nc@[x] by {
            lemma_rank_less(col@, ca, cb, y, x, n as int);
        }
        let rs = round_spec(adj@, n as int, col@, directed);
        assert forall|x: int| 0 <= x < n implies #[trigger] nc@[x] == rs[x] by {
            assert(nc@[x] as int == sig_rank(col@, ca, cb, x, n as int));
        }
        assert(nc@ =~= rs);
    }
    nc
}

/// The two colourings agree.
fn same_colours(a: &Vec<u32>, b: &Vec<u32>) -> (r: bool)
    ensures
        r == (a@ == b@),
{
    same_list(a, b)
}

/// Refinement rounds from `col` until one changes nothing, at most `fuel` more.
pub open spec fn refine_iter(adj: Seq<u16>, n: int, col: Seq<u32>, directed: bool, fuel: nat) -> Seq<u32>
    decreases fuel,
{
    if fuel == 0 {
        col
    } else {
        let nc = round_spec(adj, n, col, directed);
        if nc == col { col } else { refine_iter(adj, n, nc, directed, (fuel - 1) as nat) }
    }
}

/// Colour refinement from `init`: one round, then rounds until one changes
/// nothing, at most `n` more.
pub open spec fn refine_spec(adj: Seq<u16>, n: int, init: Seq<u32>, directed: bool) -> Seq<u32> {
    refine_iter(adj, n, round_spec(adj, n, init, directed), directed, n as nat)
}

/// Colour refinement from `init` until a round changes nothing (at most `n + 1` rounds).
fn refine(adj: &[u16], n: usize, init: &Vec<u32>, directed: bool) -> (col: Vec<u32>)
    requires
        1 <= n <= 16,
        adj@.len() >= n,
        init@.len() == n,
    ensures
        col@.len() == n,
        forall|i: int| 0 <= i < n ==> #[trigger] col@[i] < n,
        contiguous(col@, n as int),
        contiguous(init@, n as int) ==> forall|i: int| 0 <= i < n ==> #[trigger] col@[i] >= init@[i],
        col@ == refine_spec(adj@, n as int, init@, directed),
{
    let mut col = refine_round(adj, n, init, directed);
    proof {
        if contiguous(init@, n as int) {
            assert forall|i: int| 0 <= i < n implies #[trigger] col@[i] >= init@[i] by {
                lemma_order_kept_grows(init@, col@, n as int, i);
            }
        }
    }
    let mut round = 0usize;
    while round < n
        invariant
            1 <= n <= 16,
            adj@.len() >= n,
            col@.len() == n,
            forall|i: int| 0 <= i < n ==> #[trigger] col@[i] < n,
            contiguous(col@, n as int),
            init@.len() == n,
            contiguous(init@, n as int) ==> forall|i: int| 0 <= i < n ==> #[trigger] col@[i] >= init@[i],
            round <= n,
            refine_iter(adj@, n as int, col@, directed, (n - round) as nat) == refine_spec(adj@, n as int, init@, directed),
        decreases n - round,
    {
        let nc = refine_round(adj, n, &col, directed);
        if same_colours(&nc, &col) {
            return col;
        }
        proof {
            if contiguous(init@, n as int) {
                assert forall|i: int| 0 <= i < n implies #[trigger] nc@[i] >= init@[i] by {
                    lemma_order_kept_grows(col@, nc@, n as int, i);
                }
            }
        }
        col = nc;
        round += 1;
    }
    col
}

/// The number of vertices `x < k` of colour `q`.
pub open spec fn colour_count(col: Seq<u32>, q: int, k: int) -> nat
    decreases k,
{
    if k <= 0 {
        0
    } else {
        colour_count(col, q, k - 1) + if col[k - 1] == q { 1nat } else { 0nat }
    }
}

proof fn lemma_colour_count_step(col: Seq<u32>, q: int, k: int)
    requires
        0 <= k,
    ensures
        colour_count(col, q, k + 1) == colour_count(col, q, k) + if col[k] == q { 1nat } else { 0nat },
{
}

proof fn lemma_count_one(f: spec_fn(int) -> bool, k: int, x: int)
    requires
        0 <= x < k,
        f(x),
    ensures
        count_where(f, k) >= 1,
    decreases k,
{
    if x < k - 1 {
        lemma_count_one(f, k - 1, x);
    }
}

proof fn lemma_count_two(f: spec_fn(int) -> bool, k: int, x: int, y: int)
    requires
        0 <= x < k,
        0 <= y < k,
        x != y,
        f(x),
        f(y),
    ensures
        count_where(f, k) >= 2,
    decreases k,
{
    if x < k - 1 && y < k - 1 {
        lemma_count_two(f, k - 1, x, y);
    } else if x == k - 1 {
        lemma_count_one(f, k - 1, y);
    } else {
        lemma_count_one(f, k - 1, x);
    }
}

proof fn lemma_count_other(f: spec_fn(int) -> bool, k: int, v: int)
    requires
        count_where(f, k) >= 2,
    ensures
        exists|y: int| 0 <= y < k && y != v && #[trigger] f(y),
    decreases k,
{
    if k > 0 {
        if f(k - 1) && k - 1 != v {
            assert(f(k - 1));
        } else if f(k - 1) {
            lemma_count_witness(f, k - 1);
            let y = choose|y: int| 0 <= y < k - 1 && #[trigger] f(y);
            assert(y != v);
        } else {
            lemma_count_other(f, k - 1, v);
        }
    }
}

proof fn lemma_colour_one(col: Seq<u32>, q: int, k: int, x: int)
    requires
        0 <= x < k,
        col[x] == q,
    ensures
        colour_count(col, q, k) >= 1,
    decreases k,
{
    if x < k - 1 {
        lemma_colour_one(col, q, k - 1, x);
    }
}

proof fn lemma_colour_two(col: Seq<u32>, q: int, k: int, x: int, y: int)
    requires
        0 <= x < k,
        0 <= y < k,
        x != y,
        col[x] == q,
        col[y] == q,
    ensures
        colour_count(col, q, k) >= 2,
    decreases k,
{
    if x < k - 1 && y < k - 1 {
        lemma_colour_two(col, q, k - 1, x, y);
    } else if x == k - 1 {
        lemma_colour_one(col, q, k - 1, y);
    } else {
        lemma_colour_one(col, q, k - 1, x);
    }
}

proof fn lemma_colour_witness(col: Seq<u32>, q: int, k: int)
    requires
        colour_count(col, q, k) >= 1,
    ensures
        exists|y: int| 0 <= y < k && #[trigger] col[y] == q,
    decreases k,
{
    if k > 0 && col[k - 1] != q {
        lemma_colour_witness(col, q, k - 1);
    }
}

proof fn lemma_colour_other(col: Seq<u32>, q: int, k: int, v: int)
    requires
        colour_count(col, q, k) >= 2,
    ensures
        exists|y: int| 0 <= y < k && y != v && #[trigger] col[y] == q,
    decreases k,
{
    if k > 0 {
        if col[k - 1] == q && k - 1 != v {
            assert(col[k - 1] == q);
        } else if col[k - 1] == q {
            lemma_colour_witness(col, q, k - 1);
            let y = choose|y: int| 0 <= y < k - 1 && #[trigger] col[y] == q;
            assert(y != v);
        } else {
            lemma_colour_other(col, q, k - 1, v);
        }
    }
}

/// A contiguous colouring whose largest colour is `n - 1` is discrete.
proof fn lemma_contiguous_top_discrete(col: Seq<u32>, n: int, x0: int)
    requires
        col.len() == n,
        1 <= n <= 16,
        0 <= x0 < n,
        col[x0] == n - 1,
        forall|x: int| 0 <= x < n ==> #[trigger] col[x] < n,
        contiguous(col, n),
    ensures
        discrete(col, n),
{
    let p = Seq::new(n as nat, |t: int| (choose|j: int| 0 <= j < n && #[trigger] col[j] == t) as u32);
    assert forall|t: int| 0 <= t < n implies 0 <= #[trigger] p[t] < n && col[p[t] as int] == t by {
        assert(colour_used(col, n, t));
    }
    assert forall|t1: int, t2: int| 0 <= t1 < n && 0 <= t2 < n && t1 != t2 implies #[trigger] p[t1] != #[trigger] p[t2] by {
        assert(col[p[t1] as int] == t1);
        assert(col[p[t2] as int] == t2);
    }
    assert forall|x: int, y: int| 0 <= x < n && 0 <= y < n && x != y implies col[x] != col[y] by {
        lemma_distinct_onto(p, n, x);
        lemma_distinct_onto(p, n, y);
        let tx = choose|t: int| 0 <= t < n && p[t] == x;
        let ty = choose|t: int| 0 <= t < n && p[t] == y;
        assert(col[x] == tx);
        assert(col[y] == ty);
    }
}


/// The colours of the first `n` vertices are pairwise different.
pub open spec fn discrete(col: Seq<u32>, n: int) -> bool {
    forall|x: int, y: int| 0 <= x < n && 0 <= y < n && x != y ==> col[x] != col[y]
}

/// The labelling of a discrete colouring: position `q` holds the vertex of colour `q`.
pub open spec fn leaf_lab(col: Seq<u32>, n: int) -> Seq<usize> {
    Seq::new(n as nat, |q: int| (choose|v: int| 0 <= v < n && col[v] == q) as usize)
}

/// Every kept labelling is a permutation whose code is `best`.
pub open spec fn labs_ok(adj: Seq<u16>, n: int, labs: Seq<Vec<usize>>, best: u128) -> bool {
    &&& forall|k: int| 0 <= k < labs.len() ==> is_perm(#[trigger] labs[k]@, n) && code_matches(adj, n, labs[k]@, best)
    &&& labs.len() > 0 ==> code_exact(n, best)
}

/// The largest of the first `k` colours (0 for none).
pub open spec fn max_colour(col: Seq<u32>, k: int) -> int
    decreases k,
{
    if k <= 0 {
        0
    } else {
        let m = max_colour(col, k - 1);
        if col[k - 1] > m { col[k - 1] as int } else { m }
    }
}

/// The first colour in `q..=maxc` that more than one vertex has, or -1.
pub open spec fn first_shared(col: Seq<u32>, n: int, q: int, maxc: int) -> int
    decreases maxc + 1 - q,
{
    if q > maxc || q < 0 {
        -1
    } else if colour_count(col, q, n) > 1 {
        q
    } else {
        first_shared(col, n, q + 1, maxc)
    }
}

/// Vertex `v` of the class `target` made a class of its own: the rest of the
/// class and every colour above it move up by one.
pub open spec fn individualise(col: Seq<u32>, n: int, target: int, v: int) -> Seq<u32> {
    Seq::new(n as nat, |x: int| if col[x] > target || (col[x] == target && x != v) { (col[x] + 1) as u32 } else { col[x] })
}

/// The smaller of two codes.
pub open spec fn min_code(a: u128, b: u128) -> u128 {
    if b < a { b } else { a }
}

/// The least code over the leaves of the search below `col` at `depth`
/// (`u128::MAX` where it reaches none): a discrete colouring is a leaf with
/// the code of its labelling; otherwise each vertex of the first colour class
/// with more than one vertex is individualised in turn and the colouring
/// refined.
pub open spec fn search_min(adj: Seq<u16>, n: int, col: Seq<u32>, depth: int, directed: bool) -> u128
    decreases n + 1 - depth, n + 2,
{
    if depth > n || depth < 0 || n < 1 {
        u128::MAX
    } else if max_colour(col, n) == n - 1 {
        if discrete(col, n) { lab_code(adj, n, leaf_lab(col, n)) } else { u128::MAX }
    } else {
        let t = first_shared(col, n, 0, max_colour(col, n));
        if t < 0 { u128::MAX } else { branch_min(adj, n, col, t, depth, directed, n) }
    }
}

/// The least code over the branches of the first `v` vertices of class `target`.
pub open spec fn branch_min(adj: Seq<u16>, n: int, col: Seq<u32>, target: int, depth: int, directed: bool, v: int) -> u128
    decreases n + 1 - depth, v + 1,
{
    if v <= 0 || depth > n || depth < 0 {
        u128::MAX
    } else {
        let m = branch_min(adj, n, col, target, depth, directed, v - 1);
        if col[v - 1] == target {
            min_code(m, search_min(adj, n, refine_spec(adj, n, individualise(col, n, target, v - 1), directed), depth + 1, directed))
        } else {
            m
        }
    }
}

proof fn lemma_first_shared(col: Seq<u32>, n: int, q: int, maxc: int, t: int)
    requires
        0 <= q,
        forall|c: int| q <= c < t && c <= maxc ==> #[trigger] colour_count(col, c, n) <= 1,
        t > maxc || colour_count(col, t, n) > 1,
        q <= t,
    ensures
        first_shared(col, n, q, maxc) == if t > maxc { -1 } else { t },
    decreases maxc + 1 - q,
{
    if q <= maxc && q < t {
        lemma_first_shared(col, n, q + 1, maxc, t);
    }
}

/// The kept labellings as sequences.
pub open spec fn labs_view(labs: Seq<Vec<usize>>) -> Seq<Seq<usize>> {
    Seq::new(labs.len(), |k: int| labs[k]@)
}

/// A leaf of code `c` and labelling `lab` met with least code `st.0` and kept
/// labellings `st.1`: a smaller code starts the list afresh, an equal one joins it.
pub open spec fn leaf_update(st: (u128, Seq<Seq<usize>>), c: u128, lab: Seq<usize>) -> (u128, Seq<Seq<usize>>) {
    if c < st.0 {
        (c, seq![lab])
    } else if c == st.0 {
        (st.0, st.1.push(lab))
    } else {
        st
    }
}

/// The least code and the labellings that reach it, after the search below
/// `col` at `depth` from the state `st`, leaves met in search order.
pub open spec fn search_fold(adj: Seq<u16>, n: int, col: Seq<u32>, depth: int, directed: bool, st: (u128, Seq<Seq<usize>>)) -> (u128, Seq<Seq<usize>>)
    decreases n + 1 - depth, n + 2,
{
    if depth > n || depth < 0 || n < 1 {
        st
    } else if max_colour(col, n) == n - 1 {
        if discrete(col, n) { leaf_update(st, lab_code(adj, n, leaf_lab(col, n)), leaf_lab(col, n)) } else { st }
    } else {
        let t = first_shared(col, n, 0, max_colour(col, n));
        if t < 0 { st } else { branch_fold(adj, n, col, t, depth, directed, n, st) }
    }
}

/// The same over the branches of the first `v` vertices of class `target`.
pub open spec fn branch_fold(
    adj: Seq<u16>,
    n: int,
    col: Seq<u32>,
    target: int,
    depth: int,
    directed: bool,
    v: int,
    st: (u128, Seq<Seq<usize>>),
) -> (u128, Seq<Seq<usize>>)
    decreases n + 1 - depth, v + 1,
{
    if v <= 0 || depth > n || depth < 0 {
        st
    } else {
        let st1 = branch_fold(adj, n, col, target, depth, directed, v - 1, st);
        if col[v - 1] == target {
            search_fold(adj, n, refine_spec(adj, n, individualise(col, n, target, v - 1), directed), depth + 1, directed, st1)
        } else {
            st1
        }
    }
}

/// The individualise-and-refine search below the colouring `col`: at a
/// discrete colouring, its labelling is kept when its code is no larger than
/// the best so far (the kept ones are dropped when it is smaller). The search
/// stops once more than `cap` labellings are kept.
fn canon_rec(adj: &[u16], n: usize, col: Vec<u32>, best: &mut u128, labs: &mut Vec<Vec<usize>>, depth: usize, cap: usize, directed: bool)
    requires
        1 <= n <= 16,
        adj@.len() >= n,
        col@.len() == n,
        forall|i: int| 0 <= i < n ==> #[trigger] col@[i] < n,
        labs_ok(adj@, n as int, old(labs)@, *old(best)),
    ensures
        labs_ok(adj@, n as int, final(labs)@, *final(best)),
        *final(best) <= *old(best),
        old(labs)@.len() > 0 ==> final(labs)@.len() > 0,
        *final(best) != *old(best) ==> final(labs)@.len() > 0,
        old(labs)@.len() > cap || depth > n ==> final(labs)@ == old(labs)@ && *final(best) == *old(best),
        old(labs)@.len() <= cap && depth <= n && !discrete(col@, n as int) && (exists|x: int| 0 <= x < n && col@[x] == n - 1)
            ==> final(labs)@ == old(labs)@ && *final(best) == *old(best),
        old(labs)@.len() <= cap && depth <= n && discrete(col@, n as int) ==> ({
            let c = lab_code(adj@, n as int, leaf_lab(col@, n as int));
            &&& *final(best) == if c < *old(best) { c } else { *old(best) }
            &&& c < *old(best) ==> final(labs)@.len() == 1 && final(labs)@[0]@ == leaf_lab(col@, n as int)
            &&& c == *old(best) ==> final(labs)@.len() == old(labs)@.len() + 1 && final(labs)@.subrange(0, old(labs)@.len() as int)
                == old(labs)@ && final(labs)@[old(labs)@.len() as int]@ == leaf_lab(col@, n as int)
            &&& c > *old(best) ==> final(labs)@ == old(labs)@
        }),
        contiguous(col@, n as int) && old(labs)@.len() == 0 && *old(best) == u128::MAX && (exists|x: int|
            0 <= x < n && depth <= #[trigger] col@[x] + 1) ==> final(labs)@.len() > 0,
        cap == usize::MAX ==> *final(best) == min_code(*old(best), search_min(adj@, n as int, col@, depth as int, directed)),
        cap == usize::MAX ==> (*final(best), labs_view(final(labs)@)) == search_fold(
            adj@,
            n as int,
            col@,
            depth as int,
            directed,
            (*old(best), labs_view(old(labs)@)),
        ),
    decreases n + 1 - depth,
{
    if labs.len() > cap || depth > n {
        return;
    }
    let mut maxc = 0u32;
    let mut i = 0usize;
    while i < n
        invariant
            1 <= n <= 16,
            col@.len() == n,
            forall|x: int| 0 <= x < n ==> #[trigger] col@[x] < n,
            i <= n,
            maxc < n,
            forall|x: int| 0 <= x < i ==> #[trigger] col@[x] <= maxc,
            maxc == 0 || exists|x: int| 0 <= x < i && col@[x] == maxc,
            maxc as int == max_colour(col@, i as int),
        decreases n - i,
    {
        if col[i] > maxc {
            maxc = col[i];
        }
        i += 1;
    }
    proof {
        if discrete(col@, n as int) {
            lemma_distinct_onto(col@, n as int, n - 1);
        }
        if maxc == n - 1 && contiguous(col@, n as int) {
            let x0 = choose|x: int| 0 <= x < n && col@[x] == maxc;
            lemma_contiguous_top_discrete(col@, n as int, x0);
        }
        if exists|x: int| 0 <= x < n && depth <= #[trigger] col@[x] + 1 {
            let x = choose|x: int| 0 <= x < n && depth <= #[trigger] col@[x] + 1;
            assert(col@[x] <= maxc);
        }
        if exists|x: int| 0 <= x < n && col@[x] == n - 1 {
            let x = choose|x: int| 0 <= x < n && col@[x] == n - 1;
            assert(col@[x] <= maxc);
        }
    }
    if maxc as usize == n - 1 {
        let mut vert_at: Vec<usize> = Vec::new();
        let mut filled: Vec<bool> = Vec::new();
        let mut p = 0usize;
        while p < n
            invariant
                p <= n,
                vert_at@.len() == p,
                filled@.len() == p,
                forall|q: int| 0 <= q < p ==> !#[trigger] filled@[q],
            decreases n - p,
        {
            vert_at.push(0);
            filled.push(false);
            p += 1;
        }
        let mut v = 0usize;
        while v < n
            invariant
                n <= 16,
                col@.len() == n,
                forall|x: int| 0 <= x < n ==> #[trigger] col@[x] < n,
                v <= n,
                vert_at@.len() == n,
                filled@.len() == n,
                forall|q: int| 0 <= q < n ==> (#[trigger] filled@[q] <==> exists|x: int| 0 <= x < v && col@[x] == q),
                maxc == n - 1,
                contiguous(col@, n as int) ==> discrete(col@, n as int),
                forall|q: int| 0 <= q < n && filled@[q] ==> #[trigger] vert_at@[q] < v && col@[vert_at@[q] as int] == q,
                labs_ok(adj@, n as int, labs@, *best),
                labs@ == old(labs)@,
                *best == *old(best),
                forall|x: int, y: int| 0 <= x < v && 0 <= y < v && x != y ==> #[trigger] col@[x] != #[trigger] col@[y],
                maxc as int == max_colour(col@, n as int),
                depth <= n,
            decreases n - v,
        {
            let c = col[v] as usize;
            if filled[c] {
                proof {
                    let x = vert_at@[c as int] as int;
                    assert(col@[x] == c && x < v);
                    assert(!discrete(col@, n as int));
                }
                return;
            }
            proof {
                assert forall|x: int| 0 <= x < v implies #[trigger] col@[x] != col@[v as int] by {
                    if col@[x] == col@[v as int] {
                        assert(filled@[c as int]);
                    }
                }
            }
            vert_at.set(c, v);
            filled.set(c, true);
            v += 1;
        }
        proof {
            assert forall|q: int| 0 <= q < n implies #[trigger] vert_at@[q] < n by {
                assert(filled@[q] <==> exists|x: int| 0 <= x < n && col@[x] == q);
                if !filled@[q] {
                    // every colour below n is hit: n vertices, distinct colours below n
                    lemma_distinct_onto(col@, n as int, q);
                }
            }
            assert forall|q1: int, q2: int| 0 <= q1 < n && 0 <= q2 < n && q1 != q2 implies #[trigger] vert_at@[q1] != #[trigger] vert_at@[q2] by {
                assert(filled@[q1] <==> exists|x: int| 0 <= x < n && col@[x] == q1);
                assert(filled@[q2] <==> exists|x: int| 0 <= x < n && col@[x] == q2);
                if !filled@[q1] {
                    lemma_distinct_onto(col@, n as int, q1);
                }
                if !filled@[q2] {
                    lemma_distinct_onto(col@, n as int, q2);
                }
            }
            assert(discrete(col@, n as int));
            assert forall|q: int| 0 <= q < n implies #[trigger] vert_at@[q] == leaf_lab(col@, n as int)[q] by {
                lemma_distinct_onto(col@, n as int, q);
                assert(filled@[q]);
                let w = choose|w: int| 0 <= w < n && col@[w] == q;
                assert(col@[vert_at@[q] as int] == q);
                assert(w == vert_at@[q] as int);
            }
            assert(vert_at@ =~= leaf_lab(col@, n as int));
        }
        let code = code_of(adj, n, &vert_at);
        if code < *best {
            *best = code;
            labs.clear();
            labs.push(vert_at);
        } else if code == *best {
            labs.push(vert_at);
            proof {
                assert forall|k: int| 0 <= k < labs@.len() implies is_perm(#[trigger] labs@[k]@, n as int) && code_matches(adj@, n as int, labs@[k]@, *best) by {
                    if k < labs@.len() - 1 {
                        assert(labs@[k] == old(labs)@[k]);
                    }
                }
            }
        }
        return;
    }
    let mut freq: Vec<u32> = Vec::new();
    let mut c = 0usize;
    while c <= maxc as usize
        invariant
            maxc < n <= 16,
            c <= maxc + 1,
            freq@.len() == c,
            forall|q: int| 0 <= q < c ==> #[trigger] freq@[q] == 0,
        decreases maxc + 1 - c,
    {
        freq.push(0);
        c += 1;
    }
    let mut i = 0usize;
    while i < n
        invariant
            n <= 16,
            col@.len() == n,
            i <= n,
            freq@.len() == maxc + 1,
            forall|x: int| 0 <= x < n ==> #[trigger] col@[x] <= maxc,
            forall|q: int| 0 <= q <= maxc ==> #[trigger] freq@[q] <= i,
            forall|q: int| 0 <= q <= maxc ==> #[trigger] freq@[q] == colour_count(col@, q, i as int),
        decreases n - i,
    {
        let c = col[i] as usize;
        proof {
            assert forall|q: int| 0 <= q <= maxc implies #[trigger] colour_count(col@, q, i + 1) == colour_count(col@, q, i as int) + if col@[i as int]
                == q {
                1nat
            } else {
                0nat
            } by {
                lemma_colour_count_step(col@, q, i as int);
            }
        }
        freq.set(c, freq[c] + 1);
        i += 1;
    }
    let mut target = 0u32;
    let mut found = false;
    let mut c = 0usize;
    while c <= maxc as usize && !found
        invariant
            maxc < n <= 16,
            freq@.len() == maxc + 1,
            c <= maxc + 1,
            found ==> target <= maxc,
            found ==> freq@[target as int] > 1,
            !found ==> forall|q: int| 0 <= q < c ==> #[trigger] freq@[q] <= 1,
            found ==> forall|q: int| 0 <= q < target ==> #[trigger] freq@[q] <= 1,
            forall|q: int| 0 <= q <= maxc ==> #[trigger] freq@[q] == colour_count(col@, q, n as int),
        decreases maxc + 1 - c,
    {
        if freq[c] > 1 {
            target = c as u32;
            found = true;
        }
        c += 1;
    }
    if !found {
        proof {
            assert forall|q: int| 0 <= q < maxc + 1 && q <= maxc implies #[trigger] colour_count(col@, q, n as int) <= 1 by {
                assert(freq@[q] == colour_count(col@, q, n as int));
            }
            lemma_first_shared(col@, n as int, 0, maxc as int, maxc as int + 1);
            assert forall|x: int, y: int| 0 <= x < n && 0 <= y < n && x != y implies #[trigger] col@[x] != #[trigger] col@[y] by {
                if col@[x] == col@[y] {
                    let q = col@[x] as int;
                    lemma_colour_two(col@, q, n as int, x, y);
                    assert(freq@[q] <= 1);
                }
            }
            lemma_distinct_onto(col@, n as int, n - 1);
        }
        return;
    }
    proof {
        assert forall|q: int| 0 <= q < target && q <= maxc implies #[trigger] colour_count(col@, q, n as int) <= 1 by {
            assert(freq@[q] == colour_count(col@, q, n as int));
        }
        assert(colour_count(col@, target as int, n as int) > 1) by {
            assert(freq@[target as int] == colour_count(col@, target as int, n as int));
        }
        lemma_first_shared(col@, n as int, 0, maxc as int, target as int);
    }
    let ghost zt = choose|x: int| 0 <= x < n && col@[x] == maxc;
    proof {
        if maxc == 0 {
            assert(col@[0] <= 0);
        }
        assert(0 <= zt < n && col@[zt] == maxc);
        assert(colour_count(col@, target as int, n as int) >= 2);
    }
    let mut v = 0usize;
    while v < n
        invariant
            1 <= n <= 16,
            adj@.len() >= n,
            col@.len() == n,
            forall|x: int| 0 <= x < n ==> #[trigger] col@[x] <= maxc,
            maxc < n - 1,
            target <= maxc,
            v <= n,
            depth <= n,
            labs_ok(adj@, n as int, labs@, *best),
            *best <= *old(best),
            old(labs)@.len() > 0 ==> labs@.len() > 0,
            *best != *old(best) ==> labs@.len() > 0,
            colour_count(col@, target as int, n as int) >= 2,
            0 <= zt < n && col@[zt] == maxc,
            (forall|u: int| 0 <= u < v ==> #[trigger] col@[u] != target) ==> labs@ == old(labs)@ && *best == *old(best),
            contiguous(col@, n as int) && old(labs)@.len() == 0 && *old(best) == u128::MAX && depth <= maxc + 1 && (exists|u: int|
                0 <= u < v && #[trigger] col@[u] == target) ==> labs@.len() > 0,
            cap == usize::MAX ==> *best == min_code(*old(best), branch_min(adj@, n as int, col@, target as int, depth as int, directed, v as int)),
            cap == usize::MAX ==> (*best, labs_view(labs@)) == branch_fold(
                adj@,
                n as int,
                col@,
                target as int,
                depth as int,
                directed,
                v as int,
                (*old(best), labs_view(old(labs)@)),
            ),
            maxc as int == max_colour(col@, n as int),
            target as int == first_shared(col@, n as int, 0, maxc as int),
        decreases n - v,
    {
        if col[v] == target {
            let mut nc = col.clone();
            let mut u = 0usize;
            while u < n
                invariant
                    n <= 16,
                    nc@.len() == n,
                    col@.len() == n,
                    forall|x: int| 0 <= x < n ==> #[trigger] col@[x] <= maxc,
                    maxc < n - 1,
                    forall|x: int| 0 <= x < n ==> #[trigger] nc@[x] <= maxc + 1,
                    forall|x: int| u <= x < n ==> #[trigger] nc@[x] == col@[x],
                    forall|x: int| 0 <= x < u ==> #[trigger] nc@[x] as int == if col@[x] > target || (col@[x] == target && x != v) {
                        col@[x] + 1
                    } else {
                        col@[x] as int
                    },
                    u <= n,
                    v < n,
                decreases n - u,
            {
                if nc[u] > target || (nc[u] == target && u != v) {
                    nc.set(u, nc[u] + 1);
                }
                u += 1;
            }
            let ghost pre = contiguous(col@, n as int) && labs@.len() == 0 && *best == u128::MAX && depth <= maxc + 1;
            proof {
                if contiguous(col@, n as int) {
                    lemma_colour_other(col@, target as int, n as int, v as int);
                    let y = choose|y: int| 0 <= y < n && y != v && #[trigger] col@[y] == target as int;
                    assert(nc@[y] == target + 1);
                    assert(nc@[v as int] == target);
                    assert forall|x: int, t: int| #![trigger nc@[x], colour_used(nc@, n as int, t)] 0 <= x < n && 0 <= t <= nc@[x] implies colour_used(
                        nc@,
                        n as int,
                        t,
                    ) by {
                        if t < target {
                            assert(colour_used(col@, n as int, t));
                            let w = choose|w: int| 0 <= w < n && #[trigger] col@[w] == t;
                            assert(nc@[w] == t);
                        } else if t == target {
                            assert(nc@[v as int] == t);
                        } else if t == target + 1 {
                            assert(nc@[y] == t);
                        } else {
                            assert(colour_used(col@, n as int, t - 1));
                            let w = choose|w: int| 0 <= w < n && #[trigger] col@[w] == t - 1;
                            assert(nc@[w] == t);
                        }
                    }
                }
                lemma_colour_other(col@, target as int, n as int, v as int);
            }
            let ghost zz = if target == maxc {
                choose|y: int| 0 <= y < n && y != v && #[trigger] col@[y] == target as int
            } else {
                zt
            };
            proof {
                assert(0 <= zz < n);
                assert(nc@[zz] == maxc + 1);
            }
            proof {
                assert(nc@ =~= individualise(col@, n as int, target as int, v as int));
            }
            let r = refine(adj, n, &nc, directed);
            proof {
                if contiguous(col@, n as int) && depth <= maxc + 1 {
                    assert(r@[zz] >= nc@[zz]);
                    assert(depth + 1 <= r@[zz] + 1);
                }
            }
            canon_rec(adj, n, r, best, labs, depth + 1, cap, directed);
        }
        v += 1;
    }
    proof {
        lemma_colour_witness(col@, target as int, n as int);
        let u = choose|u: int| 0 <= u < n && #[trigger] col@[u] == target as int;
        assert(col@[u] == target);
        if exists|x: int| 0 <= x < n && depth <= #[trigger] col@[x] + 1 {
            let x = choose|x: int| 0 <= x < n && depth <= #[trigger] col@[x] + 1;
            assert(col@[x] <= maxc);
        }
    }
}

/// `n` vertices with pairwise different colours below `n` use every colour below `n`.
proof fn lemma_distinct_onto(col: Seq<u32>, n: int, q: int)
    requires
        col.len() == n,
        0 <= q < n,
        forall|x: int| 0 <= x < n ==> #[trigger] col[x] < n,
        forall|x: int, y: int| 0 <= x < n && 0 <= y < n && x != y ==> #[trigger] col[x] != #[trigger] col[y],
    ensures
        exists|x: int| 0 <= x < n && col[x] == q,
{
    if !(exists|x: int| 0 <= x < n && col[x] == q) {
        let s = Seq::new(n as nat, |x: int| if col[x] < q { col[x] as int } else { col[x] as int - 1 });
        assert(s.no_duplicates()) by {
            assert forall|x: int, y: int| 0 <= x < s.len() && 0 <= y < s.len() && x != y implies s[x] != s[y] by {
                assert(col[x] != col[y]);
                assert(col[x] != q && col[y] != q);
            }
        }
        assert forall|x: int| 0 <= x < s.len() implies 0 <= #[trigger] s[x] < n - 1 by {
            assert(col[x] != q);
        }
        crate::eulerian::lemma_pigeon_pub(s, n - 1);
    }
}


/// The inverse of the permutation `lab`.
fn inverse_perm(lab: &Vec<usize>, n: usize) -> (pos: Vec<usize>)
    requires
        n <= 16,
        is_perm(lab@, n as int),
    ensures
        is_perm(pos@, n as int),
        forall|v: int| 0 <= v < n ==> #[trigger] lab@[pos@[v] as int] == v,
        forall|p: int| 0 <= p < n ==> #[trigger] pos@[lab@[p] as int] == p,
{
    let mut pos: Vec<usize> = Vec::new();
    let mut i = 0usize;
    while i < n
        invariant
            i <= n,
            pos@.len() == i,
        decreases n - i,
    {
        pos.push(0);
        i += 1;
    }
    let mut p = 0usize;
    while p < n
        invariant
            n <= 16,
            is_perm(lab@, n as int),
            pos@.len() == n,
            p <= n,
            forall|q: int| 0 <= q < p ==> #[trigger] pos@[lab@[q] as int] == q,
        decreases n - p,
    {
        let v = lab[p];
        pos.set(v, p);
        proof {
            assert forall|q: int| 0 <= q < p + 1 implies #[trigger] pos@[lab@[q] as int] == q by {
                if q < p {
                    assert(lab@[q] != lab@[p as int]);
                }
            }
        }
        p += 1;
    }
    proof {
        assert forall|v: int| 0 <= v < n implies #[trigger] lab@[pos@[v] as int] == v by {
            lemma_perm_onto(lab@, n as int, v);
            let q = choose|q: int| 0 <= q < n && lab@[q] == v;
            assert(pos@[lab@[q] as int] == q);
        }
        assert forall|v: int| 0 <= v < n implies #[trigger] pos@[v] < n by {
            lemma_perm_onto(lab@, n as int, v);
            let q = choose|q: int| 0 <= q < n && lab@[q] == v;
            assert(pos@[lab@[q] as int] == q);
        }
        assert forall|v: int, w: int| 0 <= v < n && 0 <= w < n && v != w implies #[trigger] pos@[v] != #[trigger] pos@[w] by {
            assert(lab@[pos@[v] as int] == v);
            assert(lab@[pos@[w] as int] == w);
        }
    }
    pos
}

/// A permutation of `0..n` takes every value below `n`.
pub proof fn lemma_perm_onto(p: Seq<usize>, n: int, v: int)
    requires
        is_perm(p, n),
        0 <= v < n <= 16,
    ensures
        exists|q: int| 0 <= q < n && p[q] == v,
{
    let c = Seq::new(n as nat, |x: int| p[x] as u32);
    assert forall|x: int| 0 <= x < n implies #[trigger] c[x] < n by {}
    assert forall|x: int, y: int| 0 <= x < n && 0 <= y < n && x != y implies #[trigger] c[x] != #[trigger] c[y] by {
        assert(p[x] != p[y]);
    }
    lemma_distinct_onto(c, n, v);
    let q = choose|q: int| 0 <= q < n && c[q] == v;
    assert(p[q] == v);
}

proof fn lemma_count_where_le(f: spec_fn(int) -> bool, k: int)
    requires
        0 <= k,
    ensures
        count_where(f, k) <= k,
    decreases k,
{
    if k > 0 {
        lemma_count_where_le(f, k - 1);
    }
}

proof fn lemma_order_kept_trans(a: Seq<u32>, b: Seq<u32>, c: Seq<u32>, n: int)
    requires
        order_kept(a, b, n),
        order_kept(b, c, n),
    ensures
        order_kept(a, c, n),
{
    assert forall|i: int, j: int| 0 <= i < n && 0 <= j < n && a[j] < a[i] implies #[trigger] c[j] < #[trigger] c[i] by {
        assert(b[j] < b[i]);
    }
}

/// A refinement round keeps every strict colour order.
proof fn lemma_round_keeps_order(adj: Seq<u16>, n: int, col: Seq<u32>, directed: bool)
    requires
        0 <= n <= 16,
    ensures
        order_kept(col, round_spec(adj, n, col, directed), n),
{
    let a = Seq::new(n as nat, |x: int| out_list(adj, n, col, directed, x));
    let b = Seq::new(n as nat, |x: int| in_list(adj, n, col, directed, x));
    let rs = round_spec(adj, n, col, directed);
    assert forall|i: int, j: int| 0 <= i < n && 0 <= j < n && col[j] < col[i] implies #[trigger] rs[j] < #[trigger] rs[i] by {
        lemma_rank_less(col, a, b, j, i, n);
        lemma_count_where_le(|x: int| class_first(col, a, b, x) && sig_less(col, a, b, x, i), n);
        lemma_count_where_le(|x: int| class_first(col, a, b, x) && sig_less(col, a, b, x, j), n);
        assert(sig_rank(col, a, b, i, n) <= n);
        assert(sig_rank(col, a, b, j, n) <= n);
    }
}

proof fn lemma_iter_keeps_order(adj: Seq<u16>, n: int, col: Seq<u32>, directed: bool, fuel: nat)
    requires
        0 <= n <= 16,
    ensures
        order_kept(col, refine_iter(adj, n, col, directed, fuel), n),
    decreases fuel,
{
    if fuel > 0 {
        let nc = round_spec(adj, n, col, directed);
        if nc != col {
            lemma_round_keeps_order(adj, n, col, directed);
            lemma_iter_keeps_order(adj, n, nc, directed, (fuel - 1) as nat);
            lemma_order_kept_trans(col, nc, refine_iter(adj, n, nc, directed, (fuel - 1) as nat), n);
        }
    }
}

/// Refinement keeps every strict colour order of its input.
proof fn lemma_refine_keeps_order(adj: Seq<u16>, n: int, init: Seq<u32>, directed: bool)
    requires
        0 <= n <= 16,
    ensures
        order_kept(init, refine_spec(adj, n, init, directed), n),
{
    let r1 = round_spec(adj, n, init, directed);
    lemma_round_keeps_order(adj, n, init, directed);
    lemma_iter_keeps_order(adj, n, r1, directed, n as nat);
    lemma_order_kept_trans(init, r1, refine_spec(adj, n, init, directed), n);
}

proof fn lemma_max_colour_ge(col: Seq<u32>, k: int, x: int)
    requires
        0 <= x < k,
    ensures
        col[x] <= max_colour(col, k),
        max_colour(col, k) >= 0,
    decreases k,
{
    if x < k - 1 {
        lemma_max_colour_ge(col, k - 1, x);
    } else if k > 1 {
        lemma_max_colour_ge(col, k - 1, 0);
    }
}

/// Vertex `a` comes before vertex `b` in the labelling `lab`.
pub open spec fn precedes(lab: Seq<usize>, n: int, a: int, b: int) -> bool {
    exists|p: int, q: int| 0 <= p < q < n && #[trigger] lab[p] == a && #[trigger] lab[q] == b
}

/// No vertex sits at two positions of `lab`.
pub open spec fn injective_lab(lab: Seq<usize>, n: int) -> bool {
    forall|p: int, q: int| 0 <= p < n && 0 <= q < n && p != q ==> #[trigger] lab[p] != #[trigger] lab[q]
}

/// The labelling `lab` lists vertices of smaller colour first.
pub open spec fn respects(col: Seq<u32>, lab: Seq<usize>, n: int) -> bool {
    forall|a: int, b: int| 0 <= a < n && 0 <= b < n && col[a] < col[b] ==> #[trigger] precedes(lab, n, a, b)
}

/// The labellings are pairwise different.
pub open spec fn no_dup_labs(s: Seq<Seq<usize>>) -> bool {
    forall|i: int, j: int| 0 <= i < j < s.len() ==> s[i] != s[j]
}

/// The labellings that a search below `col` adds: pairwise different, each
/// injective and listing smaller colours of `col` first.
pub open spec fn new_labs_ok(t: Seq<Seq<usize>>, col: Seq<u32>, n: int) -> bool {
    &&& no_dup_labs(t)
    &&& forall|i: int| 0 <= i < t.len() ==> respects(col, #[trigger] t[i], n) && injective_lab(t[i], n)
}

/// The kept list `res` is the list `st` (or nothing) followed by new labellings.
pub open spec fn grown_labs(st: Seq<Seq<usize>>, res: Seq<Seq<usize>>, col: Seq<u32>, n: int) -> bool {
    exists|j: int| 0 <= j <= res.len() && (j == 0 || res.take(j) == st) && #[trigger] new_labs_ok(res.skip(j), col, n)
}

proof fn lemma_precedes_antisym(lab: Seq<usize>, n: int, a: int, b: int)
    requires
        injective_lab(lab, n),
        precedes(lab, n, a, b),
    ensures
        !precedes(lab, n, b, a),
{
    let (p, q) = choose|p: int, q: int| 0 <= p < q < n && #[trigger] lab[p] == a && #[trigger] lab[q] == b;
    if precedes(lab, n, b, a) {
        let (p2, q2) = choose|p2: int, q2: int| 0 <= p2 < q2 < n && #[trigger] lab[p2] == b && #[trigger] lab[q2] == a;
        if p2 != q {
            assert(lab[p2] != lab[q]);
        }
        if q2 != p {
            assert(lab[q2] != lab[p]);
        }
    }
}

/// A discrete colouring's labelling is injective and lists its colours in order.
proof fn lemma_leaf_lab(col: Seq<u32>, n: int)
    requires
        1 <= n <= 16,
        col.len() == n,
        discrete(col, n),
        max_colour(col, n) == n - 1,
    ensures
        injective_lab(leaf_lab(col, n), n),
        respects(col, leaf_lab(col, n), n),
{
    let lab = leaf_lab(col, n);
    assert forall|x: int| 0 <= x < n implies #[trigger] col[x] < n by {
        lemma_max_colour_ge(col, n, x);
    }
    assert forall|q: int| 0 <= q < n implies 0 <= #[trigger] lab[q] < n && col[lab[q] as int] == q by {
        lemma_distinct_onto(col, n, q);
    }
    assert forall|x: int| 0 <= x < n implies #[trigger] lab[col[x] as int] == x by {
        let q = col[x] as int;
        assert(col[lab[q] as int] == q);
        if lab[q] as int != x {
            assert(col[lab[q] as int] != col[x]);
        }
    }
    assert forall|p: int, q: int| 0 <= p < n && 0 <= q < n && p != q implies #[trigger] lab[p] != #[trigger] lab[q] by {
        assert(col[lab[p] as int] == p);
        assert(col[lab[q] as int] == q);
    }
    assert forall|a: int, b: int| 0 <= a < n && 0 <= b < n && col[a] < col[b] implies #[trigger] precedes(lab, n, a, b) by {
        assert(lab[col[a] as int] == a);
        assert(lab[col[b] as int] == b);
    }
}

/// Vertex `u` comes before every other vertex of the class `target` in `lab`.
pub open spec fn ahead_of_class(lab: Seq<usize>, col: Seq<u32>, n: int, target: int, u: int) -> bool {
    forall|w: int| 0 <= w < n && col[w] == target && w != u ==> #[trigger] precedes(lab, n, u, w)
}

proof fn lemma_respects_weaken(c1: Seq<u32>, c2: Seq<u32>, lab: Seq<usize>, n: int)
    requires
        order_kept(c1, c2, n),
        respects(c2, lab, n),
    ensures
        respects(c1, lab, n),
{
    assert forall|a: int, b: int| 0 <= a < n && 0 <= b < n && c1[a] < c1[b] implies #[trigger] precedes(lab, n, a, b) by {
        assert(c2[a] < c2[b]);
    }
}

proof fn lemma_first_shared_range(col: Seq<u32>, n: int, q: int, maxc: int)
    ensures
        first_shared(col, n, q, maxc) >= 0 ==> q <= first_shared(col, n, q, maxc) <= maxc,
    decreases maxc + 1 - q,
{
    if !(q > maxc || q < 0) && !(colour_count(col, q, n) > 1) {
        lemma_first_shared_range(col, n, q + 1, maxc);
    }
}

/// Individualising `u` in its class keeps every strict order and puts `u`
/// before the rest of the class.
proof fn lemma_individualise(col: Seq<u32>, n: int, target: int, u: int)
    requires
        1 <= n <= 16,
        col.len() == n,
        max_colour(col, n) < n - 1,
        0 <= u < n,
        col[u] == target,
    ensures
        order_kept(col, individualise(col, n, target, u), n),
        forall|w: int| 0 <= w < n && col[w] == target && w != u ==> #[trigger] individualise(col, n, target, u)[w] > individualise(
            col,
            n,
            target,
            u,
        )[u],
{
    let ind = individualise(col, n, target, u);
    assert forall|x: int| 0 <= x < n implies #[trigger] ind[x] as int == if col[x] > target || (col[x] == target && x != u) {
        col[x] + 1
    } else {
        col[x] as int
    } by {
        lemma_max_colour_ge(col, n, x);
    }
}

/// Some vertex `u < v` of class `target` comes before the rest of the class in `lab`.
pub open spec fn has_tag(lab: Seq<usize>, col: Seq<u32>, n: int, target: int, v: int) -> bool {
    exists|u: int| 0 <= u < v && col[u] == target && #[trigger] ahead_of_class(lab, col, n, target, u)
}

/// Every labelling of `t` carries a tag below `v`.
pub open spec fn tagged(t: Seq<Seq<usize>>, col: Seq<u32>, n: int, target: int, v: int) -> bool {
    forall|i: int| 0 <= i < t.len() ==> #[trigger] has_tag(t[i], col, n, target, v)
}

/// The branches below the first `v` vertices of class `target` add
/// labellings as a search below `col` does, each putting the vertex of its
/// branch before the rest of the class.
pub open spec fn branch_grown(st: Seq<Seq<usize>>, res: Seq<Seq<usize>>, col: Seq<u32>, n: int, target: int, v: int) -> bool {
    exists|j: int|
        0 <= j <= res.len() && (j == 0 || res.take(j) == st) && #[trigger] new_labs_ok(res.skip(j), col, n) && tagged(res.skip(j), col, n, target, v)
}

proof fn lemma_count_where_below(f: spec_fn(int) -> bool, k: int, w: int)
    requires
        0 <= w < k,
        !f(w),
    ensures
        count_where(f, k) <= k - 1,
    decreases k,
{
    if k - 1 > w {
        lemma_count_where_below(f, k - 1, w);
    } else {
        lemma_count_where_le(f, k - 1);
    }
}

/// A refinement round has `n` colours, each below `n`.
proof fn lemma_round_values(adj: Seq<u16>, n: int, col: Seq<u32>, directed: bool)
    requires
        1 <= n <= 16,
    ensures
        round_spec(adj, n, col, directed).len() == n,
        forall|x: int| 0 <= x < n ==> #[trigger] round_spec(adj, n, col, directed)[x] < n,
{
    let a = Seq::new(n as nat, |x: int| out_list(adj, n, col, directed, x));
    let b = Seq::new(n as nat, |x: int| in_list(adj, n, col, directed, x));
    assert forall|x: int| 0 <= x < n implies #[trigger] round_spec(adj, n, col, directed)[x] < n by {
        lemma_sig_facts(col, a, b, x, x, x);
        lemma_count_where_below(|y: int| class_first(col, a, b, y) && sig_less(col, a, b, y, x), n, x);
    }
}

proof fn lemma_iter_values(adj: Seq<u16>, n: int, col: Seq<u32>, directed: bool, fuel: nat)
    requires
        1 <= n <= 16,
        col.len() == n,
        forall|x: int| 0 <= x < n ==> #[trigger] col[x] < n,
    ensures
        refine_iter(adj, n, col, directed, fuel).len() == n,
        forall|x: int| 0 <= x < n ==> #[trigger] refine_iter(adj, n, col, directed, fuel)[x] < n,
    decreases fuel,
{
    if fuel > 0 {
        let nc = round_spec(adj, n, col, directed);
        lemma_round_values(adj, n, col, directed);
        if nc != col {
            lemma_iter_values(adj, n, nc, directed, (fuel - 1) as nat);
        }
    }
}

/// Refinement gives `n` colours, each below `n`.
proof fn lemma_refine_values(adj: Seq<u16>, n: int, init: Seq<u32>, directed: bool)
    requires
        1 <= n <= 16,
    ensures
        refine_spec(adj, n, init, directed).len() == n,
        forall|x: int| 0 <= x < n ==> #[trigger] refine_spec(adj, n, init, directed)[x] < n,
{
    lemma_round_values(adj, n, init, directed);
    lemma_iter_values(adj, n, round_spec(adj, n, init, directed), directed, n as nat);
}

proof fn lemma_max_colour_attained(col: Seq<u32>, k: int)
    requires
        0 < k <= col.len(),
    ensures
        exists|x: int| 0 <= x < k && col[x] == max_colour(col, k),
    decreases k,
{
    if k == 1 {
        assert(max_colour(col, 0) == 0);
        assert(col[0] >= 0);
        assert(col[0] == max_colour(col, 1));
    } else {
        lemma_max_colour_attained(col, k - 1);
        if col[k - 1] > max_colour(col, k - 1) {
            assert(col[k - 1] == max_colour(col, k));
        } else {
            let x = choose|x: int| 0 <= x < k - 1 && col[x] == max_colour(col, k - 1);
            assert(col[x] == max_colour(col, k));
        }
    }
}

proof fn lemma_fold_labs(adj: Seq<u16>, n: int, col: Seq<u32>, depth: int, directed: bool, st: (u128, Seq<Seq<usize>>))
    requires
        1 <= n <= 16,
        col.len() == n,
        forall|x: int| 0 <= x < n ==> #[trigger] col[x] < n,
    ensures
        grown_labs(st.1, search_fold(adj, n, col, depth, directed, st).1, col, n),
    decreases n + 1 - depth, n + 2,
{
    let res = search_fold(adj, n, col, depth, directed, st).1;
    if depth > n || depth < 0 || n < 1 {
        assert(res.take(res.len() as int) =~= st.1);
        assert(new_labs_ok(res.skip(res.len() as int), col, n));
    } else if max_colour(col, n) == n - 1 {
        if discrete(col, n) {
            let lab = leaf_lab(col, n);
            lemma_leaf_lab(col, n);
            let c = lab_code(adj, n, lab);
            if c < st.0 {
                assert(res =~= seq![lab]);
                assert(res.skip(0) =~= res);
                assert(new_labs_ok(res.skip(0), col, n));
            } else if c == st.0 {
                let j = st.1.len() as int;
                assert(res.take(j) =~= st.1);
                assert(res.skip(j) =~= seq![lab]);
                assert(new_labs_ok(res.skip(j), col, n));
            } else {
                assert(res.take(res.len() as int) =~= st.1);
                assert(new_labs_ok(res.skip(res.len() as int), col, n));
            }
        } else {
            assert(res.take(res.len() as int) =~= st.1);
            assert(new_labs_ok(res.skip(res.len() as int), col, n));
        }
    } else {
        let t = first_shared(col, n, 0, max_colour(col, n));
        if t < 0 {
            assert(res.take(res.len() as int) =~= st.1);
            assert(new_labs_ok(res.skip(res.len() as int), col, n));
        } else {
            lemma_first_shared_range(col, n, 0, max_colour(col, n));
            lemma_max_colour_attained(col, n);
            lemma_branch_labs(adj, n, col, t, depth, directed, n, st);
            let j = choose|j: int|
                0 <= j <= res.len() && (j == 0 || res.take(j) == st.1) && #[trigger] new_labs_ok(res.skip(j), col, n) && tagged(res.skip(j), col, n, t, n);
            assert(new_labs_ok(res.skip(j), col, n));
        }
    }
}

proof fn lemma_branch_labs(adj: Seq<u16>, n: int, col: Seq<u32>, target: int, depth: int, directed: bool, v: int, st: (u128, Seq<Seq<usize>>))
    requires
        1 <= n <= 16,
        col.len() == n,
        max_colour(col, n) < n - 1,
        0 <= v <= n,
    ensures
        branch_grown(st.1, branch_fold(adj, n, col, target, depth, directed, v, st).1, col, n, target, v),
    decreases n + 1 - depth, v + 1,
{
    let res = branch_fold(adj, n, col, target, depth, directed, v, st).1;
    if v <= 0 || depth > n || depth < 0 {
        assert(res.take(res.len() as int) =~= st.1);
        assert(new_labs_ok(res.skip(res.len() as int), col, n));
    } else {
        lemma_branch_labs(adj, n, col, target, depth, directed, v - 1, st);
        let st1 = branch_fold(adj, n, col, target, depth, directed, v - 1, st);
        let r1 = st1.1;
        let j1 = choose|j: int|
            0 <= j <= r1.len() && (j == 0 || r1.take(j) == st.1) && #[trigger] new_labs_ok(r1.skip(j), col, n) && tagged(r1.skip(j), col, n, target, v - 1);
        let t1 = r1.skip(j1);
        if col[v - 1] == target {
            let u0 = v - 1;
            let ind = individualise(col, n, target, u0);
            let child = refine_spec(adj, n, ind, directed);
            lemma_individualise(col, n, target, u0);
            lemma_refine_keeps_order(adj, n, ind, directed);
            lemma_order_kept_trans(col, ind, child, n);
            lemma_refine_values(adj, n, ind, directed);
            lemma_fold_labs(adj, n, child, depth + 1, directed, st1);
            let j2 = choose|j: int| 0 <= j <= res.len() && (j == 0 || res.take(j) == r1) && #[trigger] new_labs_ok(res.skip(j), child, n);
            let t2 = res.skip(j2);
            // every new labelling of this branch puts `u0` first in its class
            assert forall|i: int| 0 <= i < t2.len() implies respects(col, #[trigger] t2[i], n) && ahead_of_class(t2[i], col, n, target, u0) by {
                assert(respects(child, t2[i], n));
                lemma_respects_weaken(col, child, t2[i], n);
                assert forall|w: int| 0 <= w < n && col[w] == target && w != u0 implies #[trigger] precedes(t2[i], n, u0, w) by {
                    assert(ind[w] > ind[u0]);
                    assert(child[u0] < child[w]);
                }
            }
            if j2 == 0 {
                assert(res.skip(0) =~= t2);
                assert(new_labs_ok(res.skip(0), col, n));
                assert forall|i: int| 0 <= i < res.skip(0).len() implies #[trigger] has_tag(res.skip(0)[i], col, n, target, v) by {
                    assert(ahead_of_class(t2[i], col, n, target, u0));
                }
                assert(tagged(res.skip(0), col, n, target, v));
            } else {
                assert(res.take(j2) == r1);
                assert(j2 == r1.len());
                let tt = res.skip(j1);
                assert(tt =~= t1 + t2);
                if j1 > 0 {
                    assert(res.take(j1) =~= r1.take(j1));
                }
                assert forall|i: int| 0 <= i < tt.len() implies respects(col, #[trigger] tt[i], n) && injective_lab(tt[i], n) && has_tag(
                    tt[i],
                    col,
                    n,
                    target,
                    v,
                ) by {
                    if i < t1.len() {
                        assert(tt[i] == t1[i]);
                        assert(has_tag(t1[i], col, n, target, v - 1));
                        let u = choose|u: int| 0 <= u < v - 1 && col[u] == target && #[trigger] ahead_of_class(t1[i], col, n, target, u);
                        assert(ahead_of_class(tt[i], col, n, target, u));
                    } else {
                        assert(tt[i] == t2[i - t1.len()]);
                        assert(ahead_of_class(tt[i], col, n, target, u0));
                    }
                }
                assert forall|a: int, b: int| 0 <= a < b < tt.len() implies tt[a] != tt[b] by {
                    if b < t1.len() {
                        assert(tt[a] == t1[a] && tt[b] == t1[b]);
                    } else if a >= t1.len() {
                        assert(tt[a] == t2[a - t1.len()] && tt[b] == t2[b - t1.len()]);
                    } else {
                        let e = tt[b];
                        assert(e == t2[b - t1.len()]);
                        assert(tt[a] == t1[a]);
                        assert(has_tag(t1[a], col, n, target, v - 1));
                        let u = choose|u: int| 0 <= u < v - 1 && col[u] == target && #[trigger] ahead_of_class(t1[a], col, n, target, u);
                        if tt[a] == e {
                            assert(ahead_of_class(e, col, n, target, u0));
                            assert(precedes(e, n, u0, u));
                            assert(precedes(e, n, u, u0));
                            lemma_precedes_antisym(e, n, u, u0);
                        }
                    }
                }
                assert(new_labs_ok(tt, col, n));
                assert(new_labs_ok(res.skip(j1), col, n));
                assert(tagged(res.skip(j1), col, n, target, v));
            }
        } else {
            assert(res == r1);
            assert forall|i: int| 0 <= i < res.skip(j1).len() implies #[trigger] has_tag(res.skip(j1)[i], col, n, target, v) by {
                assert(has_tag(r1.skip(j1)[i], col, n, target, v - 1));
                let u = choose|u: int| 0 <= u < v - 1 && col[u] == target && #[trigger] ahead_of_class(r1.skip(j1)[i], col, n, target, u);
                assert(ahead_of_class(res.skip(j1)[i], col, n, target, u));
            }
            assert(new_labs_ok(res.skip(j1), col, n));
            assert(tagged(res.skip(j1), col, n, target, v));
        }
    }
}

/// The degree colouring of a simple graph: each vertex coloured by its number of neighbours.
pub open spec fn row_degrees(adj: Seq<u16>, n: int) -> Seq<u32> {
    Seq::new(n as nat, |i: int| cnt16(adj[i], 16) as u32)
}

/// The labellings of least code that the individualise-and-refine search from
/// the refined degree colouring reaches, in search order.
pub open spec fn least_labellings(adj: Seq<u16>, n: int) -> Seq<Seq<usize>> {
    search_fold(adj, n, refine_spec(adj, n, row_degrees(adj, n), false), 0, false, (u128::MAX, Seq::empty())).1
}

/// The position of vertex `x` in the labelling `lab`.
pub open spec fn position_of(lab: Seq<usize>, n: int, x: int) -> int {
    choose|p: int| 0 <= p < n && lab[p] == x
}

/// The permutation that sends each vertex `x` to the vertex that `l0` puts at
/// the position where `lk` puts `x`.
pub open spec fn carry(l0: Seq<usize>, lk: Seq<usize>, n: int) -> Seq<usize> {
    Seq::new(n as nat, |x: int| l0[position_of(lk, n, x)])
}

/// The search meets each labelling at most once: the least-code labellings
/// that it keeps are pairwise different.
pub proof fn lemma_least_labellings_distinct(adj: Seq<u16>, n: int)
    requires
        1 <= n <= 16,
    ensures
        no_dup_labs(least_labellings(adj, n)),
{
    let col = refine_spec(adj, n, row_degrees(adj, n), false);
    lemma_refine_values(adj, n, row_degrees(adj, n), false);
    let st: (u128, Seq<Seq<usize>>) = (u128::MAX, Seq::empty());
    lemma_fold_labs(adj, n, col, 0, false, st);
    let res = least_labellings(adj, n);
    let j = choose|j: int| 0 <= j <= res.len() && (j == 0 || res.take(j) == st.1) && #[trigger] new_labs_ok(res.skip(j), col, n);
    if j != 0 {
        assert(res.take(j).len() == j);
    }
    assert(res.skip(0) =~= res);
}

/// Two labellings carried onto the same first one by the same permutation are the same.
proof fn lemma_carry_injective(l0: Seq<usize>, l1: Seq<usize>, l2: Seq<usize>, n: int)
    requires
        n <= 16,
        is_perm(l0, n),
        is_perm(l1, n),
        is_perm(l2, n),
        carry(l0, l1, n) == carry(l0, l2, n),
    ensures
        l1 == l2,
{
    assert forall|p: int| 0 <= p < n implies #[trigger] l1[p] == l2[p] by {
        let x = l1[p] as int;
        let p1 = position_of(l1, n, x);
        assert(0 <= p1 < n && l1[p1] == x);
        if p1 != p {
            assert(l1[p1] != l1[p]);
        }
        lemma_perm_onto(l2, n, x);
        let p2 = position_of(l2, n, x);
        assert(0 <= p2 < n && l2[p2] == x);
        assert(carry(l0, l1, n)[x] == carry(l0, l2, n)[x]);
        assert(carry(l0, l1, n)[x] == l0[p1]);
        assert(carry(l0, l2, n)[x] == l0[p2]);
        assert(l0[p1] == l0[p2]);
        if p1 != p2 {
            assert(l0[p1] != l0[p2]);
        }
    }
    assert(l1 =~= l2);
}

/// The automorphisms of the simple graph `adj` on `0..n` that the search
/// finds: for each labelling of least code that the search reaches, in search
/// order, the permutation that carries the first such labelling onto it (the
/// first gives the identity); no permutation is listed twice, and when the
/// rows name only vertices of `0..n` every automorphism is listed.
pub fn automorphisms(adj: &[u16], n: usize) -> (autos: Vec<Vec<usize>>)
    requires
        1 <= n <= 16,
        simple_graph(adj@, n as int),
    ensures
        forall|k: int| 0 <= k < autos@.len() ==> is_automorphism(adj@, n as int, #[trigger] autos@[k]@),
        autos@.len() >= 1,
        forall|x: int| 0 <= x < n ==> #[trigger] autos@[0]@[x] == x,
        autos@.len() == least_labellings(adj@, n as int).len(),
        forall|k1: int, k2: int| 0 <= k1 < k2 < autos@.len() ==> autos@[k1]@ != autos@[k2]@,
        rows_in(adj@, n as int) ==> forall|a: Seq<usize>| #[trigger] is_automorphism(adj@, n as int, a) ==> exists|k: int|
            0 <= k < autos@.len() && autos@[k]@ == a,
        forall|k: int| 0 <= k < autos@.len() ==> #[trigger] autos@[k]@ == carry(
            least_labellings(adj@, n as int)[0],
            least_labellings(adj@, n as int)[k],
            n as int,
        ),
{
    let mut deg: Vec<u32> = Vec::new();
    let mut i = 0usize;
    while i < n
        invariant
            n <= 16,
            adj@.len() >= n,
            i <= n,
            deg@.len() == i,
            forall|x: int| 0 <= x < i ==> #[trigger] deg@[x] == cnt16(adj@[x], 16) as u32,
        decreases n - i,
    {
        let mut c: u32 = 0;
        let mut j = 0usize;
        while j < 16
            invariant
                n <= 16,
                adj@.len() >= n,
                i < n,
                j <= 16,
                c <= j,
                c as int == cnt16(adj@[i as int], j as int),
            decreases 16 - j,
        {
            if (adj[i] >> (j as u16)) & 1 == 1 {
                c += 1;
            }
            j += 1;
        }
        deg.push(c);
        i += 1;
    }
    proof {
        assert(deg@ =~= row_degrees(adj@, n as int));
    }
    let col = refine(adj, n, &deg, false);
    let mut best: u128 = u128::MAX;
    let mut labs: Vec<Vec<usize>> = Vec::new();
    proof {
        assert(labs_view(labs@) =~= Seq::<Seq<usize>>::empty());
    }
    canon_rec(adj, n, col, &mut best, &mut labs, 0, usize::MAX, false);
    let ghost ll = least_labellings(adj@, n as int);
    proof {
        assert(labs_view(labs@) == ll);
    }
    let mut autos: Vec<Vec<usize>> = Vec::new();
    proof {
        assert(0 <= col@[0] + 1);
    }
    if labs.len() == 0 {
        return autos;
    }
    let l0 = labs[0].clone();
    proof {
        assert(l0@ == labs@[0]@);
        assert(is_perm(l0@, n as int) && code_matches(adj@, n as int, l0@, best));
    }
    let mut k = 0usize;
    while k < labs.len()
        invariant
            1 <= n <= 16,
            simple_graph(adj@, n as int),
            labs_ok(adj@, n as int, labs@, best),
            is_perm(l0@, n as int),
            code_matches(adj@, n as int, l0@, best),
            k <= labs@.len(),
            forall|q: int| 0 <= q < autos@.len() ==> is_automorphism(adj@, n as int, #[trigger] autos@[q]@),
            autos@.len() == k,
            labs@.len() >= 1,
            l0@ == labs@[0]@,
            k > 0 ==> forall|x: int| 0 <= x < n ==> #[trigger] autos@[0]@[x] == x,
            labs_view(labs@) == ll,
            forall|q: int| 0 <= q < k ==> #[trigger] autos@[q]@ == carry(ll[0], ll[q], n as int),
        decreases labs@.len() - k,
    {
        let lab = &labs[k];
        proof {
            assert(is_perm(labs@[k as int]@, n as int) && code_matches(adj@, n as int, labs@[k as int]@, best));
        }
        let posk = inverse_perm(lab, n);
        let mut a: Vec<usize> = Vec::new();
        let mut v = 0usize;
        while v < n
            invariant
                n <= 16,
                is_perm(l0@, n as int),
                is_perm(posk@, n as int),
                v <= n,
                a@.len() == v,
                forall|x: int| 0 <= x < v ==> #[trigger] a@[x] == l0@[posk@[x] as int],
            decreases n - v,
        {
            a.push(l0[posk[v]]);
            v += 1;
        }
        proof {
            let lk = lab@;
            assert forall|x: int| 0 <= x < n implies #[trigger] a@[x] < n by {}
            assert forall|x: int, y: int| 0 <= x < n && 0 <= y < n && x != y implies #[trigger] a@[x] != #[trigger] a@[y] by {
                assert(posk@[x] != posk@[y]);
            }
            assert forall|x: int, y: int| 0 <= x < n && 0 <= y < n implies #[trigger] adjacent(adj@, a@[x] as int, a@[y] as int)
                == adjacent(adj@, x, y) by {
                let p = posk@[x] as int;
                let q = posk@[y] as int;
                assert(lk[p] == x && lk[q] == y);
                if p < q {
                    assert(bit128(best, pair_index(n as int, p, q)) == adjacent(adj@, l0@[p] as int, l0@[q] as int));
                    assert(bit128(best, pair_index(n as int, p, q)) == adjacent(adj@, lk[p] as int, lk[q] as int));
                } else if q < p {
                    assert(bit128(best, pair_index(n as int, q, p)) == adjacent(adj@, l0@[q] as int, l0@[p] as int));
                    assert(bit128(best, pair_index(n as int, q, p)) == adjacent(adj@, lk[q] as int, lk[p] as int));
                    assert(adjacent(adj@, l0@[q] as int, l0@[p] as int) == adjacent(adj@, l0@[p] as int, l0@[q] as int));
                    assert(adjacent(adj@, x, y) == adjacent(adj@, y, x));
                } else {
                    assert(x == y);
                }
            }
        }
        proof {
            if k == 0 {
                assert forall|x: int| 0 <= x < n implies #[trigger] a@[x] == x by {
                    assert(lab@ == l0@);
                    assert(a@[x] == l0@[posk@[x] as int]);
                }
            }
        }
        proof {
            assert(ll[0] == l0@);
            assert(ll[k as int] == lab@);
            assert forall|x: int| 0 <= x < n implies #[trigger] a@[x] == carry(ll[0], ll[k as int], n as int)[x] by {
                let p = position_of(lab@, n as int, x);
                assert(lab@[posk@[x] as int] == x);
                assert(0 <= p < n && lab@[p] == x);
                if p != posk@[x] as int {
                    assert(lab@[p] != lab@[posk@[x] as int]);
                }
            }
            assert(a@ =~= carry(ll[0], ll[k as int], n as int));
        }
        let ghost a_view = a@;
        autos.push(a);
        proof {
            assert(autos@[k as int]@ == a_view);
        }
        k += 1;
    }
    proof {
        lemma_least_labellings_distinct(adj@, n as int);
        assert forall|k1: int, k2: int| 0 <= k1 < k2 < autos@.len() implies autos@[k1]@ != autos@[k2]@ by {
            assert(is_perm(labs@[k1]@, n as int) && is_perm(labs@[k2]@, n as int));
            assert(ll[k1] == labs@[k1]@ && ll[k2] == labs@[k2]@ && ll[0] == l0@);
            if autos@[k1]@ == autos@[k2]@ {
                lemma_carry_injective(ll[0], ll[k1], ll[k2], n as int);
            }
        }
        if rows_in(adj@, n as int) {
            assert forall|a: Seq<usize>| #[trigger] is_automorphism(adj@, n as int, a) implies exists|k: int|
                0 <= k < autos@.len() && autos@[k]@ == a by {
                lemma_least_labellings_complete(adj@, n as int, a);
                let k = choose|k: int| 0 <= k < ll.len() && #[trigger] carry(ll[0], ll[k], n as int) == a;
                assert(autos@[k]@ == carry(ll[0], ll[k], n as int));
            }
        }
    }
    autos
}


/// The out-degree colouring: each vertex coloured by its number of out-neighbours among `0..n`.
pub open spec fn degree_colours(adj: Seq<u16>, n: int) -> Seq<u32> {
    Seq::new(n as nat, |i: int| cnt16(adj[i], n) as u32)
}

/// The canonical code of the tournament `adj` on `0..n`: the least code over
/// the leaves of the individualise-and-refine search from the refined
/// out-degree colouring.
pub open spec fn canon_code(adj: Seq<u16>, n: int) -> u128 {
    search_min(adj, n, refine_spec(adj, n, degree_colours(adj, n), true), 0, true)
}

/// The canonical code of a tournament: the least adjacency code over all the
/// leaves of the individualise-and-refine search from the refined out-degree
/// colouring (out- and in-neighbour colours refined separately). The search
/// always reaches a leaf, and the code is that of a labelling of the tournament.
pub fn canon(t: &Tour) -> (r: u128)
    requires
        1 <= t.n <= 12,
    ensures
        r == canon_code(t.adj@, t.n as int),
        r != u128::MAX,
        exists|lab: Seq<usize>| is_perm(lab, t.n as int) && #[trigger] code_matches(t.adj@, t.n as int, lab, r) && r == lab_code(
            t.adj@,
            t.n as int,
            lab,
        ),
{
    let n = t.n;
    let adj: &[u16] = &t.adj;
    let mut init: Vec<u32> = Vec::new();
    let mut i = 0usize;
    while i < n
        invariant
            n <= 12,
            adj@.len() == 12,
            i <= n,
            init@.len() == i,
            forall|x: int| 0 <= x < i ==> #[trigger] init@[x] == cnt16(adj@[x], n as int) as u32,
        decreases n - i,
    {
        let mut c: u32 = 0;
        let mut j = 0usize;
        while j < n
            invariant
                n <= 12,
                adj@.len() == 12,
                i < n,
                j <= n,
                c <= j,
                c as int == cnt16(adj@[i as int], j as int),
            decreases n - j,
        {
            if (adj[i] >> (j as u16)) & 1 == 1 {
                c += 1;
            }
            j += 1;
        }
        init.push(c);
        i += 1;
    }
    proof {
        assert(init@ =~= degree_colours(adj@, n as int));
    }
    let col = refine(adj, n, &init, true);
    let mut best: u128 = u128::MAX;
    let mut labs: Vec<Vec<usize>> = Vec::new();
    canon_rec(adj, n, col, &mut best, &mut labs, 0, usize::MAX, true);
    proof {
        assert(0 <= col@[0] + 1);
        assert(labs@.len() > 0);
        assert(is_perm(labs@[0]@, n as int) && code_matches(adj@, n as int, labs@[0]@, best));
        assert(adj@ == t.adj@);
        lemma_exact_not_max(n as int, best);
        lemma_code_unique(adj@, n as int, labs@[0]@, best);
    }
    best
}

/// Tournaments with the same canonical code are isomorphic: two labellings
/// with the same code relate the two tournaments pair by pair.
pub proof fn lemma_same_code_isomorphic(a1: Seq<u16>, a2: Seq<u16>, n: int, c: u128, l1: Seq<usize>, l2: Seq<usize>)
    requires
        0 <= n <= 16,
        is_perm(l1, n),
        is_perm(l2, n),
        code_matches(a1, n, l1, c),
        code_matches(a2, n, l2, c),
        forall|v: int, w: int| 0 <= v < n && 0 <= w < n && v != w ==> #[trigger] adjacent(a1, v, w) != adjacent(a1, w, v),
        forall|v: int, w: int| 0 <= v < n && 0 <= w < n && v != w ==> #[trigger] adjacent(a2, v, w) != adjacent(a2, w, v),
    ensures
        exists|iso: Seq<usize>|
            is_perm(iso, n) && forall|v: int, w: int| 0 <= v < n && 0 <= w < n && v != w ==> #[trigger] adjacent(a1, v, w) == adjacent(
                a2,
                iso[v] as int,
                iso[w] as int,
            ),
{
    let pos = Seq::new(n as nat, |v: int| choose|p: int| 0 <= p < n && l1[p] == v);
    assert forall|v: int| 0 <= v < n implies 0 <= #[trigger] pos[v] < n && l1[pos[v]] == v by {
        lemma_perm_onto(l1, n, v);
    }
    let iso = Seq::new(n as nat, |v: int| l2[pos[v]]);
    assert forall|v: int| 0 <= v < n implies #[trigger] iso[v] < n by {
        assert(0 <= pos[v] < n);
    }
    assert forall|v: int, w: int| 0 <= v < n && 0 <= w < n && v != w implies #[trigger] iso[v] != #[trigger] iso[w] by {
        assert(0 <= pos[v] < n && l1[pos[v]] == v);
        assert(0 <= pos[w] < n && l1[pos[w]] == w);
    }
    assert forall|v: int, w: int| 0 <= v < n && 0 <= w < n && v != w implies #[trigger] adjacent(a1, v, w) == adjacent(
        a2,
        iso[v] as int,
        iso[w] as int,
    ) by {
        let p = pos[v];
        let q = pos[w];
        assert(0 <= p < n && l1[p] == v);
        assert(0 <= q < n && l1[q] == w);
        if p < q {
            assert(bit128(c, pair_index(n, p, q)) == adjacent(a1, l1[p] as int, l1[q] as int));
            assert(bit128(c, pair_index(n, p, q)) == adjacent(a2, l2[p] as int, l2[q] as int));
        } else {
            assert(bit128(c, pair_index(n, q, p)) == adjacent(a1, l1[q] as int, l1[p] as int));
            assert(bit128(c, pair_index(n, q, p)) == adjacent(a2, l2[q] as int, l2[p] as int));
            assert(iso[v] != iso[w]);
            assert(adjacent(a2, iso[v] as int, iso[w] as int) != adjacent(a2, iso[w] as int, iso[v] as int));
        }
    }
    assert(is_perm(iso, n));
}


// ---------------------------------------------------------------------------
// Relabelling: the search commutes with a permutation of the vertices.

/// The vertices `x < k` with `f(x)`.
pub open spec fn idx_set(f: spec_fn(int) -> bool, k: int) -> Set<int> {
    Set::new(|x: int| 0 <= x < k && f(x))
}

proof fn lemma_count_set(f: spec_fn(int) -> bool, k: int)
    requires
        0 <= k,
    ensures
        idx_set(f, k).finite(),
        count_where(f, k) == idx_set(f, k).len(),
    decreases k,
{
    if k == 0 {
        assert(idx_set(f, 0) =~= Set::empty());
    } else {
        lemma_count_set(f, k - 1);
        if f(k - 1) {
            assert(idx_set(f, k) =~= idx_set(f, k - 1).insert(k - 1));
        } else {
            assert(idx_set(f, k) =~= idx_set(f, k - 1));
        }
    }
}

/// Counting is invariant under a permutation of `0..n`.
proof fn lemma_count_perm(f: spec_fn(int) -> bool, g: spec_fn(int) -> bool, p: Seq<usize>, n: int)
    requires
        0 <= n <= 16,
        is_perm(p, n),
        forall|x: int| 0 <= x < n ==> #[trigger] g(p[x] as int) == f(x),
    ensures
        count_where(f, n) == count_where(g, n),
{
    lemma_count_set(f, n);
    lemma_count_set(g, n);
    let h = |x: int| p[x] as int;
    let xs = idx_set(f, n);
    let ys = idx_set(g, n);
    assert(vstd::relations::injective_on(h, xs)) by {
        assert forall|a: int, b: int| xs.contains(a) && xs.contains(b) && #[trigger] h(a) == #[trigger] h(b) implies a == b by {
            if a != b {
                assert(p[a] != p[b]);
            }
        }
    }
    assert(xs.map(h) =~= ys) by {
        assert forall|y: int| ys.contains(y) implies xs.map(h).contains(y) by {
            lemma_perm_onto(p, n, y);
            let x = choose|q: int| 0 <= q < n && p[q] == y;
            assert(g(p[x] as int) == f(x));
            assert(xs.contains(x) && h(x) == y);
        }
        assert forall|y: int| xs.map(h).contains(y) implies ys.contains(y) by {
            let x = choose|x: int| xs.contains(x) && h(x) == y;
            assert(g(p[x] as int) == f(x));
        }
    }
    vstd::set_lib::lemma_map_size(xs, ys, h);
}

proof fn lemma_cnt16_count(a: u16, k: int)
    requires
        0 <= k,
    ensures
        cnt16(a, k) == count_where(|j: int| bit16(a, j), k),
    decreases k,
{
    if k > 0 {
        lemma_cnt16_count(a, k - 1);
    }
}

proof fn lemma_colour_count_where(col: Seq<u32>, q: int, k: int, f: spec_fn(int) -> bool)
    requires
        0 <= k,
        forall|x: int| #[trigger] f(x) == (col[x] == q),
    ensures
        colour_count(col, q, k) == count_where(f, k),
    decreases k,
{
    if k > 0 {
        lemma_colour_count_where(col, q, k - 1, f);
        assert(f(k - 1) == (col[k - 1] == q));
    }
}

/// The colouring `col2` is `col` carried along `p`: vertex `p[x]` gets the colour of `x`.
pub open spec fn carried(col: Seq<u32>, col2: Seq<u32>, p: Seq<usize>, n: int) -> bool {
    &&& col.len() == n
    &&& col2.len() == n
    &&& forall|x: int| 0 <= x < n ==> #[trigger] col2[p[x] as int] == col[x]
}

/// `adj2` is `adj` with its vertices renamed along `p`: `p[u]` beats `p[w]` in
/// `adj2` exactly when `u` beats `w` in `adj`.
pub open spec fn relabelled(adj: Seq<u16>, adj2: Seq<u16>, p: Seq<usize>, n: int) -> bool {
    &&& 1 <= n <= 16
    &&& is_perm(p, n)
    &&& adj.len() >= n
    &&& adj2.len() >= n
    &&& forall|u: int, w: int| 0 <= u < n && 0 <= w < n ==> #[trigger] bit16(adj2[p[u] as int], p[w] as int) == bit16(adj[u], w)
}

proof fn lemma_degree_carried(adj: Seq<u16>, adj2: Seq<u16>, p: Seq<usize>, n: int)
    requires
        relabelled(adj, adj2, p, n),
    ensures
        carried(degree_colours(adj, n), degree_colours(adj2, n), p, n),
{
    assert forall|x: int| 0 <= x < n implies #[trigger] degree_colours(adj2, n)[p[x] as int] == degree_colours(adj, n)[x] by {
        let y = p[x] as int;
        lemma_cnt16_count(adj2[y], n);
        lemma_cnt16_count(adj[x], n);
        let f = |j: int| bit16(adj[x], j);
        let g = |j: int| bit16(adj2[y], j);
        assert forall|w: int| 0 <= w < n implies #[trigger] g(p[w] as int) == f(w) by {}
        lemma_count_perm(f, g, p, n);
    }
}

proof fn lemma_picked_count(adj: Seq<u16>, col: Seq<u32>, i: int, set: bool, skip_self: bool, m: int, c: u32, f: spec_fn(int) -> bool)
    requires
        0 <= m,
        forall|j: int| #[trigger] f(j) == (bit16(adj[i], j) == set && !(skip_self && j == i) && col[j] == c),
    ensures
        picked_colours(adj, col, i, set, skip_self, m).to_multiset().count(c) == count_where(f, m),
    decreases m,
{
    broadcast use vstd::seq_lib::group_to_multiset_ensures;
    broadcast use vstd::multiset::group_multiset_axioms;

    if m > 0 {
        lemma_picked_count(adj, col, i, set, skip_self, m - 1, c, f);
        let prev = picked_colours(adj, col, i, set, skip_self, m - 1);
        assert(f(m - 1) == (bit16(adj[i], m - 1) == set && !(skip_self && m - 1 == i) && col[m - 1] == c));
        if bit16(adj[i], m - 1) == set && !(skip_self && m - 1 == i) {
            assert(prev.push(col[m - 1]).to_multiset() =~= prev.to_multiset().insert(col[m - 1]));
        }
    } else {
        assert(picked_colours(adj, col, i, set, skip_self, 0).to_multiset() =~= vstd::multiset::Multiset::empty());
    }
}

/// The sorted neighbour colours of `p[x]` in the relabelled graph are those of `x`.
proof fn lemma_sorted_picked_carried(
    adj: Seq<u16>,
    adj2: Seq<u16>,
    p: Seq<usize>,
    n: int,
    col: Seq<u32>,
    col2: Seq<u32>,
    x: int,
    set: bool,
    skip_self: bool,
)
    requires
        relabelled(adj, adj2, p, n),
        carried(col, col2, p, n),
        0 <= x < n,
    ensures
        sorted_picked(adj2, col2, p[x] as int, set, skip_self, n) == sorted_picked(adj, col, x, set, skip_self, n),
{
    let y = p[x] as int;
    let s1 = picked_colours(adj, col, x, set, skip_self, n);
    let s2 = picked_colours(adj2, col2, y, set, skip_self, n);
    assert(s1.to_multiset() =~= s2.to_multiset()) by {
        assert forall|c: u32| #[trigger] s1.to_multiset().count(c) == s2.to_multiset().count(c) by {
            let f = |j: int| bit16(adj[x], j) == set && !(skip_self && j == x) && col[j] == c;
            let g = |j: int| bit16(adj2[y], j) == set && !(skip_self && j == y) && col2[j] == c;
            lemma_picked_count(adj, col, x, set, skip_self, n, c, f);
            lemma_picked_count(adj2, col2, y, set, skip_self, n, c, g);
            assert forall|w: int| 0 <= w < n implies #[trigger] g(p[w] as int) == f(w) by {
                if w != x {
                    assert(p[w] != p[x]);
                }
            }
            lemma_count_perm(f, g, p, n);
        }
    }
    let leq = colour_leq();
    lemma_colour_leq_total();
    s1.lemma_sort_by_ensures(leq);
    s2.lemma_sort_by_ensures(leq);
    vstd::seq_lib::lemma_sorted_unique(s1.sort_by(leq), s2.sort_by(leq), leq);
}

/// The signatures strictly below vertex `i`'s among the first `k` vertices.
pub open spec fn sigs_below(c: Seq<u32>, a: Seq<Seq<u32>>, b: Seq<Seq<u32>>, i: int, k: int) -> Set<(u32, Seq<u32>, Seq<u32>)> {
    Set::new(|t: (u32, Seq<u32>, Seq<u32>)| exists|x: int| 0 <= x < k && #[trigger] sig_less(c, a, b, x, i) && t == (c[x], a[x], b[x]))
}

/// A vertex's new colour is the number of distinct signatures below its own.
proof fn lemma_rank_set(c: Seq<u32>, a: Seq<Seq<u32>>, b: Seq<Seq<u32>>, i: int, k: int)
    requires
        0 <= k,
    ensures
        sigs_below(c, a, b, i, k).finite(),
        count_where(|x: int| class_first(c, a, b, x) && sig_less(c, a, b, x, i), k) == sigs_below(c, a, b, i, k).len(),
    decreases k,
{
    let f = |x: int| class_first(c, a, b, x) && sig_less(c, a, b, x, i);
    if k == 0 {
        assert(sigs_below(c, a, b, i, 0) =~= Set::empty());
    } else {
        lemma_rank_set(c, a, b, i, k - 1);
        let prev = sigs_below(c, a, b, i, k - 1);
        let y = k - 1;
        let t = (c[y], a[y], b[y]);
        if sig_less(c, a, b, y, i) {
            assert(sigs_below(c, a, b, i, k) =~= prev.insert(t)) by {
                assert forall|u: (u32, Seq<u32>, Seq<u32>)| #[trigger] sigs_below(c, a, b, i, k).contains(u) implies prev.insert(t).contains(u) by {
                    let x = choose|x: int| 0 <= x < k && #[trigger] sig_less(c, a, b, x, i) && u == (c[x], a[x], b[x]);
                    if x < k - 1 {
                        assert(prev.contains(u));
                    }
                }
                assert(sig_less(c, a, b, y, i) && t == (c[y], a[y], b[y]));
            }
            if class_first(c, a, b, y) {
                assert(!prev.contains(t)) by {
                    if prev.contains(t) {
                        let x = choose|x: int| 0 <= x < k - 1 && #[trigger] sig_less(c, a, b, x, i) && t == (c[x], a[x], b[x]);
                        assert(sig_same(c, a, b, x, y));
                    }
                }
            } else {
                let x = choose|x: int| 0 <= x < y && #[trigger] sig_same(c, a, b, x, y);
                assert(sig_less(c, a, b, x, i));
                assert(prev.contains(t));
            }
        } else {
            assert(sigs_below(c, a, b, i, k) =~= prev) by {
                assert forall|u: (u32, Seq<u32>, Seq<u32>)| #[trigger] sigs_below(c, a, b, i, k).contains(u) implies prev.contains(u) by {
                    let x = choose|x: int| 0 <= x < k && #[trigger] sig_less(c, a, b, x, i) && u == (c[x], a[x], b[x]);
                    assert(x != y);
                }
            }
        }
    }
}

/// Signature ranks agree at corresponding vertices.
proof fn lemma_rank_carried(
    c: Seq<u32>,
    a: Seq<Seq<u32>>,
    b: Seq<Seq<u32>>,
    c2: Seq<u32>,
    a2: Seq<Seq<u32>>,
    b2: Seq<Seq<u32>>,
    p: Seq<usize>,
    n: int,
    i: int,
)
    requires
        0 <= n <= 16,
        is_perm(p, n),
        0 <= i < n,
        forall|x: int| 0 <= x < n ==> #[trigger] p[x] < n,
        forall|x: int| 0 <= x < n ==> #[trigger] c2[p[x] as int] == c[x],
        forall|x: int| 0 <= x < n ==> #[trigger] a2[p[x] as int] == a[x],
        forall|x: int| 0 <= x < n ==> #[trigger] b2[p[x] as int] == b[x],
    ensures
        sig_rank(c2, a2, b2, p[i] as int, n) == sig_rank(c, a, b, i, n),
{
    lemma_rank_set(c, a, b, i, n);
    lemma_rank_set(c2, a2, b2, p[i] as int, n);
    let s1 = sigs_below(c, a, b, i, n);
    let s2 = sigs_below(c2, a2, b2, p[i] as int, n);
    assert(c2[p[i] as int] == c[i] && a2[p[i] as int] == a[i] && b2[p[i] as int] == b[i]);
    assert(s1 =~= s2) by {
        assert forall|u: (u32, Seq<u32>, Seq<u32>)| #[trigger] s1.contains(u) implies s2.contains(u) by {
            let x = choose|x: int| 0 <= x < n && #[trigger] sig_less(c, a, b, x, i) && u == (c[x], a[x], b[x]);
            assert(c2[p[x] as int] == c[x] && a2[p[x] as int] == a[x] && b2[p[x] as int] == b[x]);
            assert(sig_less(c2, a2, b2, p[x] as int, p[i] as int));
        }
        assert forall|u: (u32, Seq<u32>, Seq<u32>)| #[trigger] s2.contains(u) implies s1.contains(u) by {
            let j = choose|j: int| 0 <= j < n && #[trigger] sig_less(c2, a2, b2, j, p[i] as int) && u == (c2[j], a2[j], b2[j]);
            lemma_perm_onto(p, n, j);
            let x = choose|q: int| 0 <= q < n && p[q] == j;
            assert(0 <= x < n && p[x] as int == j);
            assert(c2[p[x] as int] == c[x]);
            assert(a2[p[x] as int] == a[x]);
            assert(b2[p[x] as int] == b[x]);
            assert(sig_less(c, a, b, x, i));
        }
    }
}

/// A refinement round commutes with the relabelling.
proof fn lemma_round_carried(adj: Seq<u16>, adj2: Seq<u16>, p: Seq<usize>, n: int, col: Seq<u32>, col2: Seq<u32>, directed: bool)
    requires
        relabelled(adj, adj2, p, n),
        carried(col, col2, p, n),
    ensures
        carried(round_spec(adj, n, col, directed), round_spec(adj2, n, col2, directed), p, n),
{
    let a = Seq::new(n as nat, |x: int| out_list(adj, n, col, directed, x));
    let b = Seq::new(n as nat, |x: int| in_list(adj, n, col, directed, x));
    let a2 = Seq::new(n as nat, |x: int| out_list(adj2, n, col2, directed, x));
    let b2 = Seq::new(n as nat, |x: int| in_list(adj2, n, col2, directed, x));
    assert forall|x: int| 0 <= x < n implies #[trigger] a2[p[x] as int] == a[x] by {
        lemma_sorted_picked_carried(adj, adj2, p, n, col, col2, x, true, directed);
    }
    assert forall|x: int| 0 <= x < n implies #[trigger] b2[p[x] as int] == b[x] by {
        lemma_sorted_picked_carried(adj, adj2, p, n, col, col2, x, false, true);
    }
    assert forall|x: int| 0 <= x < n implies #[trigger] round_spec(adj2, n, col2, directed)[p[x] as int] == round_spec(adj, n, col, directed)[x] by {
        lemma_rank_carried(col, a, b, col2, a2, b2, p, n, x);
    }
}

proof fn lemma_iter_carried(adj: Seq<u16>, adj2: Seq<u16>, p: Seq<usize>, n: int, col: Seq<u32>, col2: Seq<u32>, directed: bool, fuel: nat)
    requires
        relabelled(adj, adj2, p, n),
        carried(col, col2, p, n),
    ensures
        carried(refine_iter(adj, n, col, directed, fuel), refine_iter(adj2, n, col2, directed, fuel), p, n),
    decreases fuel,
{
    if fuel > 0 {
        let nc = round_spec(adj, n, col, directed);
        let nc2 = round_spec(adj2, n, col2, directed);
        lemma_round_carried(adj, adj2, p, n, col, col2, directed);
        if nc == col {
            assert(nc2 =~= col2) by {
                assert forall|j: int| 0 <= j < n implies nc2[j] == col2[j] by {
                    lemma_perm_onto(p, n, j);
                    let x = choose|q: int| 0 <= q < n && p[q] == j;
                    assert(nc2[p[x] as int] == nc[x]);
                    assert(col2[p[x] as int] == col[x]);
                }
            }
        } else if nc2 == col2 {
            assert(nc =~= col) by {
                assert forall|x: int| 0 <= x < n implies nc[x] == col[x] by {
                    assert(nc2[p[x] as int] == nc[x]);
                    assert(col2[p[x] as int] == col[x]);
                }
            }
        } else {
            lemma_iter_carried(adj, adj2, p, n, nc, nc2, directed, (fuel - 1) as nat);
        }
    }
}

/// Refinement commutes with the relabelling.
proof fn lemma_refine_carried(adj: Seq<u16>, adj2: Seq<u16>, p: Seq<usize>, n: int, col: Seq<u32>, col2: Seq<u32>, directed: bool)
    requires
        relabelled(adj, adj2, p, n),
        carried(col, col2, p, n),
    ensures
        carried(refine_spec(adj, n, col, directed), refine_spec(adj2, n, col2, directed), p, n),
{
    lemma_round_carried(adj, adj2, p, n, col, col2, directed);
    lemma_iter_carried(adj, adj2, p, n, round_spec(adj, n, col, directed), round_spec(adj2, n, col2, directed), directed, n as nat);
}

/// The pairs of labels whose vertices are adjacent, at their positions below `t`.
pub open spec fn pair_adjacent(adj: Seq<u16>, n: int, lab: Seq<usize>, t: int) -> bool {
    exists|x: int, y: int| 0 <= x < y < n && pair_index(n, x, y) == t && adjacent(adj, lab[x] as int, lab[y] as int)
}

/// The code with the bits of the adjacent label pairs at positions below `k`.
pub open spec fn code_upto(adj: Seq<u16>, n: int, lab: Seq<usize>, k: int) -> u128
    decreases k,
{
    if k <= 0 {
        0
    } else {
        let c = code_upto(adj, n, lab, k - 1);
        if pair_adjacent(adj, n, lab, k - 1) { c | (1u128 << ((k - 1) as u128)) } else { c }
    }
}

proof fn lemma_code_upto(adj: Seq<u16>, n: int, lab: Seq<usize>, k: int)
    requires
        0 <= k <= 128,
    ensures
        forall|t: int| 0 <= t < 128 ==> #[trigger] bit128(code_upto(adj, n, lab, k), t) == (t < k && pair_adjacent(adj, n, lab, t)),
    decreases k,
{
    if k == 0 {
        assert forall|t: int| 0 <= t < 128 implies #[trigger] bit128(code_upto(adj, n, lab, 0), t) == false by {
            lemma_bit128_set(0, 0, t as u128);
        }
    } else {
        lemma_code_upto(adj, n, lab, k - 1);
        let c = code_upto(adj, n, lab, k - 1);
        assert forall|t: int| 0 <= t < 128 implies #[trigger] bit128(code_upto(adj, n, lab, k), t) == (t < k && pair_adjacent(adj, n, lab, t)) by {
            lemma_bit128_set(c, (k - 1) as u128, t as u128);
        }
    }
}

/// Every labelling of at most 16 vertices has an adjacency code.
proof fn lemma_code_exists(adj: Seq<u16>, n: int, lab: Seq<usize>)
    requires
        1 <= n <= 16,
    ensures
        code_matches(adj, n, lab, code_upto(adj, n, lab, 128)),
        code_exact(n, code_upto(adj, n, lab, 128)),
{
    let c = code_upto(adj, n, lab, 128);
    lemma_code_upto(adj, n, lab, 128);
    assert forall|x: int, y: int| 0 <= x < y < n implies #[trigger] bit128(c, pair_index(n, x, y)) == adjacent(adj, lab[x] as int, lab[y] as int) by {
        lemma_pair_index(n, x, y);
        let t = pair_index(n, x, y);
        if pair_adjacent(adj, n, lab, t) {
            let (x2, y2) = choose|x2: int, y2: int| 0 <= x2 < y2 < n && pair_index(n, x2, y2) == t && adjacent(adj, lab[x2] as int, lab[y2] as int);
            lemma_pair_index_inj(n, x, y, x2, y2);
        }
        if adjacent(adj, lab[x] as int, lab[y] as int) {
            assert(pair_adjacent(adj, n, lab, t));
        }
    }
    assert forall|t: int| 0 <= t < 128 && #[trigger] bit128(c, t) implies exists|x: int, y: int| 0 <= x < y < n && pair_index(n, x, y) == t by {
        assert(pair_adjacent(adj, n, lab, t));
    }
}

/// The leaf of a discrete colouring and of its relabelled copy have the same code.
proof fn lemma_leaf_code_carried(adj: Seq<u16>, adj2: Seq<u16>, p: Seq<usize>, n: int, col: Seq<u32>, col2: Seq<u32>)
    requires
        relabelled(adj, adj2, p, n),
        carried(col, col2, p, n),
        discrete(col, n),
        max_colour(col, n) == n - 1,
    ensures
        lab_code(adj2, n, leaf_lab(col2, n)) == lab_code(adj, n, leaf_lab(col, n)),
{
    let lab = leaf_lab(col, n);
    let lab2 = leaf_lab(col2, n);
    assert forall|x: int| 0 <= x < n implies #[trigger] col[x] < n by {
        lemma_max_colour_ge(col, n, x);
    }
    assert forall|q: int| 0 <= q < n implies #[trigger] lab2[q] == p[lab[q] as int] by {
        lemma_distinct_onto(col, n, q);
        let v = lab[q] as int;
        assert(0 <= v < n && col[v] == q);
        assert(col2[p[v] as int] == q);
        let w = lab2[q] as int;
        assert(0 <= w < n && col2[w] == q);
        lemma_perm_onto(p, n, w);
        let x = choose|r: int| 0 <= r < n && p[r] == w;
        assert(col2[p[x] as int] == col[x]);
        if x != v {
            assert(col[x] != col[v]);
        }
    }
    let c = code_upto(adj, n, lab, 128);
    lemma_code_exists(adj, n, lab);
    lemma_code_unique(adj, n, lab, c);
    assert(code_matches(adj2, n, lab2, c)) by {
        assert forall|x: int, y: int| 0 <= x < y < n implies #[trigger] bit128(c, pair_index(n, x, y)) == adjacent(adj2, lab2[x] as int, lab2[y] as int) by {
            lemma_distinct_onto(col, n, x);
            lemma_distinct_onto(col, n, y);
            assert(lab2[x] == p[lab[x] as int] && lab2[y] == p[lab[y] as int]);
            assert(bit128(c, pair_index(n, x, y)) == adjacent(adj, lab[x] as int, lab[y] as int));
        }
    }
    lemma_code_unique(adj2, n, lab2, c);
}

proof fn lemma_max_carried(col: Seq<u32>, col2: Seq<u32>, p: Seq<usize>, n: int)
    requires
        1 <= n <= 16,
        is_perm(p, n),
        carried(col, col2, p, n),
    ensures
        max_colour(col, n) == max_colour(col2, n),
{
    lemma_max_colour_attained(col, n);
    lemma_max_colour_attained(col2, n);
    let x = choose|x: int| 0 <= x < n && col[x] == max_colour(col, n);
    let j = choose|x: int| 0 <= x < n && col2[x] == max_colour(col2, n);
    lemma_max_colour_ge(col2, n, p[x] as int);
    lemma_perm_onto(p, n, j);
    let y = choose|r: int| 0 <= r < n && p[r] == j;
    lemma_max_colour_ge(col, n, y);
    assert(col2[p[y] as int] == col[y]);
    assert(col2[p[x] as int] == col[x]);
}

proof fn lemma_first_shared_carried(col: Seq<u32>, col2: Seq<u32>, n: int, q: int, maxc: int)
    requires
        forall|c: int| #[trigger] colour_count(col, c, n) == colour_count(col2, c, n),
    ensures
        first_shared(col, n, q, maxc) == first_shared(col2, n, q, maxc),
    decreases maxc + 1 - q,
{
    if !(q > maxc || q < 0) {
        assert(colour_count(col, q, n) == colour_count(col2, q, n));
        lemma_first_shared_carried(col, col2, n, q + 1, maxc);
    }
}

/// The least code over the first `v` branches is the least of their codes.
proof fn lemma_branch_min_char(adj: Seq<u16>, n: int, col: Seq<u32>, target: int, depth: int, directed: bool, v: int)
    requires
        0 <= depth <= n,
        0 <= v,
    ensures
        forall|u: int| 0 <= u < v && col[u] == target ==> branch_min(adj, n, col, target, depth, directed, v) <= #[trigger] search_min(
            adj,
            n,
            refine_spec(adj, n, individualise(col, n, target, u), directed),
            depth + 1,
            directed,
        ),
        branch_min(adj, n, col, target, depth, directed, v) == u128::MAX || exists|u: int|
            0 <= u < v && col[u] == target && branch_min(adj, n, col, target, depth, directed, v) == #[trigger] search_min(
                adj,
                n,
                refine_spec(adj, n, individualise(col, n, target, u), directed),
                depth + 1,
                directed,
            ),
    decreases v,
{
    if v > 0 {
        lemma_branch_min_char(adj, n, col, target, depth, directed, v - 1);
        let m = branch_min(adj, n, col, target, depth, directed, v - 1);
        if col[v - 1] == target {
            let g = search_min(adj, n, refine_spec(adj, n, individualise(col, n, target, v - 1), directed), depth + 1, directed);
            if !(g < m) && m != u128::MAX {
                let u = choose|u: int|
                    0 <= u < v - 1 && col[u] == target && m == #[trigger] search_min(
                        adj,
                        n,
                        refine_spec(adj, n, individualise(col, n, target, u), directed),
                        depth + 1,
                        directed,
                    );
                assert(0 <= u < v && col[u] == target);
            }
        } else if m != u128::MAX {
            let u = choose|u: int|
                0 <= u < v - 1 && col[u] == target && m == #[trigger] search_min(
                    adj,
                    n,
                    refine_spec(adj, n, individualise(col, n, target, u), directed),
                    depth + 1,
                    directed,
                );
            assert(0 <= u < v && col[u] == target);
        }
    }
}

/// Individualising corresponding vertices keeps colourings corresponding.
proof fn lemma_individualise_carried(col: Seq<u32>, col2: Seq<u32>, p: Seq<usize>, n: int, target: int, v: int)
    requires
        carried(col, col2, p, n),
        is_perm(p, n),
        0 <= v < n,
    ensures
        carried(individualise(col, n, target, v), individualise(col2, n, target, p[v] as int), p, n),
{
    assert forall|x: int| 0 <= x < n implies #[trigger] individualise(col2, n, target, p[v] as int)[p[x] as int] == individualise(col, n, target, v)[x] by {
        assert(col2[p[x] as int] == col[x]);
        if x != v {
            assert(p[x] != p[v]);
        }
    }
}

/// The search commutes with the relabelling: corresponding colourings reach the same least code.
proof fn lemma_search_carried(adj: Seq<u16>, adj2: Seq<u16>, p: Seq<usize>, n: int, col: Seq<u32>, col2: Seq<u32>, depth: int, directed: bool)
    requires
        relabelled(adj, adj2, p, n),
        carried(col, col2, p, n),
    ensures
        search_min(adj, n, col, depth, directed) == search_min(adj2, n, col2, depth, directed),
    decreases n + 1 - depth,
{
    if !(depth > n || depth < 0 || n < 1) {
        lemma_max_carried(col, col2, p, n);
        assert(discrete(col, n) == discrete(col2, n)) by {
            if discrete(col, n) {
                assert forall|x: int, y: int| 0 <= x < n && 0 <= y < n && x != y implies col2[x] != col2[y] by {
                    lemma_perm_onto(p, n, x);
                    lemma_perm_onto(p, n, y);
                    let a = choose|r: int| 0 <= r < n && p[r] == x;
                    let b = choose|r: int| 0 <= r < n && p[r] == y;
                    assert(col2[p[a] as int] == col[a]);
                    assert(col2[p[b] as int] == col[b]);
                }
            }
            if discrete(col2, n) {
                assert forall|x: int, y: int| 0 <= x < n && 0 <= y < n && x != y implies col[x] != col[y] by {
                    assert(col2[p[x] as int] == col[x]);
                    assert(col2[p[y] as int] == col[y]);
                    assert(p[x] != p[y]);
                }
            }
        }
        let maxc = max_colour(col, n);
        if maxc == n - 1 {
            if discrete(col, n) {
                lemma_leaf_code_carried(adj, adj2, p, n, col, col2);
            }
        } else {
            assert forall|c: int| #[trigger] colour_count(col, c, n) == colour_count(col2, c, n) by {
                let f = |x: int| col[x] == c;
                let g = |x: int| col2[x] == c;
                lemma_colour_count_where(col, c, n, f);
                lemma_colour_count_where(col2, c, n, g);
                assert forall|x: int| 0 <= x < n implies #[trigger] g(p[x] as int) == f(x) by {
                    assert(col2[p[x] as int] == col[x]);
                }
                lemma_count_perm(f, g, p, n);
            }
            lemma_first_shared_carried(col, col2, n, 0, maxc);
            let t = first_shared(col, n, 0, maxc);
            if t >= 0 {
                lemma_branch_min_char(adj, n, col, t, depth, directed, n);
                lemma_branch_min_char(adj2, n, col2, t, depth, directed, n);
                let b1 = branch_min(adj, n, col, t, depth, directed, n);
                let b2 = branch_min(adj2, n, col2, t, depth, directed, n);
                assert forall|u: int| 0 <= u < n && col[u] == t implies #[trigger] search_min(
                    adj2,
                    n,
                    refine_spec(adj2, n, individualise(col2, n, t, p[u] as int), directed),
                    depth + 1,
                    directed,
                ) == search_min(adj, n, refine_spec(adj, n, individualise(col, n, t, u), directed), depth + 1, directed) by {
                    lemma_individualise_carried(col, col2, p, n, t, u);
                    lemma_refine_carried(adj, adj2, p, n, individualise(col, n, t, u), individualise(col2, n, t, p[u] as int), directed);
                    lemma_search_carried(
                        adj,
                        adj2,
                        p,
                        n,
                        refine_spec(adj, n, individualise(col, n, t, u), directed),
                        refine_spec(adj2, n, individualise(col2, n, t, p[u] as int), directed),
                        depth + 1,
                        directed,
                    );
                }
                if b1 != u128::MAX {
                    let u = choose|u: int|
                        0 <= u < n && col[u] == t && b1 == #[trigger] search_min(
                            adj,
                            n,
                            refine_spec(adj, n, individualise(col, n, t, u), directed),
                            depth + 1,
                            directed,
                        );
                    assert(col2[p[u] as int] == col[u]);
                    assert(b2 <= search_min(adj2, n, refine_spec(adj2, n, individualise(col2, n, t, p[u] as int), directed), depth + 1, directed));
                }
                if b2 != u128::MAX {
                    let j = choose|u: int|
                        0 <= u < n && col2[u] == t && b2 == #[trigger] search_min(
                            adj2,
                            n,
                            refine_spec(adj2, n, individualise(col2, n, t, u), directed),
                            depth + 1,
                            directed,
                        );
                    lemma_perm_onto(p, n, j);
                    let u = choose|r: int| 0 <= r < n && p[r] == j;
                    assert(col2[p[u] as int] == col[u]);
                    assert(b1 <= search_min(adj, n, refine_spec(adj, n, individualise(col, n, t, u), directed), depth + 1, directed));
                }
            }
        }
    }
}

/// Isomorphic tournaments get the same canonical code: renaming the vertices
/// along any permutation leaves the least code over the search's leaves unchanged.
pub proof fn lemma_canon_code_invariant(adj: Seq<u16>, adj2: Seq<u16>, p: Seq<usize>, n: int)
    requires
        relabelled(adj, adj2, p, n),
    ensures
        canon_code(adj, n) == canon_code(adj2, n),
{
    lemma_degree_carried(adj, adj2, p, n);
    lemma_refine_carried(adj, adj2, p, n, degree_colours(adj, n), degree_colours(adj2, n), true);
    lemma_search_carried(
        adj,
        adj2,
        p,
        n,
        refine_spec(adj, n, degree_colours(adj, n), true),
        refine_spec(adj2, n, degree_colours(adj2, n), true),
        0,
        true,
    );
}

/// `lab` is the labelling of a leaf of the search below `col` at `depth`.
pub open spec fn is_leaf_lab(adj: Seq<u16>, n: int, col: Seq<u32>, depth: int, directed: bool, lab: Seq<usize>) -> bool
    decreases n + 1 - depth, n + 2,
{
    if depth > n || depth < 0 || n < 1 {
        false
    } else if max_colour(col, n) == n - 1 {
        discrete(col, n) && lab == leaf_lab(col, n)
    } else {
        let t = first_shared(col, n, 0, max_colour(col, n));
        t >= 0 && leaf_below(adj, n, col, t, depth, directed, n, lab)
    }
}

/// `lab` is the labelling of a leaf below one of the first `v` branches of class `target`.
pub open spec fn leaf_below(adj: Seq<u16>, n: int, col: Seq<u32>, target: int, depth: int, directed: bool, v: int, lab: Seq<usize>) -> bool
    decreases n + 1 - depth, v + 1,
{
    if v <= 0 || depth > n || depth < 0 {
        false
    } else {
        leaf_below(adj, n, col, target, depth, directed, v - 1, lab) || (col[v - 1] == target && is_leaf_lab(
            adj,
            n,
            refine_spec(adj, n, individualise(col, n, target, v - 1), directed),
            depth + 1,
            directed,
            lab,
        ))
    }
}

/// The fold keeps exactly the leaves of least code: its code is the least of
/// the starting code and the leaves' codes, and it holds a labelling exactly
/// when the labelling was kept at the start and the code did not drop, or the
/// labelling is a leaf with the final code.
proof fn lemma_fold_members(adj: Seq<u16>, n: int, col: Seq<u32>, depth: int, directed: bool, st: (u128, Seq<Seq<usize>>))
    ensures
        search_fold(adj, n, col, depth, directed, st).0 == min_code(st.0, search_min(adj, n, col, depth, directed)),
        forall|e: Seq<usize>| #[trigger] search_fold(adj, n, col, depth, directed, st).1.contains(e) <==> ((st.1.contains(e)
            && search_fold(adj, n, col, depth, directed, st).0 == st.0) || (is_leaf_lab(adj, n, col, depth, directed, e) && lab_code(
            adj,
            n,
            e,
        ) == search_fold(adj, n, col, depth, directed, st).0)),
    decreases n + 1 - depth, n + 2,
{
    let res = search_fold(adj, n, col, depth, directed, st);
    if depth > n || depth < 0 || n < 1 {
    } else if max_colour(col, n) == n - 1 {
        if discrete(col, n) {
            let lab = leaf_lab(col, n);
            let c = lab_code(adj, n, lab);
            assert forall|e: Seq<usize>| #[trigger] res.1.contains(e) <==> ((st.1.contains(e) && res.0 == st.0) || (is_leaf_lab(
                adj,
                n,
                col,
                depth,
                directed,
                e,
            ) && lab_code(adj, n, e) == res.0)) by {
                if c == st.0 {
                    assert(st.1.push(lab).contains(e) <==> (st.1.contains(e) || e == lab)) by {
                        if st.1.push(lab).contains(e) {
                            let i = choose|i: int| 0 <= i < st.1.push(lab).len() && st.1.push(lab)[i] == e;
                            if i < st.1.len() {
                                assert(st.1[i] == e);
                            }
                        }
                        if st.1.contains(e) {
                            let i = choose|i: int| 0 <= i < st.1.len() && st.1[i] == e;
                            assert(st.1.push(lab)[i] == e);
                        }
                        if e == lab {
                            assert(st.1.push(lab)[st.1.len() as int] == e);
                        }
                    }
                } else if c < st.0 {
                    assert(seq![lab].contains(e) <==> e == lab) by {
                        if e == lab {
                            assert(seq![lab][0] == e);
                        }
                    }
                }
            }
        }
    } else {
        let t = first_shared(col, n, 0, max_colour(col, n));
        if t >= 0 {
            lemma_branch_members(adj, n, col, t, depth, directed, n, st);
        }
    }
}

proof fn lemma_branch_members(
    adj: Seq<u16>,
    n: int,
    col: Seq<u32>,
    target: int,
    depth: int,
    directed: bool,
    v: int,
    st: (u128, Seq<Seq<usize>>),
)
    requires
        0 <= depth <= n,
        0 <= v,
    ensures
        branch_fold(adj, n, col, target, depth, directed, v, st).0 == min_code(st.0, branch_min(adj, n, col, target, depth, directed, v)),
        forall|e: Seq<usize>| #[trigger] branch_fold(adj, n, col, target, depth, directed, v, st).1.contains(e) <==> ((st.1.contains(e)
            && branch_fold(adj, n, col, target, depth, directed, v, st).0 == st.0) || (leaf_below(adj, n, col, target, depth, directed, v, e)
            && lab_code(adj, n, e) == branch_fold(adj, n, col, target, depth, directed, v, st).0)),
    decreases n + 1 - depth, v + 1,
{
    let res = branch_fold(adj, n, col, target, depth, directed, v, st);
    if v > 0 {
        lemma_branch_members(adj, n, col, target, depth, directed, v - 1, st);
        let st1 = branch_fold(adj, n, col, target, depth, directed, v - 1, st);
        if col[v - 1] == target {
            let child = refine_spec(adj, n, individualise(col, n, target, v - 1), directed);
            lemma_fold_members(adj, n, child, depth + 1, directed, st1);
            assert forall|e: Seq<usize>| #[trigger] res.1.contains(e) <==> ((st.1.contains(e) && res.0 == st.0) || (leaf_below(
                adj,
                n,
                col,
                target,
                depth,
                directed,
                v,
                e,
            ) && lab_code(adj, n, e) == res.0)) by {
                assert(res.1.contains(e) <==> ((st1.1.contains(e) && res.0 == st1.0) || (is_leaf_lab(adj, n, child, depth + 1, directed, e)
                    && lab_code(adj, n, e) == res.0)));
                assert(st1.1.contains(e) <==> ((st.1.contains(e) && st1.0 == st.0) || (leaf_below(adj, n, col, target, depth, directed, v - 1, e)
                    && lab_code(adj, n, e) == st1.0)));
                if leaf_below(adj, n, col, target, depth, directed, v - 1, e) {
                    lemma_below_min(adj, n, col, target, depth, directed, v - 1, e);
                }
                if is_leaf_lab(adj, n, child, depth + 1, directed, e) {
                    lemma_leaf_min(adj, n, child, depth + 1, directed, e);
                }
            }
        }
    } else {
        assert forall|e: Seq<usize>| !#[trigger] leaf_below(adj, n, col, target, depth, directed, 0, e) by {}
    }
}

/// No leaf has a code below the search's least code.
proof fn lemma_leaf_min(adj: Seq<u16>, n: int, col: Seq<u32>, depth: int, directed: bool, e: Seq<usize>)
    requires
        is_leaf_lab(adj, n, col, depth, directed, e),
    ensures
        search_min(adj, n, col, depth, directed) <= lab_code(adj, n, e),
    decreases n + 1 - depth, n + 2,
{
    if max_colour(col, n) != n - 1 {
        let t = first_shared(col, n, 0, max_colour(col, n));
        lemma_below_min(adj, n, col, t, depth, directed, n, e);
    }
}

proof fn lemma_below_min(adj: Seq<u16>, n: int, col: Seq<u32>, target: int, depth: int, directed: bool, v: int, e: Seq<usize>)
    requires
        leaf_below(adj, n, col, target, depth, directed, v, e),
    ensures
        branch_min(adj, n, col, target, depth, directed, v) <= lab_code(adj, n, e),
    decreases n + 1 - depth, v + 1,
{
    if leaf_below(adj, n, col, target, depth, directed, v - 1, e) {
        lemma_below_min(adj, n, col, target, depth, directed, v - 1, e);
    } else {
        lemma_leaf_min(adj, n, refine_spec(adj, n, individualise(col, n, target, v - 1), directed), depth + 1, directed, e);
    }
}

/// The labelling `lab` with each vertex renamed along `p`.
pub open spec fn compose(p: Seq<usize>, lab: Seq<usize>) -> Seq<usize> {
    Seq::new(lab.len(), |q: int| p[lab[q] as int])
}

proof fn lemma_discrete_carried(col: Seq<u32>, col2: Seq<u32>, p: Seq<usize>, n: int)
    requires
        1 <= n <= 16,
        is_perm(p, n),
        carried(col, col2, p, n),
    ensures
        discrete(col, n) == discrete(col2, n),
{
    if discrete(col, n) {
        assert forall|x: int, y: int| 0 <= x < n && 0 <= y < n && x != y implies col2[x] != col2[y] by {
            lemma_perm_onto(p, n, x);
            lemma_perm_onto(p, n, y);
            let a = choose|r: int| 0 <= r < n && p[r] == x;
            let b = choose|r: int| 0 <= r < n && p[r] == y;
            assert(col2[p[a] as int] == col[a]);
            assert(col2[p[b] as int] == col[b]);
        }
    }
    if discrete(col2, n) {
        assert forall|x: int, y: int| 0 <= x < n && 0 <= y < n && x != y implies col[x] != col[y] by {
            assert(col2[p[x] as int] == col[x]);
            assert(col2[p[y] as int] == col[y]);
            assert(p[x] != p[y]);
        }
    }
}

proof fn lemma_counts_carried(col: Seq<u32>, col2: Seq<u32>, p: Seq<usize>, n: int)
    requires
        1 <= n <= 16,
        is_perm(p, n),
        carried(col, col2, p, n),
    ensures
        forall|c: int| #[trigger] colour_count(col, c, n) == colour_count(col2, c, n),
{
    assert forall|c: int| #[trigger] colour_count(col, c, n) == colour_count(col2, c, n) by {
        let f = |x: int| col[x] == c;
        let g = |x: int| col2[x] == c;
        lemma_colour_count_where(col, c, n, f);
        lemma_colour_count_where(col2, c, n, g);
        assert forall|x: int| 0 <= x < n implies #[trigger] g(p[x] as int) == f(x) by {
            assert(col2[p[x] as int] == col[x]);
        }
        lemma_count_perm(f, g, p, n);
    }
}

/// The leaf labelling of a relabelled discrete colouring is the renamed leaf labelling.
proof fn lemma_leaf_lab_carried(col: Seq<u32>, col2: Seq<u32>, p: Seq<usize>, n: int)
    requires
        1 <= n <= 16,
        is_perm(p, n),
        carried(col, col2, p, n),
        discrete(col, n),
        max_colour(col, n) == n - 1,
    ensures
        leaf_lab(col2, n) == compose(p, leaf_lab(col, n)),
        is_perm(leaf_lab(col, n), n),
{
    let lab = leaf_lab(col, n);
    let lab2 = leaf_lab(col2, n);
    lemma_leaf_lab(col, n);
    assert forall|x: int| 0 <= x < n implies #[trigger] col[x] < n by {
        lemma_max_colour_ge(col, n, x);
    }
    assert forall|q: int| 0 <= q < n implies #[trigger] lab2[q] == p[lab[q] as int] && lab[q] < n by {
        lemma_distinct_onto(col, n, q);
        let v = lab[q] as int;
        assert(0 <= v < n && col[v] == q);
        assert(col2[p[v] as int] == q);
        let w = lab2[q] as int;
        assert(0 <= w < n && col2[w] == q);
        lemma_perm_onto(p, n, w);
        let x = choose|r: int| 0 <= r < n && p[r] == w;
        assert(col2[p[x] as int] == col[x]);
        if x != v {
            assert(col[x] != col[v]);
        }
    }
    assert(lab2 =~= compose(p, lab));
    assert forall|q: int| 0 <= q < n implies #[trigger] lab[q] < n by {
        lemma_distinct_onto(col, n, q);
    }
    assert forall|a: int, b: int| 0 <= a < n && 0 <= b < n && a != b implies #[trigger] lab[a] != #[trigger] lab[b] by {
        assert(injective_lab(lab, n));
    }
}

/// Renaming both the graph and the labelling keeps the adjacency code.
proof fn lemma_code_carried(adj: Seq<u16>, adj2: Seq<u16>, p: Seq<usize>, n: int, lab: Seq<usize>)
    requires
        relabelled(adj, adj2, p, n),
        is_perm(lab, n),
    ensures
        lab_code(adj2, n, compose(p, lab)) == lab_code(adj, n, lab),
{
    let lab2 = compose(p, lab);
    let c = code_upto(adj, n, lab, 128);
    lemma_code_exists(adj, n, lab);
    lemma_code_unique(adj, n, lab, c);
    assert(code_matches(adj2, n, lab2, c)) by {
        assert forall|x: int, y: int| 0 <= x < y < n implies #[trigger] bit128(c, pair_index(n, x, y)) == adjacent(adj2, lab2[x] as int, lab2[y] as int) by {
            assert(lab2[x] == p[lab[x] as int] && lab2[y] == p[lab[y] as int]);
            assert(bit128(c, pair_index(n, x, y)) == adjacent(adj, lab[x] as int, lab[y] as int));
        }
    }
    lemma_code_unique(adj2, n, lab2, c);
}

/// Every leaf labelling is a permutation.
proof fn lemma_leaf_is_perm(adj: Seq<u16>, n: int, col: Seq<u32>, depth: int, directed: bool, e: Seq<usize>)
    requires
        is_leaf_lab(adj, n, col, depth, directed, e),
        n <= 16,
        col.len() == n,
    ensures
        is_perm(e, n),
    decreases n + 1 - depth, n + 2,
{
    if max_colour(col, n) == n - 1 {
        lemma_leaf_lab(col, n);
        assert forall|x: int| 0 <= x < n implies #[trigger] col[x] < n by {
            lemma_max_colour_ge(col, n, x);
        }
        assert forall|q: int| 0 <= q < n implies #[trigger] e[q] < n by {
            lemma_distinct_onto(col, n, q);
        }
        assert forall|a: int, b: int| 0 <= a < n && 0 <= b < n && a != b implies #[trigger] e[a] != #[trigger] e[b] by {
            assert(injective_lab(e, n));
        }
    } else {
        let t = first_shared(col, n, 0, max_colour(col, n));
        lemma_below_is_perm(adj, n, col, t, depth, directed, n, e);
    }
}

proof fn lemma_below_is_perm(adj: Seq<u16>, n: int, col: Seq<u32>, target: int, depth: int, directed: bool, v: int, e: Seq<usize>)
    requires
        leaf_below(adj, n, col, target, depth, directed, v, e),
        n <= 16,
        col.len() == n,
    ensures
        is_perm(e, n),
    decreases n + 1 - depth, v + 1,
{
    if leaf_below(adj, n, col, target, depth, directed, v - 1, e) {
        lemma_below_is_perm(adj, n, col, target, depth, directed, v - 1, e);
    } else {
        let child = refine_spec(adj, n, individualise(col, n, target, v - 1), directed);
        if n >= 1 {
            lemma_refine_values(adj, n, individualise(col, n, target, v - 1), directed);
        }
        lemma_leaf_is_perm(adj, n, child, depth + 1, directed, e);
    }
}

/// One branch's leaf is a leaf below every longer run of branches.
proof fn lemma_below_from(adj: Seq<u16>, n: int, col: Seq<u32>, target: int, depth: int, directed: bool, v: int, j: int, e: Seq<usize>)
    requires
        0 <= depth <= n,
        0 <= j < v,
        col[j] == target,
        is_leaf_lab(adj, n, refine_spec(adj, n, individualise(col, n, target, j), directed), depth + 1, directed, e),
    ensures
        leaf_below(adj, n, col, target, depth, directed, v, e),
    decreases v,
{
    if j < v - 1 {
        lemma_below_from(adj, n, col, target, depth, directed, v - 1, j, e);
    }
}

/// Leaves follow the relabelling: the renamed labelling of a leaf is a leaf of the renamed search.
proof fn lemma_leaf_carried(adj: Seq<u16>, adj2: Seq<u16>, p: Seq<usize>, n: int, col: Seq<u32>, col2: Seq<u32>, depth: int, directed: bool, e: Seq<usize>)
    requires
        relabelled(adj, adj2, p, n),
        carried(col, col2, p, n),
        is_leaf_lab(adj, n, col, depth, directed, e),
    ensures
        is_leaf_lab(adj2, n, col2, depth, directed, compose(p, e)),
    decreases n + 1 - depth, n + 2,
{
    lemma_max_carried(col, col2, p, n);
    lemma_discrete_carried(col, col2, p, n);
    let maxc = max_colour(col, n);
    if maxc == n - 1 {
        lemma_leaf_lab_carried(col, col2, p, n);
    } else {
        lemma_counts_carried(col, col2, p, n);
        lemma_first_shared_carried(col, col2, n, 0, maxc);
        let t = first_shared(col, n, 0, maxc);
        lemma_below_carried(adj, adj2, p, n, col, col2, t, depth, directed, n, e);
    }
}

proof fn lemma_below_carried(
    adj: Seq<u16>,
    adj2: Seq<u16>,
    p: Seq<usize>,
    n: int,
    col: Seq<u32>,
    col2: Seq<u32>,
    target: int,
    depth: int,
    directed: bool,
    v: int,
    e: Seq<usize>,
)
    requires
        relabelled(adj, adj2, p, n),
        carried(col, col2, p, n),
        v <= n,
        leaf_below(adj, n, col, target, depth, directed, v, e),
    ensures
        leaf_below(adj2, n, col2, target, depth, directed, n, compose(p, e)),
    decreases n + 1 - depth, v + 1,
{
    if leaf_below(adj, n, col, target, depth, directed, v - 1, e) {
        lemma_below_carried(adj, adj2, p, n, col, col2, target, depth, directed, v - 1, e);
    } else {
        let u = v - 1;
        lemma_individualise_carried(col, col2, p, n, target, u);
        lemma_refine_carried(adj, adj2, p, n, individualise(col, n, target, u), individualise(col2, n, target, p[u] as int), directed);
        lemma_leaf_carried(
            adj,
            adj2,
            p,
            n,
            refine_spec(adj, n, individualise(col, n, target, u), directed),
            refine_spec(adj2, n, individualise(col2, n, target, p[u] as int), directed),
            depth + 1,
            directed,
            e,
        );
        assert(col2[p[u] as int] == col[u]);
        lemma_below_from(adj2, n, col2, target, depth, directed, n, p[u] as int, compose(p, e));
    }
}

/// The rows of `adj` name only vertices of `0..n`.
pub open spec fn rows_in(adj: Seq<u16>, n: int) -> bool {
    forall|i: int, j: int| 0 <= i < n && n <= j < 16 ==> !#[trigger] bit16(adj[i], j)
}

/// The inverse of the permutation `a` of `0..n`.
pub open spec fn inverse_of(a: Seq<usize>, n: int) -> Seq<usize> {
    Seq::new(n as nat, |x: int| position_of(a, n, x) as usize)
}

proof fn lemma_cnt16_tail(a: u16, n: int, k: int)
    requires
        0 <= n <= k <= 16,
        forall|j: int| n <= j < 16 ==> !#[trigger] bit16(a, j),
    ensures
        cnt16(a, k) == cnt16(a, n),
    decreases k,
{
    if k > n {
        lemma_cnt16_tail(a, n, k - 1);
    }
}

/// The inverse of an automorphism is an automorphism, renaming the graph onto itself.
proof fn lemma_inverse_automorphism(adj: Seq<u16>, n: int, a: Seq<usize>)
    requires
        1 <= n <= 16,
        adj.len() >= n,
        is_automorphism(adj, n, a),
    ensures
        relabelled(adj, adj, inverse_of(a, n), n),
        forall|y: int| 0 <= y < n ==> #[trigger] a[inverse_of(a, n)[y] as int] == y,
{
    let s = inverse_of(a, n);
    assert forall|y: int| 0 <= y < n implies #[trigger] a[s[y] as int] == y && s[y] < n by {
        lemma_perm_onto(a, n, y);
    }
    assert forall|y: int| 0 <= y < n implies #[trigger] s[y] < n by {
        assert(a[s[y] as int] == y && s[y] < n);
    }
    assert forall|x: int, y: int| 0 <= x < n && 0 <= y < n && x != y implies #[trigger] s[x] != #[trigger] s[y] by {
        assert(a[s[x] as int] == x && a[s[y] as int] == y);
    }
    assert forall|u: int, w: int| 0 <= u < n && 0 <= w < n implies #[trigger] bit16(adj[s[u] as int], s[w] as int) == bit16(adj[u], w) by {
        assert(a[s[u] as int] == u && a[s[w] as int] == w);
        assert(adjacent(adj, a[s[u] as int] as int, a[s[w] as int] as int) == adjacent(adj, s[u] as int, s[w] as int));
    }
}

/// Every automorphism is found: for a graph whose rows stay within `0..n`,
/// each automorphism carries the first least-code labelling onto one of the
/// least-code labellings that the search keeps.
pub proof fn lemma_least_labellings_complete(adj: Seq<u16>, n: int, a: Seq<usize>)
    requires
        1 <= n <= 16,
        adj.len() >= n,
        rows_in(adj, n),
        is_automorphism(adj, n, a),
        least_labellings(adj, n).len() >= 1,
    ensures
        exists|k: int| 0 <= k < least_labellings(adj, n).len() && #[trigger] carry(least_labellings(adj, n)[0], least_labellings(adj, n)[k], n) == a,
{
    let rd = row_degrees(adj, n);
    let col0 = refine_spec(adj, n, rd, false);
    let st: (u128, Seq<Seq<usize>>) = (u128::MAX, Seq::empty());
    let res = search_fold(adj, n, col0, 0, false, st);
    let ll = res.1;
    assert(ll == least_labellings(adj, n));
    lemma_fold_members(adj, n, col0, 0, false, st);
    let l0 = ll[0];
    assert(ll.contains(l0));
    assert(is_leaf_lab(adj, n, col0, 0, false, l0) && lab_code(adj, n, l0) == res.0);
    let s = inverse_of(a, n);
    lemma_inverse_automorphism(adj, n, a);
    assert(carried(rd, rd, s, n)) by {
        assert forall|x: int| 0 <= x < n implies #[trigger] rd[s[x] as int] == rd[x] by {
            let y = s[x] as int;
            lemma_cnt16_tail(adj[y], n, 16);
            lemma_cnt16_tail(adj[x], n, 16);
            lemma_cnt16_count(adj[y], n);
            lemma_cnt16_count(adj[x], n);
            let f = |j: int| bit16(adj[x], j);
            let g = |j: int| bit16(adj[y], j);
            assert forall|w: int| 0 <= w < n implies #[trigger] g(s[w] as int) == f(w) by {}
            lemma_count_perm(f, g, s, n);
        }
    }
    lemma_refine_carried(adj, adj, s, n, rd, rd, false);
    lemma_refine_values(adj, n, rd, false);
    lemma_leaf_is_perm(adj, n, col0, 0, false, l0);
    lemma_leaf_carried(adj, adj, s, n, col0, col0, 0, false, l0);
    let lk = compose(s, l0);
    lemma_leaf_is_perm(adj, n, col0, 0, false, lk);
    lemma_code_carried(adj, adj, s, n, l0);
    assert(ll.contains(lk));
    let k = choose|k: int| 0 <= k < ll.len() && ll[k] == lk;
    assert(carry(l0, lk, n) =~= a) by {
        assert forall|x: int| 0 <= x < n implies #[trigger] carry(l0, lk, n)[x] == a[x] by {
            lemma_perm_onto(lk, n, x);
            let q = position_of(lk, n, x);
            assert(0 <= q < n && lk[q] == x);
            assert(lk[q] == s[l0[q] as int]);
            assert(l0[q] < n);
            assert(a[s[l0[q] as int] as int] == l0[q]);
        }
    }
    assert(carry(ll[0], ll[k], n) == a);
}

} // verus!
