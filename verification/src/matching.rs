//! Perfect matchings of induced subgraphs and factor-critical graphs, with the
//! graph6 reader that feeds them.
use vstd::prelude::*;
use vstd::std_specs::bits::u64_trailing_zeros;
use crate::signature::bit16;
use crate::bits::{bit, drop_bit, lemma_bit16_set, lemma_bit_and, lemma_clear_bit, lemma_drop_bit, lemma_lowest_bit, lemma_no_bits_zero, lemma_small_mask};

verus! {

/// `u` is a neighbour of `v` (bit `u` of row `v`).
pub open spec fn nbr(adj: Seq<u16>, v: int, u: int) -> bool {
    0 <= v < adj.len() && bit(adj[v] as u64, u)
}

/// The vertex set `mask` has a perfect matching in the graph: its lowest member
/// is matched to a neighbour inside the set and the remainder is matched in turn.
pub open spec fn pm_spec(adj: Seq<u16>, mask: u64) -> bool
    decreases mask, 0int,
{
    if mask == 0 {
        true
    } else {
        let v = u64_trailing_zeros(mask) as int;
        proof {
            lemma_lowest_bit(mask);
        }
        pm_from(adj, v, drop_bit(mask, v), 0)
    }
}

/// Some neighbour `u >= k` of `v` in `rest` leaves a perfectly matchable set.
pub open spec fn pm_from(adj: Seq<u16>, v: int, rest: u64, k: int) -> bool
    decreases rest, 64 - k,
{
    if k < 0 || k >= 64 {
        false
    } else {
        let here = if bit(rest, k) && nbr(adj, v, k) {
            proof {
                lemma_clear_bit(rest, k as u64);
            }
            pm_spec(adj, drop_bit(rest, k))
        } else {
            false
        };
        here || pm_from(adj, v, rest, k + 1)
    }
}

/// Every member of `mask` is a vertex of the graph.
pub open spec fn in_graph(adj: Seq<u16>, mask: u64) -> bool {
    forall|j: int| 0 <= j < 64 && #[trigger] bit(mask, j) ==> j < adj.len()
}

/// Each memo slot is unknown (negative) or holds the answer for its set.
pub open spec fn memo_ok(adj: Seq<u16>, memo: Seq<i8>) -> bool {
    &&& memo.len() == 65536
    &&& forall|s: int|
        0 <= s < 65536 && #[trigger] memo[s] >= 0 ==> (memo[s] != 0) == pm_spec(adj, s as u64)
}

proof fn lemma_pm_skip(adj: Seq<u16>, v: int, rest: u64, q: int, j: int)
    requires
        0 <= q <= j <= 64,
        forall|t: int| q <= t < j ==> !(#[trigger] bit(rest, t) && nbr(adj, v, t)),
    ensures
        pm_from(adj, v, rest, q) == pm_from(adj, v, rest, j),
    decreases j - q,
{
    if q < j {
        lemma_pm_skip(adj, v, rest, q + 1, j);
        assert(!(bit(rest, q) && nbr(adj, v, q)));
    }
}

fn pm_rec(adj: &[u16], mask: u16, memo: &mut Vec<i8>) -> (r: bool)
    requires
        memo_ok(adj@, old(memo)@),
        in_graph(adj@, mask as u64),
    ensures
        memo_ok(adj@, final(memo)@),
        r == pm_spec(adj@, mask as u64),
    decreases mask,
{
    if mask == 0 {
        return true;
    }
    let c = memo[mask as usize];
    if c >= 0 {
        return c != 0;
    }
    let m64 = mask as u64;
    proof {
        lemma_lowest_bit(m64);
        lemma_small_mask(m64);
    }
    let v = m64.trailing_zeros() as usize;
    let rest = m64 & !(1u64 << (v as u64));
    proof {
        assert(rest == drop_bit(m64, v as int));
        lemma_drop_bit(m64, v as int);
        assert(pm_spec(adj@, m64) == pm_from(adj@, v as int, rest, 0));
    }
    let av = adj[v] as u64;
    let mut cand = av & rest;
    proof {
        assert forall|t: int| 0 <= t < 64 implies #[trigger] bit(cand, t) == (bit(rest, t) && nbr(adj@, v as int, t)) by {
            lemma_bit_and(av, rest, t as u64);
        }
    }
    let mut ok = false;
    let ghost mut q: int = 0;
    while !ok && cand != 0
        invariant
            memo_ok(adj@, memo@),
            in_graph(adj@, m64),
            rest < m64 <= 0xffff,
            mask as u64 == m64,
            v < adj@.len(),
            forall|t: int| 0 <= t < 64 ==> #[trigger] bit(rest, t) == (bit(m64, t) && t != v),
            0 <= q <= 64,
            forall|t: int| 0 <= t < 64 ==> #[trigger] bit(cand, t) == (bit(rest, t) && nbr(adj@, v as int, t) && t >= q),
            ok ==> pm_from(adj@, v as int, rest, 0),
            !ok ==> pm_from(adj@, v as int, rest, 0) == pm_from(adj@, v as int, rest, q),
        decreases 64 - q,
    {
        proof {
            lemma_lowest_bit(cand);
        }
        let u = cand.trailing_zeros() as u64;
        proof {
            assert(bit(cand, u as int));
            assert forall|t: int| q <= t < u implies !(#[trigger] bit(rest, t) && nbr(adj@, v as int, t)) by {
                assert(!bit(cand, t));
            }
            lemma_pm_skip(adj@, v as int, rest, q, u as int);
        }
        let ghost c0 = cand;
        cand &= cand - 1;
        proof {
            lemma_drop_bit(c0, u as int);
            assert forall|t: int| 0 <= t < 64 implies #[trigger] bit(cand, t) == (bit(rest, t) && nbr(adj@, v as int, t) && t >= u + 1) by {
                assert(bit(cand, t) == bit(drop_bit(c0, u as int), t));
            }
            lemma_clear_bit(rest, u);
            lemma_drop_bit(rest, u as int);
            assert(drop_bit(rest, u as int) <= 0xffff);
            assert forall|j: int| 0 <= j < 64 && #[trigger] bit(drop_bit(rest, u as int), j) implies j < adj@.len() by {
                assert(bit(m64, j));
            }
        }
        let sub = (rest & !(1u64 << u)) as u16;
        if pm_rec(adj, sub, memo) {
            ok = true;
        }
        proof {
            q = u + 1;
        }
    }
    proof {
        if !ok {
            assert forall|t: int| q <= t < 64 implies !(#[trigger] bit(rest, t) && nbr(adj@, v as int, t)) by {
                lemma_no_bits_zero(cand);
                assert(!bit(cand, t));
            }
            lemma_pm_skip(adj@, v as int, rest, q, 64);
        }
    }
    memo.set(mask as usize, if ok { 1i8 } else { 0i8 });
    ok
}

/// Does the subgraph induced on the vertex set `mask` have a perfect matching?
/// Memoised over all `2^16` vertex subsets.
pub fn has_pm(adj: &[u16], mask: u16) -> (r: bool)
    requires
        in_graph(adj@, mask as u64),
    ensures
        r == pm_spec(adj@, mask as u64),
{
    let mut memo = vec![-1i8; 65536];
    proof {
        assert forall|s: int| 0 <= s < 65536 && #[trigger] memo@[s] >= 0 implies (memo@[s] != 0) == pm_spec(adj@, s as u64) by {
            assert(memo@[s] == -1i8);
        }
    }
    pm_rec(adj, mask, &mut memo)
}

/// The vertex set `{0, .., n-1}` without `v`, as the 16-bit mask the test builds.
pub open spec fn deleted_mask(n: int, v: int) -> u16 {
    (((1u32 << (n as u32)) - 1) as u16) & !(1u16 << (v as u16))
}

/// `G - v` has a perfect matching for every vertex `v`.
pub open spec fn factor_critical_spec(adj: Seq<u16>, n: int) -> bool {
    forall|v: int| 0 <= v < n ==> #[trigger] pm_spec(adj, deleted_mask(n, v) as u64)
}

pub proof fn lemma_deleted_mask(n: usize, v: usize)
    requires
        n <= 16,
        v < n,
    ensures
        (1u32 << (n as u32)) >= 1,
        forall|j: int| 0 <= j < 64 && #[trigger] bit(deleted_mask(n as int, v as int) as u64, j) ==> j < n,
{
    let nn = n as u32;
    let vv = v as u16;
    assert((1u32 << nn) >= 1) by (bit_vector)
        requires
            nn <= 16,
    ;
    assert forall|j: int| 0 <= j < 64 && #[trigger] bit(deleted_mask(n as int, v as int) as u64, j) implies j < n by {
        let jj = j as u64;
        assert(nn <= 16 && vv < 16 && jj < 64 && ((((((1u32 << nn) - 1) as u16) & !(1u16 << vv)) as u64 >> jj)
            & 1u64 == 1u64) ==> jj < nn) by (bit_vector);
    }
}

/// Is the graph on `n` vertices factor-critical: does `G - v` have a perfect
/// matching for every vertex `v`?
pub fn factor_critical(adj: &[u16], n: usize) -> (r: bool)
    requires
        n <= 16,
        adj@.len() >= n,
    ensures
        r == factor_critical_spec(adj@, n as int),
{
    proof {
        if n > 0 {
            lemma_deleted_mask(n, 0);
        } else {
            assert((1u32 << 0u32) == 1) by (bit_vector);
        }
    }
    let full: u16 = ((1u32 << n) - 1) as u16;
    let mut v = 0usize;
    while v < n
        invariant
            n <= 16,
            adj@.len() >= n,
            v <= n,
            full == ((1u32 << (n as u32)) - 1) as u16,
            forall|w: int| 0 <= w < v ==> #[trigger] pm_spec(adj@, deleted_mask(n as int, w) as u64),
        decreases n - v,
    {
        let mask = full & !(1u16 << v);
        proof {
            lemma_deleted_mask(n, v);
            assert(mask == deleted_mask(n as int, v as int));
        }
        if !has_pm(adj, mask) {
            return false;
        }
        v += 1;
    }
    true
}

/// Bit `p` of the graph6 data: bit `5 - p % 6` of byte `1 + p / 6`, less 63.
pub open spec fn g6_bit(line: Seq<u8>, p: int) -> bool {
    ((line[1 + p / 6] - 63) as u8 & (1u8 << ((5 - p % 6) as u8))) != 0u8
}

/// Position of the pair `i < j` in graph6's column-wise upper triangle.
pub open spec fn g6_pos(i: int, j: int) -> int {
    j * (j - 1) / 2 + i
}

/// `i` and `j` are adjacent in the graph6 line of an `n`-vertex graph.
pub open spec fn g6_edge(line: Seq<u8>, n: int, i: int, j: int) -> bool {
    &&& 0 <= i < n
    &&& 0 <= j < n
    &&& i != j
    &&& if i < j {
        g6_bit(line, g6_pos(i, j))
    } else {
        g6_bit(line, g6_pos(j, i))
    }
}

/// The line holds the data bytes of an `n`-vertex graph, each at least 63.
pub open spec fn g6_readable(line: Seq<u8>, n: int) -> bool {
    &&& line.len() >= 1 + (n * (n - 1) / 2 + 5) / 6
    &&& forall|t: int| 1 <= t < 1 + (n * (n - 1) / 2 + 5) / 6 ==> #[trigger] line[t] >= 63
}

proof fn lemma_pos_step(j: int)
    requires
        j >= 1,
    ensures
        g6_pos(0, j + 1) == g6_pos(0, j) + j,
        g6_pos(0, j) >= 0,
{
    assert((j + 1) * j / 2 == j * (j - 1) / 2 + j) by (nonlinear_arith)
        requires
            j >= 1,
    {
        assert((j + 1) * j == j * (j - 1) + 2 * j);
    }
    assert(j * (j - 1) >= 0) by (nonlinear_arith)
        requires
            j >= 1,
    ;
}

proof fn lemma_pos_bound(i: int, j: int, n: int)
    requires
        0 <= i < j < n <= 16,
    ensures
        0 <= g6_pos(i, j) < n * (n - 1) / 2 <= 120,
{
    assert(n * (n - 1) <= 240) by (nonlinear_arith)
        requires
            1 <= n <= 16,
    ;
    assert(j * (j - 1) >= 0 && j * (j - 1) / 2 + j <= n * (n - 1) / 2) by (nonlinear_arith)
        requires
            1 <= j < n,
    {
        assert((j + 1) * j <= n * (n - 1));
        assert((j + 1) * j == j * (j - 1) + 2 * j);
    }
}

/// Reads one graph6 line of an `n`-vertex graph (`n < 63`, so no size
/// escape) into neighbour rows: `adj[i]` has bit `j` set iff `i` and `j` are
/// adjacent. Every row past `n` is cleared too.
pub fn decode_g6(line: &[u8], n: usize, adj: &mut [u16])
    requires
        n <= 16,
        old(adj)@.len() >= n,
        g6_readable(line@, n as int),
    ensures
        final(adj)@.len() == old(adj)@.len(),
        forall|i: int, j: int|
            0 <= i < final(adj)@.len() && 0 <= j < 16 ==> #[trigger] bit16(final(adj)@[i], j) == g6_edge(line@, n as int, i, j),
{
    let len = adj.len();
    let mut a = 0usize;
    while a < len
        invariant
            adj@.len() == len,
            a <= len,
            forall|i: int| 0 <= i < a ==> #[trigger] adj@[i] == 0u16,
        decreases len - a,
    {
        adj[a] = 0;
        a += 1;
    }
    let mut bitpos = 0usize;
    let mut j = 1usize;
    proof {
        assert forall|i: int, t: int| 0 <= i < len && 0 <= t < 16 implies !#[trigger] bit16(adj@[i], t) by {
            lemma_bit16_set(0u16, 0, t as u16);
        }
    }
    while j < n
        invariant
            n <= 16,
            adj@.len() == len,
            len >= n,
            g6_readable(line@, n as int),
            1 <= j,
            j < n ==> bitpos == g6_pos(0, j as int),
            forall|x: int, y: int|
                0 <= x < len && 0 <= y < 16 ==> #[trigger] bit16(adj@[x], y) == (g6_edge(line@, n as int, x, y)
                    && x < j && y < j),
        decreases n - j,
    {
        let mut i = 0usize;
        while i < j
            invariant
                n <= 16,
                adj@.len() == len,
                len >= n,
                g6_readable(line@, n as int),
                1 <= j < n,
                i <= j,
                bitpos == g6_pos(i as int, j as int),
                forall|x: int, y: int|
                    0 <= x < len && 0 <= y < 16 ==> #[trigger] bit16(adj@[x], y) == (g6_edge(line@, n as int, x, y)
                        && ((x < j && y < j) || (x == j && y < i) || (y == j && x < i))),
            decreases j - i,
        {
            proof {
                lemma_pos_bound(i as int, j as int, n as int);
                assert(bitpos / 6 < (n * (n - 1) / 2 + 5) / 6);
            }
            let byte = line[1 + bitpos / 6];
            let bt = 5 - (bitpos % 6);
            let ghost adj0 = adj@;
            if (byte - 63) & (1u8 << bt) != 0 {
                let ri = adj[i] | (1u16 << j);
                adj[i] = ri;
                let rj = adj[j] | (1u16 << i);
                adj[j] = rj;
                proof {
                    assert(g6_bit(line@, bitpos as int));
                    assert forall|x: int, y: int| 0 <= x < len && 0 <= y < 16 implies #[trigger] bit16(adj@[x], y)
                        == (g6_edge(line@, n as int, x, y) && ((x < j && y < j) || (x == j && y < i + 1) || (y == j && x < i + 1))) by {
                        if x == i as int {
                            lemma_bit16_set(adj0[x], j as u16, y as u16);
                        } else if x == j as int {
                            lemma_bit16_set(adj0[x], i as u16, y as u16);
                        } else {
                            assert(adj@[x] == adj0[x]);
                        }
                    }
                }
            } else {
                proof {
                    assert(!g6_bit(line@, bitpos as int));
                    assert forall|x: int, y: int| 0 <= x < len && 0 <= y < 16 implies #[trigger] bit16(adj@[x], y)
                        == (g6_edge(line@, n as int, x, y) && ((x < j && y < j) || (x == j && y < i + 1) || (y == j && x < i + 1))) by {
                        assert(adj@[x] == adj0[x]);
                    }
                }
            }
            bitpos += 1;
            i += 1;
        }
        proof {
            lemma_pos_step(j as int);
        }
        j += 1;
    }
}

} // verus!
