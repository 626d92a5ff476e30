//! Oriented games as arc bitmasks: row `arc[i]` has bit `j` set iff move `i`
//! beats move `j`; a pair with neither bit set is a tie.
use vstd::prelude::*;
use crate::bits::{bit, within, drop_bit, lemma_drop_bit, lemma_bit_or, lemma_bit_and, lemma_bit_not, lemma_bit_single, lemma_bit_zero, lemma_bit_max, lemma_low_mask, lemma_bits_ext, lemma_no_bits_zero, lemma_or_grows};

verus! {

/// Largest number of moves an arc table holds.
pub const MAXN: usize = 16;

/// Arc rows of a game on at most sixteen moves.
pub type Arc = [u64; 16];

/// Move `i` beats move `j`.
pub open spec fn beats(arc: Arc, i: int, j: int) -> bool {
    bit(arc[i], j)
}

/// The pair `{i, j}` is decided (one of the two beats the other).
pub open spec fn decisive(arc: Arc, i: int, j: int) -> bool {
    beats(arc, i, j) || beats(arc, j, i)
}

/// A game on `n` moves: the rows of the `n` moves only name moves below `n`.
pub open spec fn wf(arc: Arc, n: int) -> bool {
    &&& 0 <= n <= 16
    &&& forall|i: int| 0 <= i < n ==> within(#[trigger] arc[i], n)
}

/// The mask of the first `n` moves, as a spec value.
pub open spec fn first_n(n: int) -> u64 {
    if n >= 64 {
        0xffff_ffff_ffff_ffffu64
    } else {
        ((1u64 << (n as u64)) - 1) as u64
    }
}

/// The payoff of `x` against `s`: `1` for a win, `-1` for a loss, `0` for a tie.
pub open spec fn rel_spec(arc: Arc, x: int, s: int) -> i32 {
    if beats(arc, x, s) {
        1
    } else if beats(arc, s, x) {
        -1i32
    } else {
        0
    }
}

/// Move `i` beats some move below `n`.
pub open spec fn has_win(arc: Arc, n: int, i: int) -> bool {
    exists|j: int| 0 <= j < n && #[trigger] beats(arc, i, j)
}

/// Some move below `n` beats move `j`.
pub open spec fn has_loss(arc: Arc, n: int, j: int) -> bool {
    exists|i: int| 0 <= i < n && #[trigger] beats(arc, i, j)
}

/// Every move wins at least once and loses at least once.
pub open spec fn is_paradoxical(arc: Arc, n: int) -> bool {
    &&& forall|i: int| 0 <= i < n ==> #[trigger] has_win(arc, n, i)
    &&& forall|j: int| 0 <= j < n ==> #[trigger] has_loss(arc, n, j)
}

/// The set `s` of moves is closed under decisive pairs.
pub open spec fn closed_set(arc: Arc, n: int, s: u64) -> bool {
    forall|i: int, j: int|
        0 <= i < n && 0 <= j < n && #[trigger] bit(s, i) && #[trigger] decisive(arc, i, j) ==> bit(
            s,
            j,
        )
}

/// The decisive pairs connect all `n >= 1` moves: every set that holds move 0
/// and is closed under decisive pairs holds every move.
pub open spec fn is_connected(arc: Arc, n: int) -> bool {
    &&& n >= 1
    &&& forall|s: u64|
        within(s, n) && bit(s, 0) && #[trigger] closed_set(arc, n, s) ==> forall|j: int|
            0 <= j < n ==> #[trigger] bit(s, j)
}

/// Moves `i` and `j` beat exactly the same moves and lose to exactly the same moves.
pub open spec fn twins(arc: Arc, n: int, i: int, j: int) -> bool {
    forall|x: int| 0 <= x < n ==> (beats(arc, i, x) == beats(arc, j, x)) && (beats(arc, x, i) == beats(arc, x, j))
}

/// No two distinct moves are twins.
pub open spec fn is_twin_free(arc: Arc, n: int) -> bool {
    forall|i: int, j: int| 0 <= i < j < n ==> !#[trigger] twins(arc, n, i, j)
}

/// `s` is a module: every move outside `s` relates identically to all of `s`.
pub open spec fn is_module(arc: Arc, n: int, s: u64) -> bool {
    forall|x: int, a: int, b: int|
        0 <= x < n && 0 <= a < n && 0 <= b < n && !bit(s, x) && #[trigger] bit(s, a) && #[trigger] bit(
            s,
            b,
        ) ==> #[trigger] rel_spec(arc, x, a) == rel_spec(arc, x, b)
}

/// `s` holds at least two moves and misses at least one.
pub open spec fn nontrivial_proper(n: int, s: u64) -> bool {
    &&& within(s, n)
    &&& exists|a: int, b: int| 0 <= a < b < n && #[trigger] bit(s, a) && #[trigger] bit(s, b)
    &&& exists|c: int| 0 <= c < n && !#[trigger] bit(s, c)
}

/// Modular-prime: at least three moves and no nontrivial proper module.
pub open spec fn is_prime_game(arc: Arc, n: int) -> bool {
    &&& n >= 3
    &&& forall|s: u64| nontrivial_proper(n, s) ==> !#[trigger] is_module(arc, n, s)
}

pub proof fn lemma_first_n_bits(n: int)
    requires
        0 <= n,
    ensures
        forall|j: int| 0 <= j < 64 ==> #[trigger] bit(first_n(n), j) == (j < n),
{
    assert forall|j: int| 0 <= j < 64 implies #[trigger] bit(first_n(n), j) == (j < n) by {
        if n >= 64 {
            lemma_bit_max(j as u64);
        } else {
            lemma_low_mask(n as u64, j as u64);
        }
    }
}

/// A mask within `n` equals the first-`n` mask exactly when it holds every move below `n`.
proof fn lemma_full_iff(s: u64, n: int)
    requires
        0 <= n <= 64,
        within(s, n),
    ensures
        (s == first_n(n)) <==> (forall|j: int| 0 <= j < n ==> bit(s, j)),
{
    lemma_first_n_bits(n);
    lemma_bits_ext(s, first_n(n));
}

/// The mask of the first `n` moves (all bits when `n >= 64`).
pub fn full_mask(n: usize) -> (r: u64)
    ensures
        r == first_n(n as int),
        forall|j: int| 0 <= j < 64 ==> #[trigger] bit(r, j) == (j < n),
{
    proof {
        lemma_first_n_bits(n as int);
    }
    if n >= 64 {
        u64::MAX
    } else {
        proof {
            lemma_low_mask(n as u64, 0);
        }
        (1u64 << n) - 1
    }
}

/// The payoff of move `x` against move `s`.
pub fn rel(arc: &Arc, x: usize, s: usize) -> (r: i32)
    requires
        x < 16,
        s < 16,
    ensures
        r == rel_spec(*arc, x as int, s as int),
{
    if (arc[x] >> s) & 1 == 1 {
        1
    } else if (arc[s] >> x) & 1 == 1 {
        -1i32
    } else {
        0
    }
}

/// Every move of the game wins once and loses once.
pub fn paradoxical(arc: &Arc, n: usize) -> (r: bool)
    requires
        wf(*arc, n as int),
    ensures
        r == is_paradoxical(*arc, n as int),
{
    let mut beaten = 0u64;
    let mut i = 0usize;
    proof {
        lemma_no_bits_zero(0u64);
    }
    while i < n
        invariant
            wf(*arc, n as int),
            i <= n,
            within(beaten, n as int),
            forall|j: int|
                0 <= j < 64 ==> (#[trigger] bit(beaten, j) <==> exists|k: int|
                    0 <= k < i && #[trigger] bit(arc[k], j)),
            forall|k: int| 0 <= k < i ==> #[trigger] has_win(*arc, n as int, k),
        decreases n - i,
    {
        proof {
            lemma_no_bits_zero(arc[i as int]);
        }
        if arc[i] == 0 {
            proof {
                assert(!has_win(*arc, n as int, i as int));
            }
            return false;
        }
        proof {
            let j = choose|j: int| 0 <= j < 64 && bit(arc[i as int], j);
            assert(beats(*arc, i as int, j));
            assert forall|jj: int| 0 <= jj < 64 implies #[trigger] bit(beaten | arc[i as int], jj) <==> exists|k: int|
                0 <= k < i + 1 && #[trigger] bit(arc[k], jj) by {
                lemma_bit_or(beaten, arc[i as int], jj as u64);
                if bit(arc[i as int], jj) {
                    assert(bit(arc[i as int], jj));
                }
            }
            assert forall|jj: int| 0 <= jj < 64 && #[trigger] bit(beaten | arc[i as int], jj) implies jj < n by {
                lemma_bit_or(beaten, arc[i as int], jj as u64);
            }
        }
        beaten |= arc[i];
        i += 1;
    }
    proof {
        lemma_full_iff(beaten, n as int);
        if forall|j: int| 0 <= j < n ==> bit(beaten, j) {
            assert forall|j: int| 0 <= j < n implies #[trigger] has_loss(*arc, n as int, j) by {
                assert(bit(beaten, j));
                let k = choose|k: int| 0 <= k < n && #[trigger] bit(arc[k], j);
                assert(beats(*arc, k, j));
            }
        }
        if is_paradoxical(*arc, n as int) {
            assert forall|j: int| 0 <= j < n implies bit(beaten, j) by {
                assert(has_loss(*arc, n as int, j));
                let k = choose|k: int| 0 <= k < n && #[trigger] beats(*arc, k, j);
                assert(bit(arc[k], j));
            }
        }
    }
    beaten == full_mask(n)
}


/// Every move other than move 0 wins once and loses once (move 0 stands for a
/// whole module, which may hold its wins and losses inside).
pub open spec fn is_paradoxical_skip0(arc: Arc, n: int) -> bool {
    &&& n >= 1
    &&& forall|i: int| 1 <= i < n ==> #[trigger] has_win(arc, n, i)
    &&& forall|j: int| 1 <= j < n ==> #[trigger] has_loss(arc, n, j)
}

/// The paradox test of a quotient game whose move 0 is a module.
pub fn paradox_skip0(arc: &Arc, n: usize) -> (r: bool)
    requires
        wf(*arc, n as int),
    ensures
        r == is_paradoxical_skip0(*arc, n as int),
{
    let mut beaten = 0u64;
    let mut i = 0usize;
    proof {
        lemma_no_bits_zero(0u64);
    }
    while i < n
        invariant
            wf(*arc, n as int),
            i <= n,
            within(beaten, n as int),
            forall|j: int|
                0 <= j < 64 ==> (#[trigger] bit(beaten, j) <==> exists|k: int|
                    0 <= k < i && #[trigger] bit(arc[k], j)),
            forall|k: int| 1 <= k < i ==> #[trigger] has_win(*arc, n as int, k),
        decreases n - i,
    {
        proof {
            lemma_no_bits_zero(arc[i as int]);
        }
        if i > 0 && arc[i] == 0 {
            proof {
                assert(!has_win(*arc, n as int, i as int));
            }
            return false;
        }
        proof {
            if i > 0 {
                let j = choose|j: int| 0 <= j < 64 && bit(arc[i as int], j);
                assert(beats(*arc, i as int, j));
            }
            assert forall|jj: int| 0 <= jj < 64 implies #[trigger] bit(beaten | arc[i as int], jj) <==> exists|k: int|
                0 <= k < i + 1 && #[trigger] bit(arc[k], jj) by {
                lemma_bit_or(beaten, arc[i as int], jj as u64);
                if bit(arc[i as int], jj) {
                    assert(bit(arc[i as int], jj));
                }
            }
            assert forall|jj: int| 0 <= jj < 64 && #[trigger] bit(beaten | arc[i as int], jj) implies jj < n by {
                lemma_bit_or(beaten, arc[i as int], jj as u64);
            }
        }
        beaten |= arc[i];
        i += 1;
    }
    let b1 = beaten | (1u64 << 0u64);
    proof {
        assert forall|jj: int| 0 <= jj < 64 implies #[trigger] bit(b1, jj) == (bit(beaten, jj) || jj == 0) by {
            lemma_bit_or(beaten, 1u64 << 0u64, jj as u64);
            lemma_bit_single(0u64, jj as u64);
        }
        lemma_first_n_bits(n as int);
        if n >= 1 {
            assert forall|jj: int| 0 <= jj < 64 && #[trigger] bit(b1, jj) implies jj < n by {
            }
            lemma_full_iff(b1, n as int);
            if forall|j: int| 1 <= j < n ==> bit(beaten, j) {
                assert forall|j: int| 1 <= j < n implies #[trigger] has_loss(*arc, n as int, j) by {
                    assert(bit(beaten, j));
                    let k = choose|k: int| 0 <= k < n && #[trigger] bit(arc[k], j);
                    assert(beats(*arc, k, j));
                }
                assert forall|j: int| 0 <= j < n implies bit(b1, j) by {
                    if j >= 1 {
                        assert(bit(beaten, j));
                    }
                }
            }
            if is_paradoxical_skip0(*arc, n as int) {
                assert forall|j: int| 0 <= j < n implies bit(b1, j) by {
                    if j >= 1 {
                        assert(has_loss(*arc, n as int, j));
                        let k = choose|k: int| 0 <= k < n && #[trigger] beats(*arc, k, j);
                        assert(bit(arc[k], j));
                    }
                }
            }
            if b1 == first_n(n as int) {
                assert forall|j: int| 1 <= j < n implies #[trigger] has_loss(*arc, n as int, j) by {
                    assert(bit(b1, j));
                    assert(bit(beaten, j));
                    let k = choose|k: int| 0 <= k < n && #[trigger] bit(arc[k], j);
                    assert(beats(*arc, k, j));
                }
            }
        } else {
            assert(bit(b1, 0));
            assert(!bit(first_n(0), 0));
        }
    }
    b1 == full_mask(n)
}

/// Builds the undirected decisive-pair rows: `adj[i]` holds every move decided against `i`.
fn decisive_rows(arc: &Arc, n: usize) -> (adj: [u64; 16])
    requires
        wf(*arc, n as int),
    ensures
        forall|i: int| 0 <= i < n ==> within(#[trigger] adj[i], n as int),
        forall|i: int, j: int|
            0 <= i < n && 0 <= j < n ==> (#[trigger] bit(adj[i], j) == decisive(*arc, i, j)),
{
    let mut adj = [0u64; 16];
    let mut i = 0usize;
    while i < n
        invariant
            wf(*arc, n as int),
            i <= n,
            forall|k: int| 0 <= k < i ==> adj[k] == arc[k],
            forall|k: int| i <= k < 16 ==> adj[k] == 0,
        decreases n - i,
    {
        adj[i] = arc[i];
        i += 1;
    }
    proof {
        lemma_no_bits_zero(0u64);
    }
    let mut i = 0usize;
    while i < n
        invariant
            wf(*arc, n as int),
            i <= n <= 16,
            forall|k: int| 0 <= k < n ==> within(#[trigger] adj[k], n as int),
            forall|k: int, j: int|
                0 <= k < n && 0 <= j < n ==> (#[trigger] bit(adj[k], j) == (beats(*arc, k, j) || (
                beats(*arc, j, k) && j < i))),
        decreases n - i,
    {
        let mut j = 0usize;
        while j < n
            invariant
                wf(*arc, n as int),
                i < n <= 16,
                j <= n,
                forall|k: int| 0 <= k < n ==> within(#[trigger] adj[k], n as int),
                forall|k: int, jj: int|
                    0 <= k < n && 0 <= jj < n ==> (#[trigger] bit(adj[k], jj) == (beats(*arc, k, jj)
                        || (beats(*arc, jj, k) && (jj < i || (jj == i && k < j))))),
            decreases n - j,
        {
            if (arc[i] >> j) & 1 == 1 {
                let old_row = adj[j];
                proof {
                    assert forall|jj: int| 0 <= jj < 64 implies #[trigger] bit(old_row | (1u64 << i as u64), jj)
                        == (bit(old_row, jj) || jj == i) by {
                        lemma_bit_or(old_row, 1u64 << i as u64, jj as u64);
                        lemma_bit_single(i as u64, jj as u64);
                    }
                }
                adj[j] = old_row | (1u64 << (i as u64));
                proof {
                    assert(beats(*arc, i as int, j as int));
                    assert(within(adj[j as int], n as int));
                }
            }
            proof {
                assert forall|k: int, jj: int|
                    0 <= k < n && 0 <= jj < n implies (#[trigger] bit(adj[k], jj) == (beats(*arc, k, jj)
                        || (beats(*arc, jj, k) && (jj < i || (jj == i && k < j + 1))))) by {
                    if k == j && jj == i {
                    }
                }
            }
            j += 1;
        }
        i += 1;
    }
    adj
}

/// The decisive pairs connect all `n` moves (a breadth-first search from move 0).
pub fn connected(arc: &Arc, n: usize) -> (r: bool)
    requires
        wf(*arc, n as int),
    ensures
        r == is_connected(*arc, n as int),
{
    let adj = decisive_rows(arc, n);
    let mut visited = 1u64;
    let mut frontier = 1u64;
    proof {
        assert forall|j: int| 0 <= j < 64 implies #[trigger] bit(1u64, j) == (j == 0) by {
            lemma_bit_single(0, j as u64);
            assert(1u64 << 0u64 == 1u64) by (bit_vector);
        }
    }
    if n == 0 {
        return false;
    }
    while frontier != 0
        invariant
            1 <= n <= 16,
            wf(*arc, n as int),
            forall|i: int| 0 <= i < n ==> within(#[trigger] adj[i], n as int),
            forall|i: int, j: int|
                0 <= i < n && 0 <= j < n ==> (#[trigger] bit(adj[i], j) == decisive(*arc, i, j)),
            within(visited, n as int),
            within(frontier, n as int),
            bit(visited, 0),
            forall|j: int| 0 <= j < 64 && #[trigger] bit(frontier, j) ==> bit(visited, j),
            forall|s: u64|
                within(s, n as int) && bit(s, 0) && #[trigger] closed_set(*arc, n as int, s) ==> forall|j: int|
                    0 <= j < 64 && bit(visited, j) ==> #[trigger] bit(s, j),
            forall|i: int, j: int|
                0 <= i < n && 0 <= j < n && #[trigger] bit(visited, i) && !bit(frontier, i)
                    && #[trigger] decisive(*arc, i, j) ==> bit(visited, j),
        decreases 2 * (0xffff_ffff_ffff_ffffu64 - visited) + (if frontier != 0 { 1int } else { 0int }),
    {
        let mut next = 0u64;
        let mut v = 0usize;
        proof {
            lemma_no_bits_zero(0u64);
        }
        while v < n
            invariant
                1 <= n <= 16,
                v <= n,
                forall|i: int| 0 <= i < n ==> within(#[trigger] adj[i], n as int),
                within(next, n as int),
                forall|j: int|
                    0 <= j < 64 ==> (#[trigger] bit(next, j) <==> exists|u: int|
                        0 <= u < v && bit(frontier, u) && #[trigger] bit(adj[u], j)),
            decreases n - v,
        {
            if (frontier >> v) & 1 == 1 {
                let nx = next | adj[v];
                proof {
                    assert forall|j: int| 0 <= j < 64 implies (#[trigger] bit(nx, j) <==> exists|u: int|
                        0 <= u < v + 1 && bit(frontier, u) && #[trigger] bit(adj[u], j)) by {
                        lemma_bit_or(next, adj[v as int], j as u64);
                        if bit(adj[v as int], j) {
                            assert(bit(frontier, v as int) && bit(adj[v as int], j));
                        }
                    }
                    assert forall|j: int| 0 <= j < 64 && #[trigger] bit(nx, j) implies j < n by {
                        lemma_bit_or(next, adj[v as int], j as u64);
                    }
                }
                next = nx;
            }
            v += 1;
        }
        let fresh = next & !visited;
        let nv = visited | fresh;
        proof {
            assert forall|j: int| 0 <= j < 64 implies #[trigger] bit(fresh, j) == (bit(next, j) && !bit(visited, j)) by {
                lemma_bit_and(next, !visited, j as u64);
                lemma_bit_not(visited, j as u64);
            }
            assert forall|j: int| 0 <= j < 64 implies #[trigger] bit(nv, j) == (bit(visited, j) || bit(fresh, j)) by {
                lemma_bit_or(visited, fresh, j as u64);
            }
            assert(visited & fresh == 0) by (bit_vector)
                requires fresh == next & !visited;
            if fresh != 0 {
                lemma_or_grows(visited, fresh);
            } else {
                assert(visited | 0 == visited) by (bit_vector);
            }
            // every closed set holding move 0 holds the newly reached moves
            assert forall|s: u64|
                within(s, n as int) && bit(s, 0) && #[trigger] closed_set(*arc, n as int, s) implies forall|j: int|
                    0 <= j < 64 && bit(nv, j) ==> #[trigger] bit(s, j) by {
                assert forall|j: int| 0 <= j < 64 && bit(nv, j) implies #[trigger] bit(s, j) by {
                    if bit(fresh, j) {
                        let u = choose|u: int| 0 <= u < n && bit(frontier, u) && #[trigger] bit(adj[u], j);
                        assert(bit(visited, u));
                        assert(bit(s, u));
                        assert(j < n);
                        assert(decisive(*arc, u, j));
                    }
                }
            }
            assert forall|i: int, j: int|
                0 <= i < n && 0 <= j < n && #[trigger] bit(nv, i) && !bit(fresh, i)
                    && #[trigger] decisive(*arc, i, j) implies bit(nv, j) by {
                if bit(frontier, i) {
                    assert(bit(adj[i], j));
                    assert(bit(next, j));
                } else {
                    assert(bit(visited, i));
                }
            }
            assert forall|j: int| 0 <= j < 64 && #[trigger] bit(nv, j) implies j < n by {}
            assert forall|j: int| 0 <= j < 64 && #[trigger] bit(fresh, j) implies j < n by {}
        }
        visited = nv;
        frontier = fresh;
    }
    proof {
        lemma_full_iff(visited, n as int);
        lemma_no_bits_zero(frontier);
        assert(closed_set(*arc, n as int, visited));
        if forall|j: int| 0 <= j < n ==> bit(visited, j) {
            assert forall|s: u64|
                within(s, n as int) && bit(s, 0) && #[trigger] closed_set(*arc, n as int, s) implies forall|j: int|
                    0 <= j < n ==> #[trigger] bit(s, j) by {
                assert forall|j: int| 0 <= j < n implies #[trigger] bit(s, j) by {
                    assert(bit(visited, j));
                }
            }
        }
    }
    visited == full_mask(n)
}

/// The paradox and connectivity predicates read only the first `n` rows.
proof fn lemma_same_rows(arc: Arc, arc2: Arc, n: int)
    requires
        0 <= n <= 16,
        forall|i: int| 0 <= i < n ==> #[trigger] arc[i] == arc2[i],
    ensures
        is_paradoxical(arc, n) == is_paradoxical(arc2, n),
        is_connected(arc, n) == is_connected(arc2, n),
{
    assert forall|i: int, j: int| 0 <= i < n && 0 <= j < n implies #[trigger] beats(arc, i, j) == beats(arc2, i, j) by {
        assert(arc[i] == arc2[i]);
    }
    assert forall|i: int| #![trigger has_win(arc, n, i)] #![trigger has_win(arc2, n, i)] 0 <= i < n implies has_win(arc, n, i) == has_win(arc2, n, i) by {
        if has_win(arc, n, i) {
            let j = choose|j: int| 0 <= j < n && #[trigger] beats(arc, i, j);
            assert(beats(arc2, i, j));
        }
        if has_win(arc2, n, i) {
            let j = choose|j: int| 0 <= j < n && #[trigger] beats(arc2, i, j);
            assert(beats(arc, i, j));
        }
    }
    assert forall|j: int| #![trigger has_loss(arc, n, j)] #![trigger has_loss(arc2, n, j)] 0 <= j < n implies has_loss(arc, n, j) == has_loss(arc2, n, j) by {
        if has_loss(arc, n, j) {
            let i = choose|i: int| 0 <= i < n && #[trigger] beats(arc, i, j);
            assert(beats(arc2, i, j));
        }
        if has_loss(arc2, n, j) {
            let i = choose|i: int| 0 <= i < n && #[trigger] beats(arc2, i, j);
            assert(beats(arc, i, j));
        }
    }
    assert forall|i: int, j: int| #![trigger decisive(arc, i, j)] #![trigger decisive(arc2, i, j)] 0 <= i < n && 0 <= j < n implies decisive(arc, i, j) == decisive(arc2, i, j) by {
        assert(beats(arc, i, j) == beats(arc2, i, j));
        assert(beats(arc, j, i) == beats(arc2, j, i));
    }
    assert forall|s: u64| #![trigger closed_set(arc, n, s)] #![trigger closed_set(arc2, n, s)] closed_set(arc, n, s) == closed_set(arc2, n, s) by {
    }
    assert(is_paradoxical(arc, n) == is_paradoxical(arc2, n));
}

/// Every move of the game `beats` on `n` moves wins and loses at least once,
/// and the decided pairs connect all the moves (`false` for `n == 0`).
pub fn paradox_connected(beats: &[u16], n: usize) -> (r: bool)
    requires
        crate::signature::rows_within(beats@, n as int),
    ensures
        forall|arc: Arc|
            (forall|i: int| 0 <= i < n ==> #[trigger] arc[i] == beats@[i] as u64) ==> r == (is_paradoxical(arc, n as int)
                && is_connected(arc, n as int)),
{
    let mut arc: Arc = [0u64; 16];
    let mut i = 0usize;
    while i < n
        invariant
            crate::signature::rows_within(beats@, n as int),
            i <= n,
            forall|k: int| 0 <= k < i ==> #[trigger] arc[k] == beats@[k] as u64,
        decreases n - i,
    {
        arc[i] = beats[i] as u64;
        i += 1;
    }
    proof {
        assert forall|k: int| 0 <= k < n implies within(#[trigger] arc[k], n as int) by {
            crate::bits::lemma_bit16_wide(beats@[k]);
            assert forall|j: int| 0 <= j < 64 && #[trigger] bit(arc[k], j) implies j < n by {
                if j >= n {
                    assert(crate::signature::bit16(beats@[k], j));
                }
            }
        }
    }
    let r = paradoxical(&arc, n) && connected(&arc, n);
    proof {
        assert forall|arc2: Arc| (forall|k: int| 0 <= k < n ==> #[trigger] arc2[k] == beats@[k] as u64) implies r == (is_paradoxical(
            arc2,
            n as int,
        ) && is_connected(arc2, n as int)) by {
            assert forall|k: int| 0 <= k < n implies #[trigger] arc[k] == arc2[k] by {
                assert(arc2[k] == beats@[k] as u64);
            }
            lemma_same_rows(arc, arc2, n as int);
        }
    }
    r
}


/// `lose[k]` holds every move that beats `k`.
fn loss_rows(arc: &Arc, n: usize) -> (lose: [u64; 16])
    requires
        wf(*arc, n as int),
    ensures
        forall|k: int| 0 <= k < n ==> within(#[trigger] lose[k], n as int),
        forall|k: int, i: int| 0 <= k < n && 0 <= i < n ==> (#[trigger] bit(lose[k], i) == beats(*arc, i, k)),
{
    let mut lose = [0u64; 16];
    proof {
        lemma_no_bits_zero(0u64);
    }
    let mut i = 0usize;
    while i < n
        invariant
            wf(*arc, n as int),
            i <= n <= 16,
            forall|k: int| 0 <= k < n ==> within(#[trigger] lose[k], n as int),
            forall|k: int, ii: int|
                0 <= k < n && 0 <= ii < n ==> (#[trigger] bit(lose[k], ii) == (beats(*arc, ii, k) && ii < i)),
        decreases n - i,
    {
        let mut j = 0usize;
        while j < n
            invariant
                wf(*arc, n as int),
                i < n <= 16,
                j <= n,
                forall|k: int| 0 <= k < n ==> within(#[trigger] lose[k], n as int),
                forall|k: int, ii: int|
                    0 <= k < n && 0 <= ii < n ==> (#[trigger] bit(lose[k], ii) == (beats(*arc, ii, k)
                        && (ii < i || (ii == i && k < j)))),
            decreases n - j,
        {
            if (arc[i] >> j) & 1 == 1 {
                let old_row = lose[j];
                proof {
                    assert forall|jj: int| 0 <= jj < 64 implies #[trigger] bit(old_row | (1u64 << i as u64), jj)
                        == (bit(old_row, jj) || jj == i) by {
                        lemma_bit_or(old_row, 1u64 << i as u64, jj as u64);
                        lemma_bit_single(i as u64, jj as u64);
                    }
                }
                lose[j] = old_row | (1u64 << (i as u64));
                proof {
                    assert(beats(*arc, i as int, j as int));
                }
            }
            proof {
                assert forall|k: int, ii: int|
                    0 <= k < n && 0 <= ii < n implies (#[trigger] bit(lose[k], ii) == (beats(*arc, ii, k)
                        && (ii < i || (ii == i && k < j + 1)))) by {
                    if k == j && ii == i {
                    }
                }
            }
            j += 1;
        }
        i += 1;
    }
    lose
}

/// No two moves are twins (identical win rows and identical loss rows).
pub fn twin_free(arc: &Arc, n: usize) -> (r: bool)
    requires
        wf(*arc, n as int),
    ensures
        r == is_twin_free(*arc, n as int),
{
    let lose = loss_rows(arc, n);
    let mut i = 0usize;
    while i < n
        invariant
            wf(*arc, n as int),
            i <= n <= 16,
            forall|k: int| 0 <= k < n ==> within(#[trigger] lose[k], n as int),
            forall|k: int, ii: int| 0 <= k < n && 0 <= ii < n ==> (#[trigger] bit(lose[k], ii) == beats(*arc, ii, k)),
            forall|a: int, b: int| 0 <= a < i && a < b < n ==> !#[trigger] twins(*arc, n as int, a, b),
        decreases n - i,
    {
        let mut j = i + 1;
        while j < n
            invariant
                wf(*arc, n as int),
                i < n <= 16,
                i + 1 <= j <= n,
                forall|k: int| 0 <= k < n ==> within(#[trigger] lose[k], n as int),
                forall|k: int, ii: int| 0 <= k < n && 0 <= ii < n ==> (#[trigger] bit(lose[k], ii) == beats(*arc, ii, k)),
                forall|a: int, b: int| 0 <= a < i && a < b < n ==> !#[trigger] twins(*arc, n as int, a, b),
                forall|b: int| i < b < j ==> !#[trigger] twins(*arc, n as int, i as int, b),
            decreases n - j,
        {
            proof {
                lemma_bits_ext(arc[i as int], arc[j as int]);
                lemma_bits_ext(lose[i as int], lose[j as int]);
                if twins(*arc, n as int, i as int, j as int) {
                    assert forall|x: int| 0 <= x < 64 implies bit(arc[i as int], x) == bit(arc[j as int], x) by {
                        if x < n {
                            assert(beats(*arc, i as int, x) == beats(*arc, j as int, x));
                        }
                    }
                    assert forall|x: int| 0 <= x < 64 implies bit(lose[i as int], x) == bit(lose[j as int], x) by {
                        if x < n {
                            assert(beats(*arc, x, i as int) == beats(*arc, x, j as int));
                        }
                    }
                }
                if arc[i as int] == arc[j as int] && lose[i as int] == lose[j as int] {
                    assert forall|x: int| 0 <= x < n implies (beats(*arc, i as int, x) == beats(*arc, j as int, x))
                        && (beats(*arc, x, i as int) == beats(*arc, x, j as int)) by {
                        assert(bit(lose[i as int], x) == bit(lose[j as int], x));
                    }
                    assert(twins(*arc, n as int, i as int, j as int));
                }
            }
            if arc[i] == arc[j] && lose[i] == lose[j] {
                return false;
            }
            j += 1;
        }
        i += 1;
    }
    true
}


/// Number of moves below `k` in the set `s`.
pub open spec fn card(s: u64, k: int) -> int
    decreases k,
{
    if k <= 0 {
        0
    } else {
        card(s, k - 1) + if bit(s, k - 1) { 1int } else { 0int }
    }
}

pub proof fn lemma_card_bounds(s: u64, k: int)
    requires
        0 <= k,
    ensures
        0 <= card(s, k) <= k,
    decreases k,
{
    if k > 0 {
        lemma_card_bounds(s, k - 1);
    }
}

/// Adding one new member below `k` raises the count by one.
pub proof fn lemma_card_add(s: u64, t: u64, x: int, k: int)
    requires
        0 <= x < k <= 64,
        !bit(s, x),
        forall|j: int| 0 <= j < 64 ==> #[trigger] bit(t, j) == (bit(s, j) || j == x),
    ensures
        card(t, k) == card(s, k) + 1,
    decreases k,
{
    if k - 1 > x {
        lemma_card_add(s, t, x, k - 1);
    } else {
        lemma_card_same(s, t, k - 1);
    }
}

pub proof fn lemma_card_same(s: u64, t: u64, k: int)
    requires
        0 <= k <= 64,
        forall|j: int| 0 <= j < k ==> #[trigger] bit(t, j) == bit(s, j),
    ensures
        card(t, k) == card(s, k),
    decreases k,
{
    if k > 0 {
        lemma_card_same(s, t, k - 1);
    }
}

/// `m` sits in the first `sp` stack slots.
pub open spec fn on_stack(stack: [usize; 16], sp: int, m: int) -> bool {
    exists|k: int| 0 <= k < sp && stack[k] as int == m
}

/// Grows the smallest module holding the seed pair `{a, b}`.
fn module_closure(arc: &Arc, n: usize, a: usize, b: usize) -> (in_s: u64)
    requires
        wf(*arc, n as int),
        3 <= n,
        a < b < n,
    ensures
        within(in_s, n as int),
        bit(in_s, a as int),
        bit(in_s, b as int),
        forall|m: u64|
            within(m, n as int) && bit(m, a as int) && bit(m, b as int) && #[trigger] is_module(*arc, n as int, m)
                ==> forall|j: int| 0 <= j < 64 && bit(in_s, j) ==> #[trigger] bit(m, j),
        in_s != first_n(n as int) ==> is_module(*arc, n as int, in_s),
{
    let full = full_mask(n);
    let mut in_s = (1u64 << (a as u64)) | (1u64 << (b as u64));
    proof {
        assert forall|j: int| 0 <= j < 64 implies #[trigger] bit(in_s, j) == (j == a || j == b) by {
            lemma_bit_or(1u64 << (a as u64), 1u64 << (b as u64), j as u64);
            lemma_bit_single(a as u64, j as u64);
            lemma_bit_single(b as u64, j as u64);
        }
        assert forall|j: int| 0 <= j < 64 implies #[trigger] bit(1u64 << (a as u64), j) == (j == a) by {
            lemma_bit_single(a as u64, j as u64);
        }
        lemma_card_add(1u64 << (a as u64), in_s, b as int, n as int);
        lemma_no_bits_zero(0u64);
        lemma_card_add(0u64, 1u64 << (a as u64), a as int, n as int);
        lemma_card_same(0u64, 0u64, 0);
        assert(card(0u64, n as int) == 0) by {
            lemma_card_zero(n as int);
        }
    }
    let mut stack = [0usize; 16];
    let mut sp = 0usize;
    stack[sp] = b;
    sp += 1;
    proof {
        assert(on_stack(stack, 1, b as int)) by {
            assert(stack[0] as int == b);
        }
    }
    while sp > 0 && in_s != full
        invariant
            wf(*arc, n as int),
            3 <= n <= 16,
            a < b < n,
            full == first_n(n as int),
            within(in_s, n as int),
            bit(in_s, a as int),
            bit(in_s, b as int),
            0 <= sp,
            sp + 1 <= card(in_s, n as int),
            forall|k: int| 0 <= k < sp ==> (#[trigger] stack[k]) < n && bit(in_s, stack[k] as int),
            forall|m: u64|
                within(m, n as int) && bit(m, a as int) && bit(m, b as int) && #[trigger] is_module(*arc, n as int, m)
                    ==> forall|j: int| 0 <= j < 64 && bit(in_s, j) ==> #[trigger] bit(m, j),
            forall|mm: int, x: int|
                0 <= mm < n && 0 <= x < n && #[trigger] bit(in_s, mm) && !on_stack(stack, sp as int, mm) && !bit(in_s, x)
                    ==> #[trigger] rel_spec(*arc, x, mm) == rel_spec(*arc, x, a as int),
        decreases 2 * (16 - card(in_s, n as int)) + sp,
    {
        proof {
            lemma_card_bounds(in_s, n as int);
        }
        let ghost sp_old = sp as int;
        sp -= 1;
        let s = stack[sp];
        let ghost old_in = in_s;
        let mut x = 0usize;
        while x < n
            invariant
                wf(*arc, n as int),
                3 <= n <= 16,
                a < b < n,
                s < n,
                bit(old_in, s as int),
                x <= n,
                full == first_n(n as int),
                within(in_s, n as int),
                bit(in_s, a as int),
                bit(in_s, b as int),
                forall|j: int| 0 <= j < 64 && bit(old_in, j) ==> #[trigger] bit(in_s, j),
                card(old_in, n as int) <= card(in_s, n as int),
                sp + 2 <= card(in_s, n as int),
                2 * (16 - card(in_s, n as int)) + sp <= 2 * (16 - card(old_in, n as int)) + sp_old - 1,
                forall|k: int| 0 <= k < sp ==> (#[trigger] stack[k]) < n && bit(in_s, stack[k] as int),
                forall|m: u64|
                    within(m, n as int) && bit(m, a as int) && bit(m, b as int) && #[trigger] is_module(*arc, n as int, m)
                        ==> forall|j: int| 0 <= j < 64 && bit(in_s, j) ==> #[trigger] bit(m, j),
                forall|mm: int, y: int|
                    0 <= mm < n && 0 <= y < n && #[trigger] bit(old_in, mm) && mm != s && !on_stack(stack, sp as int, mm) && !bit(in_s, y)
                        ==> #[trigger] rel_spec(*arc, y, mm) == rel_spec(*arc, y, a as int),
                forall|mm: int|
                    0 <= mm < n && #[trigger] bit(in_s, mm) && !bit(old_in, mm) ==> on_stack(stack, sp as int, mm),
                forall|y: int| 0 <= y < x && !bit(in_s, y) ==> #[trigger] rel_spec(*arc, y, s as int) == rel_spec(*arc, y, a as int),
            decreases n - x,
        {
            if (in_s >> x) & 1 == 1 {
                x += 1;
                continue;
            }
            if rel(arc, x, s) != rel(arc, x, a) {
                let ni = in_s | (1u64 << (x as u64));
                proof {
                    assert forall|j: int| 0 <= j < 64 implies #[trigger] bit(ni, j) == (bit(in_s, j) || j == x) by {
                        lemma_bit_or(in_s, 1u64 << (x as u64), j as u64);
                        lemma_bit_single(x as u64, j as u64);
                    }
                    lemma_card_add(in_s, ni, x as int, n as int);
                    lemma_card_bounds(ni, n as int);
                    // every module holding the pair must hold x
                    assert forall|m: u64|
                        within(m, n as int) && bit(m, a as int) && bit(m, b as int) && #[trigger] is_module(*arc, n as int, m)
                            implies forall|j: int| 0 <= j < 64 && bit(ni, j) ==> #[trigger] bit(m, j) by {
                        assert(bit(m, s as int));
                        if !bit(m, x as int) {
                            assert(rel_spec(*arc, x as int, s as int) == rel_spec(*arc, x as int, a as int));
                        }
                    }
                }
                let ghost prev_in = in_s;
                let ghost prev_stack = stack;
                let ghost prev_sp = sp as int;
                in_s = ni;
                stack[sp] = x;
                sp += 1;
                proof {
                    assert(on_stack(stack, sp as int, x as int)) by {
                        assert(stack[sp - 1] as int == x);
                    }
                    assert forall|mm: int| #[trigger] on_stack(prev_stack, prev_sp, mm) implies on_stack(stack, sp as int, mm) by {
                        let k = choose|k: int| 0 <= k < prev_sp && prev_stack[k] as int == mm;
                        assert(stack[k] as int == mm);
                    }
                    assert forall|mm: int|
                        0 <= mm < n && #[trigger] bit(in_s, mm) && !bit(old_in, mm) implies on_stack(stack, sp as int, mm) by {
                        if mm != x {
                            assert(bit(prev_in, mm));
                            assert(on_stack(prev_stack, prev_sp, mm));
                        }
                    }
                    assert forall|mm: int, y: int|
                        0 <= mm < n && 0 <= y < n && #[trigger] bit(old_in, mm) && mm != s && !on_stack(stack, sp as int, mm) && !bit(in_s, y)
                            implies #[trigger] rel_spec(*arc, y, mm) == rel_spec(*arc, y, a as int) by {
                        assert(!on_stack(prev_stack, prev_sp, mm));
                        assert(!bit(prev_in, y));
                    }
                }
            }
            x += 1;
        }
        proof {
            lemma_card_bounds(in_s, n as int);
            assert forall|mm: int, y: int|
                0 <= mm < n && 0 <= y < n && #[trigger] bit(in_s, mm) && !on_stack(stack, sp as int, mm) && !bit(in_s, y)
                    implies #[trigger] rel_spec(*arc, y, mm) == rel_spec(*arc, y, a as int) by {
                if mm == s as int {
                } else if !bit(old_in, mm) {
                } else if on_stack(stack, sp as int, mm) {
                } else {
                }
            }
        }
    }
    proof {
        if in_s != first_n(n as int) {
            assert forall|x: int, aa: int, bb: int|
                0 <= x < n && 0 <= aa < n && 0 <= bb < n && !bit(in_s, x) && #[trigger] bit(in_s, aa) && #[trigger] bit(
                    in_s,
                    bb,
                ) implies #[trigger] rel_spec(*arc, x, aa) == rel_spec(*arc, x, bb) by {
                assert(!on_stack(stack, sp as int, aa));
                assert(!on_stack(stack, sp as int, bb));
                assert(rel_spec(*arc, x, aa) == rel_spec(*arc, x, a as int));
                assert(rel_spec(*arc, x, bb) == rel_spec(*arc, x, a as int));
            }
        }
    }
    in_s
}

proof fn lemma_card_zero(k: int)
    requires
        0 <= k <= 64,
    ensures
        card(0u64, k) == 0,
    decreases k,
{
    if k > 0 {
        lemma_card_zero(k - 1);
        lemma_bit_zero((k - 1) as u64);
    }
}


/// Modular-prime test: every seed pair's smallest module is the whole game.
pub fn is_prime(arc: &Arc, n: usize) -> (r: bool)
    requires
        wf(*arc, n as int),
    ensures
        r == is_prime_game(*arc, n as int),
{
    if n < 3 {
        return false;
    }
    let full = full_mask(n);
    let mut a = 0usize;
    while a < n
        invariant
            wf(*arc, n as int),
            3 <= n <= 16,
            a <= n,
            full == first_n(n as int),
            forall|s: u64, x: int, y: int|
                0 <= x < a && x < y < n && within(s, n as int) && #[trigger] bit(s, x) && #[trigger] bit(s, y) && #[trigger] is_module(*arc, n as int, s)
                    ==> forall|j: int| 0 <= j < n ==> #[trigger] bit(s, j),
        decreases n - a,
    {
        let mut b = a + 1;
        while b < n
            invariant
                wf(*arc, n as int),
                3 <= n <= 16,
                a < n,
                a + 1 <= b <= n,
                full == first_n(n as int),
                forall|s: u64, x: int, y: int|
                    0 <= x < a && x < y < n && within(s, n as int) && #[trigger] bit(s, x) && #[trigger] bit(s, y) && #[trigger] is_module(*arc, n as int, s)
                        ==> forall|j: int| 0 <= j < n ==> #[trigger] bit(s, j),
                forall|s: u64, y: int|
                    a < y < b && within(s, n as int) && bit(s, a as int) && #[trigger] bit(s, y) && #[trigger] is_module(*arc, n as int, s)
                        ==> forall|j: int| 0 <= j < n ==> #[trigger] bit(s, j),
            decreases n - b,
        {
            let in_s = module_closure(arc, n, a, b);
            proof {
                lemma_full_iff(in_s, n as int);
            }
            if in_s != full {
                proof {
                    let c = choose|c: int| 0 <= c < n && !bit(in_s, c);
                    assert(!bit(in_s, c));
                    assert(bit(in_s, a as int) && bit(in_s, b as int));
                    assert(nontrivial_proper(n as int, in_s));
                    assert(is_module(*arc, n as int, in_s));
                }
                return false;
            }
            proof {
                assert forall|s: u64, y: int|
                    a < y < b + 1 && within(s, n as int) && bit(s, a as int) && #[trigger] bit(s, y) && #[trigger] is_module(*arc, n as int, s)
                        implies forall|j: int| 0 <= j < n ==> #[trigger] bit(s, j) by {
                    if y == b {
                        assert forall|j: int| 0 <= j < n implies #[trigger] bit(s, j) by {
                            assert(bit(in_s, j));
                        }
                    }
                }
            }
            b += 1;
        }
        a += 1;
    }
    proof {
        assert forall|s: u64| nontrivial_proper(n as int, s) implies !#[trigger] is_module(*arc, n as int, s) by {
            let (x, y) = choose|x: int, y: int| 0 <= x < y < n && #[trigger] bit(s, x) && #[trigger] bit(s, y);
            let c = choose|c: int| 0 <= c < n && !#[trigger] bit(s, c);
            if is_module(*arc, n as int, s) {
                assert(bit(s, c));
            }
        }
    }
    true
}

/// A subset has at most as many members.
pub proof fn lemma_card_subset(s: u64, t: u64, k: int)
    requires
        0 <= k <= 64,
        forall|j: int| 0 <= j < k && #[trigger] bit(s, j) ==> bit(t, j),
    ensures
        card(s, k) <= card(t, k),
    decreases k,
{
    if k > 0 {
        lemma_card_subset(s, t, k - 1);
    }
}


/// Every pair of distinct moves is decided one way and one way only.
pub open spec fn is_tournament(arc: Arc, n: int) -> bool {
    forall|i: int, j: int| 0 <= i < n && 0 <= j < n && i != j ==> #[trigger] beats(arc, i, j) != #[trigger] beats(arc, j, i)
}

/// Number of moves below `k` that beat move `j`.
pub open spec fn beaten_count(arc: Arc, j: int, k: int) -> int
    decreases k,
{
    if k <= 0 {
        0
    } else {
        beaten_count(arc, j, k - 1) + if beats(arc, k - 1, j) { 1int } else { 0int }
    }
}

/// Balanced (zero row sums): every move wins exactly as often as it loses.
pub open spec fn is_balanced(arc: Arc, n: int) -> bool {
    forall|i: int| 0 <= i < n ==> #[trigger] card(arc[i], n) == beaten_count(arc, i, n)
}

/// The two-member set `{i, j}`.
pub open spec fn pair_mask(i: int, j: int) -> u64 {
    ((1u64 << (i as u64)) | (1u64 << (j as u64))) as u64
}

proof fn lemma_pair_mask(i: int, j: int)
    requires
        0 <= i < 64,
        0 <= j < 64,
    ensures
        forall|t: int| 0 <= t < 64 ==> #[trigger] bit(pair_mask(i, j), t) == (t == i || t == j),
{
    assert forall|t: int| 0 <= t < 64 implies #[trigger] bit(pair_mask(i, j), t) == (t == i || t == j) by {
        lemma_bit_or(1u64 << (i as u64), 1u64 << (j as u64), t as u64);
        lemma_bit_single(i as u64, t as u64);
        lemma_bit_single(j as u64, t as u64);
    }
}

/// A modular-prime game is twin-free: a twin pair would be a module of two
/// moves, proper because a prime game has at least three.
pub proof fn lemma_prime_is_twin_free(arc: Arc, n: int)
    requires
        wf(arc, n),
        is_prime_game(arc, n),
    ensures
        is_twin_free(arc, n),
{
    assert forall|i: int, j: int| 0 <= i < j < n implies !#[trigger] twins(arc, n, i, j) by {
        if twins(arc, n, i, j) {
            let s = pair_mask(i, j);
            lemma_pair_mask(i, j);
            let c: int = if i != 0 && j != 0 {
                0
            } else if i != 1 && j != 1 {
                1
            } else {
                2
            };
            assert(!bit(s, c));
            assert(bit(s, i) && bit(s, j));
            assert(within(s, n));
            assert(nontrivial_proper(n, s));
            assert(is_module(arc, n, s)) by {
                assert forall|x: int, a: int, b: int|
                    0 <= x < n && 0 <= a < n && 0 <= b < n && !bit(s, x) && #[trigger] bit(s, a) && #[trigger] bit(s, b)
                        implies #[trigger] rel_spec(arc, x, a) == rel_spec(arc, x, b) by {
                    assert(rel_spec(arc, x, i) == rel_spec(arc, x, j));
                }
            }
        }
    }
}

/// A tournament is twin-free: two twins would have to tie each other.
pub proof fn lemma_tournament_is_twin_free(arc: Arc, n: int)
    requires
        is_tournament(arc, n),
    ensures
        is_twin_free(arc, n),
{
    assert forall|i: int, j: int| 0 <= i < j < n implies !#[trigger] twins(arc, n, i, j) by {
        if twins(arc, n, i, j) {
            assert(beats(arc, i, j) == beats(arc, j, j));
            assert(beats(arc, j, i) == beats(arc, j, j));
            assert(beats(arc, i, j) != beats(arc, j, i));
        }
    }
}

proof fn lemma_card_pos(s: u64, k: int, j: int)
    requires
        0 <= j < k,
        bit(s, j),
    ensures
        card(s, k) >= 1,
    decreases k,
{
    lemma_card_bounds(s, k - 1);
    if j < k - 1 {
        lemma_card_pos(s, k - 1, j);
    }
}

proof fn lemma_card_witness(s: u64, k: int)
    requires
        card(s, k) >= 1,
    ensures
        exists|j: int| 0 <= j < k && #[trigger] bit(s, j),
    decreases k,
{
    if k > 0 && !bit(s, k - 1) {
        lemma_card_witness(s, k - 1);
    }
}

proof fn lemma_beaten_pos(arc: Arc, j: int, k: int, i: int)
    requires
        0 <= i < k,
        beats(arc, i, j),
    ensures
        beaten_count(arc, j, k) >= 1,
    decreases k,
{
    if i < k - 1 {
        lemma_beaten_pos(arc, j, k - 1, i);
    } else {
        lemma_beaten_nonneg(arc, j, k - 1);
    }
}

proof fn lemma_beaten_nonneg(arc: Arc, j: int, k: int)
    ensures
        beaten_count(arc, j, k) >= 0,
    decreases k,
{
    if k > 0 {
        lemma_beaten_nonneg(arc, j, k - 1);
    }
}

proof fn lemma_beaten_witness(arc: Arc, j: int, k: int)
    requires
        beaten_count(arc, j, k) >= 1,
    ensures
        exists|i: int| 0 <= i < k && #[trigger] beats(arc, i, j),
    decreases k,
{
    if k > 0 && !beats(arc, k - 1, j) {
        lemma_beaten_witness(arc, j, k - 1);
    }
}

/// In a connected game on at least two moves every move takes part in some
/// decided pair.
proof fn lemma_connected_partner(arc: Arc, n: int, i: int)
    requires
        wf(arc, n),
        n >= 2,
        is_connected(arc, n),
        0 <= i < n,
    ensures
        exists|j: int| 0 <= j < n && #[trigger] decisive(arc, i, j),
{
    if !(exists|j: int| 0 <= j < n && #[trigger] decisive(arc, i, j)) {
        lemma_first_n_bits(n);
        if i == 0 {
            let s = 1u64 << 0u64;
            assert forall|t: int| 0 <= t < 64 implies #[trigger] bit(s, t) == (t == 0) by {
                lemma_bit_single(0, t as u64);
            }
            assert(within(s, n));
            assert(closed_set(arc, n, s)) by {
                assert forall|p: int, q: int|
                    0 <= p < n && 0 <= q < n && #[trigger] bit(s, p) && #[trigger] decisive(arc, p, q) implies bit(s, q) by {
                    assert(p == 0);
                    assert(decisive(arc, i, q));
                }
            }
            assert(bit(s, 1));
        } else {
            let s = drop_bit(first_n(n), i);
            lemma_drop_bit(first_n(n), i);
            assert(within(s, n));
            assert(bit(s, 0));
            assert(closed_set(arc, n, s)) by {
                assert forall|p: int, q: int|
                    0 <= p < n && 0 <= q < n && #[trigger] bit(s, p) && #[trigger] decisive(arc, p, q) implies bit(s, q) by {
                    if q == i {
                        assert(decisive(arc, i, p));
                    }
                }
            }
            assert(bit(s, i));
        }
    }
}

/// Connected and balanced on at least two moves forces paradoxical: each move
/// takes part in a decided pair, and wins as often as it loses.
pub proof fn lemma_balanced_connected_paradoxical(arc: Arc, n: int)
    requires
        wf(arc, n),
        n >= 2,
        is_balanced(arc, n),
        is_connected(arc, n),
    ensures
        is_paradoxical(arc, n),
{
    assert forall|i: int| 0 <= i < n implies #[trigger] has_win(arc, n, i) && has_loss(arc, n, i) by {
        lemma_connected_partner(arc, n, i);
        let j = choose|j: int| 0 <= j < n && #[trigger] decisive(arc, i, j);
        assert(card(arc[i], n) == beaten_count(arc, i, n));
        if beats(arc, i, j) {
            lemma_card_pos(arc[i], n, j);
            lemma_beaten_witness(arc, i, n);
        } else {
            lemma_beaten_pos(arc, i, n, j);
            lemma_card_witness(arc[i], n);
            let w = choose|w: int| 0 <= w < n && #[trigger] bit(arc[i], w);
            assert(beats(arc, i, w));
        }
    }
    assert forall|j: int| 0 <= j < n implies #[trigger] has_loss(arc, n, j) by {
        assert(has_win(arc, n, j));
    }
}

} // verus!
