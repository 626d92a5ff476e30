//! Tournaments as bitmask rows: one-vertex extensions, the two-paradox (S2)
//! property, and the Burnside pieces that count S2 tournaments by cycle type.
use vstd::prelude::*;
use crate::signature::bit16;
use crate::burnside::{psum, two_pow};
use crate::bits::{bit, bit32, lemma_bit32_wide, lemma_bit16_set, lemma_bit16_wide, lemma_bit_and, lemma_drop_bit, lemma_lowest_bit, lemma_no_bits_zero};

verus! {

/// Largest tournament order handled by `Tour`.
pub const TOUR_MAX: usize = 12;

/// A tournament on `n <= 12` vertices: bit `j` of `adj[i]` is set iff `i` beats `j`.
#[derive(Clone, Copy)]
pub struct Tour {
    pub n: usize,
    pub adj: [u16; 12],
}

impl Tour {
    /// Does `i` beat `j`?
    pub fn beats(&self, i: usize, j: usize) -> (r: bool)
        requires
            i < 12,
            j < 16,
        ensures
            r == bit16(self.adj[i as int], j as int),
    {
        (self.adj[i] >> (j as u16)) & 1 == 1
    }
}

/// Row `i`, bit `j` of the extension of `parent` by a new vertex `n` that beats
/// exactly the old vertices in `ext` and loses to the others.
pub open spec fn extended_bit(parent: Tour, ext: u16, i: int, j: int) -> bool {
    let n = parent.n as int;
    if i == n {
        j < n && bit16(ext, j)
    } else if i < n && j == n {
        bit16(parent.adj[i], j) || !bit16(ext, i)
    } else {
        bit16(parent.adj[i], j)
    }
}

/// A tournament on `t.n <= 12` vertices: no vertex beats itself, each pair of
/// distinct vertices is decided exactly one way, and rows name no vertex at
/// or above `t.n`.
pub open spec fn tour_ok(t: Tour) -> bool {
    &&& t.n <= 12
    &&& forall|i: int, j: int| 0 <= i < t.n && 0 <= j < t.n && i != j ==> #[trigger] bit16(t.adj[i], j) != #[trigger] bit16(t.adj[j], i)
    &&& forall|i: int| 0 <= i < t.n ==> !#[trigger] bit16(t.adj[i], i)
    &&& forall|i: int, j: int| 0 <= i < t.n && t.n <= j < 16 ==> !#[trigger] bit16(t.adj[i], j)
}

/// Adds vertex `n` to `parent`: it beats the vertices `i < n` whose bit is set
/// in `ext`, and every other old vertex beats it. Extending a tournament gives
/// a tournament.
pub fn extend(parent: &Tour, ext: u16) -> (t: Tour)
    requires
        parent.n < 12,
    ensures
        t.n == parent.n + 1,
        forall|i: int, j: int| 0 <= i < 12 && 0 <= j < 16 ==> #[trigger] bit16(t.adj[i], j) == extended_bit(*parent, ext, i, j),
        tour_ok(*parent) ==> tour_ok(t),
{
    let n = parent.n;
    let mut t = *parent;
    t.n = n + 1;
    let newv = n;
    t.adj[newv] = 0;
    let mut i = 0usize;
    proof {
        assert forall|j: int| 0 <= j < 16 implies !#[trigger] bit16(t.adj[newv as int], j) by {
            lemma_bit16_set(0u16, 0, j as u16);
        }
    }
    while i < n
        invariant
            n == parent.n < 12,
            newv == n,
            t.n == n + 1,
            i <= n,
            forall|x: int, j: int|
                0 <= x < 12 && 0 <= j < 16 ==> #[trigger] bit16(t.adj[x], j) == (if x == n {
                    j < i && bit16(ext, j)
                } else if x < i && j == n {
                    bit16(parent.adj[x], j) || !bit16(ext, x)
                } else {
                    bit16(parent.adj[x], j)
                }),
        decreases n - i,
    {
        let ghost a0 = t.adj;
        if (ext >> (i as u16)) & 1 == 1 {
            t.adj[newv] = t.adj[newv] | (1u16 << (i as u16));
            proof {
                assert forall|x: int, j: int| 0 <= x < 12 && 0 <= j < 16 implies #[trigger] bit16(t.adj[x], j) == (if x == n {
                    j < i + 1 && bit16(ext, j)
                } else if x < i + 1 && j == n {
                    bit16(parent.adj[x], j) || !bit16(ext, x)
                } else {
                    bit16(parent.adj[x], j)
                }) by {
                    if x == n {
                        lemma_bit16_set(a0[x], i as u16, j as u16);
                    } else {
                        assert(t.adj[x] == a0[x]);
                    }
                }
            }
        } else {
            t.adj[i] = t.adj[i] | (1u16 << (newv as u16));
            proof {
                assert forall|x: int, j: int| 0 <= x < 12 && 0 <= j < 16 implies #[trigger] bit16(t.adj[x], j) == (if x == n {
                    j < i + 1 && bit16(ext, j)
                } else if x < i + 1 && j == n {
                    bit16(parent.adj[x], j) || !bit16(ext, x)
                } else {
                    bit16(parent.adj[x], j)
                }) by {
                    if x == i {
                        lemma_bit16_set(a0[x], newv as u16, j as u16);
                    } else {
                        assert(t.adj[x] == a0[x]);
                    }
                }
            }
        }
        i += 1;
    }
    proof {
        if tour_ok(*parent) {
            assert forall|x: int, y: int| 0 <= x < t.n && 0 <= y < t.n && x != y implies #[trigger] bit16(t.adj[x], y)
                != #[trigger] bit16(t.adj[y], x) by {
                assert(bit16(t.adj[x], y) == extended_bit(*parent, ext, x, y));
                assert(bit16(t.adj[y], x) == extended_bit(*parent, ext, y, x));
            }
            assert forall|x: int| 0 <= x < t.n implies !#[trigger] bit16(t.adj[x], x) by {
                assert(bit16(t.adj[x], x) == extended_bit(*parent, ext, x, x));
            }
            assert forall|x: int, y: int| 0 <= x < t.n && t.n <= y < 16 implies !#[trigger] bit16(t.adj[x], y) by {
                assert(bit16(t.adj[x], y) == extended_bit(*parent, ext, x, y));
            }
        }
    }
    t
}

/// The rows of the first `n` vertices reach no vertex numbered 12 or more.
pub open spec fn rows_in_range(adj: [u16; 12], n: int) -> bool {
    forall|k: int, j: int| 0 <= k < n && 12 <= j < 16 ==> !#[trigger] bit16(adj[k], j)
}

/// Some vertex `k < n` beats both `i` and `j`.
pub open spec fn common_dominator(adj: [u16; 12], n: int, i: int, j: int) -> bool {
    exists|k: int| 0 <= k < n && #[trigger] bit16(adj[k], i) && #[trigger] bit16(adj[k], j)
}

/// Two-paradox (S2): every pair of vertices has a common dominator, some
/// vertex `k` that beats both.
pub open spec fn s2_spec(t: Tour) -> bool {
    forall|i: int, j: int| 0 <= i < j < t.n ==> #[trigger] common_dominator(t.adj, t.n as int, i, j)
}

/// Is the tournament two-paradox (every pair has a common dominator)?
pub fn is_s2(t: &Tour) -> (r: bool)
    requires
        t.n <= 12,
        rows_in_range(t.adj, t.n as int),
    ensures
        r == s2_spec(*t),
{
    let n = t.n;
    let mut beaters = [0u16; 12];
    let mut k = 0usize;
    proof {
        assert forall|x: int, y: int| 0 <= x < 12 && 0 <= y < 16 implies !#[trigger] bit16(beaters[x], y) by {
            lemma_bit16_set(0u16, 0, y as u16);
        }
    }
    while k < n
        invariant
            n == t.n <= 12,
            rows_in_range(t.adj, n as int),
            k <= n,
            forall|x: int, y: int| 0 <= x < 12 && 0 <= y < 16 ==> #[trigger] bit16(beaters[x], y) == (y < k
                && bit16(t.adj[y], x)),
        decreases n - k,
    {
        let mut r = t.adj[k] as u64;
        let ghost mut q: int = 0;
        proof {
            lemma_bit16_wide(t.adj[k as int]);
        }
        while r != 0
            invariant
                n == t.n <= 12,
                rows_in_range(t.adj, n as int),
                k < n,
                0 <= q <= 64,
                forall|j: int| 0 <= j < 64 ==> #[trigger] bit(r, j) == (j < 16 && bit16(t.adj[k as int], j) && j >= q),
                forall|x: int, y: int| 0 <= x < 12 && 0 <= y < 16 ==> #[trigger] bit16(beaters[x], y) == (y < k
                    && bit16(t.adj[y], x) || (y == k && x < q && bit16(t.adj[y], x))),
            decreases 64 - q,
        {
            proof {
                lemma_lowest_bit(r);
            }
            let i = r.trailing_zeros() as usize;
            proof {
                assert(bit(r, i as int));
                assert(i < 12);
            }
            let ghost b0 = beaters;
            beaters[i] = beaters[i] | (1u16 << (k as u16));
            let ghost r0 = r;
            r &= r - 1;
            proof {
                lemma_drop_bit(r0, i as int);
                assert forall|j: int| 0 <= j < 64 implies #[trigger] bit(r, j) == (j < 16 && bit16(t.adj[k as int], j) && j >= i + 1) by {
                    assert(bit(r, j) == bit(crate::bits::drop_bit(r0, i as int), j));
                    if q <= j < i {
                        assert(!bit(r0, j));
                    }
                }
                assert forall|x: int, y: int| 0 <= x < 12 && 0 <= y < 16 implies #[trigger] bit16(beaters[x], y) == (y < k
                    && bit16(t.adj[y], x) || (y == k && x < i + 1 && bit16(t.adj[y], x))) by {
                    if x == i {
                        lemma_bit16_set(b0[x], k as u16, y as u16);
                    } else {
                        assert(beaters[x] == b0[x]);
                    }
                    if y == k && q <= x < i {
                        assert(!bit(r0, x));
                    }
                }
                q = i + 1;
            }
        }
        proof {
            assert forall|x: int, y: int| 0 <= x < 12 && 0 <= y < 16 implies #[trigger] bit16(beaters[x], y) == (y < k + 1
                && bit16(t.adj[y], x)) by {
                if y == k && x >= q && bit16(t.adj[y], x) {
                    lemma_no_bits_zero(r);
                    assert(bit(r, x));
                }
            }
        }
        k += 1;
    }
    let mut i = 0usize;
    while i < n
        invariant
            n == t.n <= 12,
            i <= n,
            forall|x: int, y: int| 0 <= x < 12 && 0 <= y < 16 ==> #[trigger] bit16(beaters[x], y) == (y < n
                && bit16(t.adj[y], x)),
            forall|a: int, b: int| 0 <= a < i && a < b < n ==> #[trigger] common_dominator(t.adj, n as int, a, b),
        decreases n - i,
    {
        let mut j = i + 1;
        while j < n
            invariant
                n == t.n <= 12,
                i < n,
                i + 1 <= j <= n,
                forall|x: int, y: int| 0 <= x < 12 && 0 <= y < 16 ==> #[trigger] bit16(beaters[x], y) == (y < n
                    && bit16(t.adj[y], x)),
                forall|a: int, b: int|
                    (0 <= a < i && a < b < n) || (a == i && i < b < j) ==> #[trigger] common_dominator(t.adj, n as int, a, b),
            decreases n - j,
        {
            let both = beaters[i] & beaters[j];
            proof {
                lemma_bit16_wide(beaters[i as int]);
                lemma_bit16_wide(beaters[j as int]);
                lemma_bit16_wide(both);
                lemma_no_bits_zero(both as u64);
                assert(both as u64 == (beaters[i as int] as u64) & (beaters[j as int] as u64));
            }
            if both == 0 {
                proof {
                    assert forall|c: int| 0 <= c < n implies !(#[trigger] bit16(t.adj[c], i as int) && #[trigger] bit16(t.adj[c], j as int)) by {
                        lemma_bit_and(beaters[i as int] as u64, beaters[j as int] as u64, c as u64);
                        assert(!bit(both as u64, c));
                    }
                }
                assert(!common_dominator(t.adj, n as int, i as int, j as int));
                return false;
            }
            proof {
                let c = choose|c: int| 0 <= c < 64 && #[trigger] bit(both as u64, c);
                lemma_bit_and(beaters[i as int] as u64, beaters[j as int] as u64, c as u64);
                assert(bit16(beaters[i as int], c));
                assert(bit16(t.adj[c], i as int) && bit16(t.adj[c], j as int));
                assert(common_dominator(t.adj, n as int, i as int, j as int));
            }
            j += 1;
        }
        i += 1;
    }
    true
}

/// Image of `x` under the permutation whose cycles are the consecutive blocks
/// of lengths `parts[c], parts[c+1], ..` starting at `psum(parts, c)`; each block
/// is rotated by one. Points past the blocks go to 0.
pub open spec fn cycle_image(parts: Seq<u64>, c: int, x: int) -> int
    decreases parts.len() - c,
{
    if c < 0 || c >= parts.len() {
        0
    } else if psum(parts, c) <= x < psum(parts, c + 1) {
        psum(parts, c) + (x - psum(parts, c) + 1) % (parts[c] as int)
    } else {
        cycle_image(parts, c + 1, x)
    }
}

proof fn lemma_psum_mono(s: Seq<u64>, a: int, b: int)
    requires
        a <= b,
    ensures
        psum(s, a) <= psum(s, b),
    decreases b - a,
{
    if a < b {
        lemma_psum_mono(s, a, b - 1);
    }
}

/// Below block `c` no earlier block can claim `x`.
proof fn lemma_image_skip(parts: Seq<u64>, c: int, x: int)
    requires
        0 <= c <= parts.len(),
        x >= psum(parts, c),
    ensures
        cycle_image(parts, 0, x) == cycle_image(parts, c, x),
    decreases c,
{
    if c > 0 {
        lemma_psum_mono(parts, c, c);
        assert(psum(parts, c) == psum(parts, c - 1) + parts[c - 1] as nat);
        lemma_image_skip(parts, c - 1, x);
    }
}

/// The block of the cycle type that holds point `x`.
proof fn lemma_block(parts: Seq<u64>, k: int, x: int) -> (c: int)
    requires
        0 <= k <= parts.len(),
        0 <= x < psum(parts, k),
    ensures
        0 <= c < k,
        psum(parts, c) <= x < psum(parts, c + 1),
    decreases k,
{
    assert(psum(parts, k) == psum(parts, k - 1) + parts[k - 1] as nat);
    if x >= psum(parts, k - 1) {
        k - 1
    } else {
        lemma_block(parts, k - 1, x)
    }
}

/// A point of block `c` is sent to a point of the same block.
proof fn lemma_image_in_block(parts: Seq<u64>, c: int, x: int)
    requires
        0 <= c < parts.len(),
        parts[c] >= 1,
        psum(parts, c) <= x < psum(parts, c + 1),
    ensures
        cycle_image(parts, 0, x) == psum(parts, c) + (x - psum(parts, c) + 1) % (parts[c] as int),
        psum(parts, c) <= cycle_image(parts, 0, x) < psum(parts, c + 1),
{
    lemma_image_skip(parts, c, x);
    assert(psum(parts, c + 1) == psum(parts, c) + parts[c] as nat);
    let l = parts[c] as int;
    let a = x - psum(parts, c);
    assert(0 <= (a + 1) % l < l) by (nonlinear_arith)
        requires
            l >= 1,
    ;
}

/// A cycle type whose parts are all positive and sum to `n` gives a
/// permutation of `0..n`.
proof fn lemma_cycle_perm(parts: Seq<u64>, perm: Seq<usize>, n: int)
    requires
        psum(parts, parts.len() as int) == n,
        forall|j: int| 0 <= j < parts.len() ==> #[trigger] parts[j] >= 1,
        perm.len() == n,
        forall|x: int| 0 <= x < n ==> #[trigger] perm[x] == cycle_image(parts, 0, x),
    ensures
        perm_ok(perm, n),
{
    let len = parts.len() as int;
    assert forall|x: int| 0 <= x < n implies #[trigger] perm[x] < n by {
        let c = lemma_block(parts, len, x);
        lemma_image_in_block(parts, c, x);
        lemma_psum_mono(parts, c + 1, len);
    }
    assert forall|x: int, y: int| 0 <= x < n && 0 <= y < n && x != y implies #[trigger] perm[x] != #[trigger] perm[y] by {
        let cx = lemma_block(parts, len, x);
        let cy = lemma_block(parts, len, y);
        lemma_image_in_block(parts, cx, x);
        lemma_image_in_block(parts, cy, y);
        if cx < cy {
            lemma_psum_mono(parts, cx + 1, cy);
        } else if cy < cx {
            lemma_psum_mono(parts, cy + 1, cx);
        } else {
            let l = parts[cx] as int;
            let a = x - psum(parts, cx);
            let b = y - psum(parts, cx);
            assert((a + 1) % l != (b + 1) % l) by (nonlinear_arith)
                requires
                    0 <= a < l,
                    0 <= b < l,
                    a != b,
            {
                if a + 1 < l {
                    assert((a + 1) % l == a + 1);
                } else {
                    assert((a + 1) % l == 0);
                }
                if b + 1 < l {
                    assert((b + 1) % l == b + 1);
                } else {
                    assert((b + 1) % l == 0);
                }
            }
        }
    }
}

/// The permutation of `0..n` with cycle type `parts`: consecutive blocks of the
/// given lengths, each rotated by one (`v + i -> v + (i + 1) % l`).
pub fn build_perm(parts: &[u64], n: usize) -> (perm: Vec<usize>)
    requires
        psum(parts@, parts@.len() as int) <= n,
    ensures
        perm@.len() == n,
        forall|x: int| 0 <= x < n ==> #[trigger] perm@[x] == cycle_image(parts@, 0, x),
        psum(parts@, parts@.len() as int) == n && (forall|j: int| 0 <= j < parts@.len() ==> #[trigger] parts@[j] >= 1)
            ==> perm_ok(perm@, n as int),
{
    let mut perm: Vec<usize> = vec![0usize; n];
    let mut v = 0usize;
    let mut c = 0usize;
    proof {
        assert forall|x: int| 0 <= x < n implies #[trigger] perm@[x] == 0usize by {
            assert(perm@[x] == 0usize);
        }
    }
    while c < parts.len()
        invariant
            psum(parts@, parts@.len() as int) <= n,
            perm@.len() == n,
            c <= parts@.len(),
            v == psum(parts@, c as int),
            v <= n,
            forall|x: int| 0 <= x < v ==> #[trigger] perm@[x] == cycle_image(parts@, 0, x),
            forall|x: int| v <= x < n ==> #[trigger] perm@[x] == 0usize,
        decreases parts@.len() - c,
    {
        proof {
            lemma_psum_mono(parts@, c + 1, parts@.len() as int);
            assert(psum(parts@, c + 1) == psum(parts@, c as int) + parts@[c as int] as nat);
        }
        let l = parts[c] as usize;
        let mut i = 0usize;
        while i < l
            invariant
                perm@.len() == n,
                c < parts@.len(),
                v == psum(parts@, c as int),
                l == parts@[c as int],
                v + l == psum(parts@, c + 1),
                v + l <= n,
                i <= l,
                forall|x: int| 0 <= x < v ==> #[trigger] perm@[x] == cycle_image(parts@, 0, x),
                forall|x: int| v <= x < v + i ==> #[trigger] perm@[x] == cycle_image(parts@, 0, x),
                forall|x: int| v + i <= x < n ==> #[trigger] perm@[x] == 0usize,
            decreases l - i,
        {
            proof {
                lemma_image_skip(parts@, c as int, (v + i) as int);
                assert(cycle_image(parts@, c as int, (v + i) as int) == v + (i + 1) % (l as int));
            }
            perm.set(v + i, v + (i + 1) % l);
            i += 1;
        }
        v += l;
        c += 1;
    }
    proof {
        assert forall|x: int| 0 <= x < n implies #[trigger] perm@[x] == cycle_image(parts@, 0, x) by {
            if x >= v {
                lemma_image_skip(parts@, parts@.len() as int, x);
            }
        }
        if psum(parts@, parts@.len() as int) == n && (forall|j: int| 0 <= j < parts@.len() ==> #[trigger] parts@[j] >= 1) {
            lemma_cycle_perm(parts@, perm@, n as int);
        }
    }
    perm
}

/// The pair `{a, b}` with the smaller vertex first.
pub open spec fn srt(a: usize, b: usize) -> (usize, usize) {
    if a < b {
        (a, b)
    } else {
        (b, a)
    }
}

fn sorted_pair(a: usize, b: usize) -> (r: (usize, usize))
    ensures
        r == srt(a, b),
{
    if a < b {
        (a, b)
    } else {
        (b, a)
    }
}

/// `perm` is a permutation of `0..n`.
pub open spec fn perm_ok(perm: Seq<usize>, n: int) -> bool {
    &&& perm.len() >= n
    &&& forall|i: int| 0 <= i < n ==> #[trigger] perm[i] < n
    &&& forall|i: int, j: int| 0 <= i < n && 0 <= j < n && i != j ==> #[trigger] perm[i] != #[trigger] perm[j]
}

/// The image of the pair `p` under `perm`, as a sorted pair.
pub open spec fn step(perm: Seq<usize>, p: (usize, usize)) -> (usize, usize) {
    srt(perm[p.0 as int], perm[p.1 as int])
}

/// The orbits as sequences of pairs.
pub open spec fn ov(o: Seq<Vec<(usize, usize)>>) -> Seq<Seq<(usize, usize)>> {
    Seq::new(o.len(), |r: int| o[r]@)
}

/// The pair `p` sits in one of the orbits `0..=r`.
pub open spec fn listed_upto(orbs: Seq<Seq<(usize, usize)>>, p: (usize, usize), r: int) -> bool {
    exists|r2: int, k2: int| 0 <= r2 <= r && r2 < orbs.len() && 0 <= k2 < orbs[r2].len() && #[trigger] orbs[r2][k2] == p
}

/// `orbs` lists the orbits of the pairs `a < b < n` under `perm`: every pair
/// lies in exactly one orbit, each orbit is a nonempty walk `p, step(p), ..`,
/// and the step after its last pair leads back into an orbit already listed.
pub open spec fn orbits_spec(perm: Seq<usize>, n: int, orbs: Seq<Seq<(usize, usize)>>) -> bool {
    &&& forall|r: int| 0 <= r < orbs.len() ==> #[trigger] orbs[r].len() >= 1
    &&& forall|r: int, k: int|
        0 <= r < orbs.len() && 0 <= k < orbs[r].len() ==> (#[trigger] orbs[r][k]).0 < orbs[r][k].1 < n
    &&& forall|r: int, k: int|
        0 <= r < orbs.len() && 0 <= k && k + 1 < orbs[r].len() ==> #[trigger] orbs[r][k + 1] == step(perm, orbs[r][k])
    &&& forall|a: usize, b: usize| a < b < n ==> #[trigger] listed_upto(orbs, (a, b), orbs.len() - 1)
    &&& forall|r: int, k: int, r2: int, k2: int|
        0 <= r < orbs.len() && 0 <= k < orbs[r].len() && 0 <= r2 < orbs.len() && 0 <= k2 < orbs[r2].len()
            && #[trigger] orbs[r][k] == #[trigger] orbs[r2][k2] ==> r == r2 && k == k2
    &&& forall|r: int| 0 <= r < orbs.len() ==> #[trigger] listed_upto(orbs, step(perm, orbs[r].last()), r)
}

/// Number of set entries among the first `k`.
pub open spec fn trues(s: Seq<bool>, k: int) -> nat
    decreases k,
{
    if k <= 0 {
        0
    } else {
        trues(s, k - 1) + if s[k - 1] { 1nat } else { 0nat }
    }
}

proof fn lemma_trues_bound(s: Seq<bool>, k: int)
    requires
        0 <= k <= s.len(),
    ensures
        trues(s, k) <= k,
    decreases k,
{
    if k > 0 {
        lemma_trues_bound(s, k - 1);
    }
}

proof fn lemma_trues_set(s: Seq<bool>, i: int, k: int)
    requires
        0 <= i < s.len(),
        !s[i],
        0 <= k <= s.len(),
    ensures
        trues(s.update(i, true), k) == trues(s, k) + if i < k { 1nat } else { 0nat },
    decreases k,
{
    if k > 0 {
        lemma_trues_set(s, i, k - 1);
    }
}

proof fn lemma_trues_zero(s: Seq<bool>, k: int)
    requires
        forall|i: int| 0 <= i < k ==> !#[trigger] s[i],
    ensures
        trues(s, k) == 0,
    decreases k,
{
    if k > 0 {
        lemma_trues_zero(s, k - 1);
    }
}

proof fn lemma_cell(x: int, y: int, x2: int, y2: int, n: int)
    requires
        0 <= x < n,
        0 <= y < n,
        0 <= x2 < n,
        0 <= y2 < n,
    ensures
        0 <= x * n + y < n * n,
        x * n + y == x2 * n + y2 ==> x == x2 && y == y2,
{
    assert(0 <= x * n + y < n * n) by (nonlinear_arith)
        requires
            0 <= x < n,
            0 <= y < n,
    ;
    assert(x * n + y == x2 * n + y2 ==> x == x2 && y == y2) by (nonlinear_arith)
        requires
            0 <= x < n,
            0 <= y < n,
            0 <= x2 < n,
            0 <= y2 < n,
    ;
}

/// Where each listed pair sits: `loc[p] == (r, k)` iff orbit `r` has `p` at `k`.
pub open spec fn loc_ok(loc: Map<(usize, usize), (int, int)>, o: Seq<Seq<(usize, usize)>>) -> bool {
    &&& forall|p: (usize, usize)|
        #[trigger] loc.dom().contains(p) ==> 0 <= loc[p].0 < o.len() && 0 <= loc[p].1 < o[loc[p].0].len() && o[loc[p].0][loc[p].1] == p
    &&& forall|r: int, k: int|
        0 <= r < o.len() && 0 <= k < o[r].len() ==> loc.dom().contains(#[trigger] o[r][k]) && loc[o[r][k]] == (r, k)
}

/// `seen[x * n + y]` records exactly the listed pairs.
pub open spec fn seen_ok(seen: Seq<bool>, n: int, loc: Map<(usize, usize), (int, int)>) -> bool {
    &&& seen.len() == n * n
    &&& forall|x: int, y: int|
        0 <= x < n && 0 <= y < n ==> #[trigger] seen[x * n + y] == loc.dom().contains((x as usize, y as usize))
    &&& trues(seen, n * n) == loc.dom().len()
    &&& loc.dom().finite()
}

/// Each orbit is a nonempty walk `p, step(p), ..` of sorted pairs of `0..n`.
pub open spec fn walks_ok(perm: Seq<usize>, n: int, o: Seq<Seq<(usize, usize)>>) -> bool {
    &&& forall|r: int| 0 <= r < o.len() ==> #[trigger] o[r].len() >= 1
    &&& forall|r: int, k: int| 0 <= r < o.len() && 0 <= k < o[r].len() ==> (#[trigger] o[r][k]).0 < o[r][k].1 < n
    &&& forall|r: int, k: int|
        0 <= r < o.len() && 0 <= k && k + 1 < o[r].len() ==> #[trigger] o[r][k + 1] == step(perm, o[r][k])
}

/// The step after the last pair of each of the first `m` orbits leads to a pair
/// already listed in an orbit no later than its own.
pub open spec fn closed_upto(perm: Seq<usize>, o: Seq<Seq<(usize, usize)>>, loc: Map<(usize, usize), (int, int)>, m: int) -> bool {
    forall|r: int|
        0 <= r < m ==> #[trigger] loc.dom().contains(step(perm, o[r].last())) && loc[step(perm, o[r].last())].0 <= r
}

proof fn lemma_closed_push(perm: Seq<usize>, o0: Seq<Seq<(usize, usize)>>, w: Seq<(usize, usize)>, loc: Map<(usize, usize), (int, int)>)
    requires
        closed_upto(perm, o0, loc, o0.len() as int),
        loc.dom().contains(step(perm, w.last())),
        loc[step(perm, w.last())].0 <= o0.len(),
    ensures
        closed_upto(perm, o0.push(w), loc, o0.len() + 1int),
{
    let o1 = o0.push(w);
    assert forall|r: int| 0 <= r < o0.len() + 1 implies #[trigger] loc.dom().contains(step(perm, o1[r].last()))
        && loc[step(perm, o1[r].last())].0 <= r by {
        if r < o0.len() {
            assert(o1[r] == o0[r]);
            assert(loc.dom().contains(step(perm, o0[r].last())));
        } else {
            assert(o1[r] == w);
        }
    }
}

/// All pairs before `(a, b)` in lexicographic order are listed.
pub open spec fn covered(loc: Map<(usize, usize), (int, int)>, n: int, a: int, b: int) -> bool {
    forall|x: int, y: int|
        (0 <= x < a && x < y < n) || (x == a && a < y < b) ==> #[trigger] loc.dom().contains((x as usize, y as usize))
}

/// A walk being extended: sorted pairs of `0..n`, each the step of the one before.
pub open spec fn walk_ok(perm: Seq<usize>, n: int, w: Seq<(usize, usize)>) -> bool {
    &&& forall|k: int| 0 <= k < w.len() ==> (#[trigger] w[k]).0 < w[k].1 < n
    &&& forall|k: int| 0 <= k && k + 1 < w.len() ==> #[trigger] w[k + 1] == step(perm, w[k])
}

/// The orbits of the unordered pairs `{a, b}` of `0..n` under the permutation
/// `perm`, each listed from its lexicographically first pair.
pub fn edge_orbits(perm: &[usize], n: usize) -> (orbits: Vec<Vec<(usize, usize)>>)
    requires
        perm_ok(perm@, n as int),
        n * n <= usize::MAX,
    ensures
        orbits_spec(perm@, n as int, ov(orbits@)),
{
    let nn = n * n;
    let mut seen: Vec<bool> = vec![false; nn];
    let mut orbits: Vec<Vec<(usize, usize)>> = Vec::new();
    let ghost mut loc: Map<(usize, usize), (int, int)> = Map::empty();
    proof {
        assert forall|x: int, y: int| 0 <= x < n && 0 <= y < n implies #[trigger] seen@[x * n + y] == loc.dom().contains((x as usize, y as usize)) by {
            lemma_cell(x, y, x, y, n as int);
        }
        lemma_trues_zero(seen@, nn as int);
        assert(loc.dom() =~= Set::empty());
    }
    let mut a = 0usize;
    while a < n
        invariant
            perm_ok(perm@, n as int),
            nn == n * n,
            a <= n,
            seen_ok(seen@, n as int, loc),
            loc_ok(loc, ov(orbits@)),
            walks_ok(perm@, n as int, ov(orbits@)),
            closed_upto(perm@, ov(orbits@), loc, orbits@.len() as int),
            covered(loc, n as int, a as int, a + 1),
        decreases n - a,
    {
        let mut b = a + 1;
        while b < n
            invariant
                perm_ok(perm@, n as int),
                nn == n * n,
                a < n,
                a + 1 <= b <= n,
                seen_ok(seen@, n as int, loc),
                loc_ok(loc, ov(orbits@)),
                walks_ok(perm@, n as int, ov(orbits@)),
                closed_upto(perm@, ov(orbits@), loc, orbits@.len() as int),
                covered(loc, n as int, a as int, b as int),
            decreases n - b,
        {
            proof {
                lemma_cell(a as int, b as int, a as int, b as int, n as int);
            }
            if !seen[a * n + b] {
                let mut orb: Vec<(usize, usize)> = Vec::new();
                let mut ca = a;
                let mut cb = b;
                let ghost r = orbits@.len() as int;
                let ghost o0 = ov(orbits@);
                proof {
                    assert(o0.push(orb@) =~= o0.push(Seq::empty()));
                    assert forall|rr: int, kk: int| 0 <= rr < o0.push(orb@).len() && 0 <= kk < o0.push(orb@)[rr].len()
                        implies loc.dom().contains(#[trigger] o0.push(orb@)[rr][kk]) && loc[o0.push(orb@)[rr][kk]] == (rr, kk) by {
                        assert(rr < r);
                        assert(o0.push(orb@)[rr] == o0[rr]);
                    }
                }
                loop
                    invariant
                        perm_ok(perm@, n as int),
                        nn == n * n,
                        a < b < n,
                        r == orbits@.len(),
                        o0 == ov(orbits@),
                        ca < n,
                        cb < n,
                        ca != cb,
                        seen_ok(seen@, n as int, loc),
                        loc_ok(loc, o0.push(orb@)),
                        walks_ok(perm@, n as int, o0),
                        closed_upto(perm@, o0, loc, r),
                        covered(loc, n as int, a as int, b as int),
                        walk_ok(perm@, n as int, orb@),
                        orb@.len() == 0 ==> ca == a && cb == b,
                        orb@.len() > 0 ==> srt(ca, cb) == step(perm@, orb@.last()),
                        orb@.len() > 0 ==> orb@[0] == (a, b),
                        orb@.len() > 0 || !loc.dom().contains((a, b)),
                    ensures
                        seen_ok(seen@, n as int, loc),
                        loc_ok(loc, o0.push(orb@)),
                        closed_upto(perm@, o0, loc, r),
                        walk_ok(perm@, n as int, orb@),
                        orb@.len() >= 1,
                        orb@[0] == (a, b),
                        loc.dom().contains(step(perm@, orb@.last())),
                        loc[step(perm@, orb@.last())].0 <= r,
                        covered(loc, n as int, a as int, b + 1),
                    decreases nn - loc.dom().len(),
                {
                    let (x, y) = sorted_pair(ca, cb);
                    proof {
                        lemma_cell(x as int, y as int, x as int, y as int, n as int);
                    }
                    if seen[x * n + y] {
                        proof {
                            let o2 = o0.push(orb@);
                            assert(loc.dom().contains((x, y)));
                            assert(o2[r] == orb@);
                            assert(o2[r][0] == orb@[0]);
                            assert(loc.dom().contains((a, b)));
                            assert forall|xx: int, yy: int|
                                (0 <= xx < a && xx < yy < n) || (xx == a && a < yy < b + 1) implies #[trigger] loc.dom().contains(
                                (xx as usize, yy as usize)) by {
                                if xx == a && yy == b {
                                    assert(loc.dom().contains((a, b)));
                                }
                            }
                        }
                        break;
                    }
                    let ghost seen0 = seen@;
                    let ghost loc0 = loc;
                    let ghost o_old = o0.push(orb@);
                    seen.set(x * n + y, true);
                    orb.push((x, y));
                    proof {
                        let k = orb@.len() - 1;
                        let o_new = o0.push(orb@);
                        assert(!loc0.dom().contains((x, y)));
                        loc = loc0.insert((x, y), (r, k));
                        assert forall|p: (usize, usize)| #[trigger] loc.dom().contains(p) implies 0 <= loc[p].0 < o_new.len()
                            && 0 <= loc[p].1 < o_new[loc[p].0].len() && o_new[loc[p].0][loc[p].1] == p by {
                            if p != (x, y) {
                                let q = loc0[p];
                                assert(o_old[q.0][q.1] == p);
                                if q.0 == r {
                                    assert(o_old[r] == orb@.drop_last());
                                    assert(o_new[r] == orb@);
                                } else {
                                    assert(o_new[q.0] == o_old[q.0]);
                                }
                            } else {
                                assert(o_new[r] == orb@);
                            }
                        }
                        assert forall|rr: int, kk: int| 0 <= rr < o_new.len() && 0 <= kk < o_new[rr].len() implies loc.dom().contains(
                            #[trigger] o_new[rr][kk]) && loc[o_new[rr][kk]] == (rr, kk) by {
                            if rr == r {
                                assert(o_new[r] == orb@);
                                if kk < k {
                                    assert(o_old[r] == orb@.drop_last());
                                    assert(o_new[rr][kk] == o_old[rr][kk]);
                                    assert(loc0.dom().contains(o_old[rr][kk]));
                                }
                            } else {
                                assert(o_new[rr] == o_old[rr]);
                                assert(loc0.dom().contains(o_old[rr][kk]));
                            }
                        }
                        assert forall|xx: int, yy: int| 0 <= xx < n && 0 <= yy < n implies #[trigger] seen@[xx * n + yy]
                            == loc.dom().contains((xx as usize, yy as usize)) by {
                            lemma_cell(xx, yy, x as int, y as int, n as int);
                        }
                        lemma_trues_set(seen0, x * n + y, nn as int);
                        lemma_trues_bound(seen@, nn as int);
                        assert(loc.dom() == loc0.dom().insert((x, y)));
                        assert forall|rr: int| 0 <= rr < r implies #[trigger] loc.dom().contains(step(perm@, o0[rr].last()))
                            && loc[step(perm@, o0[rr].last())].0 <= rr by {
                            assert(loc0.dom().contains(step(perm@, o0[rr].last())));
                        }
                        assert forall|xx: int, yy: int|
                            (0 <= xx < a && xx < yy < n) || (xx == a && a < yy < b) implies #[trigger] loc.dom().contains(
                            (xx as usize, yy as usize)) by {
                            assert(loc0.dom().contains((xx as usize, yy as usize)));
                        }
                    }
                    let na = perm[ca];
                    let nb = perm[cb];
                    ca = na;
                    cb = nb;
                }
                let ghost orb_v = orb@;
                orbits.push(orb);
                proof {
                    assert(ov(orbits@) =~= o0.push(orb_v));
                    let o1 = ov(orbits@);
                    assert(o1[r] == orb_v);
                    assert forall|rr: int| 0 <= rr < r implies #[trigger] o1[rr] == o0[rr] by {}
                    assert(walks_ok(perm@, n as int, o1)) by {
                        assert forall|rr: int, kk: int| 0 <= rr < o1.len() && 0 <= kk && kk + 1 < o1[rr].len() implies
                            #[trigger] o1[rr][kk + 1] == step(perm@, o1[rr][kk]) by {
                            if rr < r {
                                assert(o1[rr] == o0[rr]);
                            }
                        }
                        assert forall|rr: int, kk: int| 0 <= rr < o1.len() && 0 <= kk < o1[rr].len() implies (#[trigger] o1[rr][kk]).0
                            < o1[rr][kk].1 < n by {
                            if rr < r {
                                assert(o1[rr] == o0[rr]);
                            }
                        }
                        assert forall|rr: int| 0 <= rr < o1.len() implies #[trigger] o1[rr].len() >= 1 by {
                            if rr < r {
                                assert(o1[rr] == o0[rr]);
                            }
                        }
                    }
                    lemma_closed_push(perm@, o0, orb_v, loc);
                }
            } else {
                proof {
                    assert forall|xx: int, yy: int|
                        (0 <= xx < a && xx < yy < n) || (xx == a && a < yy < b + 1) implies #[trigger] loc.dom().contains(
                        (xx as usize, yy as usize)) by {
                        if xx == a && yy == b {
                            assert(seen@[a * n + b]);
                        }
                    }
                }
            }
            b += 1;
        }
        proof {
            assert forall|x: int, y: int| (0 <= x < a + 1 && x < y < n) || (x == a + 1 && a + 1 < y < a + 2) implies #[trigger] loc.dom().contains(
                (x as usize, y as usize)) by {
                if x == a {
                    assert(x == a && a < y < b);
                }
            }
        }
        a += 1;
    }
    proof {
        let o = ov(orbits@);
        assert forall|x: usize, y: usize| x < y < n implies #[trigger] listed_upto(o, (x, y), o.len() - 1) by {
            let xi = x as int;
            let yi = y as int;
            assert(loc.dom().contains((xi as usize, yi as usize)));
            assert((xi as usize, yi as usize) == (x, y));
            let q = loc[(x, y)];
            assert(o[q.0][q.1] == (x, y));
        }
        assert forall|r: int, k: int, r2: int, k2: int|
            0 <= r < o.len() && 0 <= k < o[r].len() && 0 <= r2 < o.len() && 0 <= k2 < o[r2].len()
                && #[trigger] o[r][k] == #[trigger] o[r2][k2] implies r == r2 && k == k2 by {
            assert(loc[o[r][k]] == (r, k));
            assert(loc[o[r2][k2]] == (r2, k2));
        }
        assert forall|r: int| 0 <= r < o.len() implies #[trigger] listed_upto(o, step(perm@, o[r].last()), r) by {
            let p = step(perm@, o[r].last());
            assert(loc.dom().contains(step(perm@, o[r].last())));
            let q = loc[p];
            assert(o[q.0][q.1] == p);
        }
    }
    orbits
}
/// The vertices `w` of `full`, other than `u`, that `u` does not beat (in a
/// tournament: the vertices that beat `u`).
pub open spec fn beaten_by(beats: Seq<u32>, full: u32, u: int) -> u32 {
    (full ^ (1u32 << (u as u32))) & !beats[u]
}

/// Every pair `u < v < n` is beaten by a common vertex.
pub open spec fn s2_rows_spec(beats: Seq<u32>, n: int, full: u32) -> bool {
    forall|u: int, v: int| 0 <= u < v < n ==> #[trigger] common_beater(beats, full, u, v)
}

pub open spec fn common_beater(beats: Seq<u32>, full: u32, u: int, v: int) -> bool {
    exists|w: int| 0 <= w < 32 && #[trigger] bit32(beaten_by(beats, full, u), w) && bit32(beaten_by(beats, full, v), w)
}

/// The S2 test on 32-bit rows: every pair has a common dominator, a vertex
/// of `full` that neither of them beats.
pub fn is_s2_rows(beats: &[u32], n: usize, full: u32) -> (r: bool)
    requires
        n <= 16,
        beats@.len() >= n,
    ensures
        r == s2_rows_spec(beats@, n as int, full),
{
    let mut beatenby = [0u32; 16];
    let mut i = 0usize;
    while i < n
        invariant
            n <= 16,
            beats@.len() >= n,
            i <= n,
            forall|k: int| 0 <= k < i ==> #[trigger] beatenby[k] == beaten_by(beats@, full, k),
        decreases n - i,
    {
        beatenby[i] = (full ^ (1u32 << (i as u32))) & !beats[i];
        i += 1;
    }
    let mut u = 0usize;
    while u < n
        invariant
            n <= 16,
            beats@.len() >= n,
            u <= n,
            forall|k: int| 0 <= k < n ==> #[trigger] beatenby[k] == beaten_by(beats@, full, k),
            forall|x: int, y: int| 0 <= x < u && x < y < n ==> #[trigger] common_beater(beats@, full, x, y),
        decreases n - u,
    {
        let mut v = u + 1;
        while v < n
            invariant
                n <= 16,
                beats@.len() >= n,
                u < n,
                u + 1 <= v <= n,
                forall|k: int| 0 <= k < n ==> #[trigger] beatenby[k] == beaten_by(beats@, full, k),
                forall|x: int, y: int|
                    (0 <= x < u && x < y < n) || (x == u && u < y < v) ==> #[trigger] common_beater(beats@, full, x, y),
            decreases n - v,
        {
            let both = beatenby[u] & beatenby[v];
            proof {
                lemma_bit32_wide(beatenby[u as int]);
                lemma_bit32_wide(beatenby[v as int]);
                lemma_bit32_wide(both);
                lemma_no_bits_zero(both as u64);
                assert(both as u64 == (beatenby[u as int] as u64) & (beatenby[v as int] as u64));
            }
            if both == 0 {
                proof {
                    assert forall|w: int| 0 <= w < 32 implies !(#[trigger] bit32(beaten_by(beats@, full, u as int), w)
                        && bit32(beaten_by(beats@, full, v as int), w)) by {
                        lemma_bit_and(beatenby[u as int] as u64, beatenby[v as int] as u64, w as u64);
                        assert(!bit(both as u64, w));
                    }
                    assert(!common_beater(beats@, full, u as int, v as int));
                }
                return false;
            }
            proof {
                let w = choose|w: int| 0 <= w < 64 && #[trigger] bit(both as u64, w);
                lemma_bit_and(beatenby[u as int] as u64, beatenby[v as int] as u64, w as u64);
                assert(bit32(beaten_by(beats@, full, u as int), w) && bit32(beaten_by(beats@, full, v as int), w));
                assert(common_beater(beats@, full, u as int, v as int));
            }
            v += 1;
        }
        u += 1;
    }
    true
}

/// The ordered pair reached from `p` after `t` applications of `perm`.
pub open spec fn walk(perm: Seq<usize>, p: (usize, usize), t: int) -> (usize, usize)
    decreases t,
{
    if t <= 0 {
        p
    } else {
        let q = walk(perm, p, t - 1);
        (perm[q.0 as int], perm[q.1 as int])
    }
}

/// Orients the pair `w`: its first vertex beats the second, or the reverse when `flip`.
pub open spec fn orient(rows: Seq<u32>, w: (usize, usize), flip: bool) -> Seq<u32> {
    if !flip {
        rows.update(w.0 as int, rows[w.0 as int] | (1u32 << (w.1 as u32)))
    } else {
        rows.update(w.1 as int, rows[w.1 as int] | (1u32 << (w.0 as u32)))
    }
}

/// The first `t` pairs of the walk from `p`, all oriented the same way.
pub open spec fn orient_walk(perm: Seq<usize>, p: (usize, usize), flip: bool, rows: Seq<u32>, t: int) -> Seq<u32>
    decreases t,
{
    if t <= 0 {
        rows
    } else {
        orient(orient_walk(perm, p, flip, rows, t - 1), walk(perm, p, t - 1), flip)
    }
}

/// The tournament on `n` vertices whose orbit `r` is oriented by bit `r` of
/// `assign` (0: each walk pair as listed, 1: reversed); the first `k` orbits.
pub open spec fn assembled(perm: Seq<usize>, orbits: Seq<Seq<(usize, usize)>>, n: int, assign: u64, k: int) -> Seq<u32>
    decreases k,
{
    if k <= 0 {
        Seq::new(n as nat, |i: int| 0u32)
    } else {
        orient_walk(perm, orbits[k - 1][0], bit(assign, k - 1), assembled(perm, orbits, n, assign, k - 1), orbits[k - 1].len() as int)
    }
}

/// Number of assignments `a < count_to` whose assembled tournament is S2.
pub open spec fn s2_assignments(perm: Seq<usize>, orbits: Seq<Seq<(usize, usize)>>, n: int, full: u32, count_to: int) -> nat
    decreases count_to,
{
    if count_to <= 0 {
        0
    } else {
        s2_assignments(perm, orbits, n, full, count_to - 1) + if s2_rows_spec(
            assembled(perm, orbits, n, (count_to - 1) as u64, orbits.len() as int),
            n,
            full,
        ) {
            1nat
        } else {
            0nat
        }
    }
}

/// The mask of the first `n` vertices as the count builds it.
pub open spec fn full_rows(n: int) -> u32 {
    if n == 32 {
        0xffff_ffffu32
    } else {
        ((1u32 << (n as u32)) - 1) as u32
    }
}

/// The orbits fit the count: fewer than 64, each a nonempty walk from a pair of `0..n`.
pub open spec fn orbits_countable(orbits: Seq<Seq<(usize, usize)>>, n: int) -> bool {
    &&& orbits.len() < 64
    &&& forall|r: int| 0 <= r < orbits.len() ==> (#[trigger] orbits[r]).len() >= 1 && orbits[r][0].0 < n && orbits[r][0].1 < n
}

proof fn lemma_walk_in_range(perm: Seq<usize>, n: int, p: (usize, usize), t: int)
    requires
        perm_ok(perm, n),
        p.0 < n,
        p.1 < n,
    ensures
        walk(perm, p, t).0 < n,
        walk(perm, p, t).1 < n,
    decreases t,
{
    if t > 0 {
        lemma_walk_in_range(perm, n, p, t - 1);
    }
}

/// `S(lambda)`: the number of ways to orient the pair orbits of `perm` (one bit
/// per orbit, each orbit's walk oriented alike) that give an S2 tournament.
pub fn count_s_lambda(orbits: &Vec<Vec<(usize, usize)>>, perm: &[usize], n: usize) -> (count: u128)
    requires
        n <= 16,
        perm_ok(perm@, n as int),
        orbits_countable(ov(orbits@), n as int),
    ensures
        count == s2_assignments(perm@, ov(orbits@), n as int, full_rows(n as int), two_pow(orbits@.len() as nat) as int),
{
    proof {
        if n > 0 {
            crate::matching::lemma_deleted_mask(n, 0);
        } else {
            assert((1u32 << 0u32) == 1) by (bit_vector);
        }
    }
    let full: u32 = if n == 32 { u32::MAX } else { (1u32 << (n as u32)) - 1 };
    let m = orbits.len();
    let ghost o = ov(orbits@);
    let mut ordered: Vec<Vec<(usize, usize)>> = Vec::new();
    let mut r = 0usize;
    while r < m
        invariant
            n <= 16,
            perm_ok(perm@, n as int),
            o == ov(orbits@),
            orbits_countable(o, n as int),
            m == orbits@.len(),
            r <= m,
            ordered@.len() == r,
            forall|q: int| 0 <= q < r ==> (#[trigger] ordered@[q])@ == Seq::new(o[q].len(), |t: int| walk(perm@, o[q][0], t)),
        decreases m - r,
    {
        let orb = &orbits[r];
        proof {
            assert(orb@ == o[r as int]);
        }
        let (a0, b0) = orb[0];
        let mut sq: Vec<(usize, usize)> = Vec::new();
        let mut ca = a0;
        let mut cb = b0;
        let mut t = 0usize;
        while t < orb.len()
            invariant
                n <= 16,
                perm_ok(perm@, n as int),
                orb@ == o[r as int],
                orbits_countable(o, n as int),
                r < m == o.len(),
                (a0, b0) == o[r as int][0],
                t <= orb@.len(),
                (ca, cb) == walk(perm@, (a0, b0), t as int),
                sq@ == Seq::new(t as nat, |k: int| walk(perm@, o[r as int][0], k)),
            decreases orb@.len() - t,
        {
            proof {
                lemma_walk_in_range(perm@, n as int, (a0, b0), t as int);
            }
            sq.push((ca, cb));
            let na = perm[ca];
            let nb = perm[cb];
            ca = na;
            cb = nb;
            t += 1;
            proof {
                assert(sq@ =~= Seq::new(t as nat, |k: int| walk(perm@, o[r as int][0], k)));
            }
        }
        ordered.push(sq);
        r += 1;
    }
    let mut count: u128 = 0;
    let mut beats: Vec<u32> = vec![0u32; n];
    proof {
        assert(m < 64);
        crate::within::lemma_shl_two_pow(m as u64);
    }
    let total = 1u64 << (m as u64);
    let mut assign = 0u64;
    while assign < total
        invariant
            n <= 16,
            perm_ok(perm@, n as int),
            o == ov(orbits@),
            orbits_countable(o, n as int),
            m == o.len(),
            total == two_pow(m as nat),
            ordered@.len() == m,
            forall|q: int| 0 <= q < m ==> (#[trigger] ordered@[q])@ == Seq::new(o[q].len(), |t: int| walk(perm@, o[q][0], t)),
            full == full_rows(n as int),
            beats@.len() == n,
            assign <= total,
            count == s2_assignments(perm@, o, n as int, full, assign as int),
            count <= assign,
        decreases total - assign,
    {
        let mut i = 0usize;
        while i < n
            invariant
                beats@.len() == n,
                i <= n,
                forall|k: int| 0 <= k < i ==> #[trigger] beats@[k] == 0u32,
            decreases n - i,
        {
            beats.set(i, 0);
            i += 1;
        }
        proof {
            assert(beats@ =~= assembled(perm@, o, n as int, assign, 0));
        }
        let mut r = 0usize;
        while r < m
            invariant
                n <= 16,
                perm_ok(perm@, n as int),
                orbits_countable(o, n as int),
                m == o.len(),
                ordered@.len() == m,
                forall|q: int| 0 <= q < m ==> (#[trigger] ordered@[q])@ == Seq::new(o[q].len(), |t: int| walk(perm@, o[q][0], t)),
                r <= m,
                beats@ == assembled(perm@, o, n as int, assign, r as int),
                beats@.len() == n,
            decreases m - r,
        {
            let flip = (assign >> (r as u64)) & 1 == 1;
            let sq = &ordered[r];
            let ghost start = beats@;
            let mut t = 0usize;
            while t < sq.len()
                invariant
                    n <= 16,
                    perm_ok(perm@, n as int),
                    orbits_countable(o, n as int),
                    r < m == o.len(),
                    sq@ == Seq::new(o[r as int].len(), |k: int| walk(perm@, o[r as int][0], k)),
                    flip == bit(assign, r as int),
                    t <= sq@.len(),
                    beats@ == orient_walk(perm@, o[r as int][0], flip, start, t as int),
                    beats@.len() == n,
                decreases sq@.len() - t,
            {
                let (ca, cb) = sq[t];
                proof {
                    lemma_walk_in_range(perm@, n as int, o[r as int][0], t as int);
                }
                if !flip {
                    let x = beats[ca] | (1u32 << (cb as u32));
                    beats.set(ca, x);
                } else {
                    let x = beats[cb] | (1u32 << (ca as u32));
                    beats.set(cb, x);
                }
                t += 1;
            }
            r += 1;
        }
        let ok = is_s2_rows(&beats, n, full);
        if ok {
            count += 1;
        }
        assign += 1;
    }
    count
}

/// Number of pairs `x < y < n` with `x >= i`: the rest of the upper triangle
/// from row `i` on.
pub open spec fn pairs_from(n: int, i: int) -> int
    decreases n - i,
{
    if i >= n {
        0
    } else {
        (n - i - 1) + pairs_from(n, i + 1)
    }
}

/// Position of the pair `i < j` in a row-by-row upper triangle of an `n`-vertex tournament.
pub open spec fn tri_pos(n: int, i: int, j: int) -> int {
    pairs_from(n, 0) - pairs_from(n, i) + (j - i - 1)
}

/// Who beats whom in a row-by-row upper-triangle line: for `i < j`, `i` beats
/// `j` iff the pair's character is `'1'`.
pub open spec fn line_beats(line: Seq<u8>, n: int, i: int, j: int) -> bool {
    &&& 0 <= i < n
    &&& 0 <= j < n
    &&& i != j
    &&& if i < j {
        line[tri_pos(n, i, j)] == 49u8
    } else {
        line[tri_pos(n, j, i)] != 49u8
    }
}

proof fn lemma_pairs_from(n: int, i: int)
    requires
        0 <= i <= n,
    ensures
        2 * pairs_from(n, i) == (n - i) * (n - i - 1),
        pairs_from(n, i) >= 0,
    decreases n - i,
{
    if i < n {
        lemma_pairs_from(n, i + 1);
        assert((n - i) * (n - i - 1) == 2 * (n - i - 1) + (n - (i + 1)) * (n - (i + 1) - 1)) by (nonlinear_arith);
    } else {
        assert((n - i) * (n - i - 1) == 0) by (nonlinear_arith)
            requires
                i == n,
        ;
    }
    assert((n - i) * (n - i - 1) >= 0) by (nonlinear_arith)
        requires
            0 <= i <= n,
    ;
}

/// Reads one row-by-row upper-triangle tournament line (`'1'` at pair `i < j`
/// means `i` beats `j`) into rows of beaters: bit `i` of `beaters[v]` is set
/// iff `i` beats `v`.
pub fn upper_triangle_beaters(line: &[u8], n: usize) -> (beaters: [u16; 16])
    requires
        n <= 16,
        line@.len() >= n * (n - 1) / 2,
    ensures
        forall|v: int, i: int| 0 <= v < 16 && 0 <= i < 16 ==> #[trigger] bit16(beaters[v], i) == line_beats(line@, n as int, i, v),
{
    let mut beaters = [0u16; 16];
    let mut idx = 0usize;
    let mut i = 0usize;
    proof {
        assert forall|v: int, t: int| 0 <= v < 16 && 0 <= t < 16 implies !#[trigger] bit16(beaters[v], t) by {
            lemma_bit16_set(0u16, 0, t as u16);
        }
        lemma_pairs_from(n as int, 0);
    }
    while i < n
        invariant
            n <= 16,
            line@.len() >= pairs_from(n as int, 0),
            i <= n,
            idx == pairs_from(n as int, 0) - pairs_from(n as int, i as int),
            forall|v: int, x: int| 0 <= v < 16 && 0 <= x < 16 ==> #[trigger] bit16(beaters[v], x) == (line_beats(line@, n as int, x, v)
                && (x < i || v < i)),
        decreases n - i,
    {
        let mut j = i + 1;
        proof {
            lemma_pairs_from(n as int, i as int);
            lemma_pairs_from(n as int, i + 1);
            lemma_pairs_from(n as int, 0);
        }
        while j < n
            invariant
                n <= 16,
                line@.len() >= pairs_from(n as int, 0),
                i < n,
                i + 1 <= j <= n,
                idx == tri_pos(n as int, i as int, j as int),
                pairs_from(n as int, i as int) == (n - i - 1) + pairs_from(n as int, i + 1),
                pairs_from(n as int, i + 1) >= 0,
                pairs_from(n as int, 0) >= pairs_from(n as int, i as int),
                forall|v: int, x: int| 0 <= v < 16 && 0 <= x < 16 ==> #[trigger] bit16(beaters[v], x) == (line_beats(line@, n as int, x, v)
                    && (x < i || v < i || (x == i && v < j) || (v == i && x < j))),
            decreases n - j,
        {
            let c = line[idx];
            let ghost b0 = beaters;
            if c == 49u8 {
                beaters[j] = beaters[j] | (1u16 << (i as u16));
            } else {
                beaters[i] = beaters[i] | (1u16 << (j as u16));
            }
            proof {
                assert forall|v: int, x: int| 0 <= v < 16 && 0 <= x < 16 implies #[trigger] bit16(beaters[v], x) == (line_beats(line@, n as int, x, v)
                    && (x < i || v < i || (x == i && v < j + 1) || (v == i && x < j + 1))) by {
                    if c == 49u8 && v == j {
                        lemma_bit16_set(b0[v], i as u16, x as u16);
                    } else if c != 49u8 && v == i {
                        lemma_bit16_set(b0[v], j as u16, x as u16);
                    } else {
                        assert(beaters[v] == b0[v]);
                    }
                }
            }
            idx += 1;
            j += 1;
        }
        i += 1;
    }
    beaters
}

/// Every pair `i < j < n` has a common beater in the rows of beaters.
pub open spec fn beaters_s2_spec(beaters: [u16; 16], n: int) -> bool {
    forall|i: int, j: int| 0 <= i < j < n ==> #[trigger] shared_bit(beaters[i], beaters[j])
}

pub open spec fn shared_bit(a: u16, b: u16) -> bool {
    exists|w: int| 0 <= w < 16 && #[trigger] bit16(a, w) && bit16(b, w)
}

proof fn lemma_and_zero(a: u16, b: u16)
    ensures
        ((a & b) == 0) == !shared_bit(a, b),
{
    let both = a & b;
    lemma_bit16_wide(a);
    lemma_bit16_wide(b);
    lemma_bit16_wide(both);
    lemma_no_bits_zero(both as u64);
    assert(both as u64 == (a as u64) & (b as u64));
    if both == 0 {
        assert forall|w: int| 0 <= w < 16 implies !(#[trigger] bit16(a, w) && bit16(b, w)) by {
            lemma_bit_and(a as u64, b as u64, w as u64);
            assert(!bit(both as u64, w));
        }
    } else {
        let w = choose|w: int| 0 <= w < 64 && #[trigger] bit(both as u64, w);
        lemma_bit_and(a as u64, b as u64, w as u64);
        assert(bit16(a, w) && bit16(b, w));
    }
}

/// The S2 test on rows of beaters: every pair of the first `n` vertices has a
/// common beater.
pub fn beaters_s2(beaters: &[u16; 16], n: usize) -> (r: bool)
    requires
        n <= 16,
    ensures
        r == beaters_s2_spec(*beaters, n as int),
{
    let mut i = 0usize;
    while i < n
        invariant
            n <= 16,
            i <= n,
            forall|x: int, y: int| 0 <= x < i && x < y < n ==> #[trigger] shared_bit(beaters[x], beaters[y]),
        decreases n - i,
    {
        let mut j = i + 1;
        while j < n
            invariant
                n <= 16,
                i < n,
                i + 1 <= j <= n,
                forall|x: int, y: int|
                    (0 <= x < i && x < y < n) || (x == i && i < y < j) ==> #[trigger] shared_bit(beaters[x], beaters[y]),
            decreases n - j,
        {
            proof {
                lemma_and_zero(beaters[i as int], beaters[j as int]);
            }
            if beaters[i] & beaters[j] == 0 {
                return false;
            }
            j += 1;
        }
        i += 1;
    }
    true
}


/// The S2 test on a tournament and the S2 test on its rows of beaters agree:
/// a common dominator of `i` and `j` is a shared beater of both.
pub proof fn lemma_s2_beaters_agree(t: Tour, beaters: [u16; 16])
    requires
        t.n <= 12,
        forall|u: int, w: int| 0 <= u < t.n && 0 <= w < 16 ==> #[trigger] bit16(beaters[u], w) == (w < t.n && bit16(t.adj[w], u)),
    ensures
        s2_spec(t) == beaters_s2_spec(beaters, t.n as int),
{
    let n = t.n as int;
    assert forall|i: int, j: int| 0 <= i < j < n implies #[trigger] common_dominator(t.adj, n, i, j) == shared_bit(beaters[i], beaters[j]) by {
        if common_dominator(t.adj, n, i, j) {
            let k = choose|k: int| 0 <= k < n && #[trigger] bit16(t.adj[k], i) && #[trigger] bit16(t.adj[k], j);
            assert(bit16(beaters[i], k) && bit16(beaters[j], k));
        }
        if shared_bit(beaters[i], beaters[j]) {
            let w = choose|w: int| 0 <= w < 16 && #[trigger] bit16(beaters[i], w) && bit16(beaters[j], w);
            assert(bit16(t.adj[w], i) && bit16(t.adj[w], j));
        }
    }
    if s2_spec(t) {
        assert forall|i: int, j: int| 0 <= i < j < n implies #[trigger] shared_bit(beaters[i], beaters[j]) by {
            assert(common_dominator(t.adj, n, i, j));
        }
    }
    if beaters_s2_spec(beaters, n) {
        assert forall|i: int, j: int| 0 <= i < j < n implies #[trigger] common_dominator(t.adj, n, i, j) by {
            assert(shared_bit(beaters[i], beaters[j]));
        }
    }
}

} // verus!
