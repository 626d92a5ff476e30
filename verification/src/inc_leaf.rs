//! The child extension of the inclusion census: the search over a new move's
//! results in `{-1, 0, 1}` against the parent's moves, under one equality row,
//! strict rows and forced results, with its bound and degree-domination
//! prunes; and the leaf step, where a candidate child is filtered (every move
//! keeps a win and a loss, the child is connected), then accepted when it has
//! the largest signature among the designated moves `Z(v)` of the parent, and
//! counted with the weight `wp * lcm / (2 t)`, `t` the number of designated
//! moves tied with it.
use vstd::prelude::*;
use crate::bits::{bit, lemma_bit_or, lemma_bit_single, lemma_bit_zero, lemma_bit16_wide, lemma_bit16_set};
use crate::game::{connected, is_connected, closed_set, decisive, beats, wf};
use crate::signature::{bit16, cnt16};
use crate::augment::pow3;

verus! {

/// The state that the leaf step reads and the tallies that it advances.
#[derive(Clone, Copy)]
pub struct LeafCtx {
    /// The parent's number of moves.
    pub p: usize,
    /// The number of designated moves `Z(v)`; 0 for a completely mixed parent.
    pub nz: usize,
    /// The designated moves.
    pub zverts: [usize; 16],
    /// The parent's weight `(p)! / |Aut(P)|`.
    pub wp: u128,
    pub lcm: u128,
    /// `lcm / (2 t)` at index `t`.
    pub lcm2t: [u128; 16],
    /// Moves of the parent without a win (they must beat the new move).
    pub nowin: u16,
    /// Moves of the parent without a loss (they must lose to the new move).
    pub noloss: u16,
    pub parent_disconnected: bool,
    /// The parent's rows: bit `j` of `pbeats[i]` when move `i` beats move `j`.
    pub pbeats: [u16; 16],
    /// The move behind each coordinate of the extension vector.
    pub ord: [usize; 16],
    pub obit: [u16; 16],
    /// The parent's out- and in-degrees.
    pub pod: [u8; 16],
    pub pid: [u8; 16],
    pub zpos: [u8; 8],
    pub zpod: [u8; 8],
    pub zpid: [u8; 8],
    pub zmaxpod: u8,
    /// The weighted sum of the accepted children.
    pub sum: u128,
    /// The children that pass the filters.
    pub leaves: u64,
    /// The children accepted by the designated-move rule.
    pub accepted: u64,
}

/// The leaf step can run on `c`: the parent has fewer than 16 moves, its rows
/// and degrees describe a game on them, the designated moves are moves of it,
/// and the coordinates name its moves.
pub open spec fn leaf_ctx_ok(c: LeafCtx) -> bool {
    &&& c.p <= 15
    &&& c.nz <= 14
    &&& forall|t: int| 0 <= t < c.nz ==> #[trigger] c.zverts[t] < c.p
    &&& forall|i: int| 0 <= i < c.p ==> #[trigger] c.ord[i] < c.p
    &&& forall|i: int| 0 <= i < 16 ==> #[trigger] c.pod[i] < 16 && c.pid[i] < 16
    &&& forall|i: int, j: int| 0 <= i < c.p && c.p <= j < 16 ==> !#[trigger] bit16(c.pbeats[i], j)
}

/// Child out-degree of parent move `i`: its parent out-degree, plus one when it beats the new move.
pub open spec fn child_od(c: LeafCtx, plus: u16, i: int) -> int {
    c.pod[i] + if bit16(plus, i) { 1int } else { 0int }
}

/// Child in-degree of parent move `i`.
pub open spec fn child_id(c: LeafCtx, minus: u16, i: int) -> int {
    c.pid[i] + if bit16(minus, i) { 1int } else { 0int }
}

/// The degree pair of child move `u`, packed as `od * 32 + id`.
pub open spec fn deg_code(c: LeafCtx, plus: u16, minus: u16, u: int) -> int {
    if u == c.p {
        (cnt16(minus, 16) * 32 + cnt16(plus, 16)) as int
    } else {
        child_od(c, plus, u) * 32 + child_id(c, minus, u)
    }
}

/// Child move `v` beats child move `u` (the new move is `p`).
pub open spec fn child_beats(c: LeafCtx, plus: u16, minus: u16, v: int, u: int) -> bool {
    if v == c.p {
        bit16(minus, u)
    } else {
        bit16(c.pbeats[v], u) || (u == c.p && bit16(plus, v))
    }
}

/// `sum_{u <= k} [v beats u] deg_code(u)^e` (`e` is 1 or 2) over the first `k` child moves.
pub open spec fn out_digest(c: LeafCtx, plus: u16, minus: u16, v: int, k: int, sq: bool) -> int
    decreases k,
{
    if k <= 0 {
        0
    } else {
        let d = deg_code(c, plus, minus, k - 1);
        out_digest(c, plus, minus, v, k - 1, sq) + if child_beats(c, plus, minus, v, k - 1) {
            if sq { d * d } else { d }
        } else {
            0
        }
    }
}

/// The same over the child moves that beat `v`.
pub open spec fn in_digest(c: LeafCtx, plus: u16, minus: u16, v: int, k: int, sq: bool) -> int
    decreases k,
{
    if k <= 0 {
        0
    } else {
        let d = deg_code(c, plus, minus, k - 1);
        in_digest(c, plus, minus, v, k - 1, sq) + if child_beats(c, plus, minus, k - 1, v) {
            if sq { d * d } else { d }
        } else {
            0
        }
    }
}

/// The signature digest of child move `v`: its degrees, then the sums and sums
/// of squares of the degree codes of the moves it beats and of those that
/// beat it, each kept to 12 bits.
pub open spec fn sig_digest(c: LeafCtx, plus: u16, minus: u16, v: int) -> int {
    let n1 = c.p + 1;
    let (o, i) = if v == c.p {
        (cnt16(minus, 16) as int, cnt16(plus, 16) as int)
    } else {
        (child_od(c, plus, v), child_id(c, minus, v))
    };
    o * 0x100_0000_0000_0000 + i * 0x1_0000_0000_0000 + (out_digest(c, plus, minus, v, n1, false) % 4096) * 0x10_0000_0000 + (out_digest(
        c,
        plus,
        minus,
        v,
        n1,
        true,
    ) % 4096) * 0x100_0000 + (in_digest(c, plus, minus, v, n1, false) % 4096) * 0x1000 + in_digest(c, plus, minus, v, n1, true) % 4096
}

/// The (out, in) degree key of child move `v`.
pub open spec fn deg_key(c: LeafCtx, plus: u16, minus: u16, v: int) -> int {
    if v == c.p {
        (cnt16(minus, 16) * 256 + cnt16(plus, 16)) as int
    } else {
        child_od(c, plus, v) * 256 + child_id(c, minus, v)
    }
}

/// Bit `j` of the child's row `x`.
pub open spec fn child_row_bit(c: LeafCtx, r: Seq<i32>, minus: u16, x: int, j: int) -> bool {
    if x == c.p {
        j < 16 && bit16(minus, j)
    } else {
        (j < 16 && bit16(c.pbeats[x], j)) || (j == c.p && exists|k: int| 0 <= k < c.p && c.ord[k] == x && #[trigger] r[k] > 0)
    }
}

/// The child's decisive pairs connect all its moves.
pub open spec fn child_connected(c: LeafCtx, r: Seq<i32>, minus: u16) -> bool {
    let n1 = c.p + 1;
    forall|s: u64|
        crate::bits::within(s, n1) && bit(s, 0) && (forall|i: int, j: int|
            0 <= i < n1 && 0 <= j < n1 && #[trigger] bit(s, i) && (child_row_bit(c, r, minus, i, j) || child_row_bit(c, r, minus, j, i))
                ==> #[trigger] bit(s, j)) ==> forall|j: int| 0 <= j < n1 ==> #[trigger] bit(s, j)
}

/// The child passes the filters: the new move wins and loses, every move
/// without a win beats it, every move without a loss loses to it, and the
/// child is connected where the parent was not.
pub open spec fn leaf_passes(c: LeafCtx, r: Seq<i32>, plus: u16, minus: u16) -> bool {
    &&& minus != 0
    &&& plus != 0
    &&& forall|j: int| 0 <= j < 16 && bit16(c.nowin, j) ==> #[trigger] bit16(plus, j)
    &&& forall|j: int| 0 <= j < 16 && bit16(c.noloss, j) ==> #[trigger] bit16(minus, j)
    &&& c.parent_disconnected ==> child_connected(c, r, minus)
}

/// The new move has the largest degree key and, among the designated moves
/// tied with it there, the largest signature digest.
pub open spec fn leaf_argmax(c: LeafCtx, plus: u16, minus: u16) -> bool {
    forall|t: int|
        0 <= t < c.nz ==> !(deg_key(c, plus, minus, #[trigger] c.zverts[t] as int) > deg_key(c, plus, minus, c.p as int) || (deg_key(
            c,
            plus,
            minus,
            c.zverts[t] as int,
        ) == deg_key(c, plus, minus, c.p as int) && sig_digest(c, plus, minus, c.zverts[t] as int) > sig_digest(c, plus, minus, c.p as int)))
}

/// Move `z` is a designated move tied with the new move in key and digest.
pub open spec fn tied(c: LeafCtx, plus: u16, minus: u16, z: int) -> bool {
    &&& exists|t: int| 0 <= t < c.nz && #[trigger] c.zverts[t] == z
    &&& deg_key(c, plus, minus, z) == deg_key(c, plus, minus, c.p as int)
    &&& sig_digest(c, plus, minus, z) == sig_digest(c, plus, minus, c.p as int)
}

/// `1 +` the number of tied designated moves below `k`.
pub open spec fn tie_count(c: LeafCtx, plus: u16, minus: u16, k: int) -> int
    decreases k,
{
    if k <= 0 {
        1
    } else {
        tie_count(c, plus, minus, k - 1) + if tied(c, plus, minus, k - 1) { 1int } else { 0int }
    }
}

/// The tied designated moves below `k`.
spec fn tie_set(c: LeafCtx, plus: u16, minus: u16, k: int) -> Set<int> {
    Set::new(|y: int| 0 <= y < k && tied(c, plus, minus, y))
}

proof fn lemma_tie_set(c: LeafCtx, plus: u16, minus: u16, k: int)
    requires
        0 <= k,
    ensures
        tie_set(c, plus, minus, k).finite(),
        tie_count(c, plus, minus, k) == 1 + tie_set(c, plus, minus, k).len(),
    decreases k,
{
    if k == 0 {
        assert(tie_set(c, plus, minus, 0) =~= Set::empty());
    } else {
        lemma_tie_set(c, plus, minus, k - 1);
        if tied(c, plus, minus, k - 1) {
            assert(tie_set(c, plus, minus, k) =~= tie_set(c, plus, minus, k - 1).insert(k - 1));
        } else {
            assert(tie_set(c, plus, minus, k) =~= tie_set(c, plus, minus, k - 1));
        }
    }
}

/// A tie is a designated move, so at most `nz` moves tie the new one.
proof fn lemma_tie_count_bound(c: LeafCtx, plus: u16, minus: u16, k: int)
    requires
        0 <= k,
        c.nz <= 16,
    ensures
        tie_count(c, plus, minus, k) <= c.nz + 1,
{
    lemma_tie_set(c, plus, minus, k);
    let zs = c.zverts@.subrange(0, c.nz as int).map_values(|x: usize| x as int);
    assert(tie_set(c, plus, minus, k).subset_of(zs.to_set())) by {
        assert forall|y: int| #[trigger] tie_set(c, plus, minus, k).contains(y) implies zs.to_set().contains(y) by {
            let t = choose|t: int| 0 <= t < c.nz && #[trigger] c.zverts[t] == y;
            assert(zs[t] == y);
        }
    }
    zs.lemma_cardinality_of_set();
    vstd::set_lib::lemma_len_subset(tie_set(c, plus, minus, k), zs.to_set());
}

/// The leaf step: a child that passes the filters is a leaf; it is accepted
/// when the parent is completely mixed (weight index 1) or the new move is the
/// argmax, with weight index the number of designated moves it ties plus one.
pub open spec fn leaf_step(c: LeafCtx, r: Seq<i32>, plus: u16, minus: u16) -> LeafCtx {
    if !leaf_passes(c, r, plus, minus) {
        c
    } else if c.nz == 0 {
        LeafCtx { leaves: (c.leaves + 1) as u64, accepted: (c.accepted + 1) as u64, sum: (c.sum + c.wp * c.lcm2t[1]) as u128, ..c }
    } else if !leaf_argmax(c, plus, minus) {
        LeafCtx { leaves: (c.leaves + 1) as u64, ..c }
    } else {
        let t1 = tie_count(c, plus, minus, c.p as int);
        LeafCtx {
            leaves: (c.leaves + 1) as u64,
            accepted: (c.accepted + 1) as u64,
            sum: (c.sum + c.wp * c.lcm2t[t1]) as u128,
            ..c
        }
    }
}


proof fn lemma_cnt16_le(x: u16, k: int)
    requires
        0 <= k,
    ensures
        cnt16(x, k) <= k,
    decreases k,
{
    if k > 0 {
        lemma_cnt16_le(x, k - 1);
    }
}

/// The number of set bits of `x`.
fn popcount16(x: u16) -> (r: u8)
    ensures
        r as int == cnt16(x, 16),
{
    let mut c: u8 = 0;
    let mut j: u16 = 0;
    while j < 16
        invariant
            j <= 16,
            c as int == cnt16(x, j as int),
            c <= j,
        decreases 16 - j,
    {
        if (x >> j) & 1 == 1 {
            c += 1;
        }
        j += 1;
    }
    c
}

/// Every set bit of `a` is set in `b`.
fn bits_within(a: u16, b: u16) -> (r: bool)
    ensures
        r == forall|j: int| 0 <= j < 16 && bit16(a, j) ==> #[trigger] bit16(b, j),
{
    let mut j: u16 = 0;
    while j < 16
        invariant
            j <= 16,
            forall|t: int| 0 <= t < j && bit16(a, t) ==> #[trigger] bit16(b, t),
        decreases 16 - j,
    {
        if (a >> j) & 1 == 1 && (b >> j) & 1 != 1 {
            assert(bit16(a, j as int) && !bit16(b, j as int));
            return false;
        }
        j += 1;
    }
    true
}

/// The degree code of child move `u`.
fn deg_code_exec(ctx: &LeafCtx, plus: u16, minus: u16, nod: u8, nid: u8, u: usize) -> (d: u32)
    requires
        leaf_ctx_ok(*ctx),
        u <= ctx.p,
        nod as int == cnt16(minus, 16),
        nid as int == cnt16(plus, 16),
    ensures
        d as int == deg_code(*ctx, plus, minus, u as int),
        d <= 16 * 32 + 16,
{
    proof {
        lemma_cnt16_le(minus, 16);
        lemma_cnt16_le(plus, 16);
    }
    if u == ctx.p {
        (nod as u32) * 32 + nid as u32
    } else {
        let o = ctx.pod[u] as u32 + if (plus >> (u as u16)) & 1 == 1 { 1u32 } else { 0u32 };
        let i = ctx.pid[u] as u32 + if (minus >> (u as u16)) & 1 == 1 { 1u32 } else { 0u32 };
        o * 32 + i
    }
}

/// Child move `v` beats child move `u`.
fn child_beats_exec(ctx: &LeafCtx, plus: u16, minus: u16, v: usize, u: usize) -> (b: bool)
    requires
        leaf_ctx_ok(*ctx),
        v <= ctx.p,
        u <= ctx.p,
    ensures
        b == child_beats(*ctx, plus, minus, v as int, u as int),
{
    if v == ctx.p {
        (minus >> (u as u16)) & 1 == 1
    } else {
        (ctx.pbeats[v] >> (u as u16)) & 1 == 1 || (u == ctx.p && (plus >> (v as u16)) & 1 == 1)
    }
}

/// The signature digest of child move `v`.
fn sig_of(ctx: &LeafCtx, plus: u16, minus: u16, nod: u8, nid: u8, v: usize) -> (s: u64)
    requires
        leaf_ctx_ok(*ctx),
        v <= ctx.p,
        nod as int == cnt16(minus, 16),
        nid as int == cnt16(plus, 16),
    ensures
        s as int == sig_digest(*ctx, plus, minus, v as int),
{
    let p = ctx.p;
    let mut so: u32 = 0;
    let mut sq: u32 = 0;
    let mut si: u32 = 0;
    let mut sqi: u32 = 0;
    let mut u = 0usize;
    while u <= p
        invariant
            leaf_ctx_ok(*ctx),
            p == ctx.p,
            v <= p,
            u <= p + 1,
            nod as int == cnt16(minus, 16),
            nid as int == cnt16(plus, 16),
            so as int == out_digest(*ctx, plus, minus, v as int, u as int, false),
            sq as int == out_digest(*ctx, plus, minus, v as int, u as int, true),
            si as int == in_digest(*ctx, plus, minus, v as int, u as int, false),
            sqi as int == in_digest(*ctx, plus, minus, v as int, u as int, true),
            so <= u * 528,
            si <= u * 528,
            sq <= u * 278784,
            sqi <= u * 278784,
        decreases p + 1 - u,
    {
        let d = deg_code_exec(ctx, plus, minus, nod, nid, u);
        proof {
            assert(d * d <= 278784) by (nonlinear_arith)
                requires
                    d <= 528,
            ;
        }
        if child_beats_exec(ctx, plus, minus, v, u) {
            so = so + d;
            sq = sq + d * d;
        }
        if child_beats_exec(ctx, plus, minus, u, v) {
            si = si + d;
            sqi = sqi + d * d;
        }
        u += 1;
    }
    let (o, i): (u64, u64) = if v == p {
        (nod as u64, nid as u64)
    } else {
        (ctx.pod[v] as u64 + if (plus >> (v as u16)) & 1 == 1 { 1u64 } else { 0u64 }, ctx.pid[v] as u64 + if (minus >> (v as u16)) & 1 == 1 {
            1u64
        } else {
            0u64
        })
    };
    proof {
        lemma_cnt16_le(minus, 16);
        lemma_cnt16_le(plus, 16);
    }
    o * 0x100_0000_0000_0000 + i * 0x1_0000_0000_0000 + ((so % 4096) as u64) * 0x10_0000_0000 + ((sq % 4096) as u64) * 0x100_0000 + ((si
        % 4096) as u64) * 0x1000 + (sqi % 4096) as u64
}

/// Is the child (the parent's rows, the new move's row `minus`, and each
/// parent move `ord[k]` with `r[k] > 0` beating the new move) connected?
fn child_is_connected(ctx: &LeafCtx, r: &[i32; 16], minus: u16) -> (b: bool)
    requires
        leaf_ctx_ok(*ctx),
        forall|j: int| ctx.p <= j < 16 ==> !#[trigger] bit16(minus, j),
    ensures
        b == child_connected(*ctx, r@, minus),
{
    let p = ctx.p;
    let mut arc = [0u64; 16];
    proof {
        assert forall|x: int, j: int| 0 <= x < 16 && 0 <= j < 64 implies !#[trigger] bit(arc[x], j) by {
            lemma_bit_zero(j as u64);
        }
    }
    let mut x = 0usize;
    while x < p
        invariant
            leaf_ctx_ok(*ctx),
            p == ctx.p,
            x <= p,
            forall|y: int, j: int| 0 <= y < 16 && 0 <= j < 64 ==> #[trigger] bit(arc[y], j) == (y < x && j < 16 && bit16(ctx.pbeats[y], j)),
        decreases p - x,
    {
        let ghost a0 = arc;
        arc[x] = ctx.pbeats[x] as u64;
        proof {
            lemma_bit16_wide(ctx.pbeats[x as int]);
            assert forall|y: int, j: int| 0 <= y < 16 && 0 <= j < 64 implies #[trigger] bit(arc[y], j) == (y < x + 1 && j < 16 && bit16(
                ctx.pbeats[y],
                j,
            )) by {
                if y != x {
                    assert(arc[y] == a0[y]);
                }
            }
        }
        x += 1;
    }
    let mut k = 0usize;
    while k < p
        invariant
            leaf_ctx_ok(*ctx),
            p == ctx.p,
            k <= p,
            forall|y: int, j: int| 0 <= y < 16 && 0 <= j < 64 ==> #[trigger] bit(arc[y], j) == (y < p && ((j < 16 && bit16(ctx.pbeats[y], j)) || (
            j == p && exists|k2: int| 0 <= k2 < k && ctx.ord[k2] == y && #[trigger] r[k2] > 0))),
        decreases p - k,
    {
        let ghost a0 = arc;
        if r[k] > 0 {
            let y = ctx.ord[k];
            arc[y] = arc[y] | (1u64 << (p as u64));
        }
        proof {
            assert forall|y: int, j: int| 0 <= y < 16 && 0 <= j < 64 implies #[trigger] bit(arc[y], j) == (y < p && ((j < 16 && bit16(
                ctx.pbeats[y],
                j,
            )) || (j == p && exists|k2: int| 0 <= k2 < k + 1 && ctx.ord[k2] == y && #[trigger] r[k2] > 0))) by {
                if r[k as int] > 0 && y == ctx.ord[k as int] {
                    lemma_bit_or(a0[y], 1u64 << (p as u64), j as u64);
                    lemma_bit_single(p as u64, j as u64);
                    if j == p {
                        assert(ctx.ord[k as int] == y && r[k as int] > 0);
                    }
                } else {
                    assert(arc[y] == a0[y]);
                }
                if j == p && (exists|k2: int| 0 <= k2 < k + 1 && ctx.ord[k2] == y && #[trigger] r[k2] > 0) && !(r[k as int] > 0 && y
                    == ctx.ord[k as int]) {
                    let k2 = choose|k2: int| 0 <= k2 < k + 1 && ctx.ord[k2] == y && #[trigger] r[k2] > 0;
                    assert(k2 < k);
                }
            }
        }
        k += 1;
    }
    let ghost a1 = arc;
    arc[p] = minus as u64;
    let n1 = p + 1;
    proof {
        lemma_bit16_wide(minus);
        assert forall|y: int, j: int| 0 <= y < n1 && 0 <= j < 64 implies #[trigger] bit(arc[y], j) == (j < n1 && child_row_bit(
            *ctx,
            r@,
            minus,
            y,
            j,
        )) by {
            if y < p {
                assert(arc[y] == a1[y]);
            }
        }
        assert(wf(arc, n1 as int)) by {
            assert forall|y: int| 0 <= y < n1 implies crate::bits::within(#[trigger] arc[y], n1 as int) by {
                assert forall|j: int| 0 <= j < 64 && #[trigger] bit(arc[y], j) implies j < n1 by {}
            }
        }
    }
    let b = connected(&arc, n1);
    proof {
        let n = n1 as int;
        assert forall|i: int, j: int| 0 <= i < n && 0 <= j < n implies #[trigger] decisive(arc, i, j) == (child_row_bit(*ctx, r@, minus, i, j)
            || child_row_bit(*ctx, r@, minus, j, i)) by {
            assert(bit(arc[i], j) == (j < n1 && child_row_bit(*ctx, r@, minus, i, j)));
            assert(bit(arc[j], i) == (i < n1 && child_row_bit(*ctx, r@, minus, j, i)));
        }
        assert forall|s: u64| crate::bits::within(s, n) && bit(s, 0) implies (closed_set(arc, n, s) <==> (forall|i: int, j: int|
            0 <= i < n && 0 <= j < n && #[trigger] bit(s, i) && (child_row_bit(*ctx, r@, minus, i, j) || child_row_bit(*ctx, r@, minus, j, i))
                ==> #[trigger] bit(s, j))) by {
            if closed_set(arc, n, s) {
                assert forall|i: int, j: int| 0 <= i < n && 0 <= j < n && #[trigger] bit(s, i) && (child_row_bit(*ctx, r@, minus, i, j)
                    || child_row_bit(*ctx, r@, minus, j, i)) implies #[trigger] bit(s, j) by {
                    assert(decisive(arc, i, j));
                }
            }
            if forall|i: int, j: int| 0 <= i < n && 0 <= j < n && #[trigger] bit(s, i) && (child_row_bit(*ctx, r@, minus, i, j)
                || child_row_bit(*ctx, r@, minus, j, i)) ==> #[trigger] bit(s, j) {
                assert forall|i: int, j: int| 0 <= i < n && 0 <= j < n && #[trigger] bit(s, i) && #[trigger] decisive(arc, i, j) implies bit(s, j) by {
                    assert(child_row_bit(*ctx, r@, minus, i, j) || child_row_bit(*ctx, r@, minus, j, i));
                }
            }
        }
        assert(b == child_connected(*ctx, r@, minus));
    }
    b
}

/// The leaf step on the child given by the extension `r` (in coordinate
/// order), the parent moves `plus` that beat the new move and the parent
/// moves `minus` that it beats.
pub fn leaf(ctx: &mut LeafCtx, r: &[i32; 16], plus: u16, minus: u16)
    requires
        leaf_ctx_ok(*old(ctx)),
        forall|j: int| old(ctx).p <= j < 16 ==> !#[trigger] bit16(plus, j),
        forall|j: int| old(ctx).p <= j < 16 ==> !#[trigger] bit16(minus, j),
        old(ctx).leaves < u64::MAX,
        old(ctx).accepted < u64::MAX,
        forall|t: int| 1 <= t <= old(ctx).p + 1 ==> old(ctx).sum + old(ctx).wp * #[trigger] old(ctx).lcm2t[t] <= u128::MAX,
    ensures
        *final(ctx) == leaf_step(*old(ctx), r@, plus, minus),
{
    let p = ctx.p;
    if minus == 0 || plus == 0 {
        return;
    }
    if !bits_within(ctx.nowin, plus) || !bits_within(ctx.noloss, minus) {
        return;
    }
    if ctx.parent_disconnected {
        if !child_is_connected(ctx, r, minus) {
            return;
        }
    }
    proof {
        assert(leaf_passes(*old(ctx), r@, plus, minus));
    }
    if ctx.nz == 0 {
        ctx.leaves = ctx.leaves + 1;
        ctx.accepted = ctx.accepted + 1;
        proof {
            assert(old(ctx).sum + old(ctx).wp * old(ctx).lcm2t[1] <= u128::MAX);
        }
        ctx.sum = ctx.sum + ctx.wp * ctx.lcm2t[1];
        return;
    }
    let nod = popcount16(minus);
    let nid = popcount16(plus);
    proof {
        lemma_cnt16_le(minus, 16);
        lemma_cnt16_le(plus, 16);
    }
    let newkey: u16 = (nod as u16) * 256 + nid as u16;
    let mut maybe = [false; 16];
    let mut t = 0usize;
    while t < ctx.nz
        invariant
            leaf_ctx_ok(*ctx),
            ctx.p == p,
            *ctx == *old(ctx),
            leaf_passes(*old(ctx), r@, plus, minus),
            old(ctx).nz != 0,
            old(ctx).leaves < u64::MAX,
            old(ctx).accepted < u64::MAX,
            forall|t3: int| 1 <= t3 <= old(ctx).p + 1 ==> old(ctx).sum + old(ctx).wp * #[trigger] old(ctx).lcm2t[t3] <= u128::MAX,
            t <= ctx.nz,
            newkey as int == deg_key(*ctx, plus, minus, p as int),
            forall|t2: int| 0 <= t2 < t ==> !(deg_key(*ctx, plus, minus, #[trigger] ctx.zverts[t2] as int) > deg_key(*ctx, plus, minus, p as int)),
            forall|z: int| 0 <= z < 16 ==> (#[trigger] maybe[z] <==> exists|t2: int| 0 <= t2 < t && ctx.zverts[t2] == z && deg_key(
                *ctx,
                plus,
                minus,
                z,
            ) == deg_key(*ctx, plus, minus, p as int)),
        decreases ctx.nz - t,
    {
        let zv = ctx.zverts[t];
        let o = ctx.pod[zv] as u16 + if (plus >> (zv as u16)) & 1 == 1 { 1u16 } else { 0u16 };
        let i = ctx.pid[zv] as u16 + if (minus >> (zv as u16)) & 1 == 1 { 1u16 } else { 0u16 };
        let k = o * 256 + i;
        proof {
            assert(k as int == deg_key(*ctx, plus, minus, zv as int));
        }
        if k > newkey {
            proof {
                assert(!leaf_argmax(*old(ctx), plus, minus)) by {
                    assert(old(ctx).zverts[t as int] == zv);
                }
            }
            ctx.leaves = ctx.leaves + 1;
            return;
        }
        let ghost m0 = maybe;
        if k == newkey {
            maybe[zv] = true;
        }
        proof {
            assert forall|z: int| 0 <= z < 16 implies (#[trigger] maybe[z] <==> exists|t2: int| 0 <= t2 < t + 1 && ctx.zverts[t2] == z && deg_key(
                *ctx,
                plus,
                minus,
                z,
            ) == deg_key(*ctx, plus, minus, p as int)) by {
                if z != zv {
                    assert(maybe[z] == m0[z]);
                    if exists|t2: int| 0 <= t2 < t + 1 && ctx.zverts[t2] == z && deg_key(*ctx, plus, minus, z) == deg_key(*ctx, plus, minus, p as int) {
                        let t2 = choose|t2: int| 0 <= t2 < t + 1 && ctx.zverts[t2] == z && deg_key(*ctx, plus, minus, z) == deg_key(*ctx, plus, minus, p as int);
                        assert(t2 < t);
                    }
                } else if k == newkey {
                    assert(ctx.zverts[t as int] == z);
                }
            }
        }
        t += 1;
    }
    let ns = sig_of(ctx, plus, minus, nod, nid, p);
    let mut t1: usize = 1;
    let mut z = 0usize;
    while z < p
        invariant
            leaf_ctx_ok(*ctx),
            ctx.p == p,
            *ctx == *old(ctx),
            leaf_passes(*old(ctx), r@, plus, minus),
            old(ctx).nz != 0,
            old(ctx).leaves < u64::MAX,
            old(ctx).accepted < u64::MAX,
            forall|t3: int| 1 <= t3 <= old(ctx).p + 1 ==> old(ctx).sum + old(ctx).wp * #[trigger] old(ctx).lcm2t[t3] <= u128::MAX,
            z <= p,
            t1 >= 1,
            ns as int == sig_digest(*ctx, plus, minus, p as int),
            nod as int == cnt16(minus, 16),
            nid as int == cnt16(plus, 16),
            forall|t2: int| 0 <= t2 < ctx.nz ==> !(deg_key(*ctx, plus, minus, #[trigger] ctx.zverts[t2] as int) > deg_key(*ctx, plus, minus, p as int)),
            forall|y: int| 0 <= y < 16 ==> (#[trigger] maybe[y] <==> exists|t2: int| 0 <= t2 < ctx.nz && ctx.zverts[t2] == y && deg_key(
                *ctx,
                plus,
                minus,
                y,
            ) == deg_key(*ctx, plus, minus, p as int)),
            forall|y: int| 0 <= y < z && maybe[y] ==> !(sig_digest(*ctx, plus, minus, y) > sig_digest(*ctx, plus, minus, p as int)),
            t1 as int == tie_count(*ctx, plus, minus, z as int),
            t1 <= z + 1,
        decreases p - z,
    {
        if maybe[z] {
            let zs = sig_of(ctx, plus, minus, nod, nid, z);
            if zs > ns {
                proof {
                    let t2 = choose|t2: int| 0 <= t2 < ctx.nz && ctx.zverts[t2] == z && deg_key(*ctx, plus, minus, z as int) == deg_key(
                        *ctx,
                        plus,
                        minus,
                        p as int,
                    );
                    assert(!leaf_argmax(*old(ctx), plus, minus)) by {
                        assert(old(ctx).zverts[t2] == z);
                    }
                }
                ctx.leaves = ctx.leaves + 1;
                return;
            }
            if zs == ns {
                t1 += 1;
            }
        }
        proof {
            assert(tied(*ctx, plus, minus, z as int) == (maybe[z as int] && sig_digest(*ctx, plus, minus, z as int) == sig_digest(
                *ctx,
                plus,
                minus,
                p as int,
            )));
        }
        z += 1;
    }
    proof {
        assert(leaf_argmax(*old(ctx), plus, minus)) by {
            assert forall|t2: int| 0 <= t2 < old(ctx).nz implies !(deg_key(*old(ctx), plus, minus, #[trigger] old(ctx).zverts[t2] as int) > deg_key(
                *old(ctx),
                plus,
                minus,
                p as int,
            ) || (deg_key(*old(ctx), plus, minus, old(ctx).zverts[t2] as int) == deg_key(*old(ctx), plus, minus, p as int) && sig_digest(
                *old(ctx),
                plus,
                minus,
                old(ctx).zverts[t2] as int,
            ) > sig_digest(*old(ctx), plus, minus, p as int))) by {
                let y = old(ctx).zverts[t2] as int;
                assert(ctx.zverts[t2] == y);
                if deg_key(*ctx, plus, minus, y) == deg_key(*ctx, plus, minus, p as int) {
                    assert(maybe[y]);
                }
            }
        }
        assert(t1 <= p + 1);
    }
    proof {
        lemma_tie_count_bound(*ctx, plus, minus, p as int);
        assert(old(ctx).sum + old(ctx).wp * old(ctx).lcm2t[t1 as int] <= u128::MAX);
    }
    ctx.leaves = ctx.leaves + 1;
    ctx.accepted = ctx.accepted + 1;
    ctx.sum = ctx.sum + ctx.wp * ctx.lcm2t[t1];
}


/// The largest weight `wp * lcm2t[t]` that a leaf can add, over `1 <= t <= m`.
pub open spec fn max_weight(wp: u128, lcm2t: [u128; 16], m: int) -> int
    decreases m,
{
    if m <= 1 {
        wp * lcm2t[1]
    } else {
        let w = wp * lcm2t[m];
        let rest = max_weight(wp, lcm2t, m - 1);
        if w > rest { w } else { rest }
    }
}

/// The largest weight that a leaf of the parent in `c` can add.
pub open spec fn leaf_max(c: LeafCtx) -> int {
    max_weight(c.wp, c.lcm2t, c.p + 1)
}

/// The tallies of `c` can take `n` more leaves.
pub open spec fn room(c: LeafCtx, n: int) -> bool {
    &&& c.leaves + n <= u64::MAX
    &&& c.accepted + n <= u64::MAX
    &&& c.sum + n * leaf_max(c) <= u128::MAX
}

/// `c1` is `c0` with at most `n` more leaves counted: only the tallies moved,
/// and each grew by at most what `n` leaves can add.
pub open spec fn grown_by(c0: LeafCtx, c1: LeafCtx, n: int) -> bool {
    &&& c1 == LeafCtx { leaves: c1.leaves, accepted: c1.accepted, sum: c1.sum, ..c0 }
    &&& c0.leaves <= c1.leaves <= c0.leaves + n
    &&& c0.accepted <= c1.accepted <= c0.accepted + n
    &&& c0.sum <= c1.sum <= c0.sum + n * leaf_max(c0)
}

/// The state that the extension search needs beyond the leaf step: each
/// coordinate's one-move mask, and the designated moves' parent degrees.
pub open spec fn dfs_ctx_ok(c: LeafCtx) -> bool {
    &&& leaf_ctx_ok(c)
    &&& forall|k: int| 0 <= k < c.p ==> #[trigger] c.obit[k] == 1u16 << (c.ord[k] as u16)
    &&& c.zmaxpod < 16
    &&& forall|t: int| 0 <= t < 8 ==> #[trigger] c.zpod[t] < 16 && c.zpid[t] < 16
}

/// `|x|`.
pub open spec fn abs32(x: i32) -> int {
    if x < 0 { -x } else { x as int }
}

/// `asum[i][k]` is the sum of `|rows[i][j]|` over `k <= j < p`, for the first `nl` rows.
pub open spec fn asum_table(rows: [[i32; 16]; 20], asum: [[i32; 16]; 20], nl: int, p: int) -> bool {
    &&& forall|i: int| 0 <= i < nl ==> #[trigger] asum[i][p] == 0
    &&& forall|i: int, k: int| 0 <= i < nl && 0 <= k < p ==> #[trigger] asum[i][k] == asum[i][k + 1] + abs32(rows[i][k])
}

/// The running sums after coordinate `k` takes the value `val`.
pub open spec fn shift(s: Seq<i32>, rows: [[i32; 16]; 20], nl: int, k: int, val: i32) -> Seq<i32> {
    Seq::new(s.len(), |i: int| if i < nl { (s[i] + val * rows[i][k]) as i32 } else { s[i] })
}

/// The running sums of the strict rows `1..=nstrict` are all negative.
pub open spec fn strict_neg(s: Seq<i32>, nstrict: int) -> bool {
    forall|i: int| 1 <= i <= nstrict ==> #[trigger] s[i] < 0
}

/// No completion of coordinates `k..` can close the equality row, or some
/// strict row stays non-negative in every completion.
pub open spec fn bound_pruned(s: Seq<i32>, asum: [[i32; 16]; 20], nstrict: int, k: int) -> bool {
    ||| abs32(s[0]) > asum[0][k]
    ||| exists|i: int| 1 <= i <= nstrict && s[i] - asum[i][k] >= 0
}

/// The `t`-th designated move wins against the new move in every completion
/// with out-degree cap `cap` and in-degree `nid`.
pub open spec fn z_blocks(c: LeafCtx, k: int, r: Seq<i32>, cap: int, nid: int, t: int) -> bool {
    let posz = c.zpos[t] as int;
    let czp: int = if posz < k && r[posz] > 0 { 1 } else { 0 };
    let czm: int = if posz < k { if r[posz] < 0 { 1 } else { 0 } } else { 1 };
    let codmin = c.zpod[t] + czp;
    cap < codmin || (cap == codmin && nid < c.zpid[t] + czm)
}

/// The degree-domination prune: with strict rows, some designated move
/// out-ranks the new move in every completion of coordinates `k..`.
pub open spec fn dominated(c: LeafCtx, k: int, p: int, nstrict: int, r: Seq<i32>, nod: int, nid: int) -> bool {
    let cap = nod + (p - k);
    nstrict != 0 && (cap < c.zmaxpod || (cap <= c.zmaxpod + 1 && exists|t: int| 0 <= t < nstrict && #[trigger] z_blocks(c, k, r, cap, nid, t)))
}

/// The value tried in branch `j` (0, then -1, then 1).
pub open spec fn val_of(j: int) -> i32 {
    if j == 0 { 0 } else if j == 1 { -1i32 } else { 1 }
}

/// Coordinate `k` may take `val`: a move forced to beat the new move takes 1,
/// one forced to lose to it takes -1.
pub open spec fn forced_ok(fplus: u16, fminus: u16, k: int, val: i32) -> bool {
    &&& !(bit16(fplus, k) && val != 1)
    &&& !(bit16(fminus, k) && val != -1)
}

/// The running sums after coordinate `k` takes `val` (unchanged for 0).
pub open spec fn sums_after(s: Seq<i32>, rows: [[i32; 16]; 20], nl: int, k: int, val: i32) -> Seq<i32> {
    if val == 0 { s } else { shift(s, rows, nl, k, val) }
}

/// The mask of moves beating the new move, after coordinate `k` takes `val`.
pub open spec fn plus_after(c: LeafCtx, pmask: u16, k: int, val: i32) -> u16 {
    if val > 0 { pmask | c.obit[k] } else { pmask }
}

/// The mask of moves beaten by the new move, after coordinate `k` takes `val`.
pub open spec fn minus_after(c: LeafCtx, mmask: u16, k: int, val: i32) -> u16 {
    if val < 0 { mmask | c.obit[k] } else { mmask }
}

/// The last coordinate takes `val`: the child is a leaf when every strict row is negative.
pub open spec fn try_last(
    c: LeafCtx,
    k: int,
    nstrict: int,
    nl: int,
    s: Seq<i32>,
    r: Seq<i32>,
    rows: [[i32; 16]; 20],
    pmask: u16,
    mmask: u16,
    val: i32,
) -> LeafCtx {
    if strict_neg(sums_after(s, rows, nl, k, val), nstrict) {
        leaf_step(c, r.update(k, val), plus_after(c, pmask, k, val), minus_after(c, mmask, k, val))
    } else {
        c
    }
}

/// The last coordinate: the equality row fixes its value when its coefficient
/// is not zero; otherwise the row must already be closed and each admissible
/// value is tried in turn.
pub open spec fn last_level(
    c: LeafCtx,
    k: int,
    nstrict: int,
    nl: int,
    s: Seq<i32>,
    r: Seq<i32>,
    rows: [[i32; 16]; 20],
    fplus: u16,
    fminus: u16,
    pmask: u16,
    mmask: u16,
) -> LeafCtx {
    let c0 = rows[0][k];
    let s0 = s[0];
    if c0 != 0 {
        if s0 == 0 || s0 == c0 || s0 == -c0 {
            let v: i32 = if s0 == 0 { val_of(0) } else if s0 == c0 { val_of(1) } else { val_of(2) };
            if forced_ok(fplus, fminus, k, v) { try_last(c, k, nstrict, nl, s, r, rows, pmask, mmask, v) } else { c }
        } else {
            c
        }
    } else if s0 != 0 {
        c
    } else {
        let c1 = if forced_ok(fplus, fminus, k, val_of(0)) { try_last(c, k, nstrict, nl, s, r, rows, pmask, mmask, val_of(0)) } else { c };
        let c2 = if forced_ok(fplus, fminus, k, val_of(1)) { try_last(c1, k, nstrict, nl, s, r, rows, pmask, mmask, val_of(1)) } else { c1 };
        if forced_ok(fplus, fminus, k, val_of(2)) { try_last(c2, k, nstrict, nl, s, r, rows, pmask, mmask, val_of(2)) } else { c2 }
    }
}

/// The extension search from coordinate `k`: prune by the row bounds, take the
/// leaf step at `k == p`, prune by degree domination, close the last coordinate
/// directly, and otherwise try 0, -1 and 1 at coordinate `k` in that order.
pub open spec fn dfs_spec(
    c: LeafCtx,
    k: int,
    p: int,
    nstrict: int,
    nl: int,
    s: Seq<i32>,
    r: Seq<i32>,
    rows: [[i32; 16]; 20],
    asum: [[i32; 16]; 20],
    fplus: u16,
    fminus: u16,
    nod: int,
    nid: int,
    pmask: u16,
    mmask: u16,
) -> LeafCtx
    decreases p - k, 4int,
{
    if k > p || k < 0 {
        c
    } else if bound_pruned(s, asum, nstrict, k) {
        c
    } else if k == p {
        leaf_step(c, r, pmask, mmask)
    } else if dominated(c, k, p, nstrict, r, nod, nid) {
        c
    } else if k + 1 == p {
        last_level(c, k, nstrict, nl, s, r, rows, fplus, fminus, pmask, mmask)
    } else {
        branches(c, k, p, nstrict, nl, s, r, rows, asum, fplus, fminus, nod, nid, pmask, mmask, 3)
    }
}

/// The first `j` branches at coordinate `k`, in order, each one run when the
/// value is admissible.
pub open spec fn branches(
    c: LeafCtx,
    k: int,
    p: int,
    nstrict: int,
    nl: int,
    s: Seq<i32>,
    r: Seq<i32>,
    rows: [[i32; 16]; 20],
    asum: [[i32; 16]; 20],
    fplus: u16,
    fminus: u16,
    nod: int,
    nid: int,
    pmask: u16,
    mmask: u16,
    j: int,
) -> LeafCtx
    decreases p - k, j,
{
    if j <= 0 || k >= p || k < 0 || j > 3 {
        c
    } else {
        let cc = branches(c, k, p, nstrict, nl, s, r, rows, asum, fplus, fminus, nod, nid, pmask, mmask, j - 1);
        let val = val_of(j - 1);
        if forced_ok(fplus, fminus, k, val) {
            dfs_spec(
                cc,
                k + 1,
                p,
                nstrict,
                nl,
                sums_after(s, rows, nl, k, val),
                r.update(k, val),
                rows,
                asum,
                fplus,
                fminus,
                nod + if val < 0 { 1int } else { 0int },
                nid + if val > 0 { 1int } else { 0int },
                plus_after(cc, pmask, k, val),
                minus_after(cc, mmask, k, val),
            )
        } else {
            cc
        }
    }
}


/// What the extension search from coordinate `k` needs: a valid state, rows
/// and bound table, running sums that stay in range, unset coordinates `k..p`,
/// degree counts of the coordinates set so far, and masks within the parent.
pub open spec fn dfs_ready(
    c: LeafCtx,
    k: int,
    p: int,
    nstrict: int,
    nl: int,
    s: Seq<i32>,
    r: Seq<i32>,
    rows: [[i32; 16]; 20],
    asum: [[i32; 16]; 20],
    nod: int,
    nid: int,
    pmask: u16,
    mmask: u16,
) -> bool {
    &&& dfs_ctx_ok(c)
    &&& 0 <= k <= p
    &&& p == c.p
    &&& 0 <= nstrict <= 8
    &&& 1 + nstrict <= nl <= 20
    &&& s.len() >= nl
    &&& r.len() == 16
    &&& forall|j: int| k <= j < p ==> #[trigger] r[j] == 0
    &&& asum_table(rows, asum, nl, p)
    &&& forall|i: int| 0 <= i < nl ==> abs32(#[trigger] s[i]) + asum[i][k] <= i32::MAX
    &&& 0 <= nod <= k
    &&& 0 <= nid <= k
    &&& forall|j: int| p <= j < 16 ==> !#[trigger] bit16(pmask, j)
    &&& forall|j: int| p <= j < 16 ==> !#[trigger] bit16(mmask, j)
}

proof fn lemma_pow3_pos(e: int)
    ensures
        pow3(e) >= 1,
    decreases e,
{
    if e > 0 {
        lemma_pow3_pos(e - 1);
    }
}

proof fn lemma_max_weight(wp: u128, lcm2t: [u128; 16], m: int, t: int)
    requires
        1 <= t <= m,
    ensures
        wp * lcm2t[t] <= max_weight(wp, lcm2t, m),
        max_weight(wp, lcm2t, m) >= 0,
    decreases m,
{
    assert(wp * lcm2t[1] >= 0) by (nonlinear_arith);
    if m > 1 {
        if t < m {
            lemma_max_weight(wp, lcm2t, m - 1, t);
        } else {
            lemma_max_weight(wp, lcm2t, m - 1, 1);
        }
    }
}

proof fn lemma_tie_count(c: LeafCtx, plus: u16, minus: u16, k: int)
    requires
        0 <= k,
    ensures
        1 <= tie_count(c, plus, minus, k) <= k + 1,
    decreases k,
{
    if k > 0 {
        lemma_tie_count(c, plus, minus, k - 1);
    }
}

proof fn lemma_grown_refl(c: LeafCtx, n: int)
    requires
        0 <= n,
    ensures
        grown_by(c, c, n),
{
    lemma_max_weight(c.wp, c.lcm2t, c.p + 1, 1);
    let w = leaf_max(c);
    assert(n * w >= 0) by (nonlinear_arith)
        requires
            n >= 0,
            w >= 0,
    ;
}

proof fn lemma_grown_trans(a: LeafCtx, b: LeafCtx, d: LeafCtx, n1: int, n2: int, n: int)
    requires
        grown_by(a, b, n1),
        grown_by(b, d, n2),
        0 <= n1,
        0 <= n2,
        n1 + n2 <= n,
    ensures
        grown_by(a, d, n),
{
    lemma_max_weight(a.wp, a.lcm2t, a.p + 1, 1);
    let w = leaf_max(a);
    assert(leaf_max(b) == w);
    assert(n1 * w + n2 * w <= n * w) by (nonlinear_arith)
        requires
            n1 + n2 <= n,
            w >= 0,
    ;
}

proof fn lemma_room_after(a: LeafCtx, b: LeafCtx, j: int, n1: int)
    requires
        room(a, 3 * n1),
        grown_by(a, b, j * n1),
        0 <= j <= 2,
        0 <= n1,
    ensures
        room(b, n1),
{
    lemma_max_weight(a.wp, a.lcm2t, a.p + 1, 1);
    let w = leaf_max(a);
    assert(leaf_max(b) == w);
    assert(j * n1 + n1 <= 3 * n1) by (nonlinear_arith)
        requires
            j <= 2,
            n1 >= 0,
    ;
    assert((j * n1) * w + n1 * w <= (3 * n1) * w) by (nonlinear_arith)
        requires
            j <= 2,
            n1 >= 0,
            w >= 0,
    ;
}

/// A leaf step counts at most one leaf.
proof fn lemma_leaf_grows(c: LeafCtx, r: Seq<i32>, plus: u16, minus: u16)
    requires
        leaf_ctx_ok(c),
        room(c, 1),
    ensures
        grown_by(c, leaf_step(c, r, plus, minus), 1),
{
    lemma_max_weight(c.wp, c.lcm2t, c.p + 1, 1);
    lemma_tie_count(c, plus, minus, c.p as int);
    let t1 = tie_count(c, plus, minus, c.p as int);
    lemma_max_weight(c.wp, c.lcm2t, c.p + 1, t1);
    assert(c.wp * c.lcm2t[1] >= 0 && c.wp * c.lcm2t[t1] >= 0) by (nonlinear_arith);
}

proof fn lemma_asum_nonneg(rows: [[i32; 16]; 20], asum: [[i32; 16]; 20], nl: int, p: int, i: int, k: int)
    requires
        asum_table(rows, asum, nl, p),
        0 <= i < nl,
        0 <= k <= p,
    ensures
        asum[i][k] >= 0,
    decreases p - k,
{
    if k < p {
        lemma_asum_nonneg(rows, asum, nl, p, i, k + 1);
    }
}

/// Coordinate `k` taking a value in `{-1, 0, 1}` keeps the running sums in range for `k + 1`.
proof fn lemma_fits_step(s: Seq<i32>, rows: [[i32; 16]; 20], asum: [[i32; 16]; 20], nl: int, p: int, k: int, val: i32)
    requires
        asum_table(rows, asum, nl, p),
        0 <= k < p,
        p < 16,
        s.len() >= nl,
        nl <= 20,
        val == 0 || val == 1 || val == -1,
        forall|i: int| 0 <= i < nl ==> abs32(#[trigger] s[i]) + asum[i][k] <= i32::MAX,
    ensures
        sums_after(s, rows, nl, k, val).len() == s.len(),
        forall|i: int| 0 <= i < nl ==> abs32(#[trigger] sums_after(s, rows, nl, k, val)[i]) + asum[i][k + 1] <= i32::MAX,
        forall|i: int| 0 <= i < nl ==> #[trigger] sums_after(s, rows, nl, k, val)[i] == s[i] + val * rows[i][k],
{
    assert forall|i: int| 0 <= i < nl implies abs32(#[trigger] sums_after(s, rows, nl, k, val)[i]) + asum[i][k + 1] <= i32::MAX
        && sums_after(s, rows, nl, k, val)[i] == s[i] + val * rows[i][k] by {
        lemma_asum_nonneg(rows, asum, nl, p, i, k + 1);
        assert(asum[i][k] == asum[i][k + 1] + abs32(rows[i][k]));
    }
}

/// `abs32(s[i]) + abs32(rows[i][k])` stays in range for every row, at an unset coordinate.
proof fn lemma_row_room(s: Seq<i32>, rows: [[i32; 16]; 20], asum: [[i32; 16]; 20], nl: int, p: int, k: int)
    requires
        asum_table(rows, asum, nl, p),
        0 <= k < p,
        s.len() >= nl,
        forall|i: int| 0 <= i < nl ==> abs32(#[trigger] s[i]) + asum[i][k] <= i32::MAX,
    ensures
        forall|i: int| 0 <= i < nl ==> abs32(#[trigger] s[i]) + abs32(rows[i][k]) <= i32::MAX,
{
    assert forall|i: int| 0 <= i < nl implies abs32(#[trigger] s[i]) + abs32(rows[i][k]) <= i32::MAX by {
        lemma_asum_nonneg(rows, asum, nl, p, i, k + 1);
        assert(asum[i][k] == asum[i][k + 1] + abs32(rows[i][k]));
    }
}

fn add_row(s: &mut [i32; 20], rows: &[[i32; 16]; 20], nl: usize, k: usize, val: i32)
    requires
        nl <= 20,
        k < 16,
        val == 1 || val == -1,
        forall|i: int| 0 <= i < nl ==> abs32(#[trigger] old(s)[i]) + abs32(rows[i][k as int]) <= i32::MAX,
    ensures
        final(s)@ == shift(old(s)@, *rows, nl as int, k as int, val),
{
    let ghost s0 = s@;
    let mut i: usize = 0;
    while i < nl
        invariant
            i <= nl,
            nl <= 20,
            k < 16,
            val == 1 || val == -1,
            s0.len() == 20,
            forall|i2: int| 0 <= i2 < nl ==> abs32(#[trigger] s0[i2]) + abs32(rows[i2][k as int]) <= i32::MAX,
            forall|i2: int| 0 <= i2 < 20 ==> #[trigger] s[i2] == if i2 < i { s0[i2] + val * rows[i2][k as int] } else { s0[i2] as int },
        decreases nl - i,
    {
        s[i] = s[i] + val * rows[i][k];
        i += 1;
    }
    assert(s@ =~= shift(s0, *rows, nl as int, k as int, val));
}

fn sub_row(s: &mut [i32; 20], rows: &[[i32; 16]; 20], nl: usize, k: usize, val: i32, Ghost(orig): Ghost<Seq<i32>>)
    requires
        nl <= 20,
        k < 16,
        val == 1 || val == -1,
        orig.len() == 20,
        old(s)@ == shift(orig, *rows, nl as int, k as int, val),
        forall|i: int| 0 <= i < nl ==> abs32(#[trigger] orig[i]) + abs32(rows[i][k as int]) <= i32::MAX,
    ensures
        final(s)@ == orig,
{
    let mut i: usize = 0;
    while i < nl
        invariant
            i <= nl,
            nl <= 20,
            k < 16,
            val == 1 || val == -1,
            orig.len() == 20,
            forall|i2: int| 0 <= i2 < nl ==> abs32(#[trigger] orig[i2]) + abs32(rows[i2][k as int]) <= i32::MAX,
            forall|i2: int| 0 <= i2 < 20 ==> #[trigger] s[i2] == if i2 < i || i2 >= nl { orig[i2] as int } else { orig[i2] + val * rows[i2][k as int] },
        decreases nl - i,
    {
        s[i] = s[i] - val * rows[i][k];
        i += 1;
    }
    assert(s@ =~= orig);
}

fn bound_check(s: &[i32; 20], asum: &[[i32; 16]; 20], nstrict: usize, nl: usize, k: usize) -> (b: bool)
    requires
        1 + nstrict <= nl <= 20,
        k < 16,
        forall|i: int| 0 <= i < nl ==> abs32(#[trigger] s[i]) + asum[i][k as int] <= i32::MAX,
        forall|i: int| 0 <= i < nl ==> #[trigger] asum[i][k as int] >= 0,
    ensures
        b == bound_pruned(s@, *asum, nstrict as int, k as int),
{
    let s0 = s[0];
    let a0: i32 = if s0 < 0 { -s0 } else { s0 };
    if a0 > asum[0][k] {
        return true;
    }
    let mut i: usize = 1;
    while i <= nstrict
        invariant
            1 <= i <= nstrict + 1,
            1 + nstrict <= nl <= 20,
            k < 16,
            forall|i2: int| 0 <= i2 < nl ==> abs32(#[trigger] s[i2]) + asum[i2][k as int] <= i32::MAX,
            forall|i2: int| 0 <= i2 < nl ==> #[trigger] asum[i2][k as int] >= 0,
            !(abs32(s[0]) > asum[0][k as int]),
            forall|i2: int| 1 <= i2 < i ==> !(#[trigger] s[i2] - asum[i2][k as int] >= 0),
        decreases nstrict + 1 - i,
    {
        assert(abs32(s[i as int]) + asum[i as int][k as int] <= i32::MAX);
        if s[i] - asum[i][k] >= 0 {
            return true;
        }
        i += 1;
    }
    false
}

fn strict_check(s: &[i32; 20], nstrict: usize) -> (b: bool)
    requires
        nstrict < 20,
    ensures
        b == strict_neg(s@, nstrict as int),
{
    let mut i: usize = 1;
    while i <= nstrict
        invariant
            1 <= i <= nstrict + 1,
            nstrict < 20,
            forall|i2: int| 1 <= i2 < i ==> #[trigger] s[i2] < 0,
        decreases nstrict + 1 - i,
    {
        if s[i] >= 0 {
            return false;
        }
        i += 1;
    }
    true
}

fn dominated_check(ctx: &LeafCtx, k: usize, p: usize, nstrict: usize, r: &[i32; 16], nod: u8, nid: u8) -> (b: bool)
    requires
        dfs_ctx_ok(*ctx),
        k < p,
        p == ctx.p,
        nstrict <= 8,
        nod <= k,
        nid <= k,
    ensures
        b == dominated(*ctx, k as int, p as int, nstrict as int, r@, nod as int, nid as int),
{
    if nstrict == 0 {
        return false;
    }
    let cap: u8 = nod + (p - k) as u8;
    if cap < ctx.zmaxpod {
        return true;
    }
    if cap <= ctx.zmaxpod + 1 {
        let mut t: usize = 0;
        while t < nstrict
            invariant
                t <= nstrict,
                nstrict <= 8,
                dfs_ctx_ok(*ctx),
                k < p,
                p == ctx.p,
                cap as int == nod + (p - k),
                cap <= ctx.zmaxpod + 1,
                nstrict != 0,
                forall|t2: int| 0 <= t2 < t ==> !#[trigger] z_blocks(*ctx, k as int, r@, cap as int, nid as int, t2),
            decreases nstrict - t,
        {
            let posz = ctx.zpos[t] as usize;
            let mut czp: u8 = 0;
            let mut czm: u8 = 1;
            if posz < k {
                let rv = r[posz];
                czp = if rv > 0 { 1 } else { 0 };
                czm = if rv < 0 { 1 } else { 0 };
            }
            let codmin = ctx.zpod[t] + czp;
            if cap < codmin || (cap == codmin && nid < ctx.zpid[t] + czm) {
                proof {
                    assert(z_blocks(*ctx, k as int, r@, cap as int, nid as int, t as int));
                }
                return true;
            }
            proof {
                assert(!z_blocks(*ctx, k as int, r@, cap as int, nid as int, t as int));
            }
            t += 1;
        }
    }
    false
}


/// Counting leaves leaves the search's readiness as it was.
proof fn lemma_ready_grown(c0: LeafCtx, c1: LeafCtx, n: int, k: int, p: int, nstrict: int, nl: int, s: Seq<i32>, r: Seq<i32>, rows: [[i32; 16]; 20], asum: [[i32; 16]; 20], nod: int, nid: int, pmask: u16, mmask: u16)
    requires
        grown_by(c0, c1, n),
        dfs_ready(c0, k, p, nstrict, nl, s, r, rows, asum, nod, nid, pmask, mmask),
    ensures
        dfs_ready(c1, k, p, nstrict, nl, s, r, rows, asum, nod, nid, pmask, mmask),
{
    assert(c1.p == c0.p && c1.obit == c0.obit && c1.ord == c0.ord && c1.zverts == c0.zverts && c1.nz == c0.nz);
    assert(c1.pod == c0.pod && c1.pid == c0.pid && c1.pbeats == c0.pbeats && c1.zpod == c0.zpod && c1.zpid == c0.zpid);
    assert(c1.zmaxpod == c0.zmaxpod);
}

/// The masks with coordinate `k`'s move added stay within the parent.
proof fn lemma_mask_step(c: LeafCtx, m: u16, k: int)
    requires
        dfs_ctx_ok(c),
        0 <= k < c.p,
        forall|j: int| c.p <= j < 16 ==> !#[trigger] bit16(m, j),
    ensures
        forall|j: int| c.p <= j < 16 ==> !#[trigger] bit16(m | c.obit[k], j),
{
    assert forall|j: int| c.p <= j < 16 implies !#[trigger] bit16(m | c.obit[k], j) by {
        assert(c.obit[k] == 1u16 << (c.ord[k] as u16));
        lemma_bit16_set(m, c.ord[k] as u16, j as u16);
    }
}

/// The leaf step's demands, from the search's state with room for one leaf.
proof fn lemma_leaf_demands(c: LeafCtx)
    requires
        dfs_ctx_ok(c),
        room(c, 1),
    ensures
        c.leaves < u64::MAX,
        c.accepted < u64::MAX,
        forall|t: int| 1 <= t <= c.p + 1 ==> c.sum + c.wp * #[trigger] c.lcm2t[t] <= u128::MAX,
{
    assert forall|t: int| 1 <= t <= c.p + 1 implies c.sum + c.wp * #[trigger] c.lcm2t[t] <= u128::MAX by {
        lemma_max_weight(c.wp, c.lcm2t, c.p + 1, t);
    }
}

/// The last coordinate takes `val`; the child is a leaf when every strict row is negative.
fn try_last_exec(
    k: usize,
    nstrict: usize,
    nl: usize,
    s: &mut [i32; 20],
    r: &mut [i32; 16],
    rows: &[[i32; 16]; 20],
    asum: &[[i32; 16]; 20],
    pmask: u16,
    mmask: u16,
    ctx: &mut LeafCtx,
    val: i32,
)
    requires
        dfs_ready(*old(ctx), k as int, (k + 1) as int, nstrict as int, nl as int, old(s)@, old(r)@, *rows, *asum, 0, 0, pmask, mmask),
        room(*old(ctx), 1),
        val == 0 || val == 1 || val == -1,
    ensures
        *final(ctx) == try_last(*old(ctx), k as int, nstrict as int, nl as int, old(s)@, old(r)@, *rows, pmask, mmask, val),
        grown_by(*old(ctx), *final(ctx), 1),
        final(s)@ == old(s)@,
        final(r)@ == old(r)@,
{
    let ghost s0 = s@;
    let ghost c0 = *ctx;
    let p = k + 1;
    proof {
        lemma_row_room(s0, *rows, *asum, nl as int, p as int, k as int);
    }
    if val != 0 {
        add_row(s, rows, nl, k, val);
    }
    let ok = strict_check(s, nstrict);
    if ok {
        r[k] = val;
        let np = if val > 0 { pmask | ctx.obit[k] } else { pmask };
        let nm = if val < 0 { mmask | ctx.obit[k] } else { mmask };
        proof {
            lemma_mask_step(c0, pmask, k as int);
            lemma_mask_step(c0, mmask, k as int);
            lemma_leaf_demands(c0);
        }
        leaf(ctx, r, np, nm);
        proof {
            lemma_leaf_grows(c0, r@, np, nm);
        }
        r[k] = 0;
        proof {
            assert(r@ =~= old(r)@);
        }
    } else {
        proof {
            lemma_grown_refl(c0, 1);
        }
    }
    if val != 0 {
        sub_row(s, rows, nl, k, val, Ghost(s0));
    }
}

/// The last coordinate, closed by the equality row.
fn last_level_exec(
    k: usize,
    nstrict: usize,
    nl: usize,
    s: &mut [i32; 20],
    r: &mut [i32; 16],
    rows: &[[i32; 16]; 20],
    asum: &[[i32; 16]; 20],
    fplus: u16,
    fminus: u16,
    pmask: u16,
    mmask: u16,
    ctx: &mut LeafCtx,
)
    requires
        dfs_ready(*old(ctx), k as int, (k + 1) as int, nstrict as int, nl as int, old(s)@, old(r)@, *rows, *asum, 0, 0, pmask, mmask),
        room(*old(ctx), 3),
    ensures
        *final(ctx) == last_level(*old(ctx), k as int, nstrict as int, nl as int, old(s)@, old(r)@, *rows, fplus, fminus, pmask, mmask),
        grown_by(*old(ctx), *final(ctx), 3),
        final(s)@ == old(s)@,
        final(r)@ == old(r)@,
{
    let ghost c0 = *ctx;
    let c0v = rows[0][k];
    let fp = (fplus >> (k as u16)) & 1u16 == 1u16;
    let fm = (fminus >> (k as u16)) & 1u16 == 1u16;
    proof {
        lemma_grown_refl(c0, 3);
        lemma_row_room(s@, *rows, *asum, nl as int, (k + 1) as int, k as int);
        assert(abs32(s[0]) + abs32(rows[0][k as int]) <= i32::MAX);
    }
    let s0 = s[0];
    if c0v != 0 {
        if s0 == 0 || s0 == c0v || s0 == -c0v {
            let v: i32 = if s0 == 0 { 0 } else if s0 == c0v { -1 } else { 1 };
            if (fp && v != 1) || (fm && v != -1) {
                return;
            }
            proof {
                lemma_max_weight(c0.wp, c0.lcm2t, c0.p + 1, 1);
            }
            try_last_exec(k, nstrict, nl, s, r, rows, asum, pmask, mmask, ctx, v);
            proof {
                lemma_grown_trans(c0, *ctx, *ctx, 1, 0, 3);
                lemma_grown_refl(*ctx, 0);
            }
        }
        return;
    }
    if s0 != 0 {
        return;
    }
    proof {
        lemma_max_weight(c0.wp, c0.lcm2t, c0.p + 1, 1);
    }
    if !((fp && 0 != 1) || (fm && 0 != -1)) {
        try_last_exec(k, nstrict, nl, s, r, rows, asum, pmask, mmask, ctx, 0);
    } else {
        proof { lemma_grown_refl(c0, 1); }
    }
    let ghost c1 = *ctx;
    proof {
        lemma_room_after(c0, c1, 1, 1);
        lemma_ready_grown(c0, c1, 1, k as int, (k + 1) as int, nstrict as int, nl as int, s@, r@, *rows, *asum, 0, 0, pmask, mmask);
    }
    if !((fp && -1 != 1) || (fm && -1 != -1)) {
        try_last_exec(k, nstrict, nl, s, r, rows, asum, pmask, mmask, ctx, -1);
    } else {
        proof { lemma_grown_refl(c1, 1); }
    }
    let ghost c2 = *ctx;
    proof {
        lemma_grown_trans(c0, c1, c2, 1, 1, 2);
        lemma_room_after(c0, c2, 2, 1);
        lemma_ready_grown(c0, c2, 2, k as int, (k + 1) as int, nstrict as int, nl as int, s@, r@, *rows, *asum, 0, 0, pmask, mmask);
    }
    if !((fp && 1 != 1) || (fm && 1 != -1)) {
        try_last_exec(k, nstrict, nl, s, r, rows, asum, pmask, mmask, ctx, 1);
    } else {
        proof { lemma_grown_refl(c2, 1); }
    }
    proof {
        lemma_grown_trans(c0, c2, *ctx, 2, 1, 3);
    }
}


/// The extension search of the inclusion census below coordinate `k`: the
/// coordinates `k..p` of the new move's results `r` against the parent's moves
/// are tried in `{0, -1, 1}`, keeping row 0 of `rows` as an equality
/// (`s[0]` must close to 0) and rows `1..=nstrict` strict (`s[i]` must end
/// negative), with forced coordinates (`fplus`, `fminus`), the bound prune by
/// the suffix sums `asum` and the degree-domination prune; every leaf goes
/// through the leaf step. The sums and the coordinates are restored.
pub fn child_dfs(
    k: usize,
    p: usize,
    nstrict: usize,
    nl: usize,
    s: &mut [i32; 20],
    r: &mut [i32; 16],
    rows: &[[i32; 16]; 20],
    asum: &[[i32; 16]; 20],
    fplus: u16,
    fminus: u16,
    nod: u8,
    nid: u8,
    pmask: u16,
    mmask: u16,
    ctx: &mut LeafCtx,
)
    requires
        dfs_ready(
            *old(ctx),
            k as int,
            p as int,
            nstrict as int,
            nl as int,
            old(s)@,
            old(r)@,
            *rows,
            *asum,
            nod as int,
            nid as int,
            pmask,
            mmask,
        ),
        room(*old(ctx), pow3(p - k)),
    ensures
        *final(ctx) == dfs_spec(
            *old(ctx),
            k as int,
            p as int,
            nstrict as int,
            nl as int,
            old(s)@,
            old(r)@,
            *rows,
            *asum,
            fplus,
            fminus,
            nod as int,
            nid as int,
            pmask,
            mmask,
        ),
        *final(ctx) == enum_spec(
            *old(ctx),
            k as int,
            p as int,
            nstrict as int,
            nl as int,
            old(s)@,
            old(r)@,
            *rows,
            fplus,
            fminus,
            nod as int,
            nid as int,
            pmask,
            mmask,
        ),
        zdata_ok(*old(ctx), nstrict as int) && path_ok(*old(ctx), k as int, old(r)@, nod as int, nid as int, pmask, mmask) ==> only_leaves(
            enum_all(*old(ctx), k as int, p as int, nstrict as int, nl as int, old(s)@, old(r)@, *rows, fplus, fminus, pmask, mmask),
            *final(ctx),
        ),
        grown_by(*old(ctx), *final(ctx), pow3(p - k)),
        final(s)@ == old(s)@,
        final(r)@ == old(r)@,
    decreases p - k,
{
    let ghost c0 = *ctx;
    let ghost s0 = s@;
    let ghost r0 = r@;
    proof {
        lemma_search_is_enumeration(c0, k as int, p as int, nstrict as int, nl as int, s0, r0, *rows, *asum, fplus, fminus, nod as int, nid as int, pmask, mmask);
        if zdata_ok(c0, nstrict as int) && path_ok(c0, k as int, r0, nod as int, nid as int, pmask, mmask) {
            lemma_search_counts_every_accepted_child(c0, k as int, p as int, nstrict as int, nl as int, s0, r0, *rows, *asum, fplus, fminus, nod as int, nid as int, pmask, mmask);
        }
        lemma_pow3_pos(p - k);
        lemma_grown_refl(c0, pow3(p - k));
        assert forall|i: int| 0 <= i < nl implies #[trigger] asum[i][k as int] >= 0 by {
            lemma_asum_nonneg(*rows, *asum, nl as int, p as int, i, k as int);
        }
    }
    if bound_check(s, asum, nstrict, nl, k) {
        return;
    }
    if k == p {
        proof {
            lemma_leaf_demands(c0);
        }
        leaf(ctx, r, pmask, mmask);
        proof {
            lemma_leaf_grows(c0, r0, pmask, mmask);
        }
        return;
    }
    if dominated_check(ctx, k, p, nstrict, r, nod, nid) {
        return;
    }
    if k + 1 == p {
        proof {
            assert(pow3(0) == 1);
            assert(pow3(p - k) == 3);
        }
        last_level_exec(k, nstrict, nl, s, r, rows, asum, fplus, fminus, pmask, mmask, ctx);
        return;
    }
    let ghost p1 = pow3(p - k - 1);
    proof {
        lemma_pow3_pos(p - k - 1);
        assert(pow3(p - k) == 3 * p1);
        lemma_grown_refl(c0, 0);
        lemma_row_room(s0, *rows, *asum, nl as int, p as int, k as int);
    }
    let mut j: usize = 0;
    while j < 3
        invariant
            j <= 3,
            dfs_ready(c0, k as int, p as int, nstrict as int, nl as int, s0, r0, *rows, *asum, nod as int, nid as int, pmask, mmask),
            k + 1 < p,
            p1 == pow3(p - k - 1),
            p1 >= 1,
            room(c0, 3 * p1),
            s0.len() == 20,
            forall|i: int| 0 <= i < nl ==> abs32(#[trigger] s0[i]) + abs32(rows[i][k as int]) <= i32::MAX,
            s@ == s0,
            r@ == r0,
            *ctx == branches(c0, k as int, p as int, nstrict as int, nl as int, s0, r0, *rows, *asum, fplus, fminus, nod as int, nid as int, pmask, mmask, j as int),
            grown_by(c0, *ctx, j * p1),
        decreases 3 - j,
    {
        let val: i32 = if j == 0 { 0 } else if j == 1 { -1 } else { 1 };
        let fp = (fplus >> (k as u16)) & 1u16 == 1u16;
        let fm = (fminus >> (k as u16)) & 1u16 == 1u16;
        let ghost cc = *ctx;
        proof {
            assert(val == val_of(j as int));
        }
        if !((fp && val != 1) || (fm && val != -1)) {
            if val != 0 {
                add_row(s, rows, nl, k, val);
            }
            r[k] = val;
            let np = if val > 0 { pmask | ctx.obit[k] } else { pmask };
            let nm = if val < 0 { mmask | ctx.obit[k] } else { mmask };
            let nod2: u8 = if val < 0 { nod + 1 } else { nod };
            let nid2: u8 = if val > 0 { nid + 1 } else { nid };
            proof {
                lemma_fits_step(s0, *rows, *asum, nl as int, p as int, k as int, val);
                assert(s@ =~= sums_after(s0, *rows, nl as int, k as int, val));
                assert(r@ =~= r0.update(k as int, val));
                lemma_mask_step(c0, pmask, k as int);
                lemma_mask_step(c0, mmask, k as int);
                assert(cc.obit == c0.obit);
                lemma_room_after(c0, cc, j as int, p1);
                assert(p - (k + 1) == p - k - 1);
            }
            child_dfs(k + 1, p, nstrict, nl, s, r, rows, asum, fplus, fminus, nod2, nid2, np, nm, ctx);
            r[k] = 0;
            proof {
                assert(r@ =~= r0);
            }
            if val != 0 {
                sub_row(s, rows, nl, k, val, Ghost(s0));
            }
            proof {
                assert(j * p1 + p1 == (j + 1) * p1) by (nonlinear_arith);
                lemma_grown_trans(c0, cc, *ctx, j * p1, p1, (j + 1) * p1);
            }
        } else {
            proof {
                lemma_grown_refl(cc, 0);
                lemma_grown_trans(c0, cc, cc, j * p1, 0, (j + 1) * p1);
            }
        }
        proof {
            assert((j + 1) * p1 == j * p1 + p1) by (nonlinear_arith);
            assert(*ctx == branches(c0, k as int, p as int, nstrict as int, nl as int, s0, r0, *rows, *asum, fplus, fminus, nod as int, nid as int, pmask, mmask, j + 1));
        }
        j += 1;
    }
    proof {
        assert(3 * p1 == pow3(p - k));
    }
}


/// The running sums agree on the first `nl` rows.
pub open spec fn sums_agree(s: Seq<i32>, t: Seq<i32>, nl: int) -> bool {
    &&& s.len() >= nl
    &&& t.len() >= nl
    &&& forall|i: int| 0 <= i < nl ==> #[trigger] s[i] == t[i]
}

proof fn lemma_after_agree(s: Seq<i32>, t: Seq<i32>, rows: [[i32; 16]; 20], nl: int, k: int, val: i32)
    requires
        sums_agree(s, t, nl),
    ensures
        sums_agree(sums_after(s, rows, nl, k, val), sums_after(t, rows, nl, k, val), nl),
{
    assert forall|i: int| 0 <= i < nl implies #[trigger] sums_after(s, rows, nl, k, val)[i] == sums_after(t, rows, nl, k, val)[i] by {
        assert(s[i] == t[i]);
    }
}

proof fn lemma_try_last_agree(
    c: LeafCtx,
    k: int,
    nstrict: int,
    nl: int,
    s: Seq<i32>,
    t: Seq<i32>,
    r: Seq<i32>,
    rows: [[i32; 16]; 20],
    pmask: u16,
    mmask: u16,
    val: i32,
)
    requires
        sums_agree(s, t, nl),
        1 + nstrict <= nl,
    ensures
        try_last(c, k, nstrict, nl, s, r, rows, pmask, mmask, val) == try_last(c, k, nstrict, nl, t, r, rows, pmask, mmask, val),
{
    lemma_after_agree(s, t, rows, nl, k, val);
    let sa = sums_after(s, rows, nl, k, val);
    let ta = sums_after(t, rows, nl, k, val);
    assert(strict_neg(sa, nstrict) == strict_neg(ta, nstrict)) by {
        if strict_neg(sa, nstrict) {
            assert forall|i: int| 1 <= i <= nstrict implies #[trigger] ta[i] < 0 by {
                assert(sa[i] == ta[i]);
            }
        }
        if strict_neg(ta, nstrict) {
            assert forall|i: int| 1 <= i <= nstrict implies #[trigger] sa[i] < 0 by {
                assert(sa[i] == ta[i]);
            }
        }
    }
}

/// The search reads the running sums of its `nl` rows only: two running-sum
/// sequences that agree on their first `nl` entries give the same search, so
/// the fixed-size search `dfs_m::<NL>` and `child_dfs` on a longer array with
/// the same first `NL` sums end in the same state.
pub proof fn lemma_dfs_agree(
    c: LeafCtx,
    k: int,
    p: int,
    nstrict: int,
    nl: int,
    s: Seq<i32>,
    t: Seq<i32>,
    r: Seq<i32>,
    rows: [[i32; 16]; 20],
    asum: [[i32; 16]; 20],
    fplus: u16,
    fminus: u16,
    nod: int,
    nid: int,
    pmask: u16,
    mmask: u16,
)
    requires
        sums_agree(s, t, nl),
        0 <= nstrict,
        1 + nstrict <= nl,
    ensures
        dfs_spec(c, k, p, nstrict, nl, s, r, rows, asum, fplus, fminus, nod, nid, pmask, mmask) == dfs_spec(
            c,
            k,
            p,
            nstrict,
            nl,
            t,
            r,
            rows,
            asum,
            fplus,
            fminus,
            nod,
            nid,
            pmask,
            mmask,
        ),
    decreases p - k, 4int,
{
    assert(bound_pruned(s, asum, nstrict, k) == bound_pruned(t, asum, nstrict, k)) by {
        assert(s[0] == t[0]);
        if exists|i: int| 1 <= i <= nstrict && s[i] - asum[i][k] >= 0 {
            let i = choose|i: int| 1 <= i <= nstrict && s[i] - asum[i][k] >= 0;
            assert(s[i] == t[i]);
        }
        if exists|i: int| 1 <= i <= nstrict && t[i] - asum[i][k] >= 0 {
            let i = choose|i: int| 1 <= i <= nstrict && t[i] - asum[i][k] >= 0;
            assert(s[i] == t[i]);
        }
    }
    if 0 <= k < p && k + 1 == p {
        assert(s[0] == t[0]);
        let c1 = c;
        lemma_try_last_agree(c, k, nstrict, nl, s, t, r, rows, pmask, mmask, val_of(0));
        lemma_try_last_agree(c, k, nstrict, nl, s, t, r, rows, pmask, mmask, val_of(1));
        lemma_try_last_agree(c, k, nstrict, nl, s, t, r, rows, pmask, mmask, val_of(2));
        let v1 = if forced_ok(fplus, fminus, k, val_of(0)) { try_last(c, k, nstrict, nl, s, r, rows, pmask, mmask, val_of(0)) } else { c };
        lemma_try_last_agree(v1, k, nstrict, nl, s, t, r, rows, pmask, mmask, val_of(1));
        let v2 = if forced_ok(fplus, fminus, k, val_of(1)) { try_last(v1, k, nstrict, nl, s, r, rows, pmask, mmask, val_of(1)) } else { v1 };
        lemma_try_last_agree(v2, k, nstrict, nl, s, t, r, rows, pmask, mmask, val_of(2));
    } else if 0 <= k < p {
        lemma_branches_agree(c, k, p, nstrict, nl, s, t, r, rows, asum, fplus, fminus, nod, nid, pmask, mmask, 3);
    }
}

proof fn lemma_branches_agree(
    c: LeafCtx,
    k: int,
    p: int,
    nstrict: int,
    nl: int,
    s: Seq<i32>,
    t: Seq<i32>,
    r: Seq<i32>,
    rows: [[i32; 16]; 20],
    asum: [[i32; 16]; 20],
    fplus: u16,
    fminus: u16,
    nod: int,
    nid: int,
    pmask: u16,
    mmask: u16,
    j: int,
)
    requires
        sums_agree(s, t, nl),
        0 <= nstrict,
        1 + nstrict <= nl,
    ensures
        branches(c, k, p, nstrict, nl, s, r, rows, asum, fplus, fminus, nod, nid, pmask, mmask, j) == branches(
            c,
            k,
            p,
            nstrict,
            nl,
            t,
            r,
            rows,
            asum,
            fplus,
            fminus,
            nod,
            nid,
            pmask,
            mmask,
            j,
        ),
    decreases p - k, j,
{
    if !(j <= 0 || k >= p || k < 0 || j > 3) {
        lemma_branches_agree(c, k, p, nstrict, nl, s, t, r, rows, asum, fplus, fminus, nod, nid, pmask, mmask, j - 1);
        let cc = branches(c, k, p, nstrict, nl, s, r, rows, asum, fplus, fminus, nod, nid, pmask, mmask, j - 1);
        let val = val_of(j - 1);
        lemma_after_agree(s, t, rows, nl, k, val);
        lemma_dfs_agree(
            cc,
            k + 1,
            p,
            nstrict,
            nl,
            sums_after(s, rows, nl, k, val),
            sums_after(t, rows, nl, k, val),
            r.update(k, val),
            rows,
            asum,
            fplus,
            fminus,
            nod + if val < 0 { 1int } else { 0int },
            nid + if val > 0 { 1int } else { 0int },
            plus_after(cc, pmask, k, val),
            minus_after(cc, mmask, k, val),
        );
    }
}

/// The extension search with `NL - 1` strict rows and the running sums held
/// in a fixed-size array of their own, passed by value: the same search as
/// [`child_dfs`] on those rows.
pub fn dfs_m<const NL: usize>(
    k: usize,
    p: usize,
    s: [i32; NL],
    r: &mut [i32; 16],
    rows: &[[i32; 16]; 20],
    asum: &[[i32; 16]; 20],
    fplus: u16,
    fminus: u16,
    nod: u8,
    nid: u8,
    pmask: u16,
    mmask: u16,
    ctx: &mut LeafCtx,
)
    requires
        2 <= NL <= 9,
        dfs_ready(
            *old(ctx),
            k as int,
            p as int,
            NL - 1,
            NL as int,
            s@,
            old(r)@,
            *rows,
            *asum,
            nod as int,
            nid as int,
            pmask,
            mmask,
        ),
        room(*old(ctx), pow3(p - k)),
    ensures
        *final(ctx) == dfs_spec(
            *old(ctx),
            k as int,
            p as int,
            NL - 1,
            NL as int,
            s@,
            old(r)@,
            *rows,
            *asum,
            fplus,
            fminus,
            nod as int,
            nid as int,
            pmask,
            mmask,
        ),
        *final(ctx) == enum_spec(
            *old(ctx),
            k as int,
            p as int,
            NL - 1,
            NL as int,
            s@,
            old(r)@,
            *rows,
            fplus,
            fminus,
            nod as int,
            nid as int,
            pmask,
            mmask,
        ),
        zdata_ok(*old(ctx), NL - 1) && path_ok(*old(ctx), k as int, old(r)@, nod as int, nid as int, pmask, mmask) ==> only_leaves(
            enum_all(*old(ctx), k as int, p as int, NL - 1, NL as int, s@, old(r)@, *rows, fplus, fminus, pmask, mmask),
            *final(ctx),
        ),
        grown_by(*old(ctx), *final(ctx), pow3(p - k)),
        final(r)@ == old(r)@,
{
    proof {
        lemma_search_is_enumeration(*ctx, k as int, p as int, NL - 1, NL as int, s@, r@, *rows, *asum, fplus, fminus, nod as int, nid as int, pmask, mmask);
        if zdata_ok(*ctx, NL - 1) && path_ok(*ctx, k as int, r@, nod as int, nid as int, pmask, mmask) {
            lemma_search_counts_every_accepted_child(*ctx, k as int, p as int, NL - 1, NL as int, s@, r@, *rows, *asum, fplus, fminus, nod as int, nid as int, pmask, mmask);
        }
    }
    let mut buf = [0i32; 20];
    let mut i: usize = 0;
    while i < NL
        invariant
            i <= NL,
            NL <= 9,
            s@.len() == NL,
            forall|i2: int| 0 <= i2 < i ==> #[trigger] buf[i2] == s[i2],
        decreases NL - i,
    {
        buf[i] = s[i];
        i += 1;
    }
    proof {
        assert(sums_agree(buf@, s@, NL as int));
        lemma_dfs_agree(
            *ctx,
            k as int,
            p as int,
            NL - 1,
            NL as int,
            buf@,
            s@,
            r@,
            *rows,
            *asum,
            fplus,
            fminus,
            nod as int,
            nid as int,
            pmask,
            mmask,
        );
        assert forall|i2: int| 0 <= i2 < NL implies abs32(#[trigger] buf@[i2]) + asum[i2][k as int] <= i32::MAX by {
            assert(buf@[i2] == s@[i2]);
        }
    }
    child_dfs(k, p, NL - 1, NL, &mut buf, r, rows, asum, fplus, fminus, nod, nid, pmask, mmask, ctx);
}


/// The leaf filter of the plain enumeration: the equality row closed and every strict row negative.
pub open spec fn rows_close(s: Seq<i32>, nstrict: int) -> bool {
    s[0] == 0 && strict_neg(s, nstrict)
}

/// The plain enumeration of the completions of coordinates `k..p`: each
/// coordinate takes 0, -1 and 1 in that order where the forced coordinates
/// admit it, subtrees cut by the degree-domination prune are skipped, and a
/// completion whose rows close goes through the leaf step.
pub open spec fn enum_spec(
    c: LeafCtx,
    k: int,
    p: int,
    nstrict: int,
    nl: int,
    s: Seq<i32>,
    r: Seq<i32>,
    rows: [[i32; 16]; 20],
    fplus: u16,
    fminus: u16,
    nod: int,
    nid: int,
    pmask: u16,
    mmask: u16,
) -> LeafCtx
    decreases p - k, 4int,
{
    if k > p || k < 0 {
        c
    } else if k == p {
        if rows_close(s, nstrict) { leaf_step(c, r, pmask, mmask) } else { c }
    } else if dominated(c, k, p, nstrict, r, nod, nid) {
        c
    } else {
        enum_branches(c, k, p, nstrict, nl, s, r, rows, fplus, fminus, nod, nid, pmask, mmask, 3)
    }
}

/// The first `j` branches of the plain enumeration at coordinate `k`.
pub open spec fn enum_branches(
    c: LeafCtx,
    k: int,
    p: int,
    nstrict: int,
    nl: int,
    s: Seq<i32>,
    r: Seq<i32>,
    rows: [[i32; 16]; 20],
    fplus: u16,
    fminus: u16,
    nod: int,
    nid: int,
    pmask: u16,
    mmask: u16,
    j: int,
) -> LeafCtx
    decreases p - k, j,
{
    if j <= 0 || k >= p || k < 0 || j > 3 {
        c
    } else {
        let cc = enum_branches(c, k, p, nstrict, nl, s, r, rows, fplus, fminus, nod, nid, pmask, mmask, j - 1);
        let val = val_of(j - 1);
        if forced_ok(fplus, fminus, k, val) {
            enum_spec(
                cc,
                k + 1,
                p,
                nstrict,
                nl,
                sums_after(s, rows, nl, k, val),
                r.update(k, val),
                rows,
                fplus,
                fminus,
                nod + if val < 0 { 1int } else { 0int },
                nid + if val > 0 { 1int } else { 0int },
                plus_after(cc, pmask, k, val),
                minus_after(cc, mmask, k, val),
            )
        } else {
            cc
        }
    }
}

/// The running sums at coordinate `k` stay in range and the bound table is that of the rows.
pub open spec fn enum_pre(k: int, p: int, nstrict: int, nl: int, s: Seq<i32>, rows: [[i32; 16]; 20], asum: [[i32; 16]; 20]) -> bool {
    &&& 0 <= k <= p
    &&& p < 16
    &&& 0 <= nstrict
    &&& 1 + nstrict <= nl <= 20
    &&& s.len() >= nl
    &&& asum_table(rows, asum, nl, p)
    &&& forall|i: int| 0 <= i < nl ==> abs32(#[trigger] s[i]) + asum[i][k] <= i32::MAX
}

/// A bound prune at `k` carries over to `k + 1`, whatever coordinate `k` takes.
proof fn lemma_pruned_step(s: Seq<i32>, rows: [[i32; 16]; 20], asum: [[i32; 16]; 20], nstrict: int, nl: int, p: int, k: int, val: i32)
    requires
        enum_pre(k, p, nstrict, nl, s, rows, asum),
        k < p,
        val == 0 || val == 1 || val == -1,
        bound_pruned(s, asum, nstrict, k),
    ensures
        bound_pruned(sums_after(s, rows, nl, k, val), asum, nstrict, k + 1),
{
    lemma_fits_step(s, rows, asum, nl, p, k, val);
    let t = sums_after(s, rows, nl, k, val);
    assert(asum[0][k] == asum[0][k + 1] + abs32(rows[0][k]));
    assert(t[0] == s[0] + val * rows[0][k]);
    if !(abs32(s[0]) > asum[0][k]) {
        let i = choose|i: int| 1 <= i <= nstrict && s[i] - asum[i][k] >= 0;
        assert(asum[i][k] == asum[i][k + 1] + abs32(rows[i][k]));
        assert(t[i] == s[i] + val * rows[i][k]);
        assert(t[i] - asum[i][k + 1] >= 0);
    }
}

/// Below a bound prune no completion closes its rows.
proof fn lemma_pruned_empty(
    c: LeafCtx,
    k: int,
    p: int,
    nstrict: int,
    nl: int,
    s: Seq<i32>,
    r: Seq<i32>,
    rows: [[i32; 16]; 20],
    asum: [[i32; 16]; 20],
    fplus: u16,
    fminus: u16,
    nod: int,
    nid: int,
    pmask: u16,
    mmask: u16,
)
    requires
        enum_pre(k, p, nstrict, nl, s, rows, asum),
        bound_pruned(s, asum, nstrict, k),
    ensures
        enum_spec(c, k, p, nstrict, nl, s, r, rows, fplus, fminus, nod, nid, pmask, mmask) == c,
    decreases p - k, 4int,
{
    if k == p {
        if rows_close(s, nstrict) {
            assert(asum[0][p] == 0);
            if !(abs32(s[0]) > asum[0][k]) {
                let i = choose|i: int| 1 <= i <= nstrict && s[i] - asum[i][k] >= 0;
                assert(asum[i][p] == 0);
                assert(s[i] < 0);
            }
        }
    } else if !dominated(c, k, p, nstrict, r, nod, nid) {
        lemma_pruned_branches(c, k, p, nstrict, nl, s, r, rows, asum, fplus, fminus, nod, nid, pmask, mmask, 3);
    }
}

proof fn lemma_pruned_branches(
    c: LeafCtx,
    k: int,
    p: int,
    nstrict: int,
    nl: int,
    s: Seq<i32>,
    r: Seq<i32>,
    rows: [[i32; 16]; 20],
    asum: [[i32; 16]; 20],
    fplus: u16,
    fminus: u16,
    nod: int,
    nid: int,
    pmask: u16,
    mmask: u16,
    j: int,
)
    requires
        enum_pre(k, p, nstrict, nl, s, rows, asum),
        bound_pruned(s, asum, nstrict, k),
    ensures
        enum_branches(c, k, p, nstrict, nl, s, r, rows, fplus, fminus, nod, nid, pmask, mmask, j) == c,
    decreases p - k, j,
{
    if !(j <= 0 || k >= p || k < 0 || j > 3) {
        lemma_pruned_branches(c, k, p, nstrict, nl, s, r, rows, asum, fplus, fminus, nod, nid, pmask, mmask, j - 1);
        let val = val_of(j - 1);
        lemma_pruned_step(s, rows, asum, nstrict, nl, p, k, val);
        lemma_fits_step(s, rows, asum, nl, p, k, val);
        lemma_pruned_empty(
            c,
            k + 1,
            p,
            nstrict,
            nl,
            sums_after(s, rows, nl, k, val),
            r.update(k, val),
            rows,
            asum,
            fplus,
            fminus,
            nod + if val < 0 { 1int } else { 0int },
            nid + if val > 0 { 1int } else { 0int },
            plus_after(c, pmask, k, val),
            minus_after(c, mmask, k, val),
        );
    }
}

/// At the last coordinate, the direct closing of the equality row tries
/// exactly the values whose completion closes it.
proof fn lemma_last_is_enum(
    c: LeafCtx,
    k: int,
    nstrict: int,
    nl: int,
    s: Seq<i32>,
    r: Seq<i32>,
    rows: [[i32; 16]; 20],
    asum: [[i32; 16]; 20],
    fplus: u16,
    fminus: u16,
    nod: int,
    nid: int,
    pmask: u16,
    mmask: u16,
)
    requires
        enum_pre(k, k + 1, nstrict, nl, s, rows, asum),
    ensures
        last_level(c, k, nstrict, nl, s, r, rows, fplus, fminus, pmask, mmask) == enum_branches(
            c,
            k,
            k + 1,
            nstrict,
            nl,
            s,
            r,
            rows,
            fplus,
            fminus,
            nod,
            nid,
            pmask,
            mmask,
            3,
        ),
{
    let p = k + 1;
    let c0 = rows[0][k];
    lemma_fits_step(s, rows, asum, nl, p, k, val_of(0));
    lemma_fits_step(s, rows, asum, nl, p, k, val_of(1));
    lemma_fits_step(s, rows, asum, nl, p, k, val_of(2));
    let t0 = sums_after(s, rows, nl, k, val_of(0));
    let t1 = sums_after(s, rows, nl, k, val_of(1));
    let t2 = sums_after(s, rows, nl, k, val_of(2));
    assert(t0[0] == s[0]);
    assert(t1[0] == s[0] - c0);
    assert(t2[0] == s[0] + c0);
    lemma_enum_last_branch(c, k, nstrict, nl, s, r, rows, fplus, fminus, nod, nid, pmask, mmask, 0);
    lemma_enum_last_branch(c, k, nstrict, nl, s, r, rows, fplus, fminus, nod, nid, pmask, mmask, 1);
    lemma_enum_last_branch(c, k, nstrict, nl, s, r, rows, fplus, fminus, nod, nid, pmask, mmask, 2);
    assert(enum_branches(c, k, p, nstrict, nl, s, r, rows, fplus, fminus, nod, nid, pmask, mmask, 0) == c);
}

/// One more branch at the last coordinate: the leaf step when its rows close.
proof fn lemma_enum_last_branch(
    c: LeafCtx,
    k: int,
    nstrict: int,
    nl: int,
    s: Seq<i32>,
    r: Seq<i32>,
    rows: [[i32; 16]; 20],
    fplus: u16,
    fminus: u16,
    nod: int,
    nid: int,
    pmask: u16,
    mmask: u16,
    j: int,
)
    requires
        0 <= k,
        0 <= j < 3,
    ensures
        ({
            let e = enum_branches(c, k, k + 1, nstrict, nl, s, r, rows, fplus, fminus, nod, nid, pmask, mmask, j);
            let val = val_of(j);
            let t = sums_after(s, rows, nl, k, val);
            enum_branches(c, k, k + 1, nstrict, nl, s, r, rows, fplus, fminus, nod, nid, pmask, mmask, j + 1) == if forced_ok(
                fplus,
                fminus,
                k,
                val,
            ) {
                if rows_close(t, nstrict) {
                    leaf_step(e, r.update(k, val), plus_after(e, pmask, k, val), minus_after(e, mmask, k, val))
                } else {
                    e
                }
            } else {
                e
            }
        }),
{
    let e = enum_branches(c, k, k + 1, nstrict, nl, s, r, rows, fplus, fminus, nod, nid, pmask, mmask, j);
    let val = val_of(j);
    let t = sums_after(s, rows, nl, k, val);
    let nod2 = nod + if val < 0 { 1int } else { 0int };
    let nid2 = nid + if val > 0 { 1int } else { 0int };
    assert(enum_spec(e, k + 1, k + 1, nstrict, nl, t, r.update(k, val), rows, fplus, fminus, nod2, nid2, plus_after(e, pmask, k, val), minus_after(
        e,
        mmask,
        k,
        val,
    )) == if rows_close(t, nstrict) {
        leaf_step(e, r.update(k, val), plus_after(e, pmask, k, val), minus_after(e, mmask, k, val))
    } else {
        e
    });
}

/// The search and the plain enumeration agree from coordinate `k` on.
proof fn lemma_dfs_enum(
    c: LeafCtx,
    k: int,
    p: int,
    nstrict: int,
    nl: int,
    s: Seq<i32>,
    r: Seq<i32>,
    rows: [[i32; 16]; 20],
    asum: [[i32; 16]; 20],
    fplus: u16,
    fminus: u16,
    nod: int,
    nid: int,
    pmask: u16,
    mmask: u16,
)
    requires
        enum_pre(k, p, nstrict, nl, s, rows, asum),
    ensures
        dfs_spec(c, k, p, nstrict, nl, s, r, rows, asum, fplus, fminus, nod, nid, pmask, mmask) == enum_spec(
            c,
            k,
            p,
            nstrict,
            nl,
            s,
            r,
            rows,
            fplus,
            fminus,
            nod,
            nid,
            pmask,
            mmask,
        ),
    decreases p - k, 4int,
{
    if bound_pruned(s, asum, nstrict, k) {
        lemma_pruned_empty(c, k, p, nstrict, nl, s, r, rows, asum, fplus, fminus, nod, nid, pmask, mmask);
    } else if k == p {
        assert(asum[0][p] == 0);
        assert forall|i: int| 1 <= i <= nstrict implies #[trigger] s[i] < 0 by {
            assert(asum[i][p] == 0);
        }
    } else if !dominated(c, k, p, nstrict, r, nod, nid) {
        if k + 1 == p {
            lemma_last_is_enum(c, k, nstrict, nl, s, r, rows, asum, fplus, fminus, nod, nid, pmask, mmask);
        } else {
            lemma_branches_enum(c, k, p, nstrict, nl, s, r, rows, asum, fplus, fminus, nod, nid, pmask, mmask, 3);
        }
    }
}

proof fn lemma_branches_enum(
    c: LeafCtx,
    k: int,
    p: int,
    nstrict: int,
    nl: int,
    s: Seq<i32>,
    r: Seq<i32>,
    rows: [[i32; 16]; 20],
    asum: [[i32; 16]; 20],
    fplus: u16,
    fminus: u16,
    nod: int,
    nid: int,
    pmask: u16,
    mmask: u16,
    j: int,
)
    requires
        enum_pre(k, p, nstrict, nl, s, rows, asum),
    ensures
        branches(c, k, p, nstrict, nl, s, r, rows, asum, fplus, fminus, nod, nid, pmask, mmask, j) == enum_branches(
            c,
            k,
            p,
            nstrict,
            nl,
            s,
            r,
            rows,
            fplus,
            fminus,
            nod,
            nid,
            pmask,
            mmask,
            j,
        ),
    decreases p - k, j,
{
    if !(j <= 0 || k >= p || k < 0 || j > 3) {
        lemma_branches_enum(c, k, p, nstrict, nl, s, r, rows, asum, fplus, fminus, nod, nid, pmask, mmask, j - 1);
        let cc = branches(c, k, p, nstrict, nl, s, r, rows, asum, fplus, fminus, nod, nid, pmask, mmask, j - 1);
        let val = val_of(j - 1);
        lemma_fits_step(s, rows, asum, nl, p, k, val);
        lemma_dfs_enum(
            cc,
            k + 1,
            p,
            nstrict,
            nl,
            sums_after(s, rows, nl, k, val),
            r.update(k, val),
            rows,
            asum,
            fplus,
            fminus,
            nod + if val < 0 { 1int } else { 0int },
            nid + if val > 0 { 1int } else { 0int },
            plus_after(cc, pmask, k, val),
            minus_after(cc, mmask, k, val),
        );
    }
}

/// The extension search is the plain enumeration: its bound prunes and its
/// direct closing of the last coordinate cut no completion whose rows close,
/// so the search counts exactly the completions of coordinates `k..p` in
/// `{0, -1, 1}` (tried in the order 0, -1, 1) that keep the forced
/// coordinates, close the equality row and keep every strict row negative,
/// outside the subtrees that the degree-domination prune skips.
pub proof fn lemma_search_is_enumeration(
    c: LeafCtx,
    k: int,
    p: int,
    nstrict: int,
    nl: int,
    s: Seq<i32>,
    r: Seq<i32>,
    rows: [[i32; 16]; 20],
    asum: [[i32; 16]; 20],
    fplus: u16,
    fminus: u16,
    nod: int,
    nid: int,
    pmask: u16,
    mmask: u16,
)
    requires
        dfs_ready(c, k, p, nstrict, nl, s, r, rows, asum, nod, nid, pmask, mmask),
    ensures
        dfs_spec(c, k, p, nstrict, nl, s, r, rows, asum, fplus, fminus, nod, nid, pmask, mmask) == enum_spec(
            c,
            k,
            p,
            nstrict,
            nl,
            s,
            r,
            rows,
            fplus,
            fminus,
            nod,
            nid,
            pmask,
            mmask,
        ),
{
    lemma_dfs_enum(c, k, p, nstrict, nl, s, r, rows, asum, fplus, fminus, nod, nid, pmask, mmask);
}


/// The plain enumeration with no degree-domination prune.
pub open spec fn enum_all(
    c: LeafCtx,
    k: int,
    p: int,
    nstrict: int,
    nl: int,
    s: Seq<i32>,
    r: Seq<i32>,
    rows: [[i32; 16]; 20],
    fplus: u16,
    fminus: u16,
    pmask: u16,
    mmask: u16,
) -> LeafCtx
    decreases p - k, 4int,
{
    if k > p || k < 0 {
        c
    } else if k == p {
        if rows_close(s, nstrict) { leaf_step(c, r, pmask, mmask) } else { c }
    } else {
        enum_all_branches(c, k, p, nstrict, nl, s, r, rows, fplus, fminus, pmask, mmask, 3)
    }
}

/// The first `j` branches of the enumeration with no domination prune.
pub open spec fn enum_all_branches(
    c: LeafCtx,
    k: int,
    p: int,
    nstrict: int,
    nl: int,
    s: Seq<i32>,
    r: Seq<i32>,
    rows: [[i32; 16]; 20],
    fplus: u16,
    fminus: u16,
    pmask: u16,
    mmask: u16,
    j: int,
) -> LeafCtx
    decreases p - k, j,
{
    if j <= 0 || k >= p || k < 0 || j > 3 {
        c
    } else {
        let cc = enum_all_branches(c, k, p, nstrict, nl, s, r, rows, fplus, fminus, pmask, mmask, j - 1);
        let val = val_of(j - 1);
        if forced_ok(fplus, fminus, k, val) {
            enum_all(
                cc,
                k + 1,
                p,
                nstrict,
                nl,
                sums_after(s, rows, nl, k, val),
                r.update(k, val),
                rows,
                fplus,
                fminus,
                plus_after(cc, pmask, k, val),
                minus_after(cc, mmask, k, val),
            )
        } else {
            cc
        }
    }
}

/// The designated moves behind the strict rows: move `zverts[t]` sits at
/// coordinate `zpos[t]` with parent degrees `zpod[t]`, `zpid[t]`, and
/// `zmaxpod` is reached by one of them; the coordinates name distinct moves.
pub open spec fn zdata_ok(c: LeafCtx, nstrict: int) -> bool {
    &&& nstrict <= c.nz
    &&& nstrict <= 8
    &&& forall|t: int| 0 <= t < nstrict ==> #[trigger] c.zpos[t] < c.p && c.ord[c.zpos[t] as int] == c.zverts[t]
    &&& forall|t: int| 0 <= t < nstrict ==> #[trigger] c.zpod[t] == c.pod[c.zverts[t] as int] && c.zpid[t] == c.pid[c.zverts[t] as int]
    &&& nstrict > 0 ==> exists|t: int| 0 <= t < nstrict && #[trigger] c.zpod[t] >= c.zmaxpod
    &&& forall|i: int, j: int| 0 <= i < c.p && 0 <= j < c.p && i != j ==> #[trigger] c.ord[i] != #[trigger] c.ord[j]
}

/// The masks and counts along the path to coordinate `k`: `pmask` holds the
/// moves of the coordinates set to 1, `mmask` those set to -1, and `nid`,
/// `nod` count them.
pub open spec fn path_ok(c: LeafCtx, k: int, r: Seq<i32>, nod: int, nid: int, pmask: u16, mmask: u16) -> bool {
    &&& forall|b: int| 0 <= b < 16 ==> (#[trigger] bit16(pmask, b) <==> exists|j: int| 0 <= j < k && c.ord[j] == b && r[j] > 0)
    &&& forall|b: int| 0 <= b < 16 ==> (#[trigger] bit16(mmask, b) <==> exists|j: int| 0 <= j < k && c.ord[j] == b && r[j] < 0)
    &&& cnt16(pmask, 16) == nid
    &&& cnt16(mmask, 16) == nod
}

/// `c1` is `c0` with only its leaf count changed.
pub open spec fn only_leaves(c0: LeafCtx, c1: LeafCtx) -> bool {
    c1 == LeafCtx { leaves: c1.leaves, ..c0 }
}

proof fn lemma_cnt16_or_bit(m: u16, b: int, i: int)
    requires
        0 <= b < 16,
        !bit16(m, b),
        0 <= i <= 16,
    ensures
        cnt16(m | (1u16 << (b as u16)), i) == cnt16(m, i) + if b < i { 1int } else { 0int },
    decreases i,
{
    if i > 0 {
        lemma_cnt16_or_bit(m, b, i - 1);
        lemma_bit16_set(m, b as u16, (i - 1) as u16);
    }
}

/// Setting coordinate `k` to `val` extends the path.
proof fn lemma_path_step(c: LeafCtx, k: int, r: Seq<i32>, nod: int, nid: int, pmask: u16, mmask: u16, val: i32, nstrict: int)
    requires
        dfs_ctx_ok(c),
        zdata_ok(c, nstrict),
        0 <= k < c.p,
        r.len() == 16,
        path_ok(c, k, r, nod, nid, pmask, mmask),
        val == 0 || val == 1 || val == -1,
    ensures
        path_ok(
            c,
            k + 1,
            r.update(k, val),
            nod + if val < 0 { 1int } else { 0int },
            nid + if val > 0 { 1int } else { 0int },
            plus_after(c, pmask, k, val),
            minus_after(c, mmask, k, val),
        ),
{
    let r2 = r.update(k, val);
    let o = c.ord[k];
    assert(c.obit[k] == 1u16 << (o as u16));
    assert(!bit16(pmask, o as int)) by {
        if bit16(pmask, o as int) {
            let j = choose|j: int| 0 <= j < k && c.ord[j] == o && r[j] > 0;
            assert(c.ord[j] != c.ord[k]);
        }
    }
    assert(!bit16(mmask, o as int)) by {
        if bit16(mmask, o as int) {
            let j = choose|j: int| 0 <= j < k && c.ord[j] == o && r[j] < 0;
            assert(c.ord[j] != c.ord[k]);
        }
    }
    if val > 0 {
        lemma_cnt16_or_bit(pmask, o as int, 16);
    }
    if val < 0 {
        lemma_cnt16_or_bit(mmask, o as int, 16);
    }
    assert forall|b: int| 0 <= b < 16 implies (#[trigger] bit16(plus_after(c, pmask, k, val), b) <==> exists|j: int|
        0 <= j < k + 1 && c.ord[j] == b && r2[j] > 0) by {
        lemma_bit16_set(pmask, o as u16, b as u16);
        if exists|j: int| 0 <= j < k + 1 && c.ord[j] == b && r2[j] > 0 {
            let j = choose|j: int| 0 <= j < k + 1 && c.ord[j] == b && r2[j] > 0;
            if j < k {
                assert(r2[j] == r[j]);
            }
        }
        if bit16(pmask, b) {
            let j = choose|j: int| 0 <= j < k && c.ord[j] == b && r[j] > 0;
            assert(r2[j] == r[j]);
        }
        if val > 0 && b == o {
            assert(r2[k] > 0);
        }
    }
    assert forall|b: int| 0 <= b < 16 implies (#[trigger] bit16(minus_after(c, mmask, k, val), b) <==> exists|j: int|
        0 <= j < k + 1 && c.ord[j] == b && r2[j] < 0) by {
        lemma_bit16_set(mmask, o as u16, b as u16);
        if exists|j: int| 0 <= j < k + 1 && c.ord[j] == b && r2[j] < 0 {
            let j = choose|j: int| 0 <= j < k + 1 && c.ord[j] == b && r2[j] < 0;
            if j < k {
                assert(r2[j] == r[j]);
            }
        }
        if bit16(mmask, b) {
            let j = choose|j: int| 0 <= j < k && c.ord[j] == b && r[j] < 0;
            assert(r2[j] == r[j]);
        }
        if val < 0 && b == o {
            assert(r2[k] < 0);
        }
    }
}

/// Designated move `t` keeps out-ranking the new move one coordinate deeper.
proof fn lemma_blocks_step(c: LeafCtx, k: int, p: int, r: Seq<i32>, nod: int, nid: int, t: int, val: i32)
    requires
        0 <= k < p,
        p < 16,
        r.len() == 16,
        z_blocks(c, k, r, nod + (p - k), nid, t),
        val == 0 || val == 1 || val == -1,
    ensures
        z_blocks(
            c,
            k + 1,
            r.update(k, val),
            (nod + if val < 0 { 1int } else { 0int }) + (p - (k + 1)),
            nid + if val > 0 { 1int } else { 0int },
            t,
        ),
{
    let posz = c.zpos[t] as int;
    let r2 = r.update(k, val);
    if posz < k {
        assert(r2[posz] == r[posz]);
    } else if posz == k {
        assert(r2[posz] == val);
    }
}

/// At a completion, a blocking designated move out-ranks the new move, so the child is not accepted.
proof fn lemma_blocked_leaf(c: LeafCtx, r: Seq<i32>, nod: int, nid: int, pmask: u16, mmask: u16, t: int, nstrict: int)
    requires
        dfs_ctx_ok(c),
        zdata_ok(c, nstrict),
        0 <= t < nstrict,
        r.len() == 16,
        path_ok(c, c.p as int, r, nod, nid, pmask, mmask),
        z_blocks(c, c.p as int, r, nod, nid, t),
    ensures
        only_leaves(c, leaf_step(c, r, pmask, mmask)),
{
    let z = c.zverts[t] as int;
    let posz = c.zpos[t] as int;
    lemma_cnt16_le(pmask, 16);
    lemma_cnt16_le(mmask, 16);
    assert(c.ord[posz] == z);
    assert(z < c.p);
    assert(bit16(pmask, z) <==> r[posz] > 0) by {
        if bit16(pmask, z) {
            let j = choose|j: int| 0 <= j < c.p && c.ord[j] == z && r[j] > 0;
            if j != posz {
                assert(c.ord[j] != c.ord[posz]);
            }
        }
        if r[posz] > 0 {
            assert(0 <= posz < c.p && c.ord[posz] == z && r[posz] > 0);
        }
    }
    assert(bit16(mmask, z) <==> r[posz] < 0) by {
        if bit16(mmask, z) {
            let j = choose|j: int| 0 <= j < c.p && c.ord[j] == z && r[j] < 0;
            if j != posz {
                assert(c.ord[j] != c.ord[posz]);
            }
        }
        if r[posz] < 0 {
            assert(0 <= posz < c.p && c.ord[posz] == z && r[posz] < 0);
        }
    }
    assert(deg_key(c, pmask, mmask, z) > deg_key(c, pmask, mmask, c.p as int));
    assert(!leaf_argmax(c, pmask, mmask)) by {
        assert(c.zverts[t] == z);
    }
}

/// Below a node where designated move `t` out-ranks the new move in every
/// completion, no child is accepted: only the leaf count moves.
proof fn lemma_blocked_subtree(
    c: LeafCtx,
    k: int,
    nstrict: int,
    nl: int,
    s: Seq<i32>,
    r: Seq<i32>,
    rows: [[i32; 16]; 20],
    fplus: u16,
    fminus: u16,
    nod: int,
    nid: int,
    pmask: u16,
    mmask: u16,
    t: int,
)
    requires
        dfs_ctx_ok(c),
        zdata_ok(c, nstrict),
        0 <= t < nstrict,
        0 <= k <= c.p,
        r.len() == 16,
        path_ok(c, k, r, nod, nid, pmask, mmask),
        z_blocks(c, k, r, nod + (c.p - k), nid, t),
    ensures
        only_leaves(c, enum_all(c, k, c.p as int, nstrict, nl, s, r, rows, fplus, fminus, pmask, mmask)),
    decreases c.p - k, 4int,
{
    if k == c.p {
        if rows_close(s, nstrict) {
            lemma_blocked_leaf(c, r, nod, nid, pmask, mmask, t, nstrict);
        }
    } else {
        lemma_blocked_branches(c, k, nstrict, nl, s, r, rows, fplus, fminus, nod, nid, pmask, mmask, t, 3);
    }
}

proof fn lemma_blocked_branches(
    c: LeafCtx,
    k: int,
    nstrict: int,
    nl: int,
    s: Seq<i32>,
    r: Seq<i32>,
    rows: [[i32; 16]; 20],
    fplus: u16,
    fminus: u16,
    nod: int,
    nid: int,
    pmask: u16,
    mmask: u16,
    t: int,
    j: int,
)
    requires
        dfs_ctx_ok(c),
        zdata_ok(c, nstrict),
        0 <= t < nstrict,
        0 <= k < c.p,
        r.len() == 16,
        path_ok(c, k, r, nod, nid, pmask, mmask),
        z_blocks(c, k, r, nod + (c.p - k), nid, t),
    ensures
        only_leaves(c, enum_all_branches(c, k, c.p as int, nstrict, nl, s, r, rows, fplus, fminus, pmask, mmask, j)),
    decreases c.p - k, j,
{
    if !(j <= 0 || j > 3) {
        lemma_blocked_branches(c, k, nstrict, nl, s, r, rows, fplus, fminus, nod, nid, pmask, mmask, t, j - 1);
        let cc = enum_all_branches(c, k, c.p as int, nstrict, nl, s, r, rows, fplus, fminus, pmask, mmask, j - 1);
        let val = val_of(j - 1);
        if forced_ok(fplus, fminus, k, val) {
            assert(cc.p == c.p && cc.ord == c.ord && cc.obit == c.obit && cc.zpos == c.zpos && cc.zverts == c.zverts);
            assert(cc.pod == c.pod && cc.pid == c.pid && cc.zpod == c.zpod && cc.zpid == c.zpid && cc.zmaxpod == c.zmaxpod);
            assert(cc.nz == c.nz && cc.pbeats == c.pbeats);
            assert(dfs_ctx_ok(cc));
            assert(zdata_ok(cc, nstrict));
            assert(path_ok(cc, k, r, nod, nid, pmask, mmask));
            lemma_path_step(cc, k, r, nod, nid, pmask, mmask, val, nstrict);
            assert(z_blocks(cc, k, r, nod + (c.p - k), nid, t));
            lemma_blocks_step(cc, k, c.p as int, r, nod, nid, t, val);
            lemma_blocked_subtree(
                cc,
                k + 1,
                nstrict,
                nl,
                sums_after(s, rows, nl, k, val),
                r.update(k, val),
                rows,
                fplus,
                fminus,
                nod + if val < 0 { 1int } else { 0int },
                nid + if val > 0 { 1int } else { 0int },
                plus_after(cc, pmask, k, val),
                minus_after(cc, mmask, k, val),
                t,
            );
        }
    }
}

/// The degree-domination prune is safe: the subtree that it skips holds no
/// accepted child, so enumerating it would only have counted more leaves.
pub proof fn lemma_domination_cuts_no_accepted(
    c: LeafCtx,
    k: int,
    nstrict: int,
    nl: int,
    s: Seq<i32>,
    r: Seq<i32>,
    rows: [[i32; 16]; 20],
    fplus: u16,
    fminus: u16,
    nod: int,
    nid: int,
    pmask: u16,
    mmask: u16,
)
    requires
        dfs_ctx_ok(c),
        zdata_ok(c, nstrict),
        0 <= nstrict,
        0 <= k < c.p,
        r.len() == 16,
        path_ok(c, k, r, nod, nid, pmask, mmask),
        dominated(c, k, c.p as int, nstrict, r, nod, nid),
    ensures
        only_leaves(c, enum_all(c, k, c.p as int, nstrict, nl, s, r, rows, fplus, fminus, pmask, mmask)),
{
    let cap = nod + (c.p - k);
    if cap < c.zmaxpod {
        let t = choose|t: int| 0 <= t < nstrict && #[trigger] c.zpod[t] >= c.zmaxpod;
        assert(z_blocks(c, k, r, cap, nid, t));
        lemma_blocked_subtree(c, k, nstrict, nl, s, r, rows, fplus, fminus, nod, nid, pmask, mmask, t);
    } else {
        let t = choose|t: int| 0 <= t < nstrict && #[trigger] z_blocks(c, k, r, cap, nid, t);
        lemma_blocked_subtree(c, k, nstrict, nl, s, r, rows, fplus, fminus, nod, nid, pmask, mmask, t);
    }
}


proof fn lemma_digest_same(a: LeafCtx, b: LeafCtx, plus: u16, minus: u16, v: int, k: int, sq: bool)
    requires
        only_leaves(a, b),
    ensures
        out_digest(a, plus, minus, v, k, sq) == out_digest(b, plus, minus, v, k, sq),
        in_digest(a, plus, minus, v, k, sq) == in_digest(b, plus, minus, v, k, sq),
    decreases k,
{
    if k > 0 {
        lemma_digest_same(a, b, plus, minus, v, k - 1, sq);
        assert(deg_code(a, plus, minus, k - 1) == deg_code(b, plus, minus, k - 1));
        assert(child_beats(a, plus, minus, v, k - 1) == child_beats(b, plus, minus, v, k - 1));
        assert(child_beats(a, plus, minus, k - 1, v) == child_beats(b, plus, minus, k - 1, v));
    }
}

proof fn lemma_tie_same(a: LeafCtx, b: LeafCtx, plus: u16, minus: u16, k: int)
    requires
        only_leaves(a, b),
        forall|z: int| #[trigger] tied(a, plus, minus, z) == tied(b, plus, minus, z),
    ensures
        tie_count(a, plus, minus, k) == tie_count(b, plus, minus, k),
    decreases k,
{
    if k > 0 {
        lemma_tie_same(a, b, plus, minus, k - 1);
    }
}

/// The leaf step does not read the leaf count.
proof fn lemma_leaf_step_same(a: LeafCtx, b: LeafCtx, r: Seq<i32>, plus: u16, minus: u16)
    requires
        only_leaves(a, b),
    ensures
        only_leaves(leaf_step(a, r, plus, minus), leaf_step(b, r, plus, minus)),
{
    assert(a.p == b.p && a.pbeats == b.pbeats && a.ord == b.ord && a.pod == b.pod && a.pid == b.pid && a.zverts == b.zverts && a.nz == b.nz);
    assert forall|x: int, j: int| #[trigger] child_row_bit(a, r, minus, x, j) == child_row_bit(b, r, minus, x, j) by {}
    assert(child_connected(a, r, minus) == child_connected(b, r, minus)) by {
        let n1 = a.p + 1;
        if child_connected(a, r, minus) {
            assert forall|s: u64|
                crate::bits::within(s, n1) && bit(s, 0) && (forall|i: int, j: int|
                    0 <= i < n1 && 0 <= j < n1 && #[trigger] bit(s, i) && (child_row_bit(b, r, minus, i, j) || child_row_bit(b, r, minus, j, i))
                        ==> #[trigger] bit(s, j)) implies forall|j: int| 0 <= j < n1 ==> #[trigger] bit(s, j) by {
                assert forall|i: int, j: int|
                    0 <= i < n1 && 0 <= j < n1 && #[trigger] bit(s, i) && (child_row_bit(a, r, minus, i, j) || child_row_bit(a, r, minus, j, i))
                        implies #[trigger] bit(s, j) by {
                    assert(child_row_bit(a, r, minus, i, j) == child_row_bit(b, r, minus, i, j));
                    assert(child_row_bit(a, r, minus, j, i) == child_row_bit(b, r, minus, j, i));
                }
            }
        }
        if child_connected(b, r, minus) {
            assert forall|s: u64|
                crate::bits::within(s, n1) && bit(s, 0) && (forall|i: int, j: int|
                    0 <= i < n1 && 0 <= j < n1 && #[trigger] bit(s, i) && (child_row_bit(a, r, minus, i, j) || child_row_bit(a, r, minus, j, i))
                        ==> #[trigger] bit(s, j)) implies forall|j: int| 0 <= j < n1 ==> #[trigger] bit(s, j) by {
                assert forall|i: int, j: int|
                    0 <= i < n1 && 0 <= j < n1 && #[trigger] bit(s, i) && (child_row_bit(b, r, minus, i, j) || child_row_bit(b, r, minus, j, i))
                        implies #[trigger] bit(s, j) by {
                    assert(child_row_bit(a, r, minus, i, j) == child_row_bit(b, r, minus, i, j));
                    assert(child_row_bit(a, r, minus, j, i) == child_row_bit(b, r, minus, j, i));
                }
            }
        }
    }
    assert(leaf_passes(a, r, plus, minus) == leaf_passes(b, r, plus, minus));
    assert forall|v: int| #[trigger] sig_digest(a, plus, minus, v) == sig_digest(b, plus, minus, v) by {
        lemma_digest_same(a, b, plus, minus, v, a.p + 1, false);
        lemma_digest_same(a, b, plus, minus, v, a.p + 1, true);
    }
    assert forall|v: int| #[trigger] deg_key(a, plus, minus, v) == deg_key(b, plus, minus, v) by {}
    assert(leaf_argmax(a, plus, minus) == leaf_argmax(b, plus, minus)) by {
        if leaf_argmax(a, plus, minus) {
            assert forall|t: int| 0 <= t < b.nz implies !(deg_key(b, plus, minus, #[trigger] b.zverts[t] as int) > deg_key(b, plus, minus, b.p as int) || (
            deg_key(b, plus, minus, b.zverts[t] as int) == deg_key(b, plus, minus, b.p as int) && sig_digest(b, plus, minus, b.zverts[t] as int)
                > sig_digest(b, plus, minus, b.p as int))) by {
                assert(a.zverts[t] == b.zverts[t]);
                assert(deg_key(a, plus, minus, a.zverts[t] as int) == deg_key(b, plus, minus, b.zverts[t] as int));
                assert(sig_digest(a, plus, minus, a.zverts[t] as int) == sig_digest(b, plus, minus, b.zverts[t] as int));
            }
        }
        if leaf_argmax(b, plus, minus) {
            assert forall|t: int| 0 <= t < a.nz implies !(deg_key(a, plus, minus, #[trigger] a.zverts[t] as int) > deg_key(a, plus, minus, a.p as int) || (
            deg_key(a, plus, minus, a.zverts[t] as int) == deg_key(a, plus, minus, a.p as int) && sig_digest(a, plus, minus, a.zverts[t] as int)
                > sig_digest(a, plus, minus, a.p as int))) by {
                assert(a.zverts[t] == b.zverts[t]);
                assert(deg_key(a, plus, minus, a.zverts[t] as int) == deg_key(b, plus, minus, b.zverts[t] as int));
                assert(sig_digest(a, plus, minus, a.zverts[t] as int) == sig_digest(b, plus, minus, b.zverts[t] as int));
            }
        }
    }
    assert forall|z: int| #[trigger] tied(a, plus, minus, z) == tied(b, plus, minus, z) by {
        if exists|t: int| 0 <= t < a.nz && #[trigger] a.zverts[t] == z {
            let t = choose|t: int| 0 <= t < a.nz && #[trigger] a.zverts[t] == z;
            assert(b.zverts[t] == z);
        }
        if exists|t: int| 0 <= t < b.nz && #[trigger] b.zverts[t] == z {
            let t = choose|t: int| 0 <= t < b.nz && #[trigger] b.zverts[t] == z;
            assert(a.zverts[t] == z);
        }
    }
    lemma_tie_same(a, b, plus, minus, a.p as int);
}

/// The search and the enumeration with no domination prune agree on
/// everything but the leaf count, from coordinate `k` on.
proof fn lemma_search_all(
    a: LeafCtx,
    b: LeafCtx,
    k: int,
    p: int,
    nstrict: int,
    nl: int,
    s: Seq<i32>,
    r: Seq<i32>,
    rows: [[i32; 16]; 20],
    fplus: u16,
    fminus: u16,
    nod: int,
    nid: int,
    pmask: u16,
    mmask: u16,
)
    requires
        only_leaves(a, b),
        dfs_ctx_ok(a),
        zdata_ok(a, nstrict),
        0 <= nstrict,
        p == a.p,
        0 <= k <= p,
        r.len() == 16,
        path_ok(a, k, r, nod, nid, pmask, mmask),
    ensures
        only_leaves(enum_spec(a, k, p, nstrict, nl, s, r, rows, fplus, fminus, nod, nid, pmask, mmask), enum_all(
            b,
            k,
            p,
            nstrict,
            nl,
            s,
            r,
            rows,
            fplus,
            fminus,
            pmask,
            mmask,
        )),
    decreases p - k, 4int,
{
    assert(a.p == b.p && a.ord == b.ord && a.obit == b.obit && a.zpos == b.zpos && a.zverts == b.zverts && a.nz == b.nz);
    assert(a.pod == b.pod && a.pid == b.pid && a.zpod == b.zpod && a.zpid == b.zpid && a.zmaxpod == b.zmaxpod && a.pbeats == b.pbeats);
    if k == p {
        lemma_leaf_step_same(a, b, r, pmask, mmask);
    } else if dominated(a, k, p, nstrict, r, nod, nid) {
        assert(dominated(b, k, p, nstrict, r, nod, nid)) by {
            let cap = nod + (p - k);
            if !(cap < a.zmaxpod) {
                let t = choose|t: int| 0 <= t < nstrict && #[trigger] z_blocks(a, k, r, cap, nid, t);
                assert(z_blocks(b, k, r, cap, nid, t));
            }
        }
        assert(dfs_ctx_ok(b) && zdata_ok(b, nstrict) && path_ok(b, k, r, nod, nid, pmask, mmask));
        lemma_domination_cuts_no_accepted(b, k, nstrict, nl, s, r, rows, fplus, fminus, nod, nid, pmask, mmask);
    } else {
        lemma_search_all_branches(a, b, k, p, nstrict, nl, s, r, rows, fplus, fminus, nod, nid, pmask, mmask, 3);
    }
}

proof fn lemma_search_all_branches(
    a: LeafCtx,
    b: LeafCtx,
    k: int,
    p: int,
    nstrict: int,
    nl: int,
    s: Seq<i32>,
    r: Seq<i32>,
    rows: [[i32; 16]; 20],
    fplus: u16,
    fminus: u16,
    nod: int,
    nid: int,
    pmask: u16,
    mmask: u16,
    j: int,
)
    requires
        only_leaves(a, b),
        dfs_ctx_ok(a),
        zdata_ok(a, nstrict),
        0 <= nstrict,
        p == a.p,
        0 <= k < p,
        r.len() == 16,
        path_ok(a, k, r, nod, nid, pmask, mmask),
    ensures
        only_leaves(enum_branches(a, k, p, nstrict, nl, s, r, rows, fplus, fminus, nod, nid, pmask, mmask, j), enum_all_branches(
            b,
            k,
            p,
            nstrict,
            nl,
            s,
            r,
            rows,
            fplus,
            fminus,
            pmask,
            mmask,
            j,
        )),
    decreases p - k, j,
{
    if !(j <= 0 || j > 3) {
        lemma_search_all_branches(a, b, k, p, nstrict, nl, s, r, rows, fplus, fminus, nod, nid, pmask, mmask, j - 1);
        let ca = enum_branches(a, k, p, nstrict, nl, s, r, rows, fplus, fminus, nod, nid, pmask, mmask, j - 1);
        let cb = enum_all_branches(b, k, p, nstrict, nl, s, r, rows, fplus, fminus, pmask, mmask, j - 1);
        let val = val_of(j - 1);
        if forced_ok(fplus, fminus, k, val) {
            lemma_tallies_only_branches(a, k, p, nstrict, nl, s, r, rows, fplus, fminus, nod, nid, pmask, mmask, j - 1);
            assert(ca.p == a.p && ca.ord == a.ord && ca.obit == a.obit && ca.zpos == a.zpos && ca.zverts == a.zverts && ca.nz == a.nz);
            assert(ca.pod == a.pod && ca.pid == a.pid && ca.zpod == a.zpod && ca.zpid == a.zpid && ca.zmaxpod == a.zmaxpod && ca.pbeats == a.pbeats);
            assert(dfs_ctx_ok(ca) && zdata_ok(ca, nstrict) && path_ok(ca, k, r, nod, nid, pmask, mmask));
            assert(ca.obit == cb.obit);
            lemma_path_step(ca, k, r, nod, nid, pmask, mmask, val, nstrict);
            lemma_search_all(
                ca,
                cb,
                k + 1,
                p,
                nstrict,
                nl,
                sums_after(s, rows, nl, k, val),
                r.update(k, val),
                rows,
                fplus,
                fminus,
                nod + if val < 0 { 1int } else { 0int },
                nid + if val > 0 { 1int } else { 0int },
                plus_after(ca, pmask, k, val),
                minus_after(ca, mmask, k, val),
            );
            assert(plus_after(ca, pmask, k, val) == plus_after(cb, pmask, k, val));
            assert(minus_after(ca, mmask, k, val) == minus_after(cb, mmask, k, val));
        }
    }
}

/// The enumeration changes only the tallies of the state.
proof fn lemma_tallies_only(
    a: LeafCtx,
    k: int,
    p: int,
    nstrict: int,
    nl: int,
    s: Seq<i32>,
    r: Seq<i32>,
    rows: [[i32; 16]; 20],
    fplus: u16,
    fminus: u16,
    nod: int,
    nid: int,
    pmask: u16,
    mmask: u16,
)
    ensures
        ({
            let e = enum_spec(a, k, p, nstrict, nl, s, r, rows, fplus, fminus, nod, nid, pmask, mmask);
            e == (LeafCtx { leaves: e.leaves, accepted: e.accepted, sum: e.sum, ..a })
        }),
    decreases p - k, 4int,
{
    if 0 <= k < p && !dominated(a, k, p, nstrict, r, nod, nid) {
        lemma_tallies_only_branches(a, k, p, nstrict, nl, s, r, rows, fplus, fminus, nod, nid, pmask, mmask, 3);
    }
}

proof fn lemma_tallies_only_branches(
    a: LeafCtx,
    k: int,
    p: int,
    nstrict: int,
    nl: int,
    s: Seq<i32>,
    r: Seq<i32>,
    rows: [[i32; 16]; 20],
    fplus: u16,
    fminus: u16,
    nod: int,
    nid: int,
    pmask: u16,
    mmask: u16,
    j: int,
)
    ensures
        ({
            let e = enum_branches(a, k, p, nstrict, nl, s, r, rows, fplus, fminus, nod, nid, pmask, mmask, j);
            e == (LeafCtx { leaves: e.leaves, accepted: e.accepted, sum: e.sum, ..a })
        }),
    decreases p - k, j,
{
    if !(j <= 0 || k >= p || k < 0 || j > 3) {
        lemma_tallies_only_branches(a, k, p, nstrict, nl, s, r, rows, fplus, fminus, nod, nid, pmask, mmask, j - 1);
        let cc = enum_branches(a, k, p, nstrict, nl, s, r, rows, fplus, fminus, nod, nid, pmask, mmask, j - 1);
        let val = val_of(j - 1);
        lemma_tallies_only(
            cc,
            k + 1,
            p,
            nstrict,
            nl,
            sums_after(s, rows, nl, k, val),
            r.update(k, val),
            rows,
            fplus,
            fminus,
            nod + if val < 0 { 1int } else { 0int },
            nid + if val > 0 { 1int } else { 0int },
            plus_after(cc, pmask, k, val),
            minus_after(cc, mmask, k, val),
        );
    }
}

/// The search counts every accepted child: on the inputs of the inclusion
/// census (the moves behind the strict rows designated, the masks and counts
/// those of the coordinates set so far), its accepted count and weighted sum
/// are those of the plain enumeration of every completion of coordinates
/// `k..p` in `{0, -1, 1}` that keeps the forced coordinates, closes the
/// equality row and keeps every strict row negative, with no prune at all;
/// the prunes change the leaf count only.
pub proof fn lemma_search_counts_every_accepted_child(
    c: LeafCtx,
    k: int,
    p: int,
    nstrict: int,
    nl: int,
    s: Seq<i32>,
    r: Seq<i32>,
    rows: [[i32; 16]; 20],
    asum: [[i32; 16]; 20],
    fplus: u16,
    fminus: u16,
    nod: int,
    nid: int,
    pmask: u16,
    mmask: u16,
)
    requires
        dfs_ready(c, k, p, nstrict, nl, s, r, rows, asum, nod, nid, pmask, mmask),
        zdata_ok(c, nstrict),
        path_ok(c, k, r, nod, nid, pmask, mmask),
    ensures
        only_leaves(
            enum_all(c, k, p, nstrict, nl, s, r, rows, fplus, fminus, pmask, mmask),
            dfs_spec(c, k, p, nstrict, nl, s, r, rows, asum, fplus, fminus, nod, nid, pmask, mmask),
        ),
{
    lemma_dfs_enum(c, k, p, nstrict, nl, s, r, rows, asum, fplus, fminus, nod, nid, pmask, mmask);
    lemma_search_all(c, c, k, p, nstrict, nl, s, r, rows, fplus, fminus, nod, nid, pmask, mmask);
    let e = enum_spec(c, k, p, nstrict, nl, s, r, rows, fplus, fminus, nod, nid, pmask, mmask);
    let f = enum_all(c, k, p, nstrict, nl, s, r, rows, fplus, fminus, pmask, mmask);
    assert(f == LeafCtx { leaves: f.leaves, ..e });
}

} // verus!
