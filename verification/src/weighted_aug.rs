//! One step of the canonical augmentation that grows weight-balanced cores:
//! each move `t` stands for `w[t]` tied copies, and a core is balanced when
//! every move's weighted row sum `sum_u w[u] rel(v, u)` is zero. The
//! extensions of a partial core that can still reach balance are listed in
//! lexicographic order, with the two cheap canonical-parent tests (degree-pair
//! and signature maximality among moves of the new move's weight) applied;
//! exact signature ties are reported for a coloured canonical labelling.
use vstd::prelude::*;
use crate::augment::Game;
use crate::bits::{bit, bit32, lemma_bit_or, lemma_bit_single, lemma_bit16_set, lemma_bit32_set};
use crate::signature::{bit16, key_order};
use crate::regular_aug::{count_of, lemma_count_step, lemma_count_push, lemma_count_bounds, lemma_rows_unique};
use crate::regular_order::{compare_with_new, rows_fit_next};

verus! {

/// Each of the first `n` moves carries a weight between 1 and 16.
pub open spec fn weights_ok(w: [i32; 16], n: int) -> bool {
    forall|t: int| 0 <= t < n ==> 1 <= #[trigger] w[t] <= 16
}

/// A partial core on its first `k < n <= 16` moves: rows name only placed
/// moves, and the weighted row sums are small.
pub open spec fn wgame_ok(g: Game, n: int) -> bool {
    &&& g.k < n <= 16
    &&& forall|i: int, j: int| 0 <= i < g.k && g.k <= j < 64 ==> !#[trigger] bit(g.arc[i], j)
    &&& forall|i: int| 0 <= i < g.k ==> -256 <= #[trigger] g.rowsum[i] <= 256
}

/// `sum_{t = i}^{n-1} w[t]`.
pub open spec fn wtail(w: [i32; 16], i: int, n: int) -> int
    decreases n - i,
{
    if i >= n {
        0
    } else {
        w[i] + wtail(w, i + 1, n)
    }
}

/// The weight still to come after the new move `k`: how far any weighted
/// row sum can still move.
pub open spec fn lim_of(w: [i32; 16], n: int, k: int) -> int {
    wtail(w, k + 1, n)
}

/// The change to old move `i`'s weighted row sum when entry `a` is chosen:
/// `-1` (move `i` beats the new move) adds the new move's weight, `1` takes it away.
pub open spec fn eff(wk: int, a: int) -> int {
    if a == -1 {
        wk
    } else if a == 1 {
        -wk
    } else {
        0
    }
}

/// Entry `a` keeps old move `i`'s weighted row sum within reach of zero.
pub open spec fn wallowed(g: Game, w: [i32; 16], n: int, i: int, a: int) -> bool {
    let lim = lim_of(w, n, g.k as int);
    -lim <= g.rowsum[i] + eff(w[g.k as int] as int, a) <= lim
}

/// The new move's weighted row sum after the first `j` entries: `sum p[i] w[i]`.
pub open spec fn wsum(p: Seq<int>, w: [i32; 16], j: int) -> int
    decreases j,
{
    if j <= 0 {
        0
    } else {
        wsum(p, w, j - 1) + p[j - 1] * w[j - 1]
    }
}

/// Every entry is allowed and the new move's weighted row sum is within reach of zero.
pub open spec fn wfeasible(g: Game, w: [i32; 16], n: int, p: Seq<int>) -> bool {
    &&& p.len() == g.k
    &&& forall|i: int| 0 <= i < g.k ==> -1 <= #[trigger] p[i] <= 1 && wallowed(g, w, n, i, p[i])
    &&& -lim_of(w, n, g.k as int) <= wsum(p, w, g.k as int) <= lim_of(w, n, g.k as int)
}

/// The number of placed moves that move `i` beats.
pub open spec fn pod_part(g: Game, i: int, j: int) -> int
    decreases j,
{
    if j <= 0 {
        0
    } else {
        pod_part(g, i, j - 1) + if bit(g.arc[i], j - 1) { 1int } else { 0int }
    }
}

/// The number of placed moves that beat move `j`.
pub open spec fn pid_part(g: Game, j: int, i: int) -> int
    decreases i,
{
    if i <= 0 {
        0
    } else {
        pid_part(g, j, i - 1) + if bit(g.arc[i - 1], j) { 1int } else { 0int }
    }
}

/// The child's wins of move `i`.
pub open spec fn wcod(g: Game, p: Seq<int>, i: int) -> int {
    if i < g.k {
        pod_part(g, i, g.k as int) + if p[i] == -1 { 1int } else { 0int }
    } else if i == g.k {
        count_of(p, 1, g.k as int)
    } else {
        0
    }
}

/// The child's losses of move `i`.
pub open spec fn wcid(g: Game, p: Seq<int>, i: int) -> int {
    if i < g.k {
        pid_part(g, i, g.k as int) + if p[i] == 1 { 1int } else { 0int }
    } else if i == g.k {
        count_of(p, -1, g.k as int)
    } else {
        0
    }
}

/// No old move of the new move's weight has a larger (wins, losses) pair.
pub open spec fn wpair_maximal(g: Game, w: [i32; 16], p: Seq<int>) -> bool {
    forall|i: int|
        0 <= i < g.k && w[i] == w[g.k as int] ==> !(#[trigger] wcod(g, p, i) > wcod(g, p, g.k as int) || (wcod(g, p, i) == wcod(
            g,
            p,
            g.k as int,
        ) && wcid(g, p, i) > wcid(g, p, g.k as int)))
}

/// The child's degree arrays as bytes.
pub open spec fn wcod_seq(g: Game, p: Seq<int>) -> Seq<u8> {
    Seq::new(16, |i: int| wcod(g, p, i) as u8)
}

pub open spec fn wcid_seq(g: Game, p: Seq<int>) -> Seq<u8> {
    Seq::new(16, |i: int| wcid(g, p, i) as u8)
}

/// Row `i` of the child restricted to its first `k + 1` moves.
pub open spec fn wrow_bit(g: Game, p: Seq<int>, i: int, j: int) -> bool {
    if i < g.k {
        (j < g.k && bit(g.arc[i], j)) || (j == g.k && p[i] == -1)
    } else if i == g.k {
        j < g.k && p[j] == 1
    } else {
        false
    }
}

/// Old move `i` has the new move's weight and ties it in (wins, losses).
pub open spec fn wpair_tie(g: Game, w: [i32; 16], p: Seq<int>, i: int) -> bool {
    w[i] == w[g.k as int] && wcod(g, p, i) == wcod(g, p, g.k as int) && wcid(g, p, i) == wcid(g, p, g.k as int)
}

/// The signature comparison of old move `i` with the new move in the child rows `rows`.
pub open spec fn wsig_vs_new(g: Game, p: Seq<int>, rows: Seq<u16>, i: int) -> int {
    key_order(rows, g.k + 1, wcod_seq(g, p), wcid_seq(g, p), i, g.k as int)
}

/// The sixteen child rows `rows` are those of the extension `p`.
pub open spec fn wrows_of(g: Game, p: Seq<int>, rows: Seq<u16>) -> bool {
    &&& rows.len() == 16
    &&& forall|i: int, j: int| 0 <= i < 16 && 0 <= j < 16 ==> #[trigger] bit16(rows[i], j) == wrow_bit(g, p, i, j)
}

/// No tied old move of the new move's weight has a larger signature.
pub open spec fn wsig_maximal(g: Game, w: [i32; 16], p: Seq<int>) -> bool {
    forall|rows: Seq<u16>, i: int| wrows_of(g, p, rows) && 0 <= i < g.k && #[trigger] wpair_tie(g, w, p, i) ==> #[trigger] wsig_vs_new(g, p, rows, i) <= 0
}

/// The extension passes every test that needs no canonical labelling.
pub open spec fn wpasses(g: Game, w: [i32; 16], n: int, p: Seq<int>) -> bool {
    &&& wfeasible(g, w, n, p)
    &&& wpair_maximal(g, w, p)
    &&& wsig_maximal(g, w, p)
}

/// The passing extensions that complete the prefix `p`, in lexicographic order
/// (`-1 < 0 < 1`, first entry most significant).
pub open spec fn wpassing_from(g: Game, w: [i32; 16], n: int, p: Seq<int>) -> Seq<Seq<int>>
    decreases g.k - p.len(),
{
    if p.len() >= g.k {
        if wpasses(g, w, n, p) {
            seq![p]
        } else {
            Seq::empty()
        }
    } else {
        wpassing_from(g, w, n, p.push(-1)) + wpassing_from(g, w, n, p.push(0)) + wpassing_from(g, w, n, p.push(1))
    }
}

/// `h` is `g` extended by a new move `k` with extension `p`: the rows gain
/// the new move's results, and the weighted row sums move by the new move's weight.
pub open spec fn wchild_of(g: Game, w: [i32; 16], p: Seq<int>, h: Game) -> bool {
    let k = g.k as int;
    &&& h.k == g.k + 1
    &&& forall|i: int| 0 <= i < k ==> #[trigger] h.rowsum[i] as int == g.rowsum[i] - p[i] * w[k]
    &&& h.rowsum[k] as int == wsum(p, w, k)
    &&& forall|i: int| 0 <= i < 16 && i > k ==> #[trigger] h.rowsum[i] == g.rowsum[i]
    &&& forall|i: int, j: int| 0 <= i < 16 && 0 <= j < 64 ==> #[trigger] bit(h.arc[i], j) == if i < k {
        bit(g.arc[i], j) || (j == k && p[i] == -1)
    } else if i == k {
        j < k && p[j] == 1
    } else {
        bit(g.arc[i], j)
    }
}

/// Bit `i` of `mask` marks the old moves of the new move's weight whose
/// signature ties the new move's.
pub open spec fn wties_mask(g: Game, w: [i32; 16], p: Seq<int>, mask: u32) -> bool {
    forall|rows: Seq<u16>, i: int| wrows_of(g, p, rows) && 0 <= i < 32 ==> #[trigger] bit32(mask, i) == (i < g.k && wpair_tie(g, w, p, i)
        && #[trigger] wsig_vs_new(g, p, rows, i) == 0)
}

/// `res` continues at `start` with the children and tie masks of the extensions `vecs`.
pub open spec fn wlists(g: Game, w: [i32; 16], res: Seq<(Game, u32)>, start: int, vecs: Seq<Seq<int>>) -> bool {
    &&& res.len() == start + vecs.len()
    &&& forall|t: int| 0 <= t < vecs.len() ==> #[trigger] wchild_of(g, w, vecs[t], res[start + t].0) && wties_mask(g, w, vecs[t], res[start + t].1)
}

/// The least contribution `a w[i]` that an allowed entry at move `i` can make
/// (zero counted whether or not it is allowed).
pub open spec fn lo_at(g: Game, w: [i32; 16], n: int, i: int) -> int {
    let m1 = if wallowed(g, w, n, i, -1) { -w[i] } else { 0int };
    let p1 = if wallowed(g, w, n, i, 1) { w[i] as int } else { 0int };
    if m1 < p1 { m1 } else { p1 }
}

/// The largest such contribution.
pub open spec fn hi_at(g: Game, w: [i32; 16], n: int, i: int) -> int {
    let m1 = if wallowed(g, w, n, i, -1) { -w[i] } else { 0int };
    let p1 = if wallowed(g, w, n, i, 1) { w[i] as int } else { 0int };
    if m1 < p1 { p1 } else { m1 }
}

/// `sum_{t = i}^{k-1} lo_at(t)`.
pub open spec fn smin_from(g: Game, w: [i32; 16], n: int, i: int) -> int
    decreases g.k - i,
{
    if i >= g.k || i < 0 {
        0
    } else {
        lo_at(g, w, n, i) + smin_from(g, w, n, i + 1)
    }
}

/// `sum_{t = i}^{k-1} hi_at(t)`.
pub open spec fn smax_from(g: Game, w: [i32; 16], n: int, i: int) -> int
    decreases g.k - i,
{
    if i >= g.k || i < 0 {
        0
    } else {
        hi_at(g, w, n, i) + smax_from(g, w, n, i + 1)
    }
}

proof fn lemma_unit_mul(a: int, x: int)
    requires
        -1 <= a <= 1,
    ensures
        a * x == if a == -1 {
            -x
        } else if a == 1 {
            x
        } else {
            0
        },
{
    if a == -1 {
        assert(a * x == -x) by (nonlinear_arith)
            requires
                a == -1,
        ;
    } else if a == 1 {
        assert(a * x == x) by (nonlinear_arith)
            requires
                a == 1,
        ;
    } else {
        assert(a * x == 0) by (nonlinear_arith)
            requires
                a == 0,
        ;
    }
}

proof fn lemma_wsum_push(p: Seq<int>, x: int, w: [i32; 16], j: int)
    requires
        0 <= j <= p.len(),
    ensures
        wsum(p.push(x), w, j) == wsum(p, w, j),
    decreases j,
{
    if j > 0 {
        lemma_wsum_push(p, x, w, j - 1);
    }
}

/// A prefix that already breaks an entry or cannot bring the new move's sum
/// within reach has no passing completion.
proof fn lemma_wdead(g: Game, w: [i32; 16], n: int, p: Seq<int>)
    requires
        g.k < 16,
        p.len() <= g.k,
        (exists|x: int| 0 <= x < p.len() && !(-1 <= #[trigger] p[x] <= 1 && wallowed(g, w, n, x, p[x])))
            || wsum(p, w, p.len() as int) + smin_from(g, w, n, p.len() as int) > lim_of(w, n, g.k as int)
            || wsum(p, w, p.len() as int) + smax_from(g, w, n, p.len() as int) < -lim_of(w, n, g.k as int),
    ensures
        wpassing_from(g, w, n, p) == Seq::<Seq<int>>::empty(),
    decreases g.k - p.len(),
{
    let len = p.len() as int;
    if p.len() >= g.k {
        if wpasses(g, w, n, p) {
            if exists|x: int| 0 <= x < p.len() && !(-1 <= #[trigger] p[x] <= 1 && wallowed(g, w, n, x, p[x])) {
                let x = choose|x: int| 0 <= x < p.len() && !(-1 <= #[trigger] p[x] <= 1 && wallowed(g, w, n, x, p[x]));
                assert(-1 <= p[x] <= 1 && wallowed(g, w, n, x, p[x]));
            }
            assert(smin_from(g, w, n, len) == 0);
            assert(smax_from(g, w, n, len) == 0);
        }
    } else {
        assert forall|a: int| -1 <= a <= 1 implies #[trigger] wpassing_from(g, w, n, p.push(a)) == Seq::<Seq<int>>::empty() by {
            let q = p.push(a);
            lemma_wsum_push(p, a, w, len);
            assert(wsum(q, w, len + 1) == wsum(q, w, len) + q[len] * w[len]);
            if exists|x: int| 0 <= x < p.len() && !(-1 <= #[trigger] p[x] <= 1 && wallowed(g, w, n, x, p[x])) {
                let x = choose|x: int| 0 <= x < p.len() && !(-1 <= #[trigger] p[x] <= 1 && wallowed(g, w, n, x, p[x]));
                assert(q[x] == p[x]);
                assert(!(-1 <= q[x] <= 1 && wallowed(g, w, n, x, q[x])));
            } else if !wallowed(g, w, n, len, a) {
                assert(q[len] == a);
                assert(!(-1 <= q[len] <= 1 && wallowed(g, w, n, len, q[len])));
            } else {
                assert(smin_from(g, w, n, len) == lo_at(g, w, n, len) + smin_from(g, w, n, len + 1));
                assert(smax_from(g, w, n, len) == hi_at(g, w, n, len) + smax_from(g, w, n, len + 1));
                lemma_unit_mul(q[len], w[len] as int);
            }
            lemma_wdead(g, w, n, q);
        }
        assert(wpassing_from(g, w, n, p.push(-1)) == Seq::<Seq<int>>::empty());
        assert(wpassing_from(g, w, n, p.push(0)) == Seq::<Seq<int>>::empty());
        assert(wpassing_from(g, w, n, p.push(1)) == Seq::<Seq<int>>::empty());
        assert(wpassing_from(g, w, n, p) =~= Seq::<Seq<int>>::empty());
    }
}

/// When some old move can take no entry at all, nothing passes.
proof fn lemma_wno_choice(g: Game, w: [i32; 16], n: int, p: Seq<int>, x: int)
    requires
        p.len() <= g.k,
        0 <= x < g.k,
        !wallowed(g, w, n, x, -1),
        !wallowed(g, w, n, x, 0),
        !wallowed(g, w, n, x, 1),
    ensures
        wpassing_from(g, w, n, p) == Seq::<Seq<int>>::empty(),
    decreases g.k - p.len(),
{
    if p.len() >= g.k {
        if wpasses(g, w, n, p) {
            assert(-1 <= p[x] <= 1 && wallowed(g, w, n, x, p[x]));
        }
    } else {
        lemma_wno_choice(g, w, n, p.push(-1), x);
        lemma_wno_choice(g, w, n, p.push(0), x);
        lemma_wno_choice(g, w, n, p.push(1), x);
        assert(wpassing_from(g, w, n, p) =~= Seq::<Seq<int>>::empty());
    }
}

/// The parent's win counts `pod[i]` and loss counts `pid[i]` over its placed moves.
fn parent_degrees(g: &Game) -> (r: ([u8; 16], [u8; 16]))
    requires
        g.k < 16,
    ensures
        forall|i: int| 0 <= i < g.k ==> #[trigger] r.0[i] as int == pod_part(*g, i, g.k as int),
        forall|i: int| 0 <= i < g.k ==> #[trigger] r.1[i] as int == pid_part(*g, i, g.k as int),
{
    let k = g.k;
    let mut pod = [0u8; 16];
    let mut pid = [0u8; 16];
    let mut i = 0usize;
    while i < k
        invariant
            k == g.k < 16,
            i <= k,
            forall|x: int| 0 <= x < i ==> #[trigger] pod[x] as int == pod_part(*g, x, k as int),
        decreases k - i,
    {
        let mut c = 0u8;
        let mut j = 0usize;
        while j < k
            invariant
                k == g.k < 16,
                i < k,
                j <= k,
                c as int == pod_part(*g, i as int, j as int),
                c <= j,
            decreases k - j,
        {
            if (g.arc[i] >> (j as u64)) & 1 == 1 {
                c += 1;
            }
            j += 1;
        }
        pod[i] = c;
        i += 1;
    }
    let mut j = 0usize;
    while j < k
        invariant
            k == g.k < 16,
            j <= k,
            forall|x: int| 0 <= x < k ==> #[trigger] pod[x] as int == pod_part(*g, x, k as int),
            forall|x: int| 0 <= x < j ==> #[trigger] pid[x] as int == pid_part(*g, x, k as int),
        decreases k - j,
    {
        let mut c = 0u8;
        let mut i = 0usize;
        while i < k
            invariant
                k == g.k < 16,
                j < k,
                i <= k,
                c as int == pid_part(*g, j as int, i as int),
                c <= i,
            decreases k - i,
        {
            if (g.arc[i] >> (j as u64)) & 1 == 1 {
                c += 1;
            }
            i += 1;
        }
        pid[j] = c;
        j += 1;
    }
    (pod, pid)
}

proof fn lemma_pod_bounds(g: Game, i: int, j: int)
    requires
        0 <= j,
    ensures
        0 <= pod_part(g, i, j) <= j,
        0 <= pid_part(g, i, j) <= j,
    decreases j,
{
    if j > 0 {
        lemma_pod_bounds(g, i, j - 1);
    }
}

/// At a complete feasible extension `v`, the child and the mask of signature
/// ties when the new move passes both maximality tests among the moves of its weight.
fn wleaf(g: &Game, w: &[i32; 16], n: usize, v: &[i32; 16], s: i32, Ghost(p): Ghost<Seq<int>>) -> (r: Option<(Game, u32)>)
    requires
        wgame_ok(*g, n as int),
        weights_ok(*w, n as int),
        p.len() == g.k,
        forall|i: int| 0 <= i < g.k ==> -1 <= #[trigger] p[i] <= 1 && p[i] == v[i] as int,
        s as int == wsum(p, *w, g.k as int),
    ensures
        r is Some == (wpair_maximal(*g, *w, p) && wsig_maximal(*g, *w, p)),
        r matches Some(hm) ==> wchild_of(*g, *w, p, hm.0) && wties_mask(*g, *w, p, hm.1),
{
    let k = g.k;
    let (pod, pid) = parent_degrees(g);
    let mut np: u8 = 0;
    let mut nm: u8 = 0;
    let mut i = 0usize;
    while i < k
        invariant
            k == g.k < 16,
            p.len() == k,
            forall|x: int| 0 <= x < k ==> -1 <= #[trigger] p[x] <= 1 && p[x] == v[x] as int,
            i <= k,
            np as int == count_of(p, 1, i as int),
            nm as int == count_of(p, -1, i as int),
            np <= i,
            nm <= i,
        decreases k - i,
    {
        proof {
            lemma_count_step(p, 1, i as int);
            lemma_count_step(p, -1, i as int);
            assert(-1 <= p[i as int] <= 1 && p[i as int] == v[i as int] as int);
        }
        if v[i] == 1 {
            np += 1;
        } else if v[i] == -1 {
            nm += 1;
        }
        i += 1;
    }
    let odk = np;
    let idk = nm;
    let wk = w[k];
    let mut cod_a = [0u8; 16];
    let mut cid_a = [0u8; 16];
    let mut i = 0usize;
    while i < k
        invariant
            k == g.k < 16,
            p.len() == k,
            forall|x: int| 0 <= x < k ==> -1 <= #[trigger] p[x] <= 1 && p[x] == v[x] as int,
            forall|x: int| 0 <= x < k ==> #[trigger] pod[x] as int == pod_part(*g, x, k as int),
            forall|x: int| 0 <= x < k ==> #[trigger] pid[x] as int == pid_part(*g, x, k as int),
            odk as int == count_of(p, 1, k as int),
            idk as int == count_of(p, -1, k as int),
            wk == w[k as int],
            i <= k,
            forall|x: int| 0 <= x < i ==> #[trigger] cod_a[x] as int == wcod(*g, p, x),
            forall|x: int| 0 <= x < i ==> #[trigger] cid_a[x] as int == wcid(*g, p, x),
            forall|x: int| i <= x < 16 ==> #[trigger] cod_a[x] == 0,
            forall|x: int| i <= x < 16 ==> #[trigger] cid_a[x] == 0,
            forall|x: int|
                0 <= x < i && w[x] == w[k as int] ==> !(#[trigger] wcod(*g, p, x) > wcod(*g, p, k as int) || (wcod(*g, p, x) == wcod(
                    *g,
                    p,
                    k as int,
                ) && wcid(*g, p, x) > wcid(*g, p, k as int))),
        decreases k - i,
    {
        proof {
            lemma_pod_bounds(*g, i as int, k as int);
            lemma_pod_bounds(*g, i as int, k as int);
            assert(-1 <= p[i as int] <= 1 && p[i as int] == v[i as int] as int);
        }
        let co = pod[i] + if v[i] == -1 { 1u8 } else { 0u8 };
        let ci = pid[i] + if v[i] == 1 { 1u8 } else { 0u8 };
        let ghost ca0 = cod_a;
        let ghost ci0 = cid_a;
        cod_a[i] = co;
        cid_a[i] = ci;
        proof {
            assert(co as int == wcod(*g, p, i as int));
            assert(ci as int == wcid(*g, p, i as int));
            assert forall|x: int| 0 <= x < 16 && x != i implies #[trigger] cod_a[x] == ca0[x] by {}
            assert forall|x: int| 0 <= x < 16 && x != i implies #[trigger] cid_a[x] == ci0[x] by {}
        }
        if w[i] == wk && (co > odk || (co == odk && ci > idk)) {
            proof {
                assert(!wpair_maximal(*g, *w, p)) by {
                    assert(wcod(*g, p, i as int) == co as int);
                    assert(wcid(*g, p, i as int) == ci as int);
                }
            }
            return None;
        }
        i += 1;
    }
    let ghost cp = cod_a;
    let ghost cq = cid_a;
    cod_a[k] = odk;
    cid_a[k] = idk;
    proof {
        assert forall|x: int| 0 <= x < 16 implies #[trigger] cod_a@[x] == wcod_seq(*g, p)[x] by {
            if x < k {
                assert(cp[x] as int == wcod(*g, p, x));
                assert(cod_a[x] == cp[x]);
            } else if x > k {
                assert(cp[x] == 0);
                assert(cod_a[x] == cp[x]);
            }
        }
        assert forall|x: int| 0 <= x < 16 implies #[trigger] cid_a@[x] == wcid_seq(*g, p)[x] by {
            if x < k {
                assert(cq[x] as int == wcid(*g, p, x));
                assert(cid_a[x] == cq[x]);
            } else if x > k {
                assert(cq[x] == 0);
                assert(cid_a[x] == cq[x]);
            }
        }
        assert(cod_a@ =~= wcod_seq(*g, p));
        assert(cid_a@ =~= wcid_seq(*g, p));
    }
    let mut rows = [0u16; 16];
    proof {
        assert forall|x: int, j: int| 0 <= x < 16 && 0 <= j < 16 implies !#[trigger] bit16(rows[x], j) by {
            lemma_bit16_set(0, 0, j as u16);
        }
    }
    let mut i = 0usize;
    while i < k
        invariant
            k == g.k < 16,
            p.len() == k,
            forall|x: int| 0 <= x < k ==> -1 <= #[trigger] p[x] <= 1 && p[x] == v[x] as int,
            i <= k,
            forall|x: int, j: int| 0 <= x < 16 && 0 <= j < 16 ==> #[trigger] bit16(rows[x], j) == (x < i && wrow_bit(*g, p, x, j)),
        decreases k - i,
    {
        let mut j = 0usize;
        let ghost r0 = rows;
        while j < k
            invariant
                k == g.k < 16,
                p.len() == k,
                i < k,
                j <= k,
                forall|x: int| 0 <= x < 16 && x != i ==> #[trigger] rows[x] == r0[x],
                forall|t: int| 0 <= t < 16 ==> #[trigger] bit16(rows[i as int], t) == (t < j && bit(g.arc[i as int], t)),
            decreases k - j,
        {
            let old_row = rows[i];
            if (g.arc[i] >> (j as u64)) & 1 == 1 {
                rows[i] = rows[i] | (1u16 << (j as u16));
            }
            proof {
                assert forall|t: int| 0 <= t < 16 implies #[trigger] bit16(rows[i as int], t) == (t < j + 1 && bit(g.arc[i as int], t)) by {
                    lemma_bit16_set(old_row, j as u16, t as u16);
                }
            }
            j += 1;
        }
        if v[i] == -1 {
            let old_row = rows[i];
            rows[i] = rows[i] | (1u16 << (k as u16));
            proof {
                assert forall|t: int| 0 <= t < 16 implies #[trigger] bit16(rows[i as int], t) == ((t < k && bit(g.arc[i as int], t)) || t == k) by {
                    lemma_bit16_set(old_row, k as u16, t as u16);
                }
            }
        }
        proof {
            assert forall|x: int, t: int| 0 <= x < 16 && 0 <= t < 16 implies #[trigger] bit16(rows[x], t) == (x < i + 1 && wrow_bit(*g, p, x, t)) by {
                if x != i {
                    assert(rows[x] == r0[x]);
                }
            }
        }
        i += 1;
    }
    let mut j = 0usize;
    while j < k
        invariant
            k == g.k < 16,
            p.len() == k,
            forall|x: int| 0 <= x < k ==> -1 <= #[trigger] p[x] <= 1 && p[x] == v[x] as int,
            j <= k,
            forall|x: int, t: int| 0 <= x < k && 0 <= t < 16 ==> #[trigger] bit16(rows[x], t) == wrow_bit(*g, p, x, t),
            forall|x: int, t: int| k < x < 16 && 0 <= t < 16 ==> !#[trigger] bit16(rows[x], t),
            forall|t: int| 0 <= t < 16 ==> #[trigger] bit16(rows[k as int], t) == (t < j && p[t] == 1),
        decreases k - j,
    {
        let old_row = rows[k];
        if v[j] == 1 {
            rows[k] = rows[k] | (1u16 << (j as u16));
        }
        proof {
            assert forall|t: int| 0 <= t < 16 implies #[trigger] bit16(rows[k as int], t) == (t < j + 1 && p[t] == 1) by {
                lemma_bit16_set(old_row, j as u16, t as u16);
            }
        }
        j += 1;
    }
    let ghost rv = rows@;
    proof {
        assert(wrows_of(*g, p, rv)) by {
            assert forall|x: int, t: int| 0 <= x < 16 && 0 <= t < 16 implies #[trigger] bit16(rv[x], t) == wrow_bit(*g, p, x, t) by {
                assert(rv[x] == rows[x]);
            }
        }
        assert(rows_fit_next(rv, k)) by {
            assert forall|x: int, t: int| 0 <= x < k + 1 && k + 1 <= t < 16 implies !#[trigger] bit16(rv[x], t) by {
                assert(bit16(rv[x], t) == wrow_bit(*g, p, x, t));
            }
        }
    }
    let mut mask = 0u32;
    let mut i = 0usize;
    proof {
        assert forall|t: int| 0 <= t < 32 implies !#[trigger] bit32(mask, t) by {
            lemma_bit32_set(0, 0, t as u32);
        }
    }
    while i < k
        invariant
            k == g.k < 16,
            p.len() == k,
            wrows_of(*g, p, rv),
            rv == rows@,
            rows_fit_next(rv, k),
            cod_a@ == wcod_seq(*g, p),
            cid_a@ == wcid_seq(*g, p),
            odk as int == wcod(*g, p, k as int),
            idk as int == wcid(*g, p, k as int),
            wk == w[k as int],
            forall|x: int| 0 <= x < k ==> #[trigger] cod_a[x] as int == wcod(*g, p, x) && cid_a[x] as int == wcid(*g, p, x),
            i <= k,
            forall|x: int| 0 <= x < i && #[trigger] wpair_tie(*g, *w, p, x) ==> wsig_vs_new(*g, p, rv, x) <= 0,
            forall|t: int| 0 <= t < 32 ==> #[trigger] bit32(mask, t) == (t < i && wpair_tie(*g, *w, p, t) && wsig_vs_new(*g, p, rv, t) == 0),
        decreases k - i,
    {
        if w[i] == wk && cod_a[i] == odk && cid_a[i] == idk {
            let c = compare_with_new(&rows, k, &cod_a, &cid_a, i, Ghost(rv));
            proof {
                assert(wsig_vs_new(*g, p, rv, i as int) == crate::regular_order::new_order(rv, k, cod_a, cid_a, i));
            }
            if c > 0 {
                proof {
                    assert(wpair_tie(*g, *w, p, i as int));
                    assert(wsig_vs_new(*g, p, rv, i as int) > 0);
                    assert(!wsig_maximal(*g, *w, p));
                }
                return None;
            } else if c == 0 {
                let m0 = mask;
                mask = mask | (1u32 << (i as u32));
                proof {
                    assert forall|t: int| 0 <= t < 32 implies #[trigger] bit32(mask, t) == (t < i + 1 && wpair_tie(*g, *w, p, t) && wsig_vs_new(*g, p, rv, t)
                        == 0) by {
                        lemma_bit32_set(m0, i as u32, t as u32);
                    }
                }
            }
        }
        i += 1;
    }
    let mut arc = g.arc;
    let mut rowsum = g.rowsum;
    let mut newbits = 0u64;
    let mut i = 0usize;
    proof {
        assert forall|j: int| 0 <= j < 64 implies !#[trigger] bit(0u64, j) by {
            crate::bits::lemma_bit_zero(j as u64);
        }
    }
    while i < k
        invariant
            k == g.k < 16,
            wgame_ok(*g, n as int),
            weights_ok(*w, n as int),
            wk == w[k as int],
            p.len() == k,
            forall|x: int| 0 <= x < k ==> -1 <= #[trigger] p[x] <= 1 && p[x] == v[x] as int,
            i <= k,
            forall|x: int, j: int| 0 <= x < 16 && 0 <= j < 64 ==> #[trigger] bit(arc[x], j) == if x < i {
                bit(g.arc[x], j) || (j == k && p[x] == -1)
            } else {
                bit(g.arc[x], j)
            },
            forall|j: int| 0 <= j < 64 ==> #[trigger] bit(newbits, j) == (j < i && p[j] == 1),
            forall|x: int| 0 <= x < 16 ==> #[trigger] rowsum[x] as int == if x < i { g.rowsum[x] - p[x] * w[k as int] } else { g.rowsum[x] as int },
        decreases k - i,
    {
        let ghost a0 = arc;
        let ghost nb0 = newbits;
        proof {
            assert(-256 <= g.rowsum[i as int] <= 256);
            assert(-1 <= p[i as int] <= 1 && p[i as int] == v[i as int] as int);
            lemma_unit_mul(p[i as int], w[k as int] as int);
        }
        if v[i] == -1 {
            arc[i] = arc[i] | (1u64 << (k as u64));
            rowsum[i] = rowsum[i] + wk;
        } else if v[i] == 1 {
            newbits = newbits | (1u64 << (i as u64));
            rowsum[i] = rowsum[i] - wk;
        }
        proof {
            assert forall|x: int, j: int| 0 <= x < 16 && 0 <= j < 64 implies #[trigger] bit(arc[x], j) == if x < i + 1 {
                bit(g.arc[x], j) || (j == k && p[x] == -1)
            } else {
                bit(g.arc[x], j)
            } by {
                if x == i && p[i as int] == -1 {
                    lemma_bit_or(a0[x], 1u64 << (k as u64), j as u64);
                    lemma_bit_single(k as u64, j as u64);
                } else {
                    assert(arc[x] == a0[x]);
                }
            }
            assert forall|j: int| 0 <= j < 64 implies #[trigger] bit(newbits, j) == (j < i + 1 && p[j] == 1) by {
                if p[i as int] == 1 {
                    lemma_bit_or(nb0, 1u64 << (i as u64), j as u64);
                    lemma_bit_single(i as u64, j as u64);
                }
            }
        }
        i += 1;
    }
    let ghost a1 = arc;
    arc[k] = newbits;
    rowsum[k] = s;
    let h = Game { arc, rowsum, k: k + 1 };
    proof {
        assert(wchild_of(*g, *w, p, h)) by {
            assert forall|x: int, j: int| 0 <= x < 16 && 0 <= j < 64 implies #[trigger] bit(h.arc[x], j) == if x < k {
                bit(g.arc[x], j) || (j == k && p[x] == -1)
            } else if x == k {
                j < k && p[j] == 1
            } else {
                bit(g.arc[x], j)
            } by {
                if x != k {
                    assert(h.arc[x] == a1[x]);
                }
            }
        }
        assert(wsig_maximal(*g, *w, p)) by {
            assert forall|rows2: Seq<u16>, x: int| wrows_of(*g, p, rows2) && 0 <= x < k && #[trigger] wpair_tie(*g, *w, p, x) implies #[trigger] wsig_vs_new(
                *g,
                p,
                rows2,
                x,
            ) <= 0 by {
                lemma_rows_unique(rows2, rv);
            }
        }
        assert(wties_mask(*g, *w, p, mask)) by {
            assert forall|rows2: Seq<u16>, t: int| wrows_of(*g, p, rows2) && 0 <= t < 32 implies #[trigger] bit32(mask, t) == (t < k && wpair_tie(
                *g,
                *w,
                p,
                t,
            ) && #[trigger] wsig_vs_new(*g, p, rows2, t) == 0) by {
                lemma_rows_unique(rows2, rv);
            }
        }
        assert(wpair_maximal(*g, *w, p));
    }
    Some((h, mask))
}


/// The weight of the moves after move `k`.
fn weight_tail(w: &[i32; 16], n: usize, k: usize) -> (r: i32)
    requires
        weights_ok(*w, n as int),
        k < n <= 16,
    ensures
        r as int == lim_of(*w, n as int, k as int),
        0 <= r <= 240,
{
    let mut s = 0i32;
    let mut t = n;
    while t > k + 1
        invariant
            weights_ok(*w, n as int),
            k < n <= 16,
            k + 1 <= t <= n,
            s as int == wtail(*w, t as int, n as int),
            0 <= s <= 16 * (n - t),
        decreases t,
    {
        t -= 1;
        s = s + w[t];
    }
    s
}

fn wallowed_exec(g: &Game, w: &[i32; 16], n: usize, i: usize, a: i32, lim: i32) -> (r: bool)
    requires
        wgame_ok(*g, n as int),
        weights_ok(*w, n as int),
        i < g.k,
        -1 <= a <= 1,
        lim as int == lim_of(*w, n as int, g.k as int),
        0 <= lim <= 240,
    ensures
        r == wallowed(*g, *w, n as int, i as int, a as int),
{
    let wk = w[g.k];
    let e: i32 = if a == -1 {
        wk
    } else if a == 1 {
        -wk
    } else {
        0
    };
    let r2 = g.rowsum[i] + e;
    -lim <= r2 && r2 <= lim
}

/// Appends the listing of the completions of the prefix `p` (entries `v[..i]`),
/// whose new move's partial weighted sum is `part`.
fn wcomplete(
    g: &Game,
    w: &[i32; 16],
    n: usize,
    i: usize,
    v: &mut [i32; 16],
    part: i32,
    smin: &[i32; 17],
    smax: &[i32; 17],
    lim: i32,
    res: &mut Vec<(Game, u32)>,
    Ghost(p): Ghost<Seq<int>>,
)
    requires
        wgame_ok(*g, n as int),
        weights_ok(*w, n as int),
        i <= g.k,
        p.len() == i,
        forall|x: int| 0 <= x < i ==> -1 <= #[trigger] p[x] <= 1 && p[x] == old(v)[x] as int,
        forall|x: int| 0 <= x < i ==> #[trigger] wallowed(*g, *w, n as int, x, p[x]),
        part as int == wsum(p, *w, i as int),
        -16 * i <= part <= 16 * i,
        lim as int == lim_of(*w, n as int, g.k as int),
        0 <= lim <= 240,
        forall|x: int| 0 <= x <= g.k ==> #[trigger] smin[x] as int == smin_from(*g, *w, n as int, x),
        forall|x: int| 0 <= x <= g.k ==> #[trigger] smax[x] as int == smax_from(*g, *w, n as int, x),
        forall|x: int| 0 <= x <= g.k ==> -256 <= #[trigger] smin[x] <= 0,
        forall|x: int| 0 <= x <= g.k ==> 0 <= #[trigger] smax[x] <= 256,
        part + smin[i as int] <= lim,
        part + smax[i as int] >= -lim,
    ensures
        forall|x: int| 0 <= x < i ==> #[trigger] final(v)[x] == old(v)[x],
        forall|t: int| 0 <= t < old(res)@.len() ==> #[trigger] final(res)@[t] == old(res)@[t],
        wlists(*g, *w, final(res)@, old(res)@.len() as int, wpassing_from(*g, *w, n as int, p)),
    decreases g.k - i, 1int,
{
    if i == g.k {
        proof {
            assert(smin_from(*g, *w, n as int, g.k as int) == 0);
            assert(smax_from(*g, *w, n as int, g.k as int) == 0);
            assert(wfeasible(*g, *w, n as int, p));
        }
        match wleaf(g, w, n, v, part, Ghost(p)) {
            Some(hm) => {
                let ghost r0 = res@;
                res.push(hm);
                proof {
                    assert(wpasses(*g, *w, n as int, p));
                    assert(wpassing_from(*g, *w, n as int, p) == seq![p]);
                    assert(res@[r0.len() as int + 0] == hm);
                }
            },
            None => {
                proof {
                    assert(!wpasses(*g, *w, n as int, p));
                    assert(wpassing_from(*g, *w, n as int, p) =~= Seq::<Seq<int>>::empty());
                }
            },
        }
    } else {
        let ghost r0 = res@;
        wbranch(g, w, n, i, -1, v, part, smin, smax, lim, res, Ghost(p));
        let ghost r1 = res@;
        wbranch(g, w, n, i, 0, v, part, smin, smax, lim, res, Ghost(p));
        let ghost r2 = res@;
        wbranch(g, w, n, i, 1, v, part, smin, smax, lim, res, Ghost(p));
        proof {
            let a = wpassing_from(*g, *w, n as int, p.push(-1));
            let b = wpassing_from(*g, *w, n as int, p.push(0));
            let c = wpassing_from(*g, *w, n as int, p.push(1));
            let all = wpassing_from(*g, *w, n as int, p);
            assert(all == a + b + c);
            let s0 = r0.len() as int;
            assert(r1.len() == s0 + a.len());
            assert(r2.len() == r1.len() + b.len());
            assert(res@.len() == r2.len() + c.len());
            assert forall|t: int| 0 <= t < all.len() implies #[trigger] wchild_of(*g, *w, all[t], res@[s0 + t].0) && wties_mask(
                *g,
                *w,
                all[t],
                res@[s0 + t].1,
            ) by {
                if t < a.len() {
                    assert(all[t] == a[t]);
                    assert(res@[s0 + t] == r1[s0 + t]);
                    assert(wchild_of(*g, *w, a[t], r1[s0 + t].0) && wties_mask(*g, *w, a[t], r1[s0 + t].1));
                } else if t < a.len() + b.len() {
                    let u = t - a.len();
                    assert(all[t] == b[u]);
                    assert(s0 + t == (s0 + a.len()) + u);
                    assert(res@[s0 + t] == r2[s0 + t]);
                    assert(wchild_of(*g, *w, b[u], r2[(s0 + a.len()) + u].0) && wties_mask(*g, *w, b[u], r2[(s0 + a.len()) + u].1));
                } else {
                    let u = t - a.len() - b.len();
                    assert(all[t] == c[u]);
                    assert(s0 + t == (s0 + a.len() + b.len()) + u);
                    assert(wchild_of(*g, *w, c[u], res@[(s0 + a.len() + b.len()) + u].0) && wties_mask(
                        *g,
                        *w,
                        c[u],
                        res@[(s0 + a.len() + b.len()) + u].1,
                    ));
                }
            }
            assert(wlists(*g, *w, res@, s0, all));
        }
    }
}

/// Appends the listing of the completions of `p` extended by entry `a` at move `i`.
fn wbranch(
    g: &Game,
    w: &[i32; 16],
    n: usize,
    i: usize,
    a: i32,
    v: &mut [i32; 16],
    part: i32,
    smin: &[i32; 17],
    smax: &[i32; 17],
    lim: i32,
    res: &mut Vec<(Game, u32)>,
    Ghost(p): Ghost<Seq<int>>,
)
    requires
        wgame_ok(*g, n as int),
        weights_ok(*w, n as int),
        i < g.k,
        -1 <= a <= 1,
        p.len() == i,
        forall|x: int| 0 <= x < i ==> -1 <= #[trigger] p[x] <= 1 && p[x] == old(v)[x] as int,
        forall|x: int| 0 <= x < i ==> #[trigger] wallowed(*g, *w, n as int, x, p[x]),
        part as int == wsum(p, *w, i as int),
        -16 * i <= part <= 16 * i,
        lim as int == lim_of(*w, n as int, g.k as int),
        0 <= lim <= 240,
        forall|x: int| 0 <= x <= g.k ==> #[trigger] smin[x] as int == smin_from(*g, *w, n as int, x),
        forall|x: int| 0 <= x <= g.k ==> #[trigger] smax[x] as int == smax_from(*g, *w, n as int, x),
        forall|x: int| 0 <= x <= g.k ==> -256 <= #[trigger] smin[x] <= 0,
        forall|x: int| 0 <= x <= g.k ==> 0 <= #[trigger] smax[x] <= 256,
    ensures
        forall|x: int| 0 <= x < i ==> #[trigger] final(v)[x] == old(v)[x],
        forall|t: int| 0 <= t < old(res)@.len() ==> #[trigger] final(res)@[t] == old(res)@[t],
        wlists(*g, *w, final(res)@, old(res)@.len() as int, wpassing_from(*g, *w, n as int, p.push(a as int))),
    decreases g.k - i, 0int,
{
    let q = Ghost(p.push(a as int));
    let ok = wallowed_exec(g, w, n, i, a, lim);
    let c: i32 = if a == -1 {
        -w[i]
    } else if a == 1 {
        w[i]
    } else {
        0
    };
    let ps = part + c;
    proof {
        lemma_wsum_push(p, a as int, *w, i as int);
        assert(q@[i as int] == a as int);
        assert(wsum(q@, *w, i + 1) == wsum(q@, *w, i as int) + q@[i as int] * w[i as int]);
        lemma_unit_mul(a as int, w[i as int] as int);
        assert(ps as int == wsum(q@, *w, i + 1));
    }
    if ok && ps + smin[i + 1] <= lim && ps + smax[i + 1] >= -lim {
        v[i] = a;
        proof {
            assert forall|x: int| 0 <= x < i + 1 implies -1 <= #[trigger] q@[x] <= 1 && q@[x] == v[x] as int by {
                if x < i {
                    assert(q@[x] == p[x]);
                }
            }
            assert forall|x: int| 0 <= x < i + 1 implies #[trigger] wallowed(*g, *w, n as int, x, q@[x]) by {
                if x < i {
                    assert(q@[x] == p[x]);
                }
            }
        }
        wcomplete(g, w, n, i + 1, v, ps, smin, smax, lim, res, q);
    } else {
        proof {
            if !ok {
                assert(!(-1 <= q@[i as int] <= 1 && wallowed(*g, *w, n as int, i as int, q@[i as int])));
            }
            lemma_wdead(*g, *w, n as int, q@);
            assert(wpassing_from(*g, *w, n as int, q@) =~= Seq::<Seq<int>>::empty());
        }
    }
}

/// The extensions of the partial core `g` (weights `w`, `n` moves in all)
/// after which every weighted row sum, the new move's included, can still be
/// brought to zero by the weight still to come, and which pass the
/// degree-pair and signature maximality tests among the moves of the new
/// move's weight; in lexicographic order of the extension (entry for move 0
/// first, `-1 < 0 < 1`), each as the child with the mask of old moves whose
/// signature ties the new move's, left to a coloured canonical labelling.
pub fn weighted_candidates(g: &Game, w: &[i32; 16], n: usize) -> (out: Vec<(Game, u32)>)
    requires
        wgame_ok(*g, n as int),
        weights_ok(*w, n as int),
    ensures
        wlists(*g, *w, out@, 0, wpassing_from(*g, *w, n as int, Seq::empty())),
{
    let k = g.k;
    let lim = weight_tail(w, n, k);
    let mut res: Vec<(Game, u32)> = Vec::new();
    let mut i = 0usize;
    while i < k
        invariant
            k == g.k,
            wgame_ok(*g, n as int),
            weights_ok(*w, n as int),
            lim as int == lim_of(*w, n as int, g.k as int),
            0 <= lim <= 240,
            i <= k,
            res@ == Seq::<(Game, u32)>::empty(),
        decreases k - i,
    {
        if !wallowed_exec(g, w, n, i, -1, lim) && !wallowed_exec(g, w, n, i, 0, lim) && !wallowed_exec(g, w, n, i, 1, lim) {
            proof {
                lemma_wno_choice(*g, *w, n as int, Seq::empty(), i as int);
            }
            return res;
        }
        i += 1;
    }
    let mut smin = [0i32; 17];
    let mut smax = [0i32; 17];
    let mut i = k;
    proof {
        assert(smin_from(*g, *w, n as int, k as int) == 0);
        assert(smax_from(*g, *w, n as int, k as int) == 0);
    }
    while i > 0
        invariant
            k == g.k,
            wgame_ok(*g, n as int),
            weights_ok(*w, n as int),
            lim as int == lim_of(*w, n as int, g.k as int),
            0 <= lim <= 240,
            i <= k,
            forall|x: int| i <= x <= k ==> #[trigger] smin[x] as int == smin_from(*g, *w, n as int, x),
            forall|x: int| i <= x <= k ==> #[trigger] smax[x] as int == smax_from(*g, *w, n as int, x),
            forall|x: int| i <= x <= k ==> -16 * (k - x) <= #[trigger] smin[x] <= 0,
            forall|x: int| i <= x <= k ==> 0 <= #[trigger] smax[x] <= 16 * (k - x),
        decreases i,
    {
        i -= 1;
        let am = wallowed_exec(g, w, n, i, -1, lim);
        let ap = wallowed_exec(g, w, n, i, 1, lim);
        let m1: i32 = if am { -w[i] } else { 0 };
        let p1: i32 = if ap { w[i] } else { 0 };
        let lo = if m1 < p1 { m1 } else { p1 };
        let hi = if m1 < p1 { p1 } else { m1 };
        proof {
            assert(lo as int == lo_at(*g, *w, n as int, i as int));
            assert(hi as int == hi_at(*g, *w, n as int, i as int));
            assert(smin_from(*g, *w, n as int, i as int) == lo_at(*g, *w, n as int, i as int) + smin_from(*g, *w, n as int, i + 1));
            assert(smax_from(*g, *w, n as int, i as int) == hi_at(*g, *w, n as int, i as int) + smax_from(*g, *w, n as int, i + 1));
        }
        smin[i] = smin[i + 1] + lo;
        smax[i] = smax[i + 1] + hi;
    }
    if smin[0] > lim || smax[0] < -lim {
        proof {
            lemma_wdead(*g, *w, n as int, Seq::empty());
        }
        return res;
    }
    let mut v = [0i32; 16];
    wcomplete(g, w, n, 0, &mut v, 0, &smin, &smax, lim, &mut res, Ghost(Seq::empty()));
    res
}

/// Move `i`'s weighted wins minus losses against the first `m` moves,
/// `sum_{u < m} w[u] rel(i, u)`.
pub open spec fn wrow_total(arc: [u64; 16], w: [i32; 16], i: int, m: int) -> int
    decreases m,
{
    if m <= 0 {
        0
    } else {
        wrow_total(arc, w, i, m - 1) + (if bit(arc[i], m - 1) { w[m - 1] as int } else { 0int }) - (if bit(arc[m - 1], i) {
            w[m - 1] as int
        } else {
            0int
        })
    }
}

/// The stored row sums are the weighted ones over the placed moves.
pub open spec fn wsums_true(g: Game, w: [i32; 16]) -> bool {
    forall|i: int| 0 <= i < g.k ==> #[trigger] g.rowsum[i] == wrow_total(g.arc, w, i, g.k as int)
}

/// Every one of the `n` moves has weighted row sum zero: the blow-up of the
/// core by the weights is balanced.
pub open spec fn weight_balanced(arc: [u64; 16], w: [i32; 16], n: int) -> bool {
    forall|i: int| 0 <= i < n ==> #[trigger] wrow_total(arc, w, i, n) == 0
}

proof fn lemma_wrow_same(a: [u64; 16], b: [u64; 16], w: [i32; 16], i: int, m: int)
    requires
        0 <= i < 16,
        0 <= m <= 16,
        forall|u: int| 0 <= u < m ==> #[trigger] bit(a[i], u) == bit(b[i], u),
        forall|u: int| 0 <= u < m ==> #[trigger] bit(a[u], i) == bit(b[u], i),
    ensures
        wrow_total(a, w, i, m) == wrow_total(b, w, i, m),
    decreases m,
{
    if m > 0 {
        lemma_wrow_same(a, b, w, i, m - 1);
        assert(bit(a[i], m - 1) == bit(b[i], m - 1));
        assert(bit(a[m - 1], i) == bit(b[m - 1], i));
    }
}

/// The new move's weighted row sum against the first `m` old moves is the
/// weighted sum of the first `m` entries of its extension.
proof fn lemma_wnew_row(g: Game, w: [i32; 16], n: int, p: Seq<int>, h: Game, m: int)
    requires
        wgame_ok(g, n),
        0 <= m <= g.k,
        p.len() == g.k,
        forall|i: int| 0 <= i < g.k ==> -1 <= #[trigger] p[i] <= 1,
        wchild_of(g, w, p, h),
    ensures
        wrow_total(h.arc, w, g.k as int, m) == wsum(p, w, m),
    decreases m,
{
    if m > 0 {
        lemma_wnew_row(g, w, n, p, h, m - 1);
        let k = g.k as int;
        assert(bit(h.arc[k], m - 1) == (p[m - 1] == 1));
        assert(bit(h.arc[m - 1], k) == (bit(g.arc[m - 1], k) || p[m - 1] == -1));
        assert(!bit(g.arc[m - 1], k));
        assert(-1 <= p[m - 1] <= 1);
        lemma_unit_mul(p[m - 1], w[m - 1] as int);
    }
}

/// Attaching a move keeps the stored row sums the true weighted ones: the
/// sums that `weighted_candidates` checks are the real ones.
pub proof fn lemma_wchild_sums(g: Game, w: [i32; 16], n: int, p: Seq<int>, h: Game)
    requires
        wgame_ok(g, n),
        wsums_true(g, w),
        p.len() == g.k,
        forall|i: int| 0 <= i < g.k ==> -1 <= #[trigger] p[i] <= 1,
        wchild_of(g, w, p, h),
    ensures
        wsums_true(h, w),
{
    let k = g.k as int;
    assert forall|i: int| 0 <= i < h.k implies #[trigger] h.rowsum[i] == wrow_total(h.arc, w, i, h.k as int) by {
        if i < k {
            assert forall|u: int| 0 <= u < k implies #[trigger] bit(h.arc[i], u) == bit(g.arc[i], u) by {}
            assert forall|u: int| 0 <= u < k implies #[trigger] bit(h.arc[u], i) == bit(g.arc[u], i) by {}
            lemma_wrow_same(h.arc, g.arc, w, i, k);
            assert(bit(h.arc[i], k) == (p[i] == -1)) by {
                assert(!bit(g.arc[i], k));
            }
            assert(bit(h.arc[k], i) == (p[i] == 1));
            assert(-1 <= p[i] <= 1);
            lemma_unit_mul(p[i], w[k] as int);
            assert(g.rowsum[i] == wrow_total(g.arc, w, i, k));
            assert(h.rowsum[i] as int == g.rowsum[i] - p[i] * w[k]);
        } else {
            lemma_wnew_row(g, w, n, p, h, k);
            assert(!bit(h.arc[k], k));
        }
    }
}

proof fn lemma_wpassing_pass(g: Game, w: [i32; 16], n: int, p: Seq<int>)
    requires
        p.len() <= g.k,
    ensures
        forall|t: int| 0 <= t < wpassing_from(g, w, n, p).len() ==> #[trigger] wpasses(g, w, n, wpassing_from(g, w, n, p)[t]),
    decreases g.k - p.len(),
{
    if p.len() < g.k {
        let a = wpassing_from(g, w, n, p.push(-1));
        let b = wpassing_from(g, w, n, p.push(0));
        let c = wpassing_from(g, w, n, p.push(1));
        lemma_wpassing_pass(g, w, n, p.push(-1));
        lemma_wpassing_pass(g, w, n, p.push(0));
        lemma_wpassing_pass(g, w, n, p.push(1));
        let all = wpassing_from(g, w, n, p);
        assert(all == a + b + c);
        assert forall|t: int| 0 <= t < all.len() implies #[trigger] wpasses(g, w, n, all[t]) by {
            if t < a.len() {
                assert(all[t] == a[t]);
            } else if t < a.len() + b.len() {
                assert(all[t] == b[t - a.len()]);
            } else {
                assert(all[t] == c[t - a.len() - b.len()]);
            }
        }
    }
}

proof fn lemma_wtail_bounds(w: [i32; 16], i: int, n: int)
    requires
        weights_ok(w, n),
        0 <= i <= n,
    ensures
        0 <= wtail(w, i, n) <= 16 * (n - i),
    decreases n - i,
{
    if i < n {
        lemma_wtail_bounds(w, i + 1, n);
    }
}

/// A feasible extension of a partial core with true weighted row sums gives a
/// child whose stored sums are true again; while moves remain to be placed
/// the child is again a partial core, and once the last move is placed (no
/// weight left to come) every weighted row sum is zero: the completed core is
/// weight-balanced.
pub proof fn lemma_wchild_sound(g: Game, w: [i32; 16], n: int, p: Seq<int>, h: Game)
    requires
        wgame_ok(g, n),
        weights_ok(w, n),
        wsums_true(g, w),
        wfeasible(g, w, n, p),
        wchild_of(g, w, p, h),
    ensures
        wsums_true(h, w),
        h.k < n ==> wgame_ok(h, n),
        h.k == n ==> weight_balanced(h.arc, w, n),
{
    let k = g.k as int;
    lemma_wchild_sums(g, w, n, p, h);
    lemma_wtail_bounds(w, k + 1, n);
    let lim = lim_of(w, n, k);
    assert forall|i: int| 0 <= i < h.k implies -lim <= #[trigger] h.rowsum[i] <= lim by {
        if i < k {
            assert(-1 <= p[i] <= 1 && wallowed(g, w, n, i, p[i]));
            lemma_unit_mul(p[i], w[k] as int);
            assert(h.rowsum[i] as int == g.rowsum[i] - p[i] * w[k]);
        } else {
            assert(h.rowsum[k] as int == wsum(p, w, k));
        }
    }
    if h.k < n {
        assert forall|i: int, j: int| 0 <= i < h.k && h.k <= j < 64 implies !#[trigger] bit(h.arc[i], j) by {
            if i < k {
                assert(!bit(g.arc[i], j));
            }
        }
        assert forall|i: int| 0 <= i < h.k implies -256 <= #[trigger] h.rowsum[i] <= 256 by {
            assert(-lim <= h.rowsum[i] <= lim);
        }
    }
    if h.k == n {
        assert(lim == 0);
        assert forall|i: int| 0 <= i < n implies #[trigger] wrow_total(h.arc, w, i, n) == 0 by {
            assert(-lim <= h.rowsum[i] <= lim);
            assert(h.rowsum[i] == wrow_total(h.arc, w, i, h.k as int));
        }
    }
}

/// Every child that `weighted_candidates` lists for a partial core with true
/// weighted row sums has true sums again, is again a partial core while moves
/// remain, and is weight-balanced once complete: growth from the root only
/// ever completes weight-balanced cores.
pub proof fn lemma_wcandidates_sound(g: Game, w: [i32; 16], n: int, out: Seq<(Game, u32)>)
    requires
        wgame_ok(g, n),
        weights_ok(w, n),
        wsums_true(g, w),
        wlists(g, w, out, 0, wpassing_from(g, w, n, Seq::empty())),
    ensures
        forall|t: int| 0 <= t < out.len() ==> wsums_true(#[trigger] out[t].0, w),
        forall|t: int| 0 <= t < out.len() && #[trigger] out[t].0.k < n ==> wgame_ok(out[t].0, n),
        forall|t: int| 0 <= t < out.len() && #[trigger] out[t].0.k == n ==> weight_balanced(out[t].0.arc, w, n),
{
    let vecs = wpassing_from(g, w, n, Seq::empty());
    lemma_wpassing_pass(g, w, n, Seq::empty());
    assert forall|t: int| 0 <= t < out.len() implies wsums_true(#[trigger] out[t].0, w) && (out[t].0.k < n ==> wgame_ok(out[t].0, n)) && (
    out[t].0.k == n ==> weight_balanced(out[t].0.arc, w, n)) by {
        assert(wchild_of(g, w, vecs[t], out[0 + t].0));
        assert(wpasses(g, w, n, vecs[t]));
        lemma_wchild_sound(g, w, n, vecs[t], out[t].0);
    }
}

/// The root (one move, no games played, row sum zero) is a partial core with
/// true weighted row sums whenever there are at least two moves.
pub proof fn lemma_wroot(g: Game, w: [i32; 16], n: int)
    requires
        g.k == 1,
        g.arc[0] == 0,
        g.rowsum[0] == 0,
        2 <= n <= 16,
    ensures
        wgame_ok(g, n),
        wsums_true(g, w),
{
    assert forall|i: int, j: int| 0 <= i < g.k && g.k <= j < 64 implies !#[trigger] bit(g.arc[i], j) by {
        crate::bits::lemma_bit_zero(j as u64);
    }
    assert(!bit(g.arc[0], 0)) by {
        crate::bits::lemma_bit_zero(0);
    }
    assert(wrow_total(g.arc, w, 0, 0) == 0);
    assert(wrow_total(g.arc, w, 0, 1) == 0);
}

} // verus!
