//! One step of the canonical augmentation that grows `d`-regular games (every
//! move wins `d` times and loses `d` times): the extensions of a partial game
//! that can still reach the target degrees, listed in lexicographic order,
//! with the two cheap canonical-parent tests (degree-pair maximality and
//! signature maximality of the new move) applied; the exact signature ties
//! are reported for the canonical labelling to settle.
use vstd::prelude::*;
use crate::bits::{bit, bit32, lemma_bit_or, lemma_bit_single, lemma_bit16_set, lemma_bit16_wide, lemma_bit32_set, lemma_bits_ext};
use crate::signature::{bit16, key_order, rows_fit};
use crate::regular_order::{compare_with_new, rows_fit_next};

verus! {

/// A partial game on its first `k` moves toward the `d`-regular stratum, with
/// each move's wins (`out`) and losses (`ind`) so far.
#[derive(Clone, Copy)]
pub struct RGame {
    pub arc: [u64; 16],
    pub out: [i32; 16],
    pub ind: [i32; 16],
    pub k: usize,
    pub d: i32,
}

/// The degrees of the first `k` moves are within `0..=d`, and `d <= 7`.
pub open spec fn rgame_ok(g: RGame) -> bool {
    &&& 0 <= g.d <= 7
    &&& forall|i: int| 0 <= i < g.k ==> 0 <= #[trigger] g.out[i] <= g.d && 0 <= g.ind[i] <= g.d
}

/// Moves still to come after the new one.
pub open spec fn rem_of(g: RGame, n: int) -> int {
    n - (g.k + 1)
}

/// Entry `a` of the extension may go to move `i`: `-1` (move `i` beats the new
/// move) needs a win left, `1` a loss left, and `0` needs move `i`'s missing
/// wins and losses to fit in the moves still to come.
pub open spec fn allowed(g: RGame, n: int, i: int, a: int) -> bool {
    if a == -1 {
        g.out[i] < g.d
    } else if a == 1 {
        g.ind[i] < g.d
    } else {
        (g.d - g.out[i]) + (g.d - g.ind[i]) <= rem_of(g, n)
    }
}

/// Number of entries equal to `a` among the first `j`.
pub open spec fn count_of(p: Seq<int>, a: int, j: int) -> int
    decreases j,
{
    if j <= 0 {
        0
    } else {
        count_of(p, a, j - 1) + if p[j - 1] == a { 1int } else { 0int }
    }
}

/// Moves `i..k` that can take a nonzero entry.
pub open spec fn nonzero_room(g: RGame, n: int, i: int) -> int
    decreases g.k - i,
{
    if i >= g.k || i < 0 {
        0
    } else {
        nonzero_room(g, n, i + 1) + if allowed(g, n, i, -1) || allowed(g, n, i, 1) { 1int } else { 0int }
    }
}

/// The new move's wins and losses must add up to at least `2d - rem`.
pub open spec fn need_of(g: RGame, n: int) -> int {
    2 * g.d - rem_of(g, n)
}

/// The extension `p` can still lead to a `d`-regular game.
pub open spec fn degree_ok(g: RGame, n: int, p: Seq<int>) -> bool {
    &&& p.len() == g.k
    &&& forall|i: int| 0 <= i < g.k ==> #[trigger] allowed(g, n, i, p[i])
    &&& count_of(p, 1, g.k as int) <= g.d
    &&& count_of(p, -1, g.k as int) <= g.d
    &&& count_of(p, 1, g.k as int) + count_of(p, -1, g.k as int) >= need_of(g, n)
}

/// The child's wins of move `i`.
pub open spec fn cod(g: RGame, p: Seq<int>, i: int) -> int {
    if i < g.k {
        g.out[i] + if p[i] == -1 { 1int } else { 0int }
    } else if i == g.k {
        count_of(p, 1, g.k as int)
    } else {
        0
    }
}

/// The child's losses of move `i`.
pub open spec fn cid(g: RGame, p: Seq<int>, i: int) -> int {
    if i < g.k {
        g.ind[i] + if p[i] == 1 { 1int } else { 0int }
    } else if i == g.k {
        count_of(p, -1, g.k as int)
    } else {
        0
    }
}

/// No old move has a larger (wins, losses) pair than the new move.
pub open spec fn pair_maximal(g: RGame, p: Seq<int>) -> bool {
    forall|i: int|
        0 <= i < g.k ==> !(#[trigger] cod(g, p, i) > cod(g, p, g.k as int) || (cod(g, p, i) == cod(g, p, g.k as int) && cid(g, p, i)
            > cid(g, p, g.k as int)))
}

/// The child's degree arrays as bytes.
pub open spec fn cod_seq(g: RGame, p: Seq<int>) -> Seq<u8> {
    Seq::new(16, |i: int| cod(g, p, i) as u8)
}

pub open spec fn cid_seq(g: RGame, p: Seq<int>) -> Seq<u8> {
    Seq::new(16, |i: int| cid(g, p, i) as u8)
}

/// Row `i` of the child as 16-bit rows of its first `k + 1` moves.
pub open spec fn child_row_bit(g: RGame, p: Seq<int>, i: int, j: int) -> bool {
    if i < g.k {
        (j < g.k && bit(g.arc[i], j)) || (j == g.k && p[i] == -1)
    } else if i == g.k {
        j < g.k && p[j] == 1
    } else {
        false
    }
}

/// Old move `i` ties the new move in its (wins, losses) pair.
pub open spec fn pair_tie(g: RGame, p: Seq<int>, i: int) -> bool {
    cod(g, p, i) == cod(g, p, g.k as int) && cid(g, p, i) == cid(g, p, g.k as int)
}

/// The signature comparison of old move `i` with the new move in the child rows `rows`.
pub open spec fn sig_vs_new(g: RGame, p: Seq<int>, rows: Seq<u16>, i: int) -> int {
    key_order(rows, g.k + 1, cod_seq(g, p), cid_seq(g, p), i, g.k as int)
}

/// The sixteen child rows `rows` are those of the extension `p` (empty past move `k`).
pub open spec fn rows_of(g: RGame, p: Seq<int>, rows: Seq<u16>) -> bool {
    &&& rows.len() == 16
    &&& forall|i: int, j: int| 0 <= i < 16 && 0 <= j < 16 ==> #[trigger] bit16(rows[i], j) == child_row_bit(g, p, i, j)
}

/// No tied old move has a larger signature than the new move.
pub open spec fn sig_maximal(g: RGame, p: Seq<int>) -> bool {
    forall|rows: Seq<u16>, i: int| rows_of(g, p, rows) && 0 <= i < g.k && #[trigger] pair_tie(g, p, i) ==> #[trigger] sig_vs_new(g, p, rows, i) <= 0
}

/// The extension passes every test that needs no canonical labelling.
pub open spec fn passes(g: RGame, n: int, p: Seq<int>) -> bool {
    &&& degree_ok(g, n, p)
    &&& pair_maximal(g, p)
    &&& sig_maximal(g, p)
}

/// The passing extensions that complete the prefix `p`, in lexicographic order
/// (`-1 < 0 < 1`, first entry most significant).
pub open spec fn passing_from(g: RGame, n: int, p: Seq<int>) -> Seq<Seq<int>>
    decreases g.k - p.len(),
{
    if p.len() >= g.k {
        if passes(g, n, p) {
            seq![p]
        } else {
            Seq::empty()
        }
    } else {
        passing_from(g, n, p.push(-1)) + passing_from(g, n, p.push(0)) + passing_from(g, n, p.push(1))
    }
}

/// `h` is `g` extended by a new move `k` with extension `p`.
pub open spec fn rchild_of(g: RGame, p: Seq<int>, h: RGame) -> bool {
    let k = g.k as int;
    &&& h.k == g.k + 1
    &&& h.d == g.d
    &&& forall|i: int| 0 <= i <= k ==> #[trigger] h.out[i] as int == cod(g, p, i) && h.ind[i] as int == cid(g, p, i)
    &&& forall|i: int, j: int| 0 <= i < 16 && 0 <= j < 64 ==> #[trigger] bit(h.arc[i], j) == if i < k {
        bit(g.arc[i], j) || (j == k && p[i] == -1)
    } else if i == k {
        j < k && p[j] == 1
    } else {
        bit(g.arc[i], j)
    }
}

/// Bit `i` of `mask` marks the old moves whose signature ties the new move's.
pub open spec fn ties_mask(g: RGame, p: Seq<int>, mask: u32) -> bool {
    forall|rows: Seq<u16>, i: int| rows_of(g, p, rows) && 0 <= i < 32 ==> #[trigger] crate::bits::bit32(mask, i) == (i < g.k && pair_tie(g, p, i)
        && #[trigger] sig_vs_new(g, p, rows, i) == 0)
}


pub proof fn lemma_count_step(p: Seq<int>, a: int, j: int)
    requires
        0 <= j < p.len(),
    ensures
        count_of(p, a, j + 1) == count_of(p, a, j) + if p[j] == a { 1int } else { 0int },
{
}

pub proof fn lemma_count_push(p: Seq<int>, x: int, a: int, j: int)
    requires
        0 <= j <= p.len(),
    ensures
        count_of(p.push(x), a, j) == count_of(p, a, j),
    decreases j,
{
    if j > 0 {
        lemma_count_push(p, x, a, j - 1);
    }
}

pub proof fn lemma_count_bounds(p: Seq<int>, a: int, j: int)
    requires
        0 <= j,
    ensures
        0 <= count_of(p, a, j) <= j,
    decreases j,
{
    if j > 0 {
        lemma_count_bounds(p, a, j - 1);
    }
}

proof fn lemma_room_bounds(g: RGame, n: int, i: int)
    requires
        0 <= i,
    ensures
        0 <= nonzero_room(g, n, i) <= if i < g.k { g.k - i } else { 0 },
    decreases g.k - i,
{
    if i < g.k {
        lemma_room_bounds(g, n, i + 1);
    }
}

/// A prefix that already breaks a degree condition has no passing completion.
proof fn lemma_dead(g: RGame, n: int, p: Seq<int>)
    requires
        p.len() <= g.k,
        (exists|x: int| 0 <= x < p.len() && !#[trigger] allowed(g, n, x, p[x])) || count_of(p, 1, p.len() as int) > g.d
            || count_of(p, -1, p.len() as int) > g.d || count_of(p, 1, p.len() as int) + count_of(p, -1, p.len() as int) + nonzero_room(
            g,
            n,
            p.len() as int,
        ) < need_of(g, n),
    ensures
        passing_from(g, n, p) == Seq::<Seq<int>>::empty(),
    decreases g.k - p.len(),
{
    if p.len() >= g.k {
        if passes(g, n, p) {
            if exists|x: int| 0 <= x < p.len() && !#[trigger] allowed(g, n, x, p[x]) {
                let x = choose|x: int| 0 <= x < p.len() && !#[trigger] allowed(g, n, x, p[x]);
                assert(allowed(g, n, x, p[x]));
            }
            lemma_room_bounds(g, n, p.len() as int);
        }
    } else {
        let len = p.len() as int;
        lemma_room_bounds(g, n, len + 1);
        assert forall|a: int| -1 <= a <= 1 implies #[trigger] passing_from(g, n, p.push(a)) == Seq::<Seq<int>>::empty() by {
            let q = p.push(a);
            lemma_count_push(p, a, 1, len);
            lemma_count_push(p, a, -1, len);
            lemma_count_step(q, 1, len);
            lemma_count_step(q, -1, len);
            if exists|x: int| 0 <= x < p.len() && !#[trigger] allowed(g, n, x, p[x]) {
                let x = choose|x: int| 0 <= x < p.len() && !#[trigger] allowed(g, n, x, p[x]);
                assert(q[x] == p[x]);
                assert(!allowed(g, n, x, q[x]));
            } else if a != 0 && !allowed(g, n, len, a) {
                assert(q[len] == a);
                assert(!allowed(g, n, len, q[len]));
            }
            lemma_dead(g, n, q);
        }
        assert(passing_from(g, n, p.push(-1)) == Seq::<Seq<int>>::empty());
        assert(passing_from(g, n, p.push(0)) == Seq::<Seq<int>>::empty());
        assert(passing_from(g, n, p.push(1)) == Seq::<Seq<int>>::empty());
        assert(passing_from(g, n, p) =~= Seq::<Seq<int>>::empty());
    }
}

/// When some old move can take no entry at all, nothing passes.
proof fn lemma_no_choice(g: RGame, n: int, p: Seq<int>, x: int)
    requires
        p.len() <= g.k,
        0 <= x < g.k,
        !allowed(g, n, x, -1),
        !allowed(g, n, x, 0),
        !allowed(g, n, x, 1),
    ensures
        passing_from(g, n, p) == Seq::<Seq<int>>::empty(),
    decreases g.k - p.len(),
{
    if p.len() >= g.k {
        if passes(g, n, p) {
            assert(allowed(g, n, x, p[x]));
        }
    } else {
        lemma_no_choice(g, n, p.push(-1), x);
        lemma_no_choice(g, n, p.push(0), x);
        lemma_no_choice(g, n, p.push(1), x);
        assert(passing_from(g, n, p) =~= Seq::<Seq<int>>::empty());
    }
}


/// Rows with the same bits are the same rows.
pub proof fn lemma_rows_unique(a: Seq<u16>, b: Seq<u16>)
    requires
        a.len() == b.len(),
        forall|i: int, j: int| 0 <= i < a.len() && 0 <= j < 16 ==> #[trigger] bit16(a[i], j) == bit16(b[i], j),
    ensures
        a == b,
{
    assert forall|i: int| 0 <= i < a.len() implies a[i] == b[i] by {
        lemma_bit16_wide(a[i]);
        lemma_bit16_wide(b[i]);
        lemma_bits_ext(a[i] as u64, b[i] as u64);
        assert forall|j: int| 0 <= j < 64 implies #[trigger] bit(a[i] as u64, j) == bit(b[i] as u64, j) by {
            if j < 16 {
                assert(bit16(a[i], j) == bit16(b[i], j));
            }
        }
    }
    assert(a =~= b);
}

/// At a complete extension `v` with the right degrees, the child and the mask
/// of signature ties when the new move passes both maximality tests.
fn leaf(g: &RGame, n: usize, v: &[i32; 16], np: i32, nm: i32, Ghost(p): Ghost<Seq<int>>) -> (r: Option<(RGame, u32)>)
    requires
        g.k < n <= 16,
        rgame_ok(*g),
        p.len() == g.k,
        forall|i: int| 0 <= i < g.k ==> -1 <= #[trigger] p[i] <= 1 && p[i] == v[i] as int,
        np as int == count_of(p, 1, g.k as int),
        nm as int == count_of(p, -1, g.k as int),
        0 <= np <= g.d,
        0 <= nm <= g.d,
    ensures
        r is Some == (pair_maximal(*g, p) && sig_maximal(*g, p)),
        r matches Some(hm) ==> rchild_of(*g, p, hm.0) && ties_mask(*g, p, hm.1),
{
    let k = g.k;
    let odk = np as u8;
    let idk = nm as u8;
    let mut cod_a = [0u8; 16];
    let mut cid_a = [0u8; 16];
    let mut i = 0usize;
    while i < k
        invariant
            k == g.k < 16,
            rgame_ok(*g),
            p.len() == k,
            forall|x: int| 0 <= x < k ==> -1 <= #[trigger] p[x] <= 1 && p[x] == v[x] as int,
            np as int == count_of(p, 1, k as int),
            nm as int == count_of(p, -1, k as int),
            odk == np,
            idk == nm,
            i <= k,
            forall|x: int| 0 <= x < i ==> #[trigger] cod_a[x] as int == cod(*g, p, x),
            forall|x: int| 0 <= x < i ==> #[trigger] cid_a[x] as int == cid(*g, p, x),
            forall|x: int| i <= x < 16 ==> #[trigger] cod_a[x] == 0,
            forall|x: int| i <= x < 16 ==> #[trigger] cid_a[x] == 0,
            forall|x: int| 0 <= x < i ==> !(#[trigger] cod(*g, p, x) > cod(*g, p, k as int) || (cod(*g, p, x) == cod(*g, p, k as int)
                && cid(*g, p, x) > cid(*g, p, k as int))),
        decreases k - i,
    {
        proof {
            assert(-1 <= p[i as int] <= 1 && p[i as int] == v[i as int] as int);
            assert(0 <= g.out[i as int] <= g.d && 0 <= g.ind[i as int] <= g.d);
        }
        let co = (g.out[i] + if v[i] == -1 { 1i32 } else { 0i32 }) as u8;
        let ci = (g.ind[i] + if v[i] == 1 { 1i32 } else { 0i32 }) as u8;
        let ghost ca0 = cod_a;
        let ghost ci0 = cid_a;
        cod_a[i] = co;
        cid_a[i] = ci;
        proof {
            assert(co as int == cod(*g, p, i as int));
            assert(ci as int == cid(*g, p, i as int));
            assert forall|x: int| 0 <= x < 16 && x != i implies #[trigger] cod_a[x] == ca0[x] by {}
            assert forall|x: int| 0 <= x < 16 && x != i implies #[trigger] cid_a[x] == ci0[x] by {}
        }
        if co > odk || (co == odk && ci > idk) {
            proof {
                assert(!pair_maximal(*g, p)) by {
                    assert(cod(*g, p, i as int) == co as int);
                    assert(cid(*g, p, i as int) == ci as int);
                }
            }
            return None;
        }
        i += 1;
    }
    let ghost cp = cod_a;
    let ghost cq = cid_a;
    proof {
        assert(forall|x: int| 0 <= x < k ==> #[trigger] cp[x] as int == cod(*g, p, x));
        assert(forall|x: int| 0 <= x < k ==> #[trigger] cq[x] as int == cid(*g, p, x));
        assert(forall|x: int| k <= x < 16 ==> #[trigger] cp[x] == 0);
        assert(forall|x: int| k <= x < 16 ==> #[trigger] cq[x] == 0);
    }
    cod_a[k] = odk;
    cid_a[k] = idk;
    proof {
        assert forall|x: int| 0 <= x < 16 implies #[trigger] cod_a@[x] == cod_seq(*g, p)[x] by {
            if x < k {
                assert(cp[x] as int == cod(*g, p, x));
                assert(cod_a[x] == cp[x]);
            } else if x > k {
                assert(cp[x] == 0);
                assert(cod_a[x] == cp[x]);
            }
        }
        assert forall|x: int| 0 <= x < 16 implies #[trigger] cid_a@[x] == cid_seq(*g, p)[x] by {
            if x < k {
                assert(cq[x] as int == cid(*g, p, x));
                assert(cid_a[x] == cq[x]);
            } else if x > k {
                assert(cq[x] == 0);
                assert(cid_a[x] == cq[x]);
            }
        }
        assert(cod_a@ =~= cod_seq(*g, p));
        assert(cid_a@ =~= cid_seq(*g, p));
    }
    let mut rows = [0u16; 16];
    proof {
        assert forall|x: int, j: int| 0 <= x < 16 && 0 <= j < 16 implies !#[trigger] bit16(rows[x], j) by {
            lemma_bit16_set(0, 0, j as u16);
        }
    }
    let mut i = 0usize;
    while i < k
        invariant
            k == g.k < 16,
            p.len() == k,
            forall|x: int| 0 <= x < k ==> -1 <= #[trigger] p[x] <= 1 && p[x] == v[x] as int,
            i <= k,
            forall|x: int, j: int| 0 <= x < 16 && 0 <= j < 16 ==> #[trigger] bit16(rows[x], j) == (x < i && child_row_bit(*g, p, x, j)),
        decreases k - i,
    {
        let mut j = 0usize;
        let ghost r0 = rows;
        while j < k
            invariant
                k == g.k < 16,
                p.len() == k,
                forall|x: int| 0 <= x < k ==> -1 <= #[trigger] p[x] <= 1 && p[x] == v[x] as int,
                i < k,
                j <= k,
                forall|x: int| 0 <= x < 16 && x != i ==> #[trigger] rows[x] == r0[x],
                forall|t: int| 0 <= t < 16 ==> #[trigger] bit16(rows[i as int], t) == (t < j && bit(g.arc[i as int], t)),
            decreases k - j,
        {
            let old_row = rows[i];
            if (g.arc[i] >> (j as u64)) & 1 == 1 {
                rows[i] = rows[i] | (1u16 << (j as u16));
            }
            proof {
                assert forall|t: int| 0 <= t < 16 implies #[trigger] bit16(rows[i as int], t) == (t < j + 1 && bit(g.arc[i as int], t)) by {
                    lemma_bit16_set(old_row, j as u16, t as u16);
                }
            }
            j += 1;
        }
        if v[i] == -1 {
            let old_row = rows[i];
            rows[i] = rows[i] | (1u16 << (k as u16));
            proof {
                assert forall|t: int| 0 <= t < 16 implies #[trigger] bit16(rows[i as int], t) == ((t < k && bit(g.arc[i as int], t)) || t == k) by {
                    lemma_bit16_set(old_row, k as u16, t as u16);
                }
            }
        }
        proof {
            assert forall|x: int, t: int| 0 <= x < 16 && 0 <= t < 16 implies #[trigger] bit16(rows[x], t) == (x < i + 1 && child_row_bit(*g, p, x, t)) by {
                if x != i {
                    assert(rows[x] == r0[x]);
                }
            }
        }
        i += 1;
    }
    let mut j = 0usize;
    while j < k
        invariant
            k == g.k < 16,
            p.len() == k,
            forall|x: int| 0 <= x < k ==> -1 <= #[trigger] p[x] <= 1 && p[x] == v[x] as int,
            j <= k,
            forall|x: int, t: int| 0 <= x < k && 0 <= t < 16 ==> #[trigger] bit16(rows[x], t) == child_row_bit(*g, p, x, t),
            forall|x: int, t: int| k < x < 16 && 0 <= t < 16 ==> !#[trigger] bit16(rows[x], t),
            forall|t: int| 0 <= t < 16 ==> #[trigger] bit16(rows[k as int], t) == (t < j && p[t] == 1),
        decreases k - j,
    {
        let old_row = rows[k];
        if v[j] == 1 {
            rows[k] = rows[k] | (1u16 << (j as u16));
        }
        proof {
            assert forall|t: int| 0 <= t < 16 implies #[trigger] bit16(rows[k as int], t) == (t < j + 1 && p[t] == 1) by {
                lemma_bit16_set(old_row, j as u16, t as u16);
            }
        }
        j += 1;
    }
    let ghost rv = rows@;
    proof {
        assert(rows_of(*g, p, rv)) by {
            assert forall|x: int, t: int| 0 <= x < 16 && 0 <= t < 16 implies #[trigger] bit16(rv[x], t) == child_row_bit(*g, p, x, t) by {
                assert(rv[x] == rows[x]);
            }
        }
        assert(rows_fit_next(rv, k)) by {
            assert forall|x: int, t: int| 0 <= x < k + 1 && k + 1 <= t < 16 implies !#[trigger] bit16(rv[x], t) by {
                assert(bit16(rv[x], t) == child_row_bit(*g, p, x, t));
            }
        }
    }
    let mut mask = 0u32;
    let mut i = 0usize;
    proof {
        assert forall|t: int| 0 <= t < 32 implies !#[trigger] bit32(mask, t) by {
            lemma_bit32_set(0, 0, t as u32);
        }
    }
    while i < k
        invariant
            k == g.k < 16,
            p.len() == k,
            rows_of(*g, p, rv),
            rv == rows@,
            rows_fit_next(rv, k),
            cod_a@ == cod_seq(*g, p),
            cid_a@ == cid_seq(*g, p),
            odk as int == cod(*g, p, k as int),
            idk as int == cid(*g, p, k as int),
            forall|x: int| 0 <= x < k ==> #[trigger] cod_a[x] as int == cod(*g, p, x) && cid_a[x] as int == cid(*g, p, x),
            i <= k,
            forall|x: int| 0 <= x < i && #[trigger] pair_tie(*g, p, x) ==> sig_vs_new(*g, p, rv, x) <= 0,
            forall|t: int| 0 <= t < 32 ==> #[trigger] bit32(mask, t) == (t < i && pair_tie(*g, p, t) && sig_vs_new(*g, p, rv, t) == 0),
        decreases k - i,
    {
        if cod_a[i] == odk && cid_a[i] == idk {
            let c = compare_with_new(&rows, k, &cod_a, &cid_a, i, Ghost(rv));
            proof {
                assert(sig_vs_new(*g, p, rv, i as int) == crate::regular_order::new_order(rv, k, cod_a, cid_a, i));
            }
            if c > 0 {
                proof {
                    assert(pair_tie(*g, p, i as int));
                    assert(sig_vs_new(*g, p, rv, i as int) > 0);
                    assert(!sig_maximal(*g, p));
                }
                return None;
            } else if c == 0 {
                let m0 = mask;
                mask = mask | (1u32 << (i as u32));
                proof {
                    assert forall|t: int| 0 <= t < 32 implies #[trigger] bit32(mask, t) == (t < i + 1 && pair_tie(*g, p, t) && sig_vs_new(*g, p, rv, t) == 0) by {
                        lemma_bit32_set(m0, i as u32, t as u32);
                    }
                }
            }
        }
        i += 1;
    }
    let mut arc = g.arc;
    let mut out = g.out;
    let mut ind = g.ind;
    let mut newbits = 0u64;
    let mut i = 0usize;
    proof {
        assert forall|j: int| 0 <= j < 64 implies !#[trigger] bit(0u64, j) by {
            crate::bits::lemma_bit_zero(j as u64);
        }
    }
    while i < k
        invariant
            k == g.k < 16,
            rgame_ok(*g),
            p.len() == k,
            forall|x: int| 0 <= x < k ==> -1 <= #[trigger] p[x] <= 1 && p[x] == v[x] as int,
            i <= k,
            forall|x: int, j: int| 0 <= x < 16 && 0 <= j < 64 ==> #[trigger] bit(arc[x], j) == if x < i {
                bit(g.arc[x], j) || (j == k && p[x] == -1)
            } else {
                bit(g.arc[x], j)
            },
            forall|j: int| 0 <= j < 64 ==> #[trigger] bit(newbits, j) == (j < i && p[j] == 1),
            forall|x: int| 0 <= x < 16 ==> #[trigger] out[x] as int == if x < i { cod(*g, p, x) } else { g.out[x] as int },
            forall|x: int| 0 <= x < 16 ==> #[trigger] ind[x] as int == if x < i { cid(*g, p, x) } else { g.ind[x] as int },
        decreases k - i,
    {
        let ghost a0 = arc;
        let ghost nb0 = newbits;
        proof {
            assert(0 <= g.out[i as int] <= g.d && 0 <= g.ind[i as int] <= g.d);
            assert(-1 <= p[i as int] <= 1 && p[i as int] == v[i as int] as int);
        }
        if v[i] == -1 {
            arc[i] = arc[i] | (1u64 << (k as u64));
            out[i] = out[i] + 1;
        } else if v[i] == 1 {
            newbits = newbits | (1u64 << (i as u64));
            ind[i] = ind[i] + 1;
        }
        proof {
            assert forall|x: int, j: int| 0 <= x < 16 && 0 <= j < 64 implies #[trigger] bit(arc[x], j) == if x < i + 1 {
                bit(g.arc[x], j) || (j == k && p[x] == -1)
            } else {
                bit(g.arc[x], j)
            } by {
                if x == i && p[i as int] == -1 {
                    lemma_bit_or(a0[x], 1u64 << (k as u64), j as u64);
                    lemma_bit_single(k as u64, j as u64);
                } else {
                    assert(arc[x] == a0[x]);
                }
            }
            assert forall|j: int| 0 <= j < 64 implies #[trigger] bit(newbits, j) == (j < i + 1 && p[j] == 1) by {
                if p[i as int] == 1 {
                    lemma_bit_or(nb0, 1u64 << (i as u64), j as u64);
                    lemma_bit_single(i as u64, j as u64);
                }
            }
        }
        i += 1;
    }
    let ghost a1 = arc;
    arc[k] = newbits;
    out[k] = np;
    ind[k] = nm;
    let h = RGame { arc, out, ind, k: k + 1, d: g.d };
    proof {
        assert(rchild_of(*g, p, h)) by {
            assert forall|x: int, j: int| 0 <= x < 16 && 0 <= j < 64 implies #[trigger] bit(h.arc[x], j) == if x < k {
                bit(g.arc[x], j) || (j == k && p[x] == -1)
            } else if x == k {
                j < k && p[j] == 1
            } else {
                bit(g.arc[x], j)
            } by {
                if x != k {
                    assert(h.arc[x] == a1[x]);
                }
            }
        }
        assert(sig_maximal(*g, p)) by {
            assert forall|rows2: Seq<u16>, x: int| rows_of(*g, p, rows2) && 0 <= x < k && #[trigger] pair_tie(*g, p, x) implies #[trigger] sig_vs_new(
                *g,
                p,
                rows2,
                x,
            ) <= 0 by {
                lemma_rows_unique(rows2, rv);
            }
        }
        assert(ties_mask(*g, p, mask)) by {
            assert forall|rows2: Seq<u16>, t: int| rows_of(*g, p, rows2) && 0 <= t < 32 implies #[trigger] bit32(mask, t) == (t < k && pair_tie(*g, p, t)
                && #[trigger] sig_vs_new(*g, p, rows2, t) == 0) by {
                lemma_rows_unique(rows2, rv);
            }
        }
        assert(pair_maximal(*g, p));
    }
    Some((h, mask))
}


/// `res` continues at `start` with the children and tie masks of the extensions `vecs`.
pub open spec fn lists(g: RGame, res: Seq<(RGame, u32)>, start: int, vecs: Seq<Seq<int>>) -> bool {
    &&& res.len() == start + vecs.len()
    &&& forall|t: int| 0 <= t < vecs.len() ==> #[trigger] rchild_of(g, vecs[t], res[start + t].0) && ties_mask(g, vecs[t], res[start + t].1)
}

fn allowed_exec(g: &RGame, n: usize, i: usize, a: i32) -> (r: bool)
    requires
        g.k < n <= 16,
        rgame_ok(*g),
        i < g.k,
    ensures
        r == allowed(*g, n as int, i as int, a as int),
{
    proof {
        assert(0 <= g.out[i as int] <= g.d && 0 <= g.ind[i as int] <= g.d);
    }
    if a == -1 {
        g.out[i] < g.d
    } else if a == 1 {
        g.ind[i] < g.d
    } else {
        let rem = (n - (g.k + 1)) as i32;
        (g.d - g.out[i]) + (g.d - g.ind[i]) <= rem
    }
}

/// Appends the listing of the completions of the prefix `p` (entries `v[..i]`).
fn complete(
    g: &RGame,
    n: usize,
    i: usize,
    v: &mut [i32; 16],
    np: i32,
    nm: i32,
    sufnz: &[i32; 17],
    need: i32,
    res: &mut Vec<(RGame, u32)>,
    Ghost(p): Ghost<Seq<int>>,
)
    requires
        g.k < n <= 16,
        rgame_ok(*g),
        i <= g.k,
        p.len() == i,
        forall|x: int| 0 <= x < i ==> -1 <= #[trigger] p[x] <= 1 && p[x] == old(v)[x] as int,
        forall|x: int| 0 <= x < i ==> #[trigger] allowed(*g, n as int, x, p[x]),
        np as int == count_of(p, 1, i as int),
        nm as int == count_of(p, -1, i as int),
        0 <= np <= g.d,
        0 <= nm <= g.d,
        np + nm + sufnz[i as int] >= need,
        forall|x: int| 0 <= x <= g.k ==> #[trigger] sufnz[x] as int == nonzero_room(*g, n as int, x),
        need as int == need_of(*g, n as int),
    ensures
        forall|x: int| 0 <= x < i ==> #[trigger] final(v)[x] == old(v)[x],
        forall|t: int| 0 <= t < old(res)@.len() ==> #[trigger] final(res)@[t] == old(res)@[t],
        lists(*g, final(res)@, old(res)@.len() as int, passing_from(*g, n as int, p)),
    decreases g.k - i, 1int,
{
    if i == g.k {
        proof {
            assert(nonzero_room(*g, n as int, g.k as int) == 0);
            assert(degree_ok(*g, n as int, p));
        }
        match leaf(g, n, v, np, nm, Ghost(p)) {
            Some(hm) => {
                let ghost r0 = res@;
                res.push(hm);
                proof {
                    assert(passes(*g, n as int, p));
                    assert(passing_from(*g, n as int, p) == seq![p]);
                    assert(res@[r0.len() as int + 0] == hm);
                }
            },
            None => {
                proof {
                    assert(!passes(*g, n as int, p));
                    assert(passing_from(*g, n as int, p) =~= Seq::<Seq<int>>::empty());
                }
            },
        }
    } else {
        let ghost r0 = res@;
        let ghost v0 = *v;
        branch(g, n, i, -1, v, np, nm, sufnz, need, res, Ghost(p));
        let ghost r1 = res@;
        branch(g, n, i, 0, v, np, nm, sufnz, need, res, Ghost(p));
        let ghost r2 = res@;
        branch(g, n, i, 1, v, np, nm, sufnz, need, res, Ghost(p));
        proof {
            let a = passing_from(*g, n as int, p.push(-1));
            let b = passing_from(*g, n as int, p.push(0));
            let c = passing_from(*g, n as int, p.push(1));
            let all = passing_from(*g, n as int, p);
            assert(all == a + b + c);
            let s0 = r0.len() as int;
            assert forall|t: int| 0 <= t < all.len() implies #[trigger] rchild_of(*g, all[t], res@[s0 + t].0) by {
                if t < a.len() {
                    assert(all[t] == a[t]);
                    assert(res@[s0 + t] == r1[s0 + t]);
                    assert(rchild_of(*g, a[t], r1[s0 + t].0));
                } else if t < a.len() + b.len() {
                    let u = t - a.len();
                    assert(all[t] == b[u]);
                    assert(s0 + t == (s0 + a.len()) + u);
                    assert(rchild_of(*g, b[u], r2[(s0 + a.len()) + u].0));
                } else {
                    let u = t - a.len() - b.len();
                    assert(all[t] == c[u]);
                    assert(s0 + t == (s0 + a.len() + b.len()) + u);
                    assert(rchild_of(*g, c[u], res@[(s0 + a.len() + b.len()) + u].0));
                }
            }
            assert forall|t: int| 0 <= t < all.len() implies #[trigger] ties_mask(*g, all[t], res@[s0 + t].1) by {
                if t < a.len() {
                    assert(all[t] == a[t]);
                    assert(res@[s0 + t] == r1[s0 + t]);
                    assert(rchild_of(*g, a[t], r1[s0 + t].0));
                } else if t < a.len() + b.len() {
                    let u = t - a.len();
                    assert(all[t] == b[u]);
                    assert(s0 + t == (s0 + a.len()) + u);
                    assert(rchild_of(*g, b[u], r2[(s0 + a.len()) + u].0));
                } else {
                    let u = t - a.len() - b.len();
                    assert(all[t] == c[u]);
                    assert(s0 + t == (s0 + a.len() + b.len()) + u);
                    assert(rchild_of(*g, c[u], res@[(s0 + a.len() + b.len()) + u].0));
                }
            }
            assert(lists(*g, res@, s0, all));
        }
    }
}

/// Appends the listing of the completions of `p` extended by entry `a` at move `i`.
fn branch(
    g: &RGame,
    n: usize,
    i: usize,
    a: i32,
    v: &mut [i32; 16],
    np: i32,
    nm: i32,
    sufnz: &[i32; 17],
    need: i32,
    res: &mut Vec<(RGame, u32)>,
    Ghost(p): Ghost<Seq<int>>,
)
    requires
        g.k < n <= 16,
        rgame_ok(*g),
        i < g.k,
        -1 <= a <= 1,
        p.len() == i,
        forall|x: int| 0 <= x < i ==> -1 <= #[trigger] p[x] <= 1 && p[x] == old(v)[x] as int,
        forall|x: int| 0 <= x < i ==> #[trigger] allowed(*g, n as int, x, p[x]),
        np as int == count_of(p, 1, i as int),
        nm as int == count_of(p, -1, i as int),
        0 <= np <= g.d,
        0 <= nm <= g.d,
        forall|x: int| 0 <= x <= g.k ==> #[trigger] sufnz[x] as int == nonzero_room(*g, n as int, x),
        need as int == need_of(*g, n as int),
    ensures
        forall|x: int| 0 <= x < i ==> #[trigger] final(v)[x] == old(v)[x],
        forall|t: int| 0 <= t < old(res)@.len() ==> #[trigger] final(res)@[t] == old(res)@[t],
        lists(*g, final(res)@, old(res)@.len() as int, passing_from(*g, n as int, p.push(a as int))),
    decreases g.k - i, 0int,
{
    let q = Ghost(p.push(a as int));
    let ok = allowed_exec(g, n, i, a);
    let np2 = np + if a == 1 { 1i32 } else { 0i32 };
    let nm2 = nm + if a == -1 { 1i32 } else { 0i32 };
    proof {
        lemma_count_push(p, a as int, 1, i as int);
        lemma_count_push(p, a as int, -1, i as int);
        lemma_count_step(q@, 1, i as int);
        lemma_count_step(q@, -1, i as int);
        lemma_room_bounds(*g, n as int, i + 1);
        assert(sufnz[i + 1] as int == nonzero_room(*g, n as int, i + 1));
    }
    if ok && np2 <= g.d && nm2 <= g.d && np2 + nm2 + sufnz[i + 1] >= need {
        let ghost v0 = *v;
        v[i] = a;
        proof {
            assert forall|x: int| 0 <= x < i + 1 implies -1 <= #[trigger] q@[x] <= 1 && q@[x] == v[x] as int by {
                if x < i {
                    assert(q@[x] == p[x]);
                }
            }
            assert forall|x: int| 0 <= x < i + 1 implies #[trigger] allowed(*g, n as int, x, q@[x]) by {
                if x < i {
                    assert(q@[x] == p[x]);
                }
            }
        }
        complete(g, n, i + 1, v, np2, nm2, sufnz, need, res, q);
    } else {
        proof {
            if !ok {
                assert(!allowed(*g, n as int, i as int, q@[i as int]));
            }
            lemma_dead(*g, n as int, q@);
            assert(passing_from(*g, n as int, q@) =~= Seq::<Seq<int>>::empty());
        }
    }
}

/// The `d`-regular extensions of `g` that pass the degree-pair and signature
/// maximality tests, in lexicographic order of the extension (entry for move
/// 0 first, `-1 < 0 < 1`), each as the child game with the mask of old moves
/// whose signature ties the new move's: the canonical-parent test still owed
/// to those ties is left to a canonical labelling.
pub fn regular_candidates(g: &RGame, n: usize) -> (out: Vec<(RGame, u32)>)
    requires
        g.k < n <= 16,
        rgame_ok(*g),
    ensures
        lists(*g, out@, 0, passing_from(*g, n as int, Seq::empty())),
{
    let k = g.k;
    let mut res: Vec<(RGame, u32)> = Vec::new();
    let mut i = 0usize;
    while i < k
        invariant
            k == g.k < n <= 16,
            rgame_ok(*g),
            i <= k,
            forall|x: int| 0 <= x < i ==> allowed(*g, n as int, x, -1) || allowed(*g, n as int, x, 0) || allowed(*g, n as int, x, 1),
        decreases k - i,
    {
        if !allowed_exec(g, n, i, -1) && !allowed_exec(g, n, i, 0) && !allowed_exec(g, n, i, 1) {
            proof {
                lemma_no_choice(*g, n as int, Seq::empty(), i as int);
            }
            return res;
        }
        i += 1;
    }
    let mut sufnz = [0i32; 17];
    let mut i = k;
    proof {
        assert(nonzero_room(*g, n as int, k as int) == 0);
    }
    while i > 0
        invariant
            k == g.k < n <= 16,
            rgame_ok(*g),
            i <= k,
            forall|x: int| i <= x <= k ==> #[trigger] sufnz[x] as int == nonzero_room(*g, n as int, x),
        decreases i,
    {
        i -= 1;
        let here = allowed_exec(g, n, i, -1) || allowed_exec(g, n, i, 1);
        proof {
            lemma_room_bounds(*g, n as int, i + 1);
        }
        sufnz[i] = sufnz[i + 1] + if here { 1i32 } else { 0i32 };
    }
    let rem = (n - (k + 1)) as i32;
    let need = 2 * g.d - rem;
    if sufnz[0] < need {
        proof {
            lemma_dead(*g, n as int, Seq::empty());
        }
        return res;
    }
    let mut v = [0i32; 16];
    complete(g, n, 0, &mut v, 0, 0, &sufnz, need, &mut res, Ghost(Seq::empty()));
    res
}

/// Move `w` is a candidate for the designated representative: the new move
/// `k` itself or an old move whose signature ties it (bit `w` of `mask`).
pub open spec fn tie_candidate(mask: u32, k: int, w: int) -> bool {
    w == k || (0 <= w < k && bit32(mask, w))
}

/// Position `q` of the canonical labelling `lab` (of moves `0..=k`) holds a
/// candidate, and no later position does.
pub open spec fn last_candidate_at(lab: [i32; 16], mask: u32, k: int, q: int) -> bool {
    &&& 0 <= q <= k
    &&& tie_candidate(mask, k, lab[q] as int)
    &&& forall|p: int| q < p <= k ==> !tie_candidate(mask, k, #[trigger] lab[p] as int)
}

/// The canonical-parent rule on signature ties: the child is kept iff the new
/// move `k` lies in the automorphism orbit of the candidate that comes last in
/// the canonical labelling `lab`.
pub fn tie_accepts(lab: &[i32; 16], orbits: &[i32; 16], mask: u32, k: usize) -> (r: bool)
    requires
        k < 16,
        forall|p: int| 0 <= p <= k ==> 0 <= #[trigger] lab[p] <= k,
        exists|p: int| 0 <= p <= k && lab[p] == k,
    ensures
        exists|q: int| last_candidate_at(*lab, mask, k as int, q),
        forall|q: int| #[trigger] last_candidate_at(*lab, mask, k as int, q) ==> r == (orbits[lab[q] as int] == orbits[k as int]),
{
    let mut q = k;
    loop
        invariant
            k < 16,
            q <= k,
            forall|p: int| 0 <= p <= k ==> 0 <= #[trigger] lab[p] <= k,
            exists|p: int| 0 <= p <= q && lab[p] == k,
            forall|p: int| q < p <= k ==> !tie_candidate(mask, k as int, #[trigger] lab[p] as int),
        decreases q,
    {
        let w = lab[q] as usize;
        let hit = w == k || (mask >> (w as u32)) & 1 == 1;
        proof {
            assert(bit32(mask, w as int) == ((mask >> (w as u32)) & 1 == 1));
        }
        if hit {
            proof {
                assert(last_candidate_at(*lab, mask, k as int, q as int));
                assert forall|q2: int| #[trigger] last_candidate_at(*lab, mask, k as int, q2) implies q2 == q by {
                    if q2 < q {
                        assert(tie_candidate(mask, k as int, lab[q as int] as int));
                    } else if q2 > q {
                        assert(tie_candidate(mask, k as int, lab[q2] as int));
                    }
                }
            }
            return orbits[w] == orbits[k];
        }
        if q == 0 {
            proof {
                assert(lab[0] == k);
            }
            return false;
        }
        q -= 1;
    }
}

/// The band of partial games that can still become `d`-regular on `n` moves:
/// every placed move has at most `d` wins and at most `d` losses, and its
/// missing wins and losses fit in the `n - k` moves still to come.
pub open spec fn band(g: RGame, n: int) -> bool {
    forall|i: int|
        0 <= i < g.k ==> 0 <= #[trigger] g.out[i] <= g.d && 0 <= g.ind[i] <= g.d && (g.d - g.out[i]) + (g.d - g.ind[i]) <= n - g.k
}

/// The band is closed under growth: every extension that keeps the degree
/// bounds turns a game in the band into a game in the band.
pub proof fn lemma_band_closed(g: RGame, n: int, p: Seq<int>, h: RGame)
    requires
        g.k < n <= 16,
        band(g, n),
        degree_ok(g, n, p),
        rchild_of(g, p, h),
    ensures
        band(h, n),
{
    let k = g.k as int;
    assert forall|i: int| 0 <= i < h.k implies 0 <= #[trigger] h.out[i] <= h.d && 0 <= h.ind[i] <= h.d && (h.d - h.out[i]) + (h.d
        - h.ind[i]) <= n - h.k by {
        assert(h.out[i] as int == cod(g, p, i));
        assert(h.ind[i] as int == cid(g, p, i));
        if i < k {
            assert(allowed(g, n, i, p[i]));
            assert(0 <= g.out[i] <= g.d && 0 <= g.ind[i] <= g.d && (g.d - g.out[i]) + (g.d - g.ind[i]) <= n - g.k);
        } else {
            lemma_count_bounds(p, 1, k);
            lemma_count_bounds(p, -1, k);
        }
    }
}

/// At full size the band leaves no slack: every move wins exactly `d` times
/// and loses exactly `d` times.
pub proof fn lemma_band_full_is_regular(h: RGame, n: int)
    requires
        band(h, n),
        h.k == n <= 16,
    ensures
        forall|i: int| 0 <= i < n ==> #[trigger] h.out[i] == h.d,
        forall|i: int| 0 <= i < n ==> #[trigger] h.ind[i] == h.d,
{
    assert forall|i: int| 0 <= i < n implies #[trigger] h.out[i] == h.d by {
        assert(0 <= h.out[i] <= h.d && 0 <= h.ind[i] <= h.d && (h.d - h.out[i]) + (h.d - h.ind[i]) <= n - h.k);
    }
    assert forall|i: int| 0 <= i < n implies #[trigger] h.ind[i] == h.d by {
        assert(0 <= h.out[i] <= h.d && 0 <= h.ind[i] <= h.d && (h.d - h.out[i]) + (h.d - h.ind[i]) <= n - h.k);
    }
}

proof fn lemma_passing_pass(g: RGame, n: int, p: Seq<int>)
    requires
        p.len() <= g.k,
    ensures
        forall|t: int| 0 <= t < passing_from(g, n, p).len() ==> #[trigger] passes(g, n, passing_from(g, n, p)[t]),
    decreases g.k - p.len(),
{
    if p.len() < g.k {
        let a = passing_from(g, n, p.push(-1));
        let b = passing_from(g, n, p.push(0));
        let c = passing_from(g, n, p.push(1));
        lemma_passing_pass(g, n, p.push(-1));
        lemma_passing_pass(g, n, p.push(0));
        lemma_passing_pass(g, n, p.push(1));
        let all = passing_from(g, n, p);
        assert(all == a + b + c);
        assert forall|t: int| 0 <= t < all.len() implies #[trigger] passes(g, n, all[t]) by {
            if t < a.len() {
                assert(all[t] == a[t]);
            } else if t < a.len() + b.len() {
                assert(all[t] == b[t - a.len()]);
            } else {
                assert(all[t] == c[t - a.len() - b.len()]);
            }
        }
    }
}

/// Every child listed by `regular_candidates` from a game in the band is in
/// the band again, so growth from the root only ever reaches games that can
/// still become `d`-regular, and the complete ones are `d`-regular.
pub proof fn lemma_candidates_in_band(g: RGame, n: int, out: Seq<(RGame, u32)>)
    requires
        g.k < n <= 16,
        band(g, n),
        lists(g, out, 0, passing_from(g, n, Seq::empty())),
    ensures
        forall|t: int| 0 <= t < out.len() ==> band(#[trigger] out[t].0, n),
{
    let vecs = passing_from(g, n, Seq::empty());
    lemma_passing_pass(g, n, Seq::empty());
    assert forall|t: int| 0 <= t < out.len() implies band(#[trigger] out[t].0, n) by {
        assert(rchild_of(g, vecs[t], out[0 + t].0));
        assert(passes(g, n, vecs[t]));
        lemma_band_closed(g, n, vecs[t], out[t].0);
    }
}

/// The root of the `d` stratum (one move, no games played) is in the band
/// exactly when `2d <= n - 1`.
pub proof fn lemma_root_in_band(g: RGame, n: int)
    requires
        g.k == 1,
        g.out[0] == 0,
        g.ind[0] == 0,
        0 <= g.d,
    ensures
        band(g, n) <==> 2 * g.d <= n - 1,
{
    if 2 * g.d <= n - 1 {
        assert forall|i: int| 0 <= i < g.k implies 0 <= #[trigger] g.out[i] <= g.d && 0 <= g.ind[i] <= g.d && (g.d - g.out[i]) + (g.d
            - g.ind[i]) <= n - g.k by {
            assert(i == 0);
        }
    } else {
        assert(!(0 <= g.out[0] <= g.d && 0 <= g.ind[0] <= g.d && (g.d - g.out[0]) + (g.d - g.ind[0]) <= n - g.k));
    }
}

} // verus!
