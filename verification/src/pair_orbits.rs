//! The orbits of a permutation of given cycle type on unordered pairs of
//! points, and why their number is the edge-orbit count `E(lambda)`.
//!
//! A point is `(c, x)`: position `x` of cycle `c`, with `0 <= x < parts[c]`.
//! The permutation moves each point one step along its cycle, so its `k`-th
//! power rotates every cycle by `k`.
use vstd::prelude::*;
use crate::burnside::{edge_orbit_count, eo_prefix, gcd_spec, lemma_gcd_le, row_gcds};
use crate::kernel::lemma_gcd_divides;
use vstd::arithmetic::div_mod::{lemma_fundamental_div_mod, lemma_fundamental_div_mod_converse, lemma_mod_bound};

verus! {

/// `p` is a point of the cycle type `parts`.
pub open spec fn pt_ok(parts: Seq<u64>, p: (int, int)) -> bool {
    0 <= p.0 < parts.len() && 0 <= p.1 < parts[p.0] as int
}

/// The image of point `p` under the `k`-th power of the permutation.
pub open spec fn rot(parts: Seq<u64>, p: (int, int), k: int) -> (int, int) {
    (p.0, (p.1 + k) % (parts[p.0] as int))
}

/// The ordered pairs `a` and `b` name the same unordered pair.
pub open spec fn same_pair(a: ((int, int), (int, int)), b: ((int, int), (int, int))) -> bool {
    (a.0 == b.0 && a.1 == b.1) || (a.0 == b.1 && a.1 == b.0)
}

/// The `k`-th power of the permutation sends the pair `a` onto the pair `b`.
pub open spec fn moves_by(parts: Seq<u64>, a: ((int, int), (int, int)), b: ((int, int), (int, int)), k: int) -> bool {
    same_pair((rot(parts, a.0, k), rot(parts, a.1, k)), b)
}

/// The pair `b` lies in the orbit of the pair `a`.
pub open spec fn moves_to(parts: Seq<u64>, a: ((int, int), (int, int)), b: ((int, int), (int, int))) -> bool {
    exists|k: int| k >= 0 && #[trigger] moves_by(parts, a, b, k)
}

/// Every cycle has odd length.
pub open spec fn all_odd_parts(parts: Seq<u64>) -> bool {
    forall|c: int| 0 <= c < parts.len() ==> #[trigger] parts[c] % 2 == 1
}

/// `gcd` of the lengths of cycles `c` and `j`.
pub open spec fn g2(parts: Seq<u64>, c: int, j: int) -> int {
    gcd_spec(parts[c] as nat, parts[j] as nat) as int
}

/// The chosen orbit representatives: `{(c,0), (c,d)}` with `1 <= d <= (l_c-1)/2`
/// inside cycle `c`, and `{(c,0), (j,y)}` with `c < j` and `0 <= y < gcd(l_c, l_j)`.
pub open spec fn is_rep(parts: Seq<u64>, a: ((int, int), (int, int))) -> bool {
    let c = a.0.0;
    &&& 0 <= c < parts.len()
    &&& a.0.1 == 0
    &&& ((a.1.0 == c && 1 <= a.1.1 <= (parts[c] - 1) / 2) || (c < a.1.0 < parts.len() && 0 <= a.1.1 < g2(parts, c, a.1.0)))
}

/// Integers `u`, `v` with `u a + v b == gcd(a, b)`.
proof fn lemma_bezout(a: nat, b: nat) -> (uv: (int, int))
    ensures
        uv.0 * a + uv.1 * b == gcd_spec(a, b),
    decreases b,
{
    if b == 0 {
        (1, 0)
    } else {
        let (u, v) = lemma_bezout(b, a % b);
        lemma_fundamental_div_mod(a as int, b as int);
        let q = a as int / b as int;
        assert(v * a + (u - v * q) * b == u * b + v * (a % b)) by (nonlinear_arith)
            requires
                a == b * q + a % b,
        ;
        (v, u - v * q)
    }
}

proof fn lemma_mod_is(x: int, l: int, q: int, r: int)
    requires
        l > 0,
        0 <= r < l,
        x == l * q + r,
    ensures
        x % l == r,
{
    assert(x == q * l + r) by (nonlinear_arith)
        requires
            x == l * q + r,
    ;
    lemma_fundamental_div_mod_converse(x, l, q, r);
}

/// Two representatives in one orbit are the same representative.
proof fn lemma_reps_apart(parts: Seq<u64>, a: ((int, int), (int, int)), b: ((int, int), (int, int)), k: int)
    requires
        all_odd_parts(parts),
        is_rep(parts, a),
        is_rep(parts, b),
        k >= 0,
        moves_by(parts, a, b, k),
    ensures
        a == b,
{
    let c = a.0.0;
    let l = parts[c] as int;
    assert(parts[c] % 2 == 1);
    assert(l >= 1);
    lemma_fundamental_div_mod(k, l);
    let kq = k / l;
    let kr = k % l;
    lemma_mod_bound(k, l);
    assert(rot(parts, a.0, k).1 == kr);
    if rot(parts, a.0, k) == b.0 && rot(parts, a.1, k) == b.1 {
        assert(kr == 0);
        let j = a.1.0;
        let lj = parts[j] as int;
        assert(parts[j] % 2 == 1);
        if j == c {
            let da = a.1.1;
            assert(k + da == l * kq + da);
            lemma_mod_is(k + da, l, kq, da);
            assert(b.1.1 == (da + k) % l);
        } else {
            let g = g2(parts, c, j);
            lemma_gcd_divides(parts[c] as nat, parts[j] as nat);
            lemma_fundamental_div_mod(l, g);
            lemma_fundamental_div_mod(lj, g);
            let ya = a.1.1;
            let yb = b.1.1;
            lemma_fundamental_div_mod(ya + k, lj);
            lemma_mod_bound(ya + k, lj);
            let m = (ya + k) / lj;
            assert(ya + k == lj * m + yb);
            let lg = l / g;
            let jg = lj / g;
            assert(l == g * lg);
            assert(lj == g * jg);
            // k = l * kq, so ya - yb = g * (jg * m - lg * kq)
            assert(ya - yb == g * (jg * m - lg * kq)) by (nonlinear_arith)
                requires
                    ya + k == lj * m + yb,
                    k == l * kq + 0,
                    l == g * lg,
                    lj == g * jg,
            ;
            let w = jg * m - lg * kq;
            assert(0 <= ya < g && 0 <= yb < g);
            assert(w == 0) by (nonlinear_arith)
                requires
                    ya - yb == g * w,
                    0 <= ya < g,
                    0 <= yb < g,
            ;
        }
    } else {
        assert(rot(parts, a.0, k) == b.1 && rot(parts, a.1, k) == b.0);
        if a.1.0 == c {
            // both inside cycle c: d_a + k == 0 and k == d_b modulo l
            let da = a.1.1;
            let db = b.1.1;
            assert(b.0.0 == c);
            assert(kr == db);
            assert(1 <= da <= (l - 1) / 2);
            assert(1 <= db <= (l - 1) / 2);
            assert(k + da == l * kq + (db + da));
            assert(db + da < l);
            lemma_mod_is(k + da, l, kq, db + da);
            assert(b.0.1 == (da + k) % l);
        } else {
            assert(b.0.0 == a.1.0);
            assert(b.1.0 == c);
        }
    }
}

/// Inside one cycle: the pair of positions `x != y` lies in the orbit of one
/// of the representatives `{0, d}`.
proof fn lemma_cover_inside(parts: Seq<u64>, c: int, x: int, y: int) -> (r: (((int, int), (int, int)), int))
    requires
        all_odd_parts(parts),
        pt_ok(parts, (c, x)),
        pt_ok(parts, (c, y)),
        x != y,
    ensures
        is_rep(parts, r.0),
        r.1 >= 0,
        moves_by(parts, r.0, ((c, x), (c, y)), r.1),
{
    let l = parts[c] as int;
    assert(parts[c] % 2 == 1);
    let delta = if y > x { y - x } else { y - x + l };
    assert(1 <= delta < l);
    lemma_mod_is(x, l, 0, x);
    lemma_mod_is(y, l, 0, y);
    if delta <= (l - 1) / 2 {
        let a = ((c, 0int), (c, delta));
        if y > x {
            lemma_mod_is(delta + x, l, 0, y);
        } else {
            lemma_mod_is(delta + x, l, 1, y);
        }
        assert(rot(parts, a.0, x) == (c, x));
        assert(rot(parts, a.1, x) == (c, y));
        (a, x)
    } else {
        let d2 = l - delta;
        assert(1 <= d2 <= (l - 1) / 2);
        let a = ((c, 0int), (c, d2));
        if y > x {
            lemma_mod_is(d2 + y, l, 1, x);
        } else {
            lemma_mod_is(d2 + y, l, 0, x);
        }
        assert(rot(parts, a.0, y) == (c, y));
        assert(rot(parts, a.1, y) == (c, x));
        (a, y)
    }
}

/// Across cycles `c < j`: the pair `{(c, x), (j, y)}` lies in the orbit of
/// one of the representatives `{(c, 0), (j, y0)}` with `y0 < gcd(l_c, l_j)`.
proof fn lemma_cover_across(parts: Seq<u64>, c: int, x: int, j: int, y: int) -> (r: (((int, int), (int, int)), int))
    requires
        all_odd_parts(parts),
        pt_ok(parts, (c, x)),
        pt_ok(parts, (j, y)),
        c < j,
    ensures
        is_rep(parts, r.0),
        r.1 >= 0,
        rot(parts, r.0.0, r.1) == (c, x),
        rot(parts, r.0.1, r.1) == (j, y),
{
    let lc = parts[c] as int;
    let lj = parts[j] as int;
    assert(parts[c] % 2 == 1);
    assert(parts[j] % 2 == 1);
    let g = g2(parts, c, j);
    lemma_gcd_divides(parts[c] as nat, parts[j] as nat);
    lemma_gcd_le(parts[c] as nat, parts[j] as nat);
    assert(0 < g <= lj);
    let (u, v) = lemma_bezout(parts[c] as nat, parts[j] as nat);
    assert(u * lc + v * lj == g);
    let delta = y - x;
    lemma_fundamental_div_mod(delta, g);
    lemma_mod_bound(delta, g);
    let y0 = delta % g;
    let qd = delta / g;
    assert(delta == g * qd + y0);
    let t = u * qd;
    let k0 = x + lc * t;
    let s: int = if k0 < 0 { -k0 } else { 0 };
    assert(lc * lj >= 1) by (nonlinear_arith)
        requires
            lc >= 1,
            lj >= 1,
    ;
    let k = k0 + lc * lj * s;
    assert(k >= 0) by (nonlinear_arith)
        requires
            k == k0 + lc * lj * s,
            lc * lj >= 1,
            s == (if k0 < 0 { -k0 } else { 0 }),
    ;
    assert(k == lc * (t + lj * s) + x) by (nonlinear_arith)
        requires
            k == k0 + lc * lj * s,
            k0 == x + lc * t,
    ;
    lemma_mod_is(k, lc, t + lj * s, x);
    assert(y0 + k == lj * (lc * s - v * qd) + y) by (nonlinear_arith)
        requires
            k == k0 + lc * lj * s,
            k0 == x + lc * t,
            t == u * qd,
            u * lc + v * lj == g,
            delta == g * qd + y0,
            delta == y - x,
    ;
    lemma_mod_is(y0 + k, lj, lc * s - v * qd, y);
    let a = ((c, 0int), (j, y0));
    assert(is_rep(parts, a));
    assert(rot(parts, a.0, k) == (c, x));
    assert(rot(parts, a.1, k) == (j, y));
    (a, k)
}

/// Every pair of distinct points lies in the orbit of some representative.
proof fn lemma_cover(parts: Seq<u64>, p: (int, int), q: (int, int)) -> (r: (((int, int), (int, int)), int))
    requires
        all_odd_parts(parts),
        pt_ok(parts, p),
        pt_ok(parts, q),
        p != q,
    ensures
        is_rep(parts, r.0),
        r.1 >= 0,
        moves_by(parts, r.0, (p, q), r.1),
{
    if p.0 == q.0 {
        lemma_cover_inside(parts, p.0, p.1, q.1)
    } else if p.0 < q.0 {
        lemma_cover_across(parts, p.0, p.1, q.0, q.1)
    } else {
        lemma_cover_across(parts, q.0, q.1, p.0, p.1)
    }
}

/// The representatives inside cycle `c`: `{(c,0), (c,d)}` for `d = 1..=(l_c-1)/2`.
pub open spec fn inside_reps(parts: Seq<u64>, c: int) -> Seq<((int, int), (int, int))> {
    Seq::new(((parts[c] - 1) / 2) as nat, |d: int| ((c, 0int), (c, d + 1)))
}

/// The representatives across cycles `c` and `j`: `{(c,0), (j,y)}` for `y < gcd(l_c, l_j)`.
pub open spec fn across_reps(parts: Seq<u64>, c: int, j: int) -> Seq<((int, int), (int, int))> {
    Seq::new(g2(parts, c, j) as nat, |y: int| ((c, 0int), (j, y)))
}

/// The representatives across cycle `c` and each cycle from `j` on.
pub open spec fn row_reps(parts: Seq<u64>, c: int, j: int) -> Seq<((int, int), (int, int))>
    decreases parts.len() - j,
{
    if j >= parts.len() || j < 0 {
        Seq::empty()
    } else {
        across_reps(parts, c, j) + row_reps(parts, c, j + 1)
    }
}

/// The representatives whose first point lies in one of the first `k` cycles.
pub open spec fn rep_list(parts: Seq<u64>, k: int) -> Seq<((int, int), (int, int))>
    decreases k,
{
    if k <= 0 {
        Seq::empty()
    } else {
        rep_list(parts, k - 1) + (inside_reps(parts, k - 1) + row_reps(parts, k - 1, k))
    }
}

/// A representative across cycle `c` and a cycle from `j` on.
pub open spec fn row_elem(parts: Seq<u64>, c: int, j: int, a: ((int, int), (int, int))) -> bool {
    &&& a.0 == (c, 0int)
    &&& j <= a.1.0 < parts.len()
    &&& 0 <= a.1.1 < g2(parts, c, a.1.0)
}

proof fn lemma_row_reps(parts: Seq<u64>, c: int, j: int)
    requires
        0 <= c < j,
    ensures
        row_reps(parts, c, j).len() == row_gcds(parts, c, j),
        forall|i: int| 0 <= i < row_reps(parts, c, j).len() ==> #[trigger] row_elem(parts, c, j, row_reps(parts, c, j)[i]),
        row_reps(parts, c, j).no_duplicates(),
        forall|a: ((int, int), (int, int))| #[trigger] row_elem(parts, c, j, a) ==> row_reps(parts, c, j).contains(a),
    decreases parts.len() - j,
{
    if j >= parts.len() {
        assert forall|a: ((int, int), (int, int))| #[trigger] row_elem(parts, c, j, a) implies row_reps(parts, c, j).contains(a) by {}
    } else {
        lemma_row_reps(parts, c, j + 1);
        let h = across_reps(parts, c, j);
        let t = row_reps(parts, c, j + 1);
        assert(row_reps(parts, c, j) == h + t);
        assert forall|i: int| 0 <= i < (h + t).len() implies #[trigger] row_elem(parts, c, j, (h + t)[i]) by {
            if i < h.len() {
                assert((h + t)[i] == h[i]);
            } else {
                assert((h + t)[i] == t[i - h.len()]);
                assert(row_elem(parts, c, j + 1, t[i - h.len()]));
            }
        }
        assert(h.no_duplicates());
        assert forall|x: int, y: int| 0 <= x < h.len() && 0 <= y < t.len() implies h[x] != t[y] by {
            assert(row_elem(parts, c, j + 1, t[y]));
        }
        vstd::seq_lib::lemma_no_dup_in_concat(h, t);
        assert forall|a: ((int, int), (int, int))| #[trigger] row_elem(parts, c, j, a) implies (h + t).contains(a) by {
            if a.1.0 == j {
                let y = a.1.1;
                assert(h[y] == a);
                assert((h + t)[y] == a);
            } else {
                assert(row_elem(parts, c, j + 1, a));
                assert(t.contains(a));
                let y = choose|y: int| 0 <= y < t.len() && t[y] == a;
                assert((h + t)[h.len() + y] == a);
            }
        }
    }
}

proof fn lemma_rep_list(parts: Seq<u64>, k: int)
    requires
        all_odd_parts(parts),
        0 <= k <= parts.len(),
    ensures
        rep_list(parts, k).len() == eo_prefix(parts, k),
        forall|i: int| 0 <= i < rep_list(parts, k).len() ==> is_rep(parts, #[trigger] rep_list(parts, k)[i]) && rep_list(
            parts,
            k,
        )[i].0.0 < k,
        rep_list(parts, k).no_duplicates(),
        forall|a: ((int, int), (int, int))| #[trigger] is_rep(parts, a) && a.0.0 < k ==> rep_list(parts, k).contains(a),
    decreases k,
{
    if k == 0 {
        assert forall|a: ((int, int), (int, int))| #[trigger] is_rep(parts, a) && a.0.0 < k implies rep_list(parts, k).contains(a) by {}
    } else {
        let c = k - 1;
        lemma_rep_list(parts, c);
        lemma_row_reps(parts, c, k);
        let p = rep_list(parts, c);
        let w = inside_reps(parts, c);
        let r = row_reps(parts, c, k);
        let b = w + r;
        assert(rep_list(parts, k) == p + b);
        assert(parts[c] % 2 == 1);
        assert forall|i: int| 0 <= i < b.len() implies is_rep(parts, #[trigger] b[i]) && b[i].0.0 == c by {
            if i < w.len() {
                assert(b[i] == w[i]);
            } else {
                assert(b[i] == r[i - w.len()]);
                assert(row_elem(parts, c, k, r[i - w.len()]));
            }
        }
        assert(w.no_duplicates());
        assert forall|x: int, y: int| 0 <= x < w.len() && 0 <= y < r.len() implies w[x] != r[y] by {
            assert(row_elem(parts, c, k, r[y]));
        }
        vstd::seq_lib::lemma_no_dup_in_concat(w, r);
        assert forall|x: int, y: int| 0 <= x < p.len() && 0 <= y < b.len() implies p[x] != b[y] by {
            assert(is_rep(parts, p[x]) && p[x].0.0 < c);
            assert(is_rep(parts, b[y]) && b[y].0.0 == c);
        }
        vstd::seq_lib::lemma_no_dup_in_concat(p, b);
        assert forall|i: int| 0 <= i < (p + b).len() implies is_rep(parts, #[trigger] (p + b)[i]) && (p + b)[i].0.0 < k by {
            if i < p.len() {
                assert((p + b)[i] == p[i]);
            } else {
                assert((p + b)[i] == b[i - p.len()]);
            }
        }
        assert forall|a: ((int, int), (int, int))| #[trigger] is_rep(parts, a) && a.0.0 < k implies (p + b).contains(a) by {
            if a.0.0 < c {
                assert(p.contains(a));
                let x = choose|x: int| 0 <= x < p.len() && p[x] == a;
                assert((p + b)[x] == a);
            } else if a.1.0 == c {
                let d = a.1.1;
                assert(w[d - 1] == a);
                assert(b[d - 1] == a);
                assert((p + b)[p.len() + d - 1] == a);
            } else {
                assert(row_elem(parts, c, k, a));
                assert(r.contains(a));
                let y = choose|y: int| 0 <= y < r.len() && r[y] == a;
                assert(b[w.len() + y] == a);
                assert((p + b)[p.len() + w.len() + y] == a);
            }
        }
    }
}

proof fn lemma_rep_is_pair(parts: Seq<u64>, a: ((int, int), (int, int)))
    requires
        all_odd_parts(parts),
        is_rep(parts, a),
    ensures
        pt_ok(parts, a.0),
        pt_ok(parts, a.1),
        a.0 != a.1,
{
    let c = a.0.0;
    assert(parts[c] % 2 == 1);
    if a.1.0 != c {
        let j = a.1.0;
        assert(parts[j] % 2 == 1);
        lemma_gcd_le(parts[c] as nat, parts[j] as nat);
    }
}

/// `reps` is a full set of orbit representatives for the unordered pairs of
/// distinct points: each entry is such a pair, every such pair lies in the
/// orbit of some entry, and no entry lies in the orbit of another.
pub open spec fn orbit_reps(parts: Seq<u64>, reps: Seq<((int, int), (int, int))>) -> bool {
    &&& forall|i: int|
        0 <= i < reps.len() ==> pt_ok(parts, (#[trigger] reps[i]).0) && pt_ok(parts, reps[i].1) && reps[i].0 != reps[i].1
    &&& forall|p: (int, int), q: (int, int)|
        pt_ok(parts, p) && pt_ok(parts, q) && p != q ==> exists|i: int| 0 <= i < reps.len() && #[trigger] moves_to(parts, reps[i], (p, q))
    &&& forall|i: int, j: int|
        0 <= i < reps.len() && 0 <= j < reps.len() && i != j ==> !moves_to(parts, #[trigger] reps[i], #[trigger] reps[j])
}

proof fn lemma_reps_pairs(parts: Seq<u64>)
    requires
        all_odd_parts(parts),
    ensures
        forall|i: int|
            0 <= i < rep_list(parts, parts.len() as int).len() ==> pt_ok(parts, (#[trigger] rep_list(parts, parts.len() as int)[i]).0)
                && pt_ok(parts, rep_list(parts, parts.len() as int)[i].1) && rep_list(parts, parts.len() as int)[i].0 != rep_list(
                parts,
                parts.len() as int,
            )[i].1,
{
    let reps = rep_list(parts, parts.len() as int);
    lemma_rep_list(parts, parts.len() as int);
    assert forall|i: int| 0 <= i < reps.len() implies pt_ok(parts, (#[trigger] reps[i]).0) && pt_ok(parts, reps[i].1) && reps[i].0 != reps[i].1 by {
        lemma_rep_is_pair(parts, reps[i]);
    }
}

proof fn lemma_reps_cover(parts: Seq<u64>, p: (int, int), q: (int, int))
    requires
        all_odd_parts(parts),
        pt_ok(parts, p),
        pt_ok(parts, q),
        p != q,
    ensures
        exists|i: int|
            0 <= i < rep_list(parts, parts.len() as int).len() && #[trigger] moves_to(parts, rep_list(parts, parts.len() as int)[i], (p, q)),
{
    let reps = rep_list(parts, parts.len() as int);
    lemma_rep_list(parts, parts.len() as int);
    let (a, k) = lemma_cover(parts, p, q);
    assert(a.0.0 < parts.len());
    assert(reps.contains(a));
    let i = choose|i: int| 0 <= i < reps.len() && reps[i] == a;
    assert(moves_by(parts, reps[i], (p, q), k));
    assert(moves_to(parts, reps[i], (p, q)));
}

proof fn lemma_reps_apart_all(parts: Seq<u64>)
    requires
        all_odd_parts(parts),
    ensures
        forall|i: int, j: int|
            0 <= i < rep_list(parts, parts.len() as int).len() && 0 <= j < rep_list(parts, parts.len() as int).len() && i != j
                ==> !moves_to(parts, #[trigger] rep_list(parts, parts.len() as int)[i], #[trigger] rep_list(parts, parts.len() as int)[j]),
{
    let reps = rep_list(parts, parts.len() as int);
    lemma_rep_list(parts, parts.len() as int);
    assert forall|i: int, j: int| 0 <= i < reps.len() && 0 <= j < reps.len() && i != j implies !moves_to(
        parts,
        #[trigger] reps[i],
        #[trigger] reps[j],
    ) by {
        if moves_to(parts, reps[i], reps[j]) {
            let k = choose|k: int| k >= 0 && #[trigger] moves_by(parts, reps[i], reps[j], k);
            lemma_reps_apart(parts, reps[i], reps[j], k);
            assert(reps[i] != reps[j]);
        }
    }
}

/// `E(lambda)` counts the orbits of a permutation of cycle type `lambda`
/// (all cycles odd) on the unordered pairs of distinct points: a full set of
/// orbit representatives has exactly `edge_orbit_count(parts)` members.
pub proof fn lemma_edge_orbit_count_counts_orbits(parts: Seq<u64>)
    requires
        all_odd_parts(parts),
    ensures
        exists|reps: Seq<((int, int), (int, int))>| reps.len() == edge_orbit_count(parts) && #[trigger] orbit_reps(parts, reps),
{
    let reps = rep_list(parts, parts.len() as int);
    lemma_rep_list(parts, parts.len() as int);
    lemma_reps_pairs(parts);
    lemma_reps_apart_all(parts);
    assert forall|p: (int, int), q: (int, int)| pt_ok(parts, p) && pt_ok(parts, q) && p != q implies exists|i: int|
        0 <= i < reps.len() && #[trigger] moves_to(parts, reps[i], (p, q)) by {
        lemma_reps_cover(parts, p, q);
    }
    assert(orbit_reps(parts, reps));
}

} // verus!
