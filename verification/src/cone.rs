//! Exact small determinants and the extreme-ray test for the cone
//! `{ y = B^T lam : y >= 0 }` spanned by an integer kernel basis.
use vstd::prelude::*;
use crate::pfaffian::{absi, alt};
use crate::burnside::{fact, lemma_fact_pos};
use crate::within::ipow;

verus! {

/// An 8 x 8 array as rows of integers.
pub open spec fn mview(a: [[i128; 8]; 8]) -> Seq<Seq<int>> {
    Seq::new(8, |r: int| Seq::new(8, |c: int| a[r][c] as int))
}

/// The minor of the top-left `m x m` block with row 0 and column `c` removed,
/// moved to the top-left corner and padded with zeros.
pub open spec fn minor(s: Seq<Seq<int>>, c: int, m: int) -> Seq<Seq<int>> {
    Seq::new(
        8,
        |r: int|
            Seq::new(
                8,
                |cc: int|
                    if r < m - 1 && cc < m - 1 {
                        s[r + 1][if cc < c { cc } else { cc + 1 }]
                    } else {
                        0
                    },
            ),
    )
}

/// Determinant of the top-left `m x m` block, by Laplace expansion along the first row.
pub open spec fn det_spec(s: Seq<Seq<int>>, m: int) -> int
    decreases m, m + 1,
{
    if m <= 0 {
        1
    } else if m == 1 {
        s[0][0]
    } else if m == 2 {
        s[0][0] * s[1][1] - s[0][1] * s[1][0]
    } else {
        det_row(s, m, m)
    }
}

/// The first `k` terms of the expansion along row 0.
pub open spec fn det_row(s: Seq<Seq<int>>, m: int, k: int) -> int
    decreases m, k,
{
    if k <= 0 || m <= 2 {
        0
    } else {
        det_row(s, m, k - 1) + alt(k - 1) * s[0][k - 1] * det_spec(minor(s, k - 1, m), m - 1)
    }
}

/// The same expansion with every term in absolute value (the permanent of `|s|`):
/// a bound on every partial sum the expansion computes.
pub open spec fn det_bound(s: Seq<Seq<int>>, m: int) -> int
    decreases m, m + 1,
{
    if m <= 0 {
        1
    } else if m == 1 {
        absi(s[0][0])
    } else if m == 2 {
        absi(s[0][0] * s[1][1]) + absi(s[0][1] * s[1][0])
    } else {
        bound_row(s, m, m)
    }
}

pub open spec fn bound_row(s: Seq<Seq<int>>, m: int, k: int) -> int
    decreases m, k,
{
    if k <= 0 || m <= 2 {
        0
    } else {
        bound_row(s, m, k - 1) + absi(s[0][k - 1]) * det_bound(minor(s, k - 1, m), m - 1)
    }
}

/// Every entry of the 8 x 8 array can be negated.
pub open spec fn negatable8(a: [[i128; 8]; 8]) -> bool {
    forall|r: int, c: int| 0 <= r < 8 && 0 <= c < 8 ==> #[trigger] a[r][c] > i128::MIN
}

proof fn lemma_bound_nonneg(s: Seq<Seq<int>>, m: int)
    ensures
        det_bound(s, m) >= 0,
    decreases m, m + 1,
{
    if m > 2 {
        lemma_bound_row_nonneg(s, m, m);
    }
}

proof fn lemma_bound_row_nonneg(s: Seq<Seq<int>>, m: int, k: int)
    ensures
        bound_row(s, m, k) >= 0,
    decreases m, k,
{
    if k > 0 && m > 2 {
        lemma_bound_row_nonneg(s, m, k - 1);
        lemma_bound_nonneg(minor(s, k - 1, m), m - 1);
        let a = absi(s[0][k - 1]);
        let b = det_bound(minor(s, k - 1, m), m - 1);
        assert(a * b >= 0) by (nonlinear_arith)
            requires
                a >= 0,
                b >= 0,
        ;
    }
}

proof fn lemma_det_within(s: Seq<Seq<int>>, m: int)
    ensures
        absi(det_spec(s, m)) <= det_bound(s, m),
    decreases m, m + 1,
{
    if m == 2 {
        let p = s[0][0] * s[1][1];
        let q = s[0][1] * s[1][0];
        assert(absi(p - q) <= absi(p) + absi(q));
    } else if m > 2 {
        lemma_row_within(s, m, m);
    }
}

proof fn lemma_row_within(s: Seq<Seq<int>>, m: int, k: int)
    ensures
        absi(det_row(s, m, k)) <= bound_row(s, m, k),
    decreases m, k,
{
    if k > 0 && m > 2 {
        lemma_row_within(s, m, k - 1);
        lemma_det_within(minor(s, k - 1, m), m - 1);
        let sg = alt(k - 1);
        let e = s[0][k - 1];
        let p = det_spec(minor(s, k - 1, m), m - 1);
        let b = det_bound(minor(s, k - 1, m), m - 1);
        assert(absi(sg * e * p) <= absi(e) * b) by (nonlinear_arith)
            requires
                sg == 1 || sg == -1,
                absi(p) <= b,
        {
            assert(absi(sg * e * p) == absi(e) * absi(p));
            assert(absi(e) * absi(p) <= absi(e) * b);
        }
    }
}

/// Narrows a slice projection to `i64`: the value lies strictly inside
/// `(-2^62, 2^62)`, so the narrowing keeps it exactly.
pub fn clampdown(x: i128) -> (r: i64)
    requires
        -0x4000_0000_0000_0000 < x < 0x4000_0000_0000_0000,
    ensures
        r == x,
{
    x as i64
}


/// Determinant of the top-left `m x m` block of `a` (`m <= 7`), by Laplace
/// expansion along the first row, skipping zero entries. `det_bound` below
/// `i128::MAX` is what keeps every product and partial sum inside `i128`.
pub fn det_small(a: &[[i128; 8]; 8], m: usize) -> (r: i128)
    requires
        m <= 7,
        negatable8(*a),
        det_bound(mview(*a), m as int) <= i128::MAX,
    ensures
        r == det_spec(mview(*a), m as int),
    decreases m,
{
    let ghost s = mview(*a);
    if m == 0 {
        return 1;
    }
    if m == 1 {
        return a[0][0];
    }
    if m == 2 {
        proof {
            let p = s[0][0] * s[1][1];
            let q = s[0][1] * s[1][0];
            assert(absi(p) <= det_bound(s, 2));
            assert(absi(q) <= det_bound(s, 2));
        }
        return a[0][0] * a[1][1] - a[0][1] * a[1][0];
    }
    let mut d: i128 = 0;
    let mut c = 0usize;
    proof {
        lemma_bound_row_nonneg(s, m as int, 0);
    }
    while c < m
        invariant
            3 <= m <= 7,
            s == mview(*a),
            negatable8(*a),
            det_bound(s, m as int) == bound_row(s, m as int, m as int),
            bound_row(s, m as int, m as int) <= i128::MAX,
            c <= m,
            d == det_row(s, m as int, c as int),
            absi(d as int) <= bound_row(s, m as int, c as int),
        decreases m - c,
    {
        proof {
            lemma_bound_row_mono(s, m as int, c + 1, m as int);
            assert(bound_row(s, m as int, c + 1) == bound_row(s, m as int, c as int) + absi(s[0][c as int]) * det_bound(
                minor(s, c as int, m as int),
                (m - 1) as int,
            ));
            assert(det_row(s, m as int, c + 1) == det_row(s, m as int, c as int) + alt(c as int) * s[0][c as int] * det_spec(
                minor(s, c as int, m as int),
                (m - 1) as int,
            ));
        }
        if a[0][c] == 0 {
            proof {
                let x = alt(c as int) * det_spec(minor(s, c as int, m as int), (m - 1) as int);
                assert(alt(c as int) * 0 * det_spec(minor(s, c as int, m as int), (m - 1) as int) == 0) by (nonlinear_arith);
                assert(0 * det_bound(minor(s, c as int, m as int), (m - 1) as int) == 0) by (nonlinear_arith);
            }
        } else {
            let mut sub = [[0i128; 8]; 8];
            let mut r = 1usize;
            while r < m
                invariant
                    3 <= m <= 7,
                    c < m,
                    1 <= r <= m,
                    forall|x: int, y: int| 0 <= x < 8 && 0 <= y < 8 ==> #[trigger] sub[x][y] as int == if x < r - 1 && y < m - 1 {
                        mview(*a)[x + 1][if y < c { y } else { y + 1 }]
                    } else {
                        0
                    },
                decreases m - r,
            {
                let mut cc = 0usize;
                let mut c2 = 0usize;
                while c2 < m
                    invariant
                        3 <= m <= 7,
                        c < m,
                        1 <= r < m,
                        c2 <= m,
                        cc == if c2 <= c { c2 as int } else { c2 - 1 },
                        forall|x: int, y: int| 0 <= x < 8 && 0 <= y < 8 ==> #[trigger] sub[x][y] as int == if (x < r - 1 && y < m - 1)
                            || (x == r - 1 && y < cc) {
                            mview(*a)[x + 1][if y < c { y } else { y + 1 }]
                        } else {
                            0
                        },
                    decreases m - c2,
                {
                    if c2 != c {
                        sub[r - 1][cc] = a[r][c2];
                        cc += 1;
                    }
                    c2 += 1;
                }
                r += 1;
            }
            proof {
                assert(mview(sub) =~= minor(s, c as int, m as int)) by {
                    assert forall|x: int| 0 <= x < 8 implies mview(sub)[x] =~= minor(s, c as int, m as int)[x] by {}
                }
                assert forall|x: int, y: int| 0 <= x < 8 && 0 <= y < 8 implies #[trigger] sub[x][y] > i128::MIN by {
                    if x < m - 1 && y < m - 1 {
                        let yy = if y < c { y } else { y + 1 };
                        assert(a[x + 1][yy] > i128::MIN);
                    }
                }
                let b = det_bound(minor(s, c as int, m as int), (m - 1) as int);
                let ab = absi(s[0][c as int]);
                lemma_bound_nonneg(minor(s, c as int, m as int), (m - 1) as int);
                assert(b <= ab * b) by (nonlinear_arith)
                    requires
                        ab >= 1,
                        b >= 0,
                ;
            }
            let sd = det_small(&sub, m - 1);
            let sg: i128 = if c % 2 == 0 { 1 } else { -1 };
            proof {
                lemma_det_within(minor(s, c as int, m as int), (m - 1) as int);
                let b = det_bound(minor(s, c as int, m as int), (m - 1) as int);
                let e = a[0][c as int] as int;
                assert(sg == alt(c as int));
                assert(absi(sg * e * sd) <= absi(e) * b) by (nonlinear_arith)
                    requires
                        sg == 1 || sg == -1,
                        absi(sd as int) <= b,
                {
                    assert(absi(sg * e * sd) == absi(e) * absi(sd as int));
                    assert(absi(e) * absi(sd as int) <= absi(e) * b);
                }
                assert(i128::MIN <= sg * e <= i128::MAX) by (nonlinear_arith)
                    requires
                        sg == 1 || sg == -1,
                        e > i128::MIN,
                        e <= i128::MAX,
                ;
            }
            let t = sg * a[0][c];
            d += t * sd;
        }
        c += 1;
    }
    d
}

proof fn lemma_bound_row_mono(s: Seq<Seq<int>>, m: int, k: int, l: int)
    requires
        0 <= k <= l,
    ensures
        bound_row(s, m, k) <= bound_row(s, m, l),
    decreases l - k,
{
    if k < l {
        lemma_bound_row_mono(s, m, k, l - 1);
        if m > 2 && l > 0 {
            lemma_bound_nonneg(minor(s, l - 1, m), m - 1);
            let a = absi(s[0][l - 1]);
            let b = det_bound(minor(s, l - 1, m), m - 1);
            assert(a * b >= 0) by (nonlinear_arith)
                requires
                    a >= 0,
                    b >= 0,
            ;
        }
    }
}

/// Every entry of the top-left `m x m` block is at most `b` in absolute value.
pub open spec fn block_bounded(s: Seq<Seq<int>>, m: int, b: int) -> bool {
    forall|r: int, c: int| 0 <= r < m && 0 <= c < m ==> absi(#[trigger] s[r][c]) <= b
}

proof fn lemma_ipow_nonneg(b: int, e: nat)
    requires
        b >= 0,
    ensures
        ipow(b, e) >= 0,
    decreases e,
{
    if e > 0 {
        lemma_ipow_nonneg(b, (e - 1) as nat);
        let x = ipow(b, (e - 1) as nat);
        assert(b * x >= 0) by (nonlinear_arith)
            requires
                b >= 0,
                x >= 0,
        ;
    }
}

/// `det_bound <= m! b^m` when the block's entries are at most `b`.
proof fn lemma_det_bound_fact(s: Seq<Seq<int>>, m: int, b: int)
    requires
        0 <= m <= 8,
        b >= 0,
        s.len() == 8,
        forall|r: int| 0 <= r < 8 ==> (#[trigger] s[r]).len() == 8,
        block_bounded(s, m, b),
    ensures
        det_bound(s, m) <= fact(m as nat) * ipow(b, m as nat),
    decreases m, m + 1,
{
    lemma_ipow_nonneg(b, m as nat);
    if m <= 0 {
        assert(fact(0) == 1);
        assert(ipow(b, 0) == 1);
    } else if m == 1 {
        assert(fact(1) == 1 * fact(0));
        assert(ipow(b, 1) == b * ipow(b, 0));
        assert(ipow(b, 0) == 1);
        assert(b * 1 == b);
        assert(fact(1) == 1);
        assert(absi(s[0][0]) <= b);
        assert(fact(1) * ipow(b, 1) == b);
    } else if m == 2 {
        assert(fact(2) == 2 * fact(1));
        assert(fact(1) == 1 * fact(0));
        assert(ipow(b, 2) == b * ipow(b, 1));
        assert(ipow(b, 1) == b * ipow(b, 0));
        assert(ipow(b, 0) == 1);
        assert(fact(2) == 2);
        assert(ipow(b, 2) == b * b) by (nonlinear_arith)
            requires
                ipow(b, 2) == b * ipow(b, 1),
                ipow(b, 1) == b * 1,
        ;
        let a00 = s[0][0];
        let a11 = s[1][1];
        let a01 = s[0][1];
        let a10 = s[1][0];
        assert(absi(a00) <= b && absi(a11) <= b && absi(a01) <= b && absi(a10) <= b);
        assert(absi(a00 * a11) + absi(a01 * a10) <= 2 * (b * b)) by (nonlinear_arith)
            requires
                absi(a00) <= b,
                absi(a11) <= b,
                absi(a01) <= b,
                absi(a10) <= b,
        {
            assert(absi(a00 * a11) == absi(a00) * absi(a11));
            assert(absi(a01 * a10) == absi(a01) * absi(a10));
            assert(absi(a00) * absi(a11) <= b * b);
            assert(absi(a01) * absi(a10) <= b * b);
        }
    } else {
        lemma_row_bound_fact(s, m, m, b);
        assert(fact(m as nat) == m * fact((m - 1) as nat));
        assert(ipow(b, m as nat) == b * ipow(b, (m - 1) as nat));
        let f = fact((m - 1) as nat) as int;
        let p = ipow(b, (m - 1) as nat);
        assert(m * (b * f * p) == (m * f) * (b * p)) by (nonlinear_arith);
    }
}

proof fn lemma_row_bound_fact(s: Seq<Seq<int>>, m: int, k: int, b: int)
    requires
        3 <= m <= 8,
        0 <= k <= m,
        b >= 0,
        s.len() == 8,
        forall|r: int| 0 <= r < 8 ==> (#[trigger] s[r]).len() == 8,
        block_bounded(s, m, b),
    ensures
        bound_row(s, m, k) <= k * (b * fact((m - 1) as nat) * ipow(b, (m - 1) as nat)),
    decreases m, k,
{
    let f = fact((m - 1) as nat) as int;
    let p = ipow(b, (m - 1) as nat);
    lemma_fact_pos((m - 1) as nat);
    lemma_ipow_nonneg(b, (m - 1) as nat);
    if k > 0 {
        lemma_row_bound_fact(s, m, k - 1, b);
        let mn = minor(s, k - 1, m);
        assert forall|r: int| 0 <= r < 8 implies (#[trigger] mn[r]).len() == 8 by {}
        assert(block_bounded(mn, m - 1, b)) by {
            assert forall|r: int, c: int| 0 <= r < m - 1 && 0 <= c < m - 1 implies absi(#[trigger] mn[r][c]) <= b by {
                let cc = if c < k - 1 { c } else { c + 1 };
                assert(mn[r][c] == s[r + 1][cc]);
            }
        }
        lemma_det_bound_fact(mn, m - 1, b);
        lemma_bound_nonneg(mn, m - 1);
        let e = absi(s[0][k - 1]);
        assert(e <= b);
        let db = det_bound(mn, m - 1);
        assert(e * db <= b * (f * p)) by (nonlinear_arith)
            requires
                0 <= e <= b,
                0 <= db <= f * p,
        ;
        assert((k - 1) * (b * f * p) + b * (f * p) == k * (b * f * p)) by (nonlinear_arith);
    } else {
        assert(0 * (b * f * p) == 0) by (nonlinear_arith);
    }
}

/// The constraint matrix of a `(d-1)`-subset `idx` of the columns: row `r` is
/// column `idx[r]` of the basis (its `d` coordinates), padded to 8 x 8.
pub open spec fn subset_matrix(basis: Seq<[i64; 16]>, idx: Seq<usize>, d: int) -> Seq<Seq<int>> {
    Seq::new(8, |r: int| Seq::new(8, |c: int| if r < d - 1 && c < d { basis[c][idx[r] as int] as int } else { 0 }))
}

/// That matrix with column `c` removed (the cofactor block), padded to 8 x 8.
pub open spec fn drop_column(s: Seq<Seq<int>>, c: int, d: int) -> Seq<Seq<int>> {
    Seq::new(8, |r: int| Seq::new(8, |cc: int| if r < d - 1 && cc < d - 1 { s[r][if cc < c { cc } else { cc + 1 }] } else { 0 }))
}

/// Coordinate `c` of the generalised cross product of the chosen columns: the
/// signed cofactor, a vector orthogonal to each of them.
pub open spec fn lam(basis: Seq<[i64; 16]>, idx: Seq<usize>, d: int, c: int) -> int {
    let dt = det_spec(drop_column(subset_matrix(basis, idx, d), c, d), d - 1);
    if c % 2 == 0 {
        dt
    } else {
        -dt
    }
}

/// `sum_{c < k} s lam_c basis[c][j]`: the value of constraint `j` at `s lam`.
pub open spec fn dot(basis: Seq<[i64; 16]>, idx: Seq<usize>, d: int, j: int, s: int, k: int) -> int
    decreases k,
{
    if k <= 0 {
        0
    } else {
        dot(basis, idx, d, j, s, k - 1) + s * lam(basis, idx, d, k - 1) * basis[k - 1][j]
    }
}

/// The subset gives a nonzero ray `s lam` meeting every constraint `j < n`.
pub open spec fn ray_ok(basis: Seq<[i64; 16]>, idx: Seq<usize>, n: int, d: int) -> bool {
    &&& exists|c: int| 0 <= c < d && #[trigger] lam(basis, idx, d, c) != 0
    &&& (forall|j: int| 0 <= j < n ==> #[trigger] dot(basis, idx, d, j, 1, d) >= 0) || (forall|j: int|
        0 <= j < n ==> #[trigger] dot(basis, idx, d, j, -1, d) >= 0)
}

/// `idx` is a strictly increasing `(d-1)`-subset of `0..n`.
pub open spec fn subset_of(idx: Seq<usize>, n: int, d: int) -> bool {
    &&& idx.len() == d - 1
    &&& forall|a: int, b: int| 0 <= a < b < idx.len() ==> #[trigger] idx[a] < #[trigger] idx[b]
    &&& forall|a: int| 0 <= a < idx.len() ==> #[trigger] idx[a] < n
}

/// Some `(d-1)`-subset of the constraint normals extending `prefix` (its later
/// members at least `start`) gives a nonzero nonnegative ray.
pub open spec fn ray_from(basis: Seq<[i64; 16]>, n: int, d: int, prefix: Seq<usize>, start: int) -> bool {
    exists|full: Seq<usize>|
        #[trigger] subset_of(full, n, d) && full.take(prefix.len() as int) == prefix && (forall|t: int|
            prefix.len() <= t < full.len() ==> start <= #[trigger] full[t]) && ray_ok(basis, full, n, d)
}

/// The extreme-ray test for a nonzero point of the cone `{ y = B^T lam : y >= 0 }`
/// over the `d x n` basis `B`: for `d == 1` the single row is one-signed;
/// otherwise some `(d-1)`-subset of constraint normals gives a nonzero ray.
pub open spec fn extreme_ray_test(basis: Seq<[i64; 16]>, n: int, d: int) -> bool {
    if d == 1 {
        !((exists|j: int| 0 <= j < n && #[trigger] basis[0][j] > 0) && (exists|j: int| 0 <= j < n && #[trigger] basis[0][j] < 0))
    } else {
        ray_from(basis, n, d, Seq::empty(), 0)
    }
}

/// All entries of the first `d` rows in columns `0..n` are at most `b` in absolute value.
pub open spec fn entries_within(basis: Seq<[i64; 16]>, n: int, d: int, b: int) -> bool {
    forall|c: int, j: int| 0 <= c < d && 0 <= j < n ==> absi(#[trigger] basis[c][j] as int) <= b
}

/// Some entry bound `b` keeps `d! b^d` inside `i128`, which bounds every
/// cofactor and every constraint value the test computes.
pub open spec fn cone_fits(basis: Seq<[i64; 16]>, n: int, d: int) -> bool {
    exists|b: int| b >= 0 && #[trigger] entries_within(basis, n, d, b) && fact(d as nat) * ipow(b, d as nat) <= i128::MAX
}

proof fn lemma_fact_ipow_step(d: int, b: int)
    requires
        2 <= d,
        b >= 0,
    ensures
        fact((d - 1) as nat) * ipow(b, (d - 1) as nat) * b * d == fact(d as nat) * ipow(b, d as nat),
        b >= 1 ==> fact((d - 1) as nat) * ipow(b, (d - 1) as nat) <= fact(d as nat) * ipow(b, d as nat),
        b == 0 ==> fact((d - 1) as nat) * ipow(b, (d - 1) as nat) == 0,
{
    let f = fact((d - 1) as nat) as int;
    let p = ipow(b, (d - 1) as nat);
    lemma_fact_pos((d - 1) as nat);
    lemma_ipow_nonneg(b, (d - 1) as nat);
    assert(fact(d as nat) == d * f);
    assert(ipow(b, d as nat) == b * p);
    assert(f * p * b * d == (d * f) * (b * p)) by (nonlinear_arith);
    if b >= 1 {
        assert(f * p <= (d * f) * (b * p)) by (nonlinear_arith)
            requires
                f >= 1,
                p >= 0,
                b >= 1,
                d >= 2,
        ;
    } else {
        assert(ipow(0, (d - 1) as nat) == 0 * ipow(0, (d - 2) as nat));
        assert(f * 0 == 0) by (nonlinear_arith);
    }
}

/// `|dot| <= k * cb * b` when each cofactor is at most `cb` and each entry at most `b`.
proof fn lemma_dot_bound(basis: Seq<[i64; 16]>, idx: Seq<usize>, d: int, j: int, sg: int, k: int, cb: int, b: int)
    requires
        0 <= k <= d,
        sg == 1 || sg == -1,
        cb >= 0,
        b >= 0,
        forall|c: int| 0 <= c < d ==> absi(#[trigger] lam(basis, idx, d, c)) <= cb,
        forall|c: int| 0 <= c < d ==> absi(#[trigger] basis[c][j] as int) <= b,
    ensures
        absi(dot(basis, idx, d, j, sg, k)) <= k * (cb * b),
    decreases k,
{
    if k > 0 {
        lemma_dot_bound(basis, idx, d, j, sg, k - 1, cb, b);
        let l = lam(basis, idx, d, k - 1);
        let e = basis[k - 1][j] as int;
        assert(absi(sg * l * e) <= cb * b) by (nonlinear_arith)
            requires
                sg == 1 || sg == -1,
                absi(l) <= cb,
                absi(e) <= b,
                cb >= 0,
                b >= 0,
        {
            assert(absi(sg * l * e) == absi(l) * absi(e));
            assert(absi(l) * absi(e) <= cb * absi(e));
            assert(cb * absi(e) <= cb * b);
        }
        assert((k - 1) * (cb * b) + cb * b == k * (cb * b)) by (nonlinear_arith);
    } else {
        assert(0 * (cb * b) == 0) by (nonlinear_arith);
    }
}

/// The columns of the basis: `cols[j][c] == basis[c][j]`.
pub open spec fn columns_of(cols: Seq<[i64; 8]>, basis: Seq<[i64; 16]>, n: int, d: int) -> bool {
    &&& cols.len() == n
    &&& forall|j: int, c: int| 0 <= j < n && 0 <= c < d ==> #[trigger] cols[j][c] == basis[c][j]
}

/// The extreme-ray test for one `(d-1)`-subset `idx` of the constraint normals.
fn subset_ray(idx: &Vec<usize>, n: usize, d: usize, cols: &Vec<[i64; 8]>, Ghost(basis): Ghost<Seq<[i64; 16]>>, Ghost(b): Ghost<int>) -> (r: bool)
    requires
        2 <= d <= 8,
        n <= 16,
        basis.len() == d,
        subset_of(idx@, n as int, d as int),
        columns_of(cols@, basis, n as int, d as int),
        b >= 0,
        entries_within(basis, n as int, d as int, b),
        fact(d as nat) * ipow(b, d as nat) <= i128::MAX,
    ensures
        r == ray_ok(basis, idx@, n as int, d as int),
{
    let k = d - 1;
    let mut mtx = [[0i128; 8]; 8];
    let mut r = 0usize;
    while r < k
        invariant
            2 <= d <= 8,
            k == d - 1,
            subset_of(idx@, n as int, d as int),
            columns_of(cols@, basis, n as int, d as int),
            r <= k,
            forall|x: int, y: int| 0 <= x < 8 && 0 <= y < 8 ==> #[trigger] mtx[x][y] as int == if x < r && y < d {
                basis[y][idx@[x] as int] as int
            } else {
                0
            },
        decreases k - r,
    {
        let ci = idx[r];
        let mut c = 0usize;
        while c < d
            invariant
                2 <= d <= 8,
                k == d - 1,
                r < k,
                ci == idx@[r as int],
                ci < n,
                columns_of(cols@, basis, n as int, d as int),
                c <= d,
                forall|x: int, y: int| 0 <= x < 8 && 0 <= y < 8 ==> #[trigger] mtx[x][y] as int == if (x < r && y < d) || (x == r
                    && y < c) {
                    basis[y][idx@[x] as int] as int
                } else {
                    0
                },
            decreases d - c,
        {
            mtx[r][c] = cols[ci][c] as i128;
            c += 1;
        }
        r += 1;
    }
    let ghost sm = subset_matrix(basis, idx@, d as int);
    proof {
        assert(mview(mtx) =~= sm) by {
            assert forall|x: int| 0 <= x < 8 implies mview(mtx)[x] =~= sm[x] by {}
        }
        if d >= 2 {
            lemma_fact_ipow_step(d as int, b);
        }
    }
    let ghost cb = fact((d - 1) as nat) * ipow(b, (d - 1) as nat);
    let mut lamv = [0i128; 8];
    let mut c = 0usize;
    while c < d
        invariant
            2 <= d <= 8,
            k == d - 1,
            sm == subset_matrix(basis, idx@, d as int),
            mview(mtx) == sm,
            subset_of(idx@, n as int, d as int),
            b >= 0,
            entries_within(basis, n as int, d as int, b),
            cb == fact((d - 1) as nat) * ipow(b, (d - 1) as nat),
            cb <= i128::MAX,
            c <= d,
            forall|y: int| 0 <= y < c ==> #[trigger] lamv[y] as int == lam(basis, idx@, d as int, y),
            forall|y: int| 0 <= y < c ==> absi(#[trigger] lam(basis, idx@, d as int, y)) <= cb,
        decreases d - c,
    {
        let mut sub = [[0i128; 8]; 8];
        let mut rr = 0usize;
        while rr < k
            invariant
                2 <= d <= 8,
                k == d - 1,
                c < d,
                rr <= k,
                forall|x: int, y: int| 0 <= x < 8 && 0 <= y < 8 ==> #[trigger] sub[x][y] as int == if x < rr && y < k {
                    mview(mtx)[x][if y < c { y } else { y + 1 }]
                } else {
                    0
                },
            decreases k - rr,
        {
            let mut cc = 0usize;
            let mut c2 = 0usize;
            while c2 < d
                invariant
                    2 <= d <= 8,
                    k == d - 1,
                    c < d,
                    rr < k,
                    c2 <= d,
                    cc == if c2 <= c { c2 as int } else { c2 - 1 },
                    forall|x: int, y: int| 0 <= x < 8 && 0 <= y < 8 ==> #[trigger] sub[x][y] as int == if (x < rr && y < k) || (x
                        == rr && y < cc) {
                        mview(mtx)[x][if y < c { y } else { y + 1 }]
                    } else {
                        0
                    },
                decreases d - c2,
            {
                if c2 != c {
                    sub[rr][cc] = mtx[rr][c2];
                    cc += 1;
                }
                c2 += 1;
            }
            rr += 1;
        }
        let ghost dc = drop_column(sm, c as int, d as int);
        proof {
            assert(mview(sub) =~= dc) by {
                assert forall|x: int| 0 <= x < 8 implies mview(sub)[x] =~= dc[x] by {}
            }
            assert forall|x: int, y: int| 0 <= x < 8 && 0 <= y < 8 implies #[trigger] sub[x][y] > i128::MIN by {
                if x < k && y < k {
                    let yy = if y < c { y } else { y + 1 };
                    assert(absi(basis[yy][idx@[x] as int] as int) <= b);
                    assert(sub[x][y] as int == basis[yy][idx@[x] as int] as int);
                }
            }
            assert forall|x: int| 0 <= x < 8 implies (#[trigger] dc[x]).len() == 8 by {}
            assert(block_bounded(dc, (d - 1) as int, b)) by {
                assert forall|x: int, y: int| 0 <= x < d - 1 && 0 <= y < d - 1 implies absi(#[trigger] dc[x][y]) <= b by {
                    let yy = if y < c { y } else { y + 1 };
                    assert(dc[x][y] == basis[yy][idx@[x] as int] as int);
                    assert(idx@[x] < n);
                }
            }
            lemma_det_bound_fact(dc, (d - 1) as int, b);
        }
        let dt = det_small(&sub, d - 1);
        proof {
            lemma_det_within(dc, (d - 1) as int);
            assert(lam(basis, idx@, d as int, c as int) == if c % 2 == 0 { dt as int } else { -dt });
        }
        lamv[c] = if c % 2 == 0 { dt } else { -dt };
        c += 1;
    }
    let mut nonzero = false;
    let mut c = 0usize;
    while c < d
        invariant
            2 <= d <= 8,
            c <= d,
            forall|y: int| 0 <= y < d ==> #[trigger] lamv[y] as int == lam(basis, idx@, d as int, y),
            nonzero == exists|y: int| 0 <= y < c && #[trigger] lam(basis, idx@, d as int, y) != 0,
        decreases d - c,
    {
        if lamv[c] != 0 {
            nonzero = true;
        }
        c += 1;
    }
    if !nonzero {
        return false;
    }
    proof {
        lemma_fact_ipow_step(d as int, b);
    }
    let mut sf = 0usize;
    proof {
        assert(cb <= i128::MAX);
    }
    while sf < 2
        invariant
            2 <= d <= 8,
            n <= 16,
            sf <= 2,
            columns_of(cols@, basis, n as int, d as int),
            b >= 0,
            entries_within(basis, n as int, d as int, b),
            cb >= 0,
            cb * b * d <= i128::MAX,
            forall|y: int| 0 <= y < d ==> #[trigger] lamv[y] as int == lam(basis, idx@, d as int, y),
            forall|y: int| 0 <= y < d ==> absi(#[trigger] lam(basis, idx@, d as int, y)) <= cb,
            exists|y: int| 0 <= y < d && #[trigger] lam(basis, idx@, d as int, y) != 0,
            sf >= 1 ==> !(forall|j: int| 0 <= j < n ==> #[trigger] dot(basis, idx@, d as int, j, 1, d as int) >= 0),
            sf >= 2 ==> !(forall|j: int| 0 <= j < n ==> #[trigger] dot(basis, idx@, d as int, j, -1, d as int) >= 0),
            cb <= i128::MAX,
        decreases 2 - sf,
    {
        let sg: i128 = if sf == 0 { 1 } else { -1 };
        let mut good = true;
        let mut j = 0usize;
        while j < n && good
            invariant
                2 <= d <= 8,
                n <= 16,
                sg == 1 || sg == -1,
                columns_of(cols@, basis, n as int, d as int),
                b >= 0,
                entries_within(basis, n as int, d as int, b),
                cb >= 0,
                cb * b * d <= i128::MAX,
                cb <= i128::MAX,
                forall|y: int| 0 <= y < d ==> #[trigger] lamv[y] as int == lam(basis, idx@, d as int, y),
                forall|y: int| 0 <= y < d ==> absi(#[trigger] lam(basis, idx@, d as int, y)) <= cb,
                j <= n,
                good == forall|x: int| 0 <= x < j ==> #[trigger] dot(basis, idx@, d as int, x, sg as int, d as int) >= 0,
            decreases n - j,
        {
            let col = cols[j];
            let mut dt: i128 = 0;
            let mut c = 0usize;
            while c < d
                invariant
                    2 <= d <= 8,
                    j < n,
                    sg == 1 || sg == -1,
                    columns_of(cols@, basis, n as int, d as int),
                    col == cols@[j as int],
                    b >= 0,
                    entries_within(basis, n as int, d as int, b),
                    cb >= 0,
                    cb * b * d <= i128::MAX,
                    cb <= i128::MAX,
                    forall|y: int| 0 <= y < d ==> #[trigger] lamv[y] as int == lam(basis, idx@, d as int, y),
                    forall|y: int| 0 <= y < d ==> absi(#[trigger] lam(basis, idx@, d as int, y)) <= cb,
                    c <= d,
                    dt == dot(basis, idx@, d as int, j as int, sg as int, c as int),
                decreases d - c,
            {
                proof {
                    assert forall|y: int| 0 <= y < d implies absi(#[trigger] basis[y][j as int] as int) <= b by {}
                    lemma_dot_bound(basis, idx@, d as int, j as int, sg as int, c + 1, cb, b);
                    assert((c + 1) * (cb * b) <= d * (cb * b)) by (nonlinear_arith)
                        requires
                            c + 1 <= d,
                            cb >= 0,
                            b >= 0,
                    ;
                    assert(d * (cb * b) == cb * b * d) by (nonlinear_arith);
                    let l = lam(basis, idx@, d as int, c as int);
                    let e = basis[c as int][j as int] as int;
                    assert(absi(sg * l) <= cb) by (nonlinear_arith)
                        requires
                            sg == 1 || sg == -1,
                            absi(l) <= cb,
                    ;
                    assert(absi(sg * l * e) <= cb * b) by (nonlinear_arith)
                        requires
                            sg == 1 || sg == -1,
                            absi(l) <= cb,
                            absi(e) <= b,
                            cb >= 0,
                    {
                        assert(absi(sg * l * e) == absi(l) * absi(e));
                        assert(absi(l) * absi(e) <= cb * absi(e));
                        assert(cb * absi(e) <= cb * b);
                    }
                    assert(cb * b <= cb * b * d) by (nonlinear_arith)
                        requires
                            cb >= 0,
                            b >= 0,
                            d >= 1,
                    ;
                    assert(col[c as int] == basis[c as int][j as int]);
                }
                let p = sg * lamv[c];
                dt += p * (col[c] as i128);
                c += 1;
            }
            if dt < 0 {
                good = false;
            }
            j += 1;
        }
        if good {
            proof {
                if sg == 1 {
                    assert(forall|x: int| 0 <= x < n ==> #[trigger] dot(basis, idx@, d as int, x, 1, d as int) >= 0);
                } else {
                    assert(forall|x: int| 0 <= x < n ==> #[trigger] dot(basis, idx@, d as int, x, -1, d as int) >= 0);
                }
            }
            return true;
        }
        proof {
            let x = choose|x: int| 0 <= x < j && !(#[trigger] dot(basis, idx@, d as int, x, sg as int, d as int) >= 0);
            assert(0 <= x < n);
        }
        sf += 1;
    }
    false
}

/// Searches the `(d-1)`-subsets extending `idx[..pos]`, later members from `start` on.
fn cone_rec(
    start: usize,
    k: usize,
    idx: &mut Vec<usize>,
    pos: usize,
    n: usize,
    d: usize,
    cols: &Vec<[i64; 8]>,
    Ghost(basis): Ghost<Seq<[i64; 16]>>,
    Ghost(b): Ghost<int>,
) -> (r: bool)
    requires
        2 <= d <= 8,
        n <= 16,
        k == d - 1,
        basis.len() == d,
        old(idx)@.len() == k,
        pos <= k,
        start <= n,
        forall|a: int, c: int| 0 <= a < c < pos ==> #[trigger] old(idx)@[a] < #[trigger] old(idx)@[c],
        forall|a: int| 0 <= a < pos ==> #[trigger] old(idx)@[a] < start,
        columns_of(cols@, basis, n as int, d as int),
        b >= 0,
        entries_within(basis, n as int, d as int, b),
        fact(d as nat) * ipow(b, d as nat) <= i128::MAX,
    ensures
        final(idx)@.len() == k,
        final(idx)@.take(pos as int) == old(idx)@.take(pos as int),
        r == ray_from(basis, n as int, d as int, old(idx)@.take(pos as int), start as int),
    decreases k - pos,
{
    let ghost prefix = idx@.take(pos as int);
    if pos == k {
        proof {
            assert(idx@.take(pos as int) =~= idx@);
            assert(subset_of(idx@, n as int, d as int));
        }
        let r = subset_ray(idx, n, d, cols, Ghost(basis), Ghost(b));
        proof {
            if r {
                assert(subset_of(idx@, n as int, d as int) && idx@.take(pos as int) == prefix);
            } else {
                assert forall|full: Seq<usize>|
                    #[trigger] subset_of(full, n as int, d as int) && full.take(prefix.len() as int) == prefix implies !ray_ok(basis, full, n as int, d as int) by {
                    assert(full =~= full.take(prefix.len() as int));
                    assert(full =~= idx@);
                }
            }
        }
        return r;
    }
    let mut i = start;
    while i < n
        invariant
            2 <= d <= 8,
            n <= 16,
            k == d - 1,
            basis.len() == d,
            idx@.len() == k,
            pos < k,
            start <= i <= n,
            idx@.take(pos as int) == prefix,
            prefix == old(idx)@.take(pos as int),
            prefix.len() == pos,
            forall|a: int, c: int| 0 <= a < c < pos ==> #[trigger] prefix[a] < #[trigger] prefix[c],
            forall|a: int| 0 <= a < pos ==> #[trigger] prefix[a] < start,
            columns_of(cols@, basis, n as int, d as int),
            b >= 0,
            entries_within(basis, n as int, d as int, b),
            fact(d as nat) * ipow(b, d as nat) <= i128::MAX,
            forall|full: Seq<usize>|
                #[trigger] subset_of(full, n as int, d as int) && full.take(pos as int) == prefix && (forall|t: int|
                    pos <= t < full.len() ==> start <= #[trigger] full[t]) && full[pos as int] < i ==> !ray_ok(basis, full, n as int, d as int),
        decreases n - i,
    {
        let ghost pre_set = idx@;
        idx.set(pos, i);
        let ghost before = idx@;
        proof {
            assert(idx@.take(pos as int) =~= prefix) by {
                assert forall|t: int| 0 <= t < pos implies idx@[t] == prefix[t] by {
                    assert(pre_set.take(pos as int)[t] == pre_set[t]);
                }
            }
            assert forall|a: int, c: int| 0 <= a < c < pos + 1 implies #[trigger] idx@[a] < #[trigger] idx@[c] by {
                assert(idx@[a] == prefix[a]);
                if c < pos {
                    assert(idx@[c] == prefix[c]);
                }
            }
            assert forall|a: int| 0 <= a < pos + 1 implies #[trigger] idx@[a] < i + 1 by {
                if a < pos {
                    assert(idx@[a] == prefix[a]);
                }
            }
        }
        let found = cone_rec(i + 1, k, idx, pos + 1, n, d, cols, Ghost(basis), Ghost(b));
        proof {
            assert(before.take(pos + 1) =~= prefix.push(i));
            assert(idx@.take(pos + 1) == before.take(pos + 1));
            assert(idx@.take(pos as int) =~= idx@.take(pos + 1).take(pos as int));
            assert(idx@.take(pos as int) =~= prefix);
        }
        if found {
            proof {
                let full = choose|full: Seq<usize>|
                    #[trigger] subset_of(full, n as int, d as int) && full.take(prefix.len() + 1int) == prefix.push(i) && (forall|t: int|
                        prefix.len() + 1 <= t < full.len() ==> i + 1 <= #[trigger] full[t]) && ray_ok(basis, full, n as int, d as int);
                assert(full.take(pos as int) =~= prefix) by {
                    assert(full.take(pos as int) =~= full.take(pos + 1).take(pos as int));
                }
                assert(full[pos as int] == i) by {
                    assert(full.take(pos + 1)[pos as int] == i);
                }
                assert forall|t: int| prefix.len() <= t < full.len() implies start <= #[trigger] full[t] by {
                    if t > pos {
                        assert(prefix.len() + 1 <= t);
                    }
                }
                assert(subset_of(full, n as int, d as int) && full.take(prefix.len() as int) == prefix && ray_ok(basis, full, n as int, d as int));
                assert(ray_from(basis, n as int, d as int, prefix, start as int));
            }
            return true;
        }
        proof {
            assert forall|full: Seq<usize>|
                #[trigger] subset_of(full, n as int, d as int) && full.take(pos as int) == prefix && (forall|t: int|
                    pos <= t < full.len() ==> start <= #[trigger] full[t]) && full[pos as int] < i + 1 implies !ray_ok(basis, full, n as int, d as int) by {
                if full[pos as int] == i {
                    assert(full.take(pos + 1) =~= prefix.push(i)) by {
                        assert forall|t: int| 0 <= t < pos + 1 implies full.take(pos + 1)[t] == prefix.push(i)[t] by {
                            if t < pos {
                                assert(full.take(pos as int)[t] == prefix[t]);
                            }
                        }
                    }
                    assert forall|t: int| pos + 1 <= t < full.len() implies i + 1 <= #[trigger] full[t] by {
                        assert(full[pos as int] < full[t]);
                    }
                    assert(prefix.push(i).len() == pos + 1);
                }
            }
        }
        i += 1;
    }
    proof {
        assert forall|full: Seq<usize>|
            #[trigger] subset_of(full, n as int, d as int) && full.take(prefix.len() as int) == prefix && (forall|t: int|
                prefix.len() <= t < full.len() ==> start <= #[trigger] full[t]) implies !ray_ok(basis, full, n as int, d as int) by {
            assert(full[pos as int] < n);
        }
    }
    false
}

/// Does the cone `{ y = B^T lam : y >= 0 }` over the `d x n` kernel basis `B`
/// contain a nonzero point? For `d == 1`: is the single row one-signed. For
/// `d >= 2` the cone is pointed, so each extreme ray is tight on `d - 1`
/// independent constraints: try every `(d-1)`-subset of constraint normals,
/// take the cofactor vector orthogonal to them, and test both of its signs
/// against all constraints. Exact integer arithmetic.
pub fn cone_has_nonneg(basis: &[[i64; 16]], n: usize, d: usize) -> (r: bool)
    requires
        1 <= d <= 8,
        n <= 16,
        basis@.len() == d,
        cone_fits(basis@, n as int, d as int),
    ensures
        r == extreme_ray_test(basis@, n as int, d as int),
        r ==> cone_has_point(basis@, n as int, d as int),
        d == 1 ==> (r <==> cone_has_point(basis@, n as int, d as int)),
{
    proof {
        if extreme_ray_test(basis@, n as int, d as int) {
            lemma_ray_test_sound(basis@, n as int, d as int);
        }
        if d == 1 {
            lemma_ray_test_one_row(basis@, n as int);
        }
    }
    let mut cols: Vec<[i64; 8]> = Vec::new();
    let mut j = 0usize;
    while j < n
        invariant
            1 <= d <= 8,
            n <= 16,
            basis@.len() == d,
            j <= n,
            cols@.len() == j,
            forall|x: int, c: int| 0 <= x < j && 0 <= c < d ==> #[trigger] cols@[x][c] == basis@[c][x],
        decreases n - j,
    {
        let mut c = [0i64; 8];
        let mut i = 0usize;
        while i < basis.len()
            invariant
                1 <= d <= 8,
                basis@.len() == d,
                j < n <= 16,
                i <= d,
                forall|y: int| 0 <= y < i ==> #[trigger] c[y] == basis@[y][j as int],
            decreases d - i,
        {
            c[i] = basis[i][j];
            i += 1;
        }
        cols.push(c);
        j += 1;
    }
    if d == 1 {
        let mut pos = false;
        let mut neg = false;
        let mut j = 0usize;
        while j < n
            invariant
                basis@.len() == 1,
                n <= 16,
                j <= n,
                pos == exists|x: int| 0 <= x < j && #[trigger] basis@[0][x] > 0,
                neg == exists|x: int| 0 <= x < j && #[trigger] basis@[0][x] < 0,
            decreases n - j,
        {
            if basis[0][j] > 0 {
                pos = true;
            }
            if basis[0][j] < 0 {
                neg = true;
            }
            j += 1;
        }
        return !(pos && neg);
    }
    let ghost b = choose|b: int| b >= 0 && #[trigger] entries_within(basis@, n as int, d as int, b) && fact(d as nat) * ipow(b, d as nat) <= i128::MAX;
    let mut idx: Vec<usize> = vec![0usize; d - 1];
    proof {
        assert(idx@.take(0) =~= Seq::<usize>::empty());
    }
    cone_rec(0, d - 1, &mut idx, 0, n, d, &cols, Ghost(basis@), Ghost(b))
}


/// `sum_{c < k} lam[c] * basis[c][j]`: coordinate `j` of `B^T lam` over the first `k` rows.
pub open spec fn combination(basis: Seq<[i64; 16]>, lam: Seq<int>, j: int, k: int) -> int
    decreases k,
{
    if k <= 0 {
        0
    } else {
        combination(basis, lam, j, k - 1) + lam[k - 1] * basis[k - 1][j]
    }
}

/// Some nonzero `lam` in `Z^d` has `B^T lam >= 0` in every coordinate `j < n`.
pub open spec fn cone_has_point(basis: Seq<[i64; 16]>, n: int, d: int) -> bool {
    exists|lamv: Seq<int>|
        #![trigger lamv.len()]
        lamv.len() == d && (exists|c: int| 0 <= c < d && lamv[c] != 0) && forall|j: int|
            0 <= j < n ==> #[trigger] combination(basis, lamv, j, d) >= 0
}

proof fn lemma_dot_combination(basis: Seq<[i64; 16]>, idx: Seq<usize>, d: int, j: int, s: int, k: int)
    requires
        k <= d,
    ensures
        dot(basis, idx, d, j, s, k) == combination(basis, Seq::new(d as nat, |c: int| s * lam(basis, idx, d, c)), j, k),
    decreases k,
{
    if k > 0 {
        lemma_dot_combination(basis, idx, d, j, s, k - 1);
        let lv = Seq::new(d as nat, |c: int| s * lam(basis, idx, d, c));
        assert(lv[k - 1] == s * lam(basis, idx, d, k - 1));
    }
}

/// The extreme-ray test is sound: when it succeeds, a nonzero integer
/// combination `lam` of the basis rows has `B^T lam >= 0` in every coordinate.
pub proof fn lemma_ray_test_sound(basis: Seq<[i64; 16]>, n: int, d: int)
    requires
        1 <= d <= 8,
        basis.len() == d,
        extreme_ray_test(basis, n, d),
    ensures
        cone_has_point(basis, n, d),
{
    if d == 1 {
        let s: int = if exists|j: int| 0 <= j < n && #[trigger] basis[0][j] > 0 { 1 } else { -1 };
        let lv = seq![s];
        assert(lv[0] != 0);
        assert forall|j: int| 0 <= j < n implies #[trigger] combination(basis, lv, j, d) >= 0 by {
            assert(combination(basis, lv, j, 0) == 0);
            if s == 1 {
                assert(!(basis[0][j] < 0));
            } else {
                assert(!(basis[0][j] > 0));
            }
        }
        assert(lv.len() == d);
    } else {
        let full = choose|full: Seq<usize>|
            #[trigger] subset_of(full, n, d) && full.take(0) == Seq::<usize>::empty() && (forall|t: int|
                0 <= t < full.len() ==> 0 <= #[trigger] full[t]) && ray_ok(basis, full, n, d);
        let s: int = if forall|j: int| 0 <= j < n ==> #[trigger] dot(basis, full, d, j, 1, d) >= 0 { 1 } else { -1 };
        let lv = Seq::new(d as nat, |c: int| s * lam(basis, full, d, c));
        let c0 = choose|c: int| 0 <= c < d && #[trigger] lam(basis, full, d, c) != 0;
        assert(lv[c0] != 0) by (nonlinear_arith)
            requires
                lv[c0] == s * lam(basis, full, d, c0),
                s == 1 || s == -1,
                lam(basis, full, d, c0) != 0,
        ;
        assert forall|j: int| 0 <= j < n implies #[trigger] combination(basis, lv, j, d) >= 0 by {
            lemma_dot_combination(basis, full, d, j, s, d);
        }
        assert(lv.len() == d);
    }
}


/// For a single row the test is exact: it succeeds exactly when some nonzero
/// multiple of the row is nonnegative in every coordinate.
pub proof fn lemma_ray_test_one_row(basis: Seq<[i64; 16]>, n: int)
    requires
        basis.len() == 1,
    ensures
        extreme_ray_test(basis, n, 1) <==> cone_has_point(basis, n, 1),
{
    if extreme_ray_test(basis, n, 1) {
        lemma_ray_test_sound(basis, n, 1);
    }
    if cone_has_point(basis, n, 1) {
        let lv = choose|lamv: Seq<int>|
            #![trigger lamv.len()]
            lamv.len() == 1 && (exists|c: int| 0 <= c < 1 && lamv[c] != 0) && forall|j: int|
                0 <= j < n ==> #[trigger] combination(basis, lamv, j, 1) >= 0;
        assert(lv[0] != 0);
        if (exists|j: int| 0 <= j < n && #[trigger] basis[0][j] > 0) && (exists|j: int| 0 <= j < n && #[trigger] basis[0][j] < 0) {
            let jp = choose|j: int| 0 <= j < n && #[trigger] basis[0][j] > 0;
            let jm = choose|j: int| 0 <= j < n && #[trigger] basis[0][j] < 0;
            assert(combination(basis, lv, jp, 0) == 0);
            assert(combination(basis, lv, jm, 0) == 0);
            assert(combination(basis, lv, jp, 1) == lv[0] * basis[0][jp]);
            assert(combination(basis, lv, jm, 1) == lv[0] * basis[0][jm]);
            let l = lv[0];
            let bp = basis[0][jp] as int;
            let bm = basis[0][jm] as int;
            assert(false) by (nonlinear_arith)
                requires
                    l != 0,
                    bp > 0,
                    bm < 0,
                    l * bp >= 0,
                    l * bm >= 0,
            ;
        }
    }
}

} // verus!
