//! Exact integer kernels of skew payoff matrices: fraction-free Gauss-Jordan
//! elimination in `i128`, and an integer basis of the kernel read off the
//! reduced rows.
use vstd::prelude::*;
use crate::burnside::gcd_spec;
use crate::pfaffian::absi;

verus! {

/// An intermediate value left `i128`, or a basis entry left `i64` by more than
/// the guard `2^62`: where the plain-integer elimination would overflow.
#[derive(Debug, Clone, Copy, PartialEq, Eq)]
pub struct Overflow;

/// The top-left block of a 16 x 16 matrix as rows of integers.
pub open spec fn mat(a: [[i128; 16]; 16]) -> Seq<Seq<int>> {
    Seq::new(16, |i: int| Seq::new(16, |j: int| a[i][j] as int))
}

/// The same for a matrix of `i64`.
pub open spec fn mat64(m: [[i64; 16]; 16]) -> Seq<Seq<int>> {
    Seq::new(16, |i: int| Seq::new(16, |j: int| m[i][j] as int))
}

/// `sum_{j < k} u[j] x[j]`.
pub open spec fn row_dot(u: Seq<int>, x: Seq<int>, k: int) -> int
    decreases k,
{
    if k <= 0 {
        0
    } else {
        row_dot(u, x, k - 1) + u[k - 1] * x[k - 1]
    }
}

/// `x` (of length `n`) is in the kernel of the top-left `n x n` block of `a`.
pub open spec fn kernel_of(a: Seq<Seq<int>>, n: int, x: Seq<int>) -> bool {
    forall|i: int| 0 <= i < n ==> #[trigger] row_dot(a[i], x, n) == 0
}

/// `a` and `b` have the same kernel on integer vectors of length `n`.
pub open spec fn same_kernel(a: Seq<Seq<int>>, b: Seq<Seq<int>>, n: int) -> bool {
    forall|x: Seq<int>| x.len() == n ==> (#[trigger] kernel_of(a, n, x) <==> kernel_of(b, n, x))
}

/// Greatest common divisor of two nonnegative `i128`s.
pub fn gcd_i128(a: i128, b: i128) -> (r: i128)
    requires
        a >= 0,
        b >= 0,
    ensures
        r == gcd_spec(a as nat, b as nat),
        r >= 0,
    decreases b,
{
    if b == 0 {
        a
    } else {
        gcd_i128(b, a % b)
    }
}

/// The gcd divides both arguments, and is positive unless both are zero.
pub proof fn lemma_gcd_divides(a: nat, b: nat)
    ensures
        (a > 0 || b > 0) ==> gcd_spec(a, b) > 0 && a % gcd_spec(a, b) == 0 && b % gcd_spec(a, b) == 0,
        gcd_spec(a, b) <= a || b > 0,
    decreases b,
{
    if b > 0 {
        lemma_gcd_divides(b, a % b);
        let g = gcd_spec(b, a % b);
        assert(g > 0);
        let q = a / b;
        let r = a % b;
        vstd::arithmetic::div_mod::lemma_fundamental_div_mod(a as int, b as int);
        vstd::arithmetic::div_mod::lemma_fundamental_div_mod(b as int, g as int);
        vstd::arithmetic::div_mod::lemma_fundamental_div_mod(r as int, g as int);
        let kb = b / g;
        let kr = r / g;
        assert(a == g * (q * kb + kr)) by (nonlinear_arith)
            requires
                a == b * q + r,
                b == g * kb + 0,
                r == g * kr + 0,
        ;
        vstd::arithmetic::div_mod::lemma_mod_multiples_basic((q * kb + kr) as int, g as int);
        assert((g * (q * kb + kr)) == ((q * kb + kr) * g)) by (nonlinear_arith);
    }
}

/// `x / g` rounded toward zero, as Rust's `/` on signed integers.
fn div_trunc(x: i128, g: i128) -> (r: i128)
    requires
        g > 0,
        x > i128::MIN,
    ensures
        r as int == if x < 0 { -((-(x as int)) / (g as int)) } else { (x as int) / (g as int) },
        (x as int) % (g as int) == 0 ==> r * g == x,
{
    let ghost xi = x as int;
    let ghost gi = g as int;
    proof {
        if xi % gi == 0 {
            vstd::arithmetic::div_mod::lemma_fundamental_div_mod(xi, gi);
            if xi < 0 {
                let q = xi / gi;
                vstd::arithmetic::div_mod::lemma_mod_multiples_basic(-q, gi);
                assert(-xi == (-q) * gi) by (nonlinear_arith)
                    requires
                        xi == gi * q + 0,
                ;
                vstd::arithmetic::div_mod::lemma_fundamental_div_mod(-xi, gi);
                assert((-xi) % gi == 0);
                assert(((-xi) / gi) * gi == -xi) by (nonlinear_arith)
                    requires
                        -xi == gi * ((-xi) / gi) + ((-xi) % gi),
                        (-xi) % gi == 0,
                ;
                assert((-((-xi) / gi)) * gi == xi) by (nonlinear_arith)
                    requires
                        ((-xi) / gi) * gi == -xi,
                ;
            } else {
                assert((xi / gi) * gi == xi) by (nonlinear_arith)
                    requires
                        xi == gi * (xi / gi) + 0,
                ;
            }
        }
    }
    if x < 0 {
        -((-x) / g)
    } else {
        x / g
    }
}

/// `|x|`, unless `x` is `i128::MIN`.
fn abs_checked(x: i128) -> (r: Option<i128>)
    ensures
        r == if x == i128::MIN { None } else { Some(absi(x as int) as i128) },
{
    if x == i128::MIN {
        None
    } else if x < 0 {
        Some(-x)
    } else {
        Some(x)
    }
}

proof fn lemma_dot_combine(u: Seq<int>, w: Seq<int>, v: Seq<int>, x: Seq<int>, k: int, den: int, num: int)
    requires
        0 <= k,
        forall|c: int| 0 <= c < k ==> #[trigger] v[c] == u[c] * den - num * w[c],
    ensures
        row_dot(v, x, k) == den * row_dot(u, x, k) - num * row_dot(w, x, k),
    decreases k,
{
    if k > 0 {
        lemma_dot_combine(u, w, v, x, k - 1, den, num);
        let a = row_dot(u, x, k - 1);
        let b = row_dot(w, x, k - 1);
        let uc = u[k - 1];
        let wc = w[k - 1];
        let xc = x[k - 1];
        assert(den * (a + uc * xc) == den * a + den * (uc * xc)) by (nonlinear_arith);
        assert(num * (b + wc * xc) == num * b + num * (wc * xc)) by (nonlinear_arith);
        assert((uc * den - num * wc) * xc == den * (uc * xc) - num * (wc * xc)) by (nonlinear_arith);
    }
}

proof fn lemma_dot_scale(u: Seq<int>, v: Seq<int>, x: Seq<int>, k: int, g: int)
    requires
        0 <= k,
        forall|c: int| 0 <= c < k ==> #[trigger] u[c] == v[c] * g,
    ensures
        row_dot(u, x, k) == row_dot(v, x, k) * g,
    decreases k,
{
    if k > 0 {
        lemma_dot_scale(u, v, x, k - 1, g);
        let a = row_dot(v, x, k - 1);
        assert(v[k - 1] * g * x[k - 1] + a * g == (a + v[k - 1] * x[k - 1]) * g) by (nonlinear_arith);
    }
}

proof fn lemma_dot_agree(u: Seq<int>, v: Seq<int>, x: Seq<int>, k: int)
    requires
        0 <= k,
        forall|c: int| 0 <= c < k ==> #[trigger] u[c] == v[c],
    ensures
        row_dot(u, x, k) == row_dot(v, x, k),
    decreases k,
{
    if k > 0 {
        lemma_dot_agree(u, v, x, k - 1);
    }
}

/// Replacing row `r` by `(den * row_r - num * row_p) / g`, with `den != 0`,
/// `p != r` and `g >= 1` dividing the combination exactly, keeps the kernel.
proof fn lemma_row_op_kernel(a: Seq<Seq<int>>, b: Seq<Seq<int>>, n: int, r: int, p: int, den: int, num: int, g: int)
    requires
        0 <= r < n,
        0 <= p < n,
        r != p,
        den != 0,
        g >= 1,
        forall|i: int| 0 <= i < n && i != r ==> #[trigger] b[i] == a[i],
        forall|c: int| 0 <= c < n ==> #[trigger] b[r][c] * g == a[r][c] * den - num * a[p][c],
    ensures
        same_kernel(a, b, n),
{
    assert forall|x: Seq<int>| x.len() == n implies (#[trigger] kernel_of(a, n, x) <==> kernel_of(b, n, x)) by {
        let comb = Seq::new(n as nat, |c: int| a[r][c] * den - num * a[p][c]);
        lemma_dot_combine(a[r], a[p], comb, x, n, den, num);
        let scaled = Seq::new(n as nat, |c: int| b[r][c] * g);
        lemma_dot_scale(scaled, b[r], x, n, g);
        lemma_dot_agree(scaled, comb, x, n);
        let dr = row_dot(a[r], x, n);
        let dp = row_dot(a[p], x, n);
        let db = row_dot(b[r], x, n);
        assert(db * g == den * dr - num * dp);
        if kernel_of(a, n, x) {
            assert(row_dot(a[r], x, n) == 0);
            assert(row_dot(a[p], x, n) == 0);
            assert(db * g == 0) by (nonlinear_arith)
                requires
                    db * g == den * dr - num * dp,
                    dr == 0,
                    dp == 0,
            ;
            assert(db == 0) by (nonlinear_arith)
                requires
                    db * g == 0,
                    g >= 1,
            ;
            assert forall|i: int| 0 <= i < n implies #[trigger] row_dot(b[i], x, n) == 0 by {
                if i != r {
                    assert(b[i] == a[i]);
                }
            }
        }
        if kernel_of(b, n, x) {
            assert(row_dot(b[r], x, n) == 0);
            assert(row_dot(b[p], x, n) == 0);
            assert(b[p] == a[p]);
            assert(den * dr == 0) by (nonlinear_arith)
                requires
                    db * g == den * dr - num * dp,
                    db == 0,
                    dp == 0,
            ;
            assert(dr == 0) by (nonlinear_arith)
                requires
                    den * dr == 0,
                    den != 0,
            ;
            assert forall|i: int| 0 <= i < n implies #[trigger] row_dot(a[i], x, n) == 0 by {
                if i != r {
                    assert(b[i] == a[i]);
                }
            }
        }
    }
}

/// Swapping two rows keeps the kernel.
proof fn lemma_swap_kernel(a: Seq<Seq<int>>, b: Seq<Seq<int>>, n: int, r: int, p: int)
    requires
        0 <= r < n,
        0 <= p < n,
        b[r] == a[p],
        b[p] == a[r],
        forall|i: int| 0 <= i < n && i != r && i != p ==> #[trigger] b[i] == a[i],
    ensures
        same_kernel(a, b, n),
{
    assert forall|x: Seq<int>| x.len() == n implies (#[trigger] kernel_of(a, n, x) <==> kernel_of(b, n, x)) by {
        if kernel_of(a, n, x) {
            assert forall|i: int| 0 <= i < n implies #[trigger] row_dot(b[i], x, n) == 0 by {
                if i == r {
                    assert(row_dot(a[p], x, n) == 0);
                } else if i == p {
                    assert(row_dot(a[r], x, n) == 0);
                } else {
                    assert(row_dot(a[i], x, n) == 0);
                }
            }
        }
        if kernel_of(b, n, x) {
            assert forall|i: int| 0 <= i < n implies #[trigger] row_dot(a[i], x, n) == 0 by {
                if i == r {
                    assert(row_dot(b[p], x, n) == 0);
                } else if i == p {
                    assert(row_dot(b[r], x, n) == 0);
                } else {
                    assert(row_dot(b[i], x, n) == 0);
                }
            }
        }
    }
}

proof fn lemma_mod_trans(x: int, g: int, h: int)
    requires
        g > 0,
        h > 0,
        x % g == 0,
        g % h == 0,
    ensures
        x % h == 0,
{
    vstd::arithmetic::div_mod::lemma_fundamental_div_mod(x, g);
    vstd::arithmetic::div_mod::lemma_fundamental_div_mod(g, h);
    let a = x / g;
    let b = g / h;
    assert(x == (a * b) * h) by (nonlinear_arith)
        requires
            x == g * a + 0,
            g == h * b + 0,
    ;
    vstd::arithmetic::div_mod::lemma_mod_multiples_basic(a * b, h);
}

proof fn lemma_mod_neg(x: int, g: int)
    requires
        g > 0,
        x % g == 0,
    ensures
        (-x) % g == 0,
{
    vstd::arithmetic::div_mod::lemma_fundamental_div_mod(x, g);
    let a = x / g;
    assert(-x == (-a) * g) by (nonlinear_arith)
        requires
            x == g * a + 0,
    ;
    vstd::arithmetic::div_mod::lemma_mod_multiples_basic(-a, g);
}

/// The gcd of the absolute values of the first `k` entries of `v`.
pub open spec fn content_upto(v: Seq<int>, k: int) -> nat
    decreases k,
{
    if k <= 0 {
        0
    } else {
        gcd_spec(content_upto(v, k - 1), absi(v[k - 1]) as nat)
    }
}

/// The divisor a row is divided by: its content, or 1 when that is 0 or 1.
pub open spec fn divisor_of(g: nat) -> int {
    if g > 1 {
        g as int
    } else {
        1
    }
}

/// Row `r` of the combination `den * row_r - num * row_p` (`den = a[p][col]`,
/// `num = a[r][col]`).
pub open spec fn comb_row(a: Seq<Seq<int>>, r: int, p: int, col: int) -> Seq<int> {
    Seq::new(16, |c: int| a[r][c] * a[p][col] - a[r][col] * a[p][c])
}

/// Each entry of the combination, both of its products and its magnitude fit
/// in `i128` (the combination is also not `i128::MIN`).
pub open spec fn combine_fits(a: Seq<Seq<int>>, n: int, r: int, p: int, col: int) -> bool {
    forall|c: int|
        0 <= c < n ==> i128::MIN <= #[trigger] (a[r][c] * a[p][col]) <= i128::MAX && i128::MIN <= a[r][col] * a[p][c] <= i128::MAX
            && i128::MIN < comb_row(a, r, p, col)[c] <= i128::MAX
}

/// The matrix after row `r` is replaced by its combination with row `p`
/// divided by the combination's divisor (entries from `n` on untouched).
pub open spec fn combine_mat(a: Seq<Seq<int>>, n: int, r: int, p: int, col: int) -> Seq<Seq<int>> {
    let comb = comb_row(a, r, p, col);
    let g = divisor_of(content_upto(comb, n));
    a.update(r, Seq::new(16, |c: int| if c < n { comb[c] / g } else { a[r][c] }))
}

/// A row whose entries times the divisor give the combination is the
/// combination divided by the divisor.
proof fn lemma_combine_result(a: Seq<Seq<int>>, b: Seq<Seq<int>>, n: int, r: int, p: int, col: int, g: int)
    requires
        0 <= r < 16,
        0 <= n <= 16,
        a.len() == 16,
        b.len() == 16,
        forall|i: int| 0 <= i < 16 ==> #[trigger] a[i].len() == 16,
        forall|i: int| 0 <= i < 16 ==> #[trigger] b[i].len() == 16,
        g == divisor_of(content_upto(comb_row(a, r, p, col), n)),
        forall|i: int| 0 <= i < 16 && i != r ==> #[trigger] b[i] == a[i],
        forall|c: int| 0 <= c < n ==> #[trigger] b[r][c] * g == comb_row(a, r, p, col)[c],
        forall|c: int| n <= c < 16 ==> #[trigger] b[r][c] == a[r][c],
    ensures
        b == combine_mat(a, n, r, p, col),
{
    let e = combine_mat(a, n, r, p, col);
    assert(g >= 1);
    assert forall|c: int| 0 <= c < 16 implies #[trigger] b[r][c] == e[r][c] by {
        if c < n {
            let x = b[r][c];
            assert(comb_row(a, r, p, col)[c] == g * x) by (nonlinear_arith)
                requires
                    x * g == comb_row(a, r, p, col)[c],
            ;
            vstd::arithmetic::div_mod::lemma_div_multiples_vanish(x, g);
        }
    }
    assert forall|i: int| 0 <= i < 16 implies #[trigger] b[i] =~= e[i] by {
        assert(b[i].len() == 16);
        assert(a[i].len() == 16);
        if i == r {
            assert(e[r].len() == 16);
        } else {
            assert(e[i] == a[i]);
        }
    }
    assert(b =~= e);
}

/// Replaces row `r` by `den * row_r - num * row_p` (`den = a[p][col]`,
/// `num = a[r][col]`) and divides it by the gcd of its entries; returns the
/// divisor (at least 1).
fn combine_rows(a: &mut [[i128; 16]; 16], n: usize, r: usize, p: usize, col: usize) -> (res: Result<i128, Overflow>)
    requires
        n <= 16,
        r < n,
        p < n,
        col < n,
        r != p,
    ensures
        res is Ok <==> combine_fits(mat(*old(a)), n as int, r as int, p as int, col as int),
        res matches Ok(g) ==> g == divisor_of(content_upto(comb_row(mat(*old(a)), r as int, p as int, col as int), n as int)),
        res matches Ok(_) ==> mat(*final(a)) == combine_mat(mat(*old(a)), n as int, r as int, p as int, col as int),
        res matches Ok(g) ==> {
            &&& g >= 1
            &&& forall|c: int| 0 <= c < n ==> #[trigger] final(a)[r as int][c] * g == old(a)[r as int][c] * old(a)[p as int][col as int]
                - old(a)[r as int][col as int] * old(a)[p as int][c]
            &&& forall|i: int| 0 <= i < 16 && i != r ==> #[trigger] final(a)[i] == old(a)[i]
        },
{
    let num = a[r][col];
    let den = a[p][col];
    let ghost a0 = *a;
    let mut c = 0usize;
    while c < n
        invariant
            n <= 16,
            r < n,
            p < n,
            col < n,
            r != p,
            num == a0[r as int][col as int],
            den == a0[p as int][col as int],
            a0 == *old(a),
            c <= n,
            forall|x: int| 0 <= x < c ==> #[trigger] a[r as int][x] == a0[r as int][x] * den - num * a0[p as int][x],
            forall|x: int| c <= x < 16 ==> #[trigger] a[r as int][x] == a0[r as int][x],
            forall|i: int| 0 <= i < 16 && i != r ==> #[trigger] a[i] == a0[i],
            forall|x: int|
                0 <= x < c ==> i128::MIN <= #[trigger] (a0[r as int][x] * a0[p as int][col as int]) <= i128::MAX && i128::MIN <= a0[r as int][col
                    as int] * a0[p as int][x] <= i128::MAX && i128::MIN <= comb_row(mat(a0), r as int, p as int, col as int)[x] <= i128::MAX,
        decreases n - c,
    {
        proof {
            assert(mat(a0)[r as int][c as int] == a0[r as int][c as int] as int);
            assert(mat(a0)[p as int][c as int] == a0[p as int][c as int] as int);
            assert(mat(a0)[r as int][col as int] == a0[r as int][col as int] as int);
            assert(mat(a0)[p as int][col as int] == a0[p as int][col as int] as int);
        }
        let x1 = match a[r][c].checked_mul(den) {
            Some(v) => v,
            None => {
                proof {
                    assert(!(i128::MIN <= a0[r as int][c as int] * a0[p as int][col as int] <= i128::MAX));
                    assert(combine_fits(mat(a0), n as int, r as int, p as int, col as int) ==> i128::MIN <= mat(a0)[r as int][c as int] * mat(a0)[p as int][col
                        as int] <= i128::MAX && i128::MIN <= mat(a0)[r as int][col as int] * mat(a0)[p as int][c as int] <= i128::MAX && i128::MIN < comb_row(
                        mat(a0),
                        r as int,
                        p as int,
                        col as int,
                    )[c as int] <= i128::MAX);
                }
                return Err(Overflow);
            },
        };
        let x2 = match num.checked_mul(a[p][c]) {
            Some(v) => v,
            None => {
                proof {
                    assert(!(i128::MIN <= a0[r as int][col as int] * a0[p as int][c as int] <= i128::MAX));
                    assert(combine_fits(mat(a0), n as int, r as int, p as int, col as int) ==> i128::MIN <= mat(a0)[r as int][c as int] * mat(a0)[p as int][col
                        as int] <= i128::MAX && i128::MIN <= mat(a0)[r as int][col as int] * mat(a0)[p as int][c as int] <= i128::MAX && i128::MIN < comb_row(
                        mat(a0),
                        r as int,
                        p as int,
                        col as int,
                    )[c as int] <= i128::MAX);
                }
                return Err(Overflow);
            },
        };
        let x3 = match x1.checked_sub(x2) {
            Some(v) => v,
            None => {
                proof {
                    assert(!(i128::MIN <= comb_row(mat(a0), r as int, p as int, col as int)[c as int] <= i128::MAX));
                    assert(combine_fits(mat(a0), n as int, r as int, p as int, col as int) ==> i128::MIN <= mat(a0)[r as int][c as int] * mat(a0)[p as int][col
                        as int] <= i128::MAX && i128::MIN <= mat(a0)[r as int][col as int] * mat(a0)[p as int][c as int] <= i128::MAX && i128::MIN < comb_row(
                        mat(a0),
                        r as int,
                        p as int,
                        col as int,
                    )[c as int] <= i128::MAX);
                }
                return Err(Overflow);
            },
        };
        a[r][c] = x3;
        c += 1;
    }
    let ghost comb = a[r as int];
    proof {
        assert forall|x: int| n <= x < 16 implies #[trigger] comb[x] == a0[r as int][x] by {}
    }
    let mut g: i128 = 0;
    let mut c = 0usize;
    while c < n
        invariant
            n <= 16,
            r < n,
            c <= n,
            a[r as int] == comb,
            a0 == *old(a),
            forall|x: int| n <= x < 16 ==> #[trigger] comb[x] == a0[r as int][x],
            forall|i: int| 0 <= i < 16 && i != r ==> #[trigger] a[i] == a0[i],
            g >= 0,
            g > 0 ==> forall|x: int| 0 <= x < c ==> (#[trigger] comb[x] as int) % (g as int) == 0,
            g == 0 ==> forall|x: int| 0 <= x < c ==> #[trigger] comb[x] == 0,
            forall|x: int| 0 <= x < c ==> #[trigger] comb[x] > i128::MIN,
            forall|x: int| 0 <= x < n ==> #[trigger] comb[x] as int == comb_row(mat(a0), r as int, p as int, col as int)[x],
            forall|x: int|
                0 <= x < n ==> i128::MIN <= #[trigger] (a0[r as int][x] * a0[p as int][col as int]) <= i128::MAX && i128::MIN <= a0[r as int][col
                    as int] * a0[p as int][x] <= i128::MAX,
            g as nat == content_upto(comb_row(mat(a0), r as int, p as int, col as int), c as int),
        decreases n - c,
    {
        let v = match abs_checked(a[r][c]) {
            Some(v) => v,
            None => {
                proof {
                    assert(comb_row(mat(a0), r as int, p as int, col as int)[c as int] == i128::MIN);
                    assert(combine_fits(mat(a0), n as int, r as int, p as int, col as int) ==> i128::MIN <= mat(a0)[r as int][c as int] * mat(a0)[p as int][col
                        as int] <= i128::MAX && i128::MIN <= mat(a0)[r as int][col as int] * mat(a0)[p as int][c as int] <= i128::MAX && i128::MIN < comb_row(
                        mat(a0),
                        r as int,
                        p as int,
                        col as int,
                    )[c as int] <= i128::MAX);
                }
                return Err(Overflow);
            },
        };
        let g2 = gcd_i128(g, v);
        proof {
            lemma_gcd_divides(g as nat, v as nat);
            if g2 > 0 {
                assert forall|x: int| 0 <= x < c + 1 implies (#[trigger] comb[x] as int) % (g2 as int) == 0 by {
                    if x < c {
                        if g > 0 {
                            lemma_mod_trans(comb[x] as int, g as int, g2 as int);
                        } else {
                            assert(comb[x] == 0);
                        }
                    } else {
                        if comb[x] < 0 {
                            lemma_mod_neg(v as int, g2 as int);
                        }
                    }
                }
            } else {
                assert(v == 0);
            }
        }
        g = g2;
        c += 1;
    }
    proof {
        assert(combine_fits(mat(a0), n as int, r as int, p as int, col as int)) by {
            assert forall|x: int| 0 <= x < n implies i128::MIN <= #[trigger] (mat(a0)[r as int][x] * mat(a0)[p as int][col as int]) <= i128::MAX
                && i128::MIN <= mat(a0)[r as int][col as int] * mat(a0)[p as int][x] <= i128::MAX && i128::MIN < comb_row(mat(a0), r as int, p as int, col
                as int)[x] <= i128::MAX by {
                assert(comb[x] > i128::MIN);
            }
        }
    }
    if g > 1 {
        let mut c = 0usize;
        while c < n
            invariant
                n <= 16,
                r < n,
                c <= n,
                g > 1,
                forall|x: int| 0 <= x < n ==> (#[trigger] comb[x] as int) % (g as int) == 0,
                forall|x: int| 0 <= x < n ==> #[trigger] comb[x] > i128::MIN,
                forall|x: int| 0 <= x < c ==> #[trigger] a[r as int][x] * g == comb[x],
                forall|x: int| c <= x < 16 ==> #[trigger] a[r as int][x] == comb[x],
                forall|i: int| 0 <= i < 16 && i != r ==> #[trigger] a[i] == a0[i],
                forall|x: int| n <= x < 16 ==> #[trigger] comb[x] == a0[r as int][x],
                forall|x: int| 0 <= x < n ==> #[trigger] comb[x] as int == comb_row(mat(a0), r as int, p as int, col as int)[x],
                a0 == *old(a),
                g as nat == content_upto(comb_row(mat(a0), r as int, p as int, col as int), n as int),
            decreases n - c,
        {
            let q = div_trunc(a[r][c], g);
            a[r][c] = q;
            c += 1;
        }
        proof {
            lemma_combine_result(mat(a0), mat(*a), n as int, r as int, p as int, col as int, g as int);
        }
        Ok(g)
    } else {
        proof {
            assert forall|x: int| 0 <= x < n implies #[trigger] a[r as int][x] * 1 == comb[x] by {}
            lemma_combine_result(mat(a0), mat(*a), n as int, r as int, p as int, col as int, 1);
        }
        Ok(1)
    }
}

/// Number of set flags among the first `k`.
pub open spec fn count_set(f: Seq<bool>, k: int) -> int
    decreases k,
{
    if k <= 0 {
        0
    } else {
        count_set(f, k - 1) + if f[k - 1] { 1int } else { 0int }
    }
}

proof fn lemma_count_same(f: Seq<bool>, g: Seq<bool>, k: int)
    requires
        forall|c: int| 0 <= c < k ==> #[trigger] f[c] == g[c],
    ensures
        count_set(f, k) == count_set(g, k),
    decreases k,
{
    if k > 0 {
        lemma_count_same(f, g, k - 1);
    }
}

proof fn lemma_count_tail(f: Seq<bool>, a: int, b: int)
    requires
        0 <= a <= b,
        forall|c: int| a <= c < b ==> !#[trigger] f[c],
    ensures
        count_set(f, b) == count_set(f, a),
    decreases b - a,
{
    if b > a {
        lemma_count_tail(f, a, b - 1);
    }
}

/// The loop state of the elimination after the columns before `col`: `row`
/// pivot rows whose pivots `pc[r]` increase, sit alone in their columns and
/// are flagged in `ip`; the rows from `row` on vanish before `col`.
pub open spec fn echelon(a: Seq<Seq<int>>, pc: Seq<usize>, ip: Seq<bool>, row: int, n: int, col: int) -> bool {
    &&& 0 <= row <= col <= n <= 16
    &&& pc.len() == 16
    &&& ip.len() == 16
    &&& forall|r: int| 0 <= r < row ==> #[trigger] pc[r] < col
    &&& forall|r1: int, r2: int| 0 <= r1 < r2 < row ==> #[trigger] pc[r1] < #[trigger] pc[r2]
    &&& forall|r: int| 0 <= r < row ==> #[trigger] ip[pc[r] as int]
    &&& forall|c: int| 0 <= c < 16 && #[trigger] ip[c] ==> c < col && exists|r: int| 0 <= r < row && pc[r] == c
    &&& forall|r: int| 0 <= r < row ==> #[trigger] a[r][pc[r] as int] != 0
    &&& forall|i: int, r: int| 0 <= i < n && 0 <= r < row && i != r ==> #[trigger] a[i][pc[r] as int] == 0
    &&& forall|i: int, c: int| row <= i < n && 0 <= c < col ==> #[trigger] a[i][c] == 0
    &&& count_set(ip, col) == row
}

proof fn lemma_same_kernel_trans(a: Seq<Seq<int>>, b: Seq<Seq<int>>, c: Seq<Seq<int>>, n: int)
    requires
        same_kernel(b, a, n),
        same_kernel(b, c, n),
    ensures
        same_kernel(a, c, n),
{
    assert forall|x: Seq<int>| x.len() == n implies (#[trigger] kernel_of(a, n, x) <==> kernel_of(c, n, x)) by {
        assert(kernel_of(b, n, x) <==> kernel_of(a, n, x));
        assert(kernel_of(b, n, x) <==> kernel_of(c, n, x));
    }
}

/// The matrix the elimination starts from: the top-left `n x n` block of
/// `m`, zero elsewhere.
pub open spec fn init_mat(m: [[i64; 16]; 16], n: int) -> Seq<Seq<int>> {
    Seq::new(16, |i: int| Seq::new(16, |j: int| if i < n && j < n { m[i][j] as int } else { 0 }))
}

/// The first row from `r` on (below `n`) with a nonzero entry in column `col`; `n` if none.
pub open spec fn first_nz(a: Seq<Seq<int>>, col: int, r: int, n: int) -> int
    decreases n - r,
{
    if r >= n {
        n
    } else if a[r][col] != 0 {
        r
    } else {
        first_nz(a, col, r + 1, n)
    }
}

/// `a` with rows `i` and `j` exchanged.
pub open spec fn swap_rows(a: Seq<Seq<int>>, i: int, j: int) -> Seq<Seq<int>> {
    a.update(i, a[j]).update(j, a[i])
}

/// Clearing column `col` against the pivot row `row`, from row `q` on: each
/// other row with a nonzero entry there is combined with the pivot row;
/// `None` as soon as a combination leaves `i128`.
pub open spec fn clear_col(a: Seq<Seq<int>>, n: int, row: int, col: int, q: int) -> Option<Seq<Seq<int>>>
    decreases n - q,
{
    if q >= n {
        Some(a)
    } else if q != row && a[q][col] != 0 {
        if combine_fits(a, n, q, row, col) {
            clear_col(combine_mat(a, n, q, row, col), n, row, col, q + 1)
        } else {
            None
        }
    } else {
        clear_col(a, n, row, col, q + 1)
    }
}

/// The elimination from column `col` with the pivot columns `pcs` of the
/// pivot rows found so far: the reduced matrix, the number of pivot rows and
/// their pivot columns, or `None` where some combination leaves `i128`.
pub open spec fn elim_from(a: Seq<Seq<int>>, n: int, col: int, pcs: Seq<int>) -> Option<(Seq<Seq<int>>, int, Seq<int>)>
    decreases n - col,
{
    let row = pcs.len() as int;
    if col >= n || row >= n {
        Some((a, row, pcs))
    } else {
        let pr = first_nz(a, col, row, n);
        if pr >= n {
            elim_from(a, n, col + 1, pcs)
        } else {
            match clear_col(swap_rows(a, row, pr), n, row, col, 0) {
                Some(b) => elim_from(b, n, col + 1, pcs.push(col)),
                None => None,
            }
        }
    }
}

/// The elimination of the top-left `n x n` block of `m`.
pub open spec fn elimination(m: [[i64; 16]; 16], n: int) -> Option<(Seq<Seq<int>>, int, Seq<int>)> {
    elim_from(init_mat(m, n), n, 0, Seq::empty())
}

/// The first `row` pivot columns as integers.
pub open spec fn pcs_of(pc: Seq<usize>, row: int) -> Seq<int> {
    Seq::new(row as nat, |r: int| pc[r] as int)
}

/// Fraction-free Gauss-Jordan elimination of the top-left `n x n` block of
/// `m`: rows are combined as `den * row - num * pivot_row` and divided by the
/// gcd of their entries. Returns the reduced matrix, the pivot column of each
/// pivot row, the pivot flags of the columns, and the number of pivot rows.
fn eliminate(m: &[[i64; 16]; 16], n: usize) -> (res: Result<([[i128; 16]; 16], [usize; 16], [bool; 16], usize), Overflow>)
    requires
        n <= 16,
    ensures
        res is Ok <==> elimination(*m, n as int) is Some,
        res matches Ok((a, pc, ip, row)) ==> elimination(*m, n as int) == Some((mat(a), row as int, pcs_of(pc@, row as int))),
        res matches Ok((a, pc, ip, row)) ==> {
            &&& same_kernel(mat(a), mat64(*m), n as int)
            &&& echelon(mat(a), pc@, ip@, row as int, n as int, n as int)
            &&& (row < n ==> forall|i: int, c: int| row <= i < n && 0 <= c < n ==> #[trigger] mat(a)[i][c] == 0)
            &&& count_set(ip@, n as int) == row
            &&& forall|c: int| n <= c < 16 ==> !#[trigger] ip@[c]
        },
{
    let mut a = [[0i128; 16]; 16];
    let mut i = 0usize;
    while i < n
        invariant
            n <= 16,
            i <= n,
            forall|x: int, y: int| 0 <= x < 16 && 0 <= y < 16 ==> #[trigger] a[x][y] == if x < i && y < n { m[x][y] as i128 } else { 0 },
        decreases n - i,
    {
        let mut j = 0usize;
        while j < n
            invariant
                n <= 16,
                i < n,
                j <= n,
                forall|x: int, y: int| 0 <= x < 16 && 0 <= y < 16 ==> #[trigger] a[x][y] == if (x < i && y < n) || (x == i && y < j) {
                    m[x][y] as i128
                } else {
                    0
                },
            decreases n - j,
        {
            a[i][j] = m[i][j] as i128;
            j += 1;
        }
        i += 1;
    }
    proof {
        assert forall|x: Seq<int>| x.len() == n implies (#[trigger] kernel_of(mat(a), n as int, x) <==> kernel_of(mat64(*m), n as int, x)) by {
            assert forall|r: int| 0 <= r < n implies #[trigger] row_dot(mat(a)[r], x, n as int) == row_dot(mat64(*m)[r], x, n as int) by {
                assert forall|c: int| 0 <= c < n implies #[trigger] mat(a)[r][c] == mat64(*m)[r][c] by {}
                lemma_dot_agree(mat(a)[r], mat64(*m)[r], x, n as int);
            }
            if kernel_of(mat(a), n as int, x) {
                assert forall|r: int| 0 <= r < n implies #[trigger] row_dot(mat64(*m)[r], x, n as int) == 0 by {
                    assert(row_dot(mat(a)[r], x, n as int) == 0);
                }
            }
            if kernel_of(mat64(*m), n as int, x) {
                assert forall|r: int| 0 <= r < n implies #[trigger] row_dot(mat(a)[r], x, n as int) == 0 by {
                    assert(row_dot(mat64(*m)[r], x, n as int) == 0);
                }
            }
        }
    }
    proof {
        assert forall|i: int| 0 <= i < 16 implies #[trigger] mat(a)[i] =~= init_mat(*m, n as int)[i] by {}
        assert(mat(a) =~= init_mat(*m, n as int));
    }
    let ghost init = init_mat(*m, n as int);
    let mut piv_col = [usize::MAX; 16];
    let mut is_piv = [false; 16];
    let mut row = 0usize;
    let mut col = 0usize;
    proof {
        assert(count_set(is_piv@, 0) == 0);
        assert(pcs_of(piv_col@, 0) =~= Seq::<int>::empty());
    }
    while col < n && row < n
        invariant
            n <= 16,
            col <= n,
            same_kernel(mat(a), mat64(*m), n as int),
            echelon(mat(a), piv_col@, is_piv@, row as int, n as int, col as int),
            forall|c: int| col <= c < 16 ==> !#[trigger] is_piv@[c],
            init == init_mat(*m, n as int),
            elimination(*m, n as int) == elim_from(mat(a), n as int, col as int, pcs_of(piv_col@, row as int)),
        decreases n - col,
    {
        let mut pr = n;
        let mut r = row;
        while r < n && pr == n
            invariant
                n <= 16,
                row <= r <= n,
                col < n,
                pr == n || (row <= pr < n && a[pr as int][col as int] != 0),
                pr == n ==> forall|x: int| row <= x < r ==> #[trigger] a[x][col as int] == 0,
                pr == n ==> first_nz(mat(a), col as int, row as int, n as int) == first_nz(mat(a), col as int, r as int, n as int),
                pr < n ==> first_nz(mat(a), col as int, row as int, n as int) == pr,
            decreases n - r,
        {
            proof {
                assert(mat(a)[r as int][col as int] == a[r as int][col as int] as int);
            }
            if a[r][col] != 0 {
                pr = r;
            }
            r += 1;
        }
        if pr == n {
            proof {
                let am = mat(a);
                assert forall|x: int, c: int| row <= x < n && 0 <= c < col + 1 implies #[trigger] am[x][c] == 0 by {
                    if c == col {
                        assert(a[x][c] == 0);
                    }
                }
                assert(count_set(is_piv@, col + 1) == count_set(is_piv@, col as int));
                assert(first_nz(mat(a), col as int, row as int, n as int) == n);
            }
            col += 1;
        } else {
            let ghost a_pre = mat(a);
            let ghost sw = swap_rows(a_pre, row as int, pr as int);
            let tmp = a[row];
            a[row] = a[pr];
            a[pr] = tmp;
            proof {
                let am = mat(a);
                assert forall|i: int| 0 <= i < 16 implies #[trigger] am[i] =~= sw[i] by {}
                assert(am =~= sw);
                if pr != row {
                    lemma_swap_kernel(a_pre, am, n as int, row as int, pr as int);
                    lemma_same_kernel_trans(am, a_pre, mat64(*m), n as int);
                } else {
                    assert(am =~= a_pre);
                }
                assert forall|x: int| 0 <= x < 16 && x != row && x != pr implies #[trigger] am[x] == a_pre[x] by {}
                assert(am[row as int] == a_pre[pr as int]);
                assert(am[pr as int] == a_pre[row as int]);
                assert forall|rr: int| 0 <= rr < row implies #[trigger] am[rr][piv_col@[rr] as int] != 0 by {
                    assert(am[rr] == a_pre[rr]);
                }
                assert forall|i: int, rr: int| 0 <= i < n && 0 <= rr < row && i != rr implies #[trigger] am[i][piv_col@[rr] as int] == 0 by {
                    if i == row {
                        assert(a_pre[pr as int][piv_col@[rr] as int] == 0);
                    } else if i == pr {
                        assert(a_pre[row as int][piv_col@[rr] as int] == 0);
                    } else {
                        assert(am[i] == a_pre[i]);
                    }
                }
                assert forall|i: int, c: int| row <= i < n && 0 <= c < col implies #[trigger] am[i][c] == 0 by {
                    if i == row {
                        assert(a_pre[pr as int][c] == 0);
                    } else if i == pr {
                        assert(a_pre[row as int][c] == 0);
                    } else {
                        assert(am[i] == a_pre[i]);
                    }
                }
            }
            let den = a[row][col];
            let mut q = 0usize;
            while q < n
                invariant
                    n <= 16,
                    row < n,
                    col < n,
                    q <= n,
                    den == a[row as int][col as int],
                    den != 0,
                    same_kernel(mat(a), mat64(*m), n as int),
                    echelon(mat(a), piv_col@, is_piv@, row as int, n as int, col as int),
                    forall|c: int| col <= c < 16 ==> !#[trigger] is_piv@[c],
                    forall|x: int| 0 <= x < q && x != row ==> #[trigger] a[x][col as int] == 0,
                    init == init_mat(*m, n as int),
                    elimination(*m, n as int) == elim_from(a_pre, n as int, col as int, pcs_of(piv_col@, row as int)),
                    first_nz(a_pre, col as int, row as int, n as int) == pr,
                    pr < n,
                    sw == swap_rows(a_pre, row as int, pr as int),
                    clear_col(sw, n as int, row as int, col as int, 0) == clear_col(mat(a), n as int, row as int, col as int, q as int),
                decreases n - q,
            {
                proof {
                    assert(mat(a)[q as int][col as int] == a[q as int][col as int] as int);
                }
                if q != row && a[q][col] != 0 {
                    let ghost before = mat(a);
                    let ghost pivrow = a[row as int];
                    match combine_rows(&mut a, n, q, row, col) {
                        Ok(g) => {
                            proof {
                                let after = mat(a);
                                let num = before[q as int][col as int];
                                assert forall|i: int| 0 <= i < n && i != q implies #[trigger] after[i] == before[i] by {
                                    assert(after[i] =~= before[i]);
                                }
                                assert forall|c: int| 0 <= c < n implies #[trigger] after[q as int][c] * g == before[q as int][c] * den
                                    - num * before[row as int][c] by {}
                                lemma_row_op_kernel(before, after, n as int, q as int, row as int, den as int, num, g as int);
                                lemma_same_kernel_trans(after, before, mat64(*m), n as int);
                                assert(after[q as int][col as int] * g == 0);
                                assert(after[q as int][col as int] == 0) by (nonlinear_arith)
                                    requires
                                        after[q as int][col as int] * g == 0,
                                        g >= 1,
                                ;
                                assert forall|rr: int| 0 <= rr < row implies #[trigger] after[rr][piv_col@[rr] as int] != 0 by {
                                    if rr == q {
                                        let pcc = piv_col@[rr] as int;
                                        assert(before[row as int][pcc] == 0);
                                        let bq = before[q as int][pcc];
                                        let aq = after[q as int][pcc];
                                        assert(aq * g == bq * den);
                                        assert(aq != 0) by (nonlinear_arith)
                                            requires
                                                aq * g == bq * den,
                                                bq != 0,
                                                den != 0,
                                        ;
                                    }
                                }
                                assert forall|i: int, rr: int| 0 <= i < n && 0 <= rr < row && i != rr implies #[trigger] after[i][piv_col@[rr]
                                    as int] == 0 by {
                                    if i == q {
                                        let pcc = piv_col@[rr] as int;
                                        let aq = after[q as int][pcc];
                                        assert(before[q as int][pcc] == 0);
                                        assert(before[row as int][pcc] == 0);
                                        assert(aq * g == 0);
                                        assert(aq == 0) by (nonlinear_arith)
                                            requires
                                                aq * g == 0,
                                                g >= 1,
                                        ;
                                    }
                                }
                                assert forall|i: int, c: int| row <= i < n && 0 <= c < col implies #[trigger] after[i][c] == 0 by {
                                    if i == q {
                                        let aq = after[q as int][c];
                                        assert(before[q as int][c] == 0);
                                        assert(before[row as int][c] == 0);
                                        assert(aq * g == 0);
                                        assert(aq == 0) by (nonlinear_arith)
                                            requires
                                                aq * g == 0,
                                                g >= 1,
                                        ;
                                    }
                                }
                                assert forall|x: int| 0 <= x < q + 1 && x != row implies #[trigger] a[x][col as int] == 0 by {
                                    if x != q {
                                        assert(after[x] == before[x]);
                                    }
                                }
                            }
                        },
                        Err(e) => {
                            proof {
                                assert(clear_col(before, n as int, row as int, col as int, q as int) is None);
                                assert(elim_from(a_pre, n as int, col as int, pcs_of(piv_col@, row as int)) is None);
                            }
                            return Err(e);
                        },
                    }
                }
                q += 1;
            }
            proof {
                assert(clear_col(mat(a), n as int, row as int, col as int, n as int) == Some(mat(a)));
                assert(elim_from(a_pre, n as int, col as int, pcs_of(piv_col@, row as int)) == elim_from(mat(a), n as int, col + 1, pcs_of(
                    piv_col@,
                    row as int,
                ).push(col as int)));
                let am = mat(a);
                let old_pc = piv_col@;
                let old_ip = is_piv@;
                assert(forall|x: int| 0 <= x < n && x != row ==> #[trigger] am[x][col as int] == 0);
            }
            let ghost ip0 = is_piv@;
            let ghost pc0 = piv_col@;
            is_piv[col] = true;
            piv_col[row] = col;
            proof {
                assert(pcs_of(piv_col@, row + 1) =~= pcs_of(pc0, row as int).push(col as int));
                let am = mat(a);
                let pcs = piv_col@;
                let ips = is_piv@;
                assert forall|r: int| 0 <= r < row implies #[trigger] pcs[r] == pc0[r] by {}
                assert forall|c: int| 0 <= c < 16 && c != col implies #[trigger] ips[c] == ip0[c] by {}
                assert(count_set(ips, col + 1) == row + 1) by {
                    lemma_count_same(ips, ip0, col as int);
                }
                assert forall|c: int| 0 <= c < 16 && #[trigger] ips[c] implies c < col + 1 && exists|r: int| 0 <= r < row + 1 && pcs[r] == c by {
                    if c != col {
                        assert(ip0[c]);
                        let r = choose|r: int| 0 <= r < row && pc0[r] == c;
                        assert(pcs[r] == c);
                    } else {
                        assert(pcs[row as int] == c);
                    }
                }
                assert forall|x: int, c: int| row + 1 <= x < n && 0 <= c < col + 1 implies #[trigger] am[x][c] == 0 by {}
                assert forall|i: int, rr: int| 0 <= i < n && 0 <= rr < row + 1 && i != rr implies #[trigger] am[i][pcs[rr] as int] == 0 by {
                    if rr == row {
                        assert(pcs[rr] == col);
                    }
                }
            }
            row += 1;
            col += 1;
        }
    }
    proof {
        let am = mat(a);
        lemma_count_tail(is_piv@, col as int, n as int);
        if row < n {
            assert(col == n);
        }
    }
    Ok((a, piv_col, is_piv, row))
}

/// The pivot row whose pivot sits in column `j`.
pub open spec fn pivot_row(pc: Seq<usize>, row: int, j: int) -> int {
    choose|r: int| 0 <= r < row && pc[r] == j
}

/// The kernel vector of the reduced rows for the free column `f`, scaled by
/// `l` (a common multiple of the pivots): `l` at `f`, `-a[r][f] * l / a[r][pc[r]]`
/// at each pivot column, zero elsewhere.
pub open spec fn free_vector(a: Seq<Seq<int>>, pc: Seq<usize>, ip: Seq<bool>, row: int, n: int, f: int, l: int) -> Seq<int> {
    Seq::new(
        n as nat,
        |j: int|
            if j == f {
                l
            } else if ip[j] {
                -a[pivot_row(pc, row, j)][f] * (l / a[pivot_row(pc, row, j)][j])
            } else {
                0
            },
    )
}

/// The reduced form the elimination ends in: an echelon state in which the
/// rows from `row` on vanish entirely.
pub open spec fn reduced(a: Seq<Seq<int>>, pc: Seq<usize>, ip: Seq<bool>, row: int, n: int) -> bool {
    &&& exists|col: int| row <= col <= n && echelon(a, pc, ip, row, n, col)
    &&& forall|i: int, c: int| row <= i < n && 0 <= c < n ==> #[trigger] a[i][c] == 0
}

proof fn lemma_reduced_facts(a: Seq<Seq<int>>, pc: Seq<usize>, ip: Seq<bool>, row: int, n: int)
    requires
        reduced(a, pc, ip, row, n),
    ensures
        0 <= row <= n <= 16,
        pc.len() == 16,
        ip.len() == 16,
        forall|r: int| 0 <= r < row ==> #[trigger] pc[r] < n,
        forall|r1: int, r2: int| 0 <= r1 < r2 < row ==> #[trigger] pc[r1] < #[trigger] pc[r2],
        forall|r: int| 0 <= r < row ==> #[trigger] ip[pc[r] as int],
        forall|c: int| 0 <= c < 16 && #[trigger] ip[c] ==> c < n && 0 <= pivot_row(pc, row, c) < row && pc[pivot_row(pc, row, c)] == c,
        forall|r: int| 0 <= r < row ==> #[trigger] a[r][pc[r] as int] != 0,
        forall|i: int, r: int| 0 <= i < n && 0 <= r < row && i != r ==> #[trigger] a[i][pc[r] as int] == 0,
        forall|r: int| 0 <= r < row ==> #[trigger] pivot_row(pc, row, pc[r] as int) == r,
{
    let col = choose|col: int| row <= col <= n && echelon(a, pc, ip, row, n, col);
    assert forall|c: int| 0 <= c < 16 && #[trigger] ip[c] implies c < n && 0 <= pivot_row(pc, row, c) < row && pc[pivot_row(pc, row, c)] == c by {
        assert(exists|r: int| 0 <= r < row && pc[r] == c);
    }
    assert forall|r: int| 0 <= r < row implies #[trigger] pivot_row(pc, row, pc[r] as int) == r by {
        let c = pc[r] as int;
        assert(exists|r2: int| 0 <= r2 < row && pc[r2] == c);
        let r2 = pivot_row(pc, row, c);
        if r2 < r {
            assert(pc[r2] < pc[r]);
        } else if r2 > r {
            assert(pc[r] < pc[r2]);
        }
    }
}

proof fn lemma_dot_zero(u: Seq<int>, x: Seq<int>, k: int)
    requires
        0 <= k,
        forall|j: int| 0 <= j < k ==> #[trigger] u[j] * x[j] == 0,
    ensures
        row_dot(u, x, k) == 0,
    decreases k,
{
    if k > 0 {
        lemma_dot_zero(u, x, k - 1);
    }
}

proof fn lemma_dot_two(u: Seq<int>, x: Seq<int>, k: int, p: int, q: int)
    requires
        0 <= k,
        p != q,
        forall|j: int| 0 <= j < k && j != p && j != q ==> #[trigger] u[j] * x[j] == 0,
    ensures
        row_dot(u, x, k) == (if 0 <= p < k { u[p] * x[p] } else { 0 }) + (if 0 <= q < k { u[q] * x[q] } else { 0 }),
    decreases k,
{
    if k > 0 {
        lemma_dot_two(u, x, k - 1, p, q);
    }
}

/// Each free vector lies in the kernel of the reduced rows.
proof fn lemma_free_vector_kernel(a: Seq<Seq<int>>, pc: Seq<usize>, ip: Seq<bool>, row: int, n: int, f: int, l: int)
    requires
        reduced(a, pc, ip, row, n),
        0 <= f < n,
        !ip[f],
        forall|r: int| 0 <= r < row ==> l % #[trigger] a[r][pc[r] as int] == 0,
    ensures
        kernel_of(a, n, free_vector(a, pc, ip, row, n, f, l)),
{
    lemma_reduced_facts(a, pc, ip, row, n);
    let v = free_vector(a, pc, ip, row, n, f, l);
    assert forall|i: int| 0 <= i < n implies #[trigger] row_dot(a[i], v, n) == 0 by {
        if i < row {
            let p = pc[i] as int;
            assert(p != f);
            assert forall|j: int| 0 <= j < n && j != p && j != f implies #[trigger] a[i][j] * v[j] == 0 by {
                if ip[j] {
                    let r2 = pivot_row(pc, row, j);
                    assert(r2 != i);
                    assert(a[i][pc[r2] as int] == 0);
                } else {
                    assert(v[j] == 0);
                }
            }
            lemma_dot_two(a[i], v, n, p, f);
            let piv = a[i][p];
            let e = a[i][f];
            assert(v[p] == -e * (l / piv));
            assert(l % piv == 0);
            vstd::arithmetic::div_mod::lemma_fundamental_div_mod(l, piv);
            assert(piv * (-e * (l / piv)) + e * l == 0) by (nonlinear_arith)
                requires
                    l == piv * (l / piv) + 0,
            ;
        } else {
            assert forall|j: int| 0 <= j < n implies #[trigger] a[i][j] * v[j] == 0 by {
                assert(a[i][j] == 0);
            }
            lemma_dot_zero(a[i], v, n);
        }
    }
}

/// A kernel vector of the reduced rows that vanishes on every free column vanishes.
proof fn lemma_free_columns_span(a: Seq<Seq<int>>, pc: Seq<usize>, ip: Seq<bool>, row: int, n: int, x: Seq<int>)
    requires
        reduced(a, pc, ip, row, n),
        x.len() == n,
        kernel_of(a, n, x),
        forall|c: int| 0 <= c < n && !ip[c] ==> #[trigger] x[c] == 0,
    ensures
        forall|j: int| 0 <= j < n ==> #[trigger] x[j] == 0,
{
    lemma_reduced_facts(a, pc, ip, row, n);
    assert forall|j: int| 0 <= j < n implies #[trigger] x[j] == 0 by {
        if ip[j] {
            let i = pivot_row(pc, row, j);
            assert forall|t: int| 0 <= t < n && t != j && t != j implies #[trigger] a[i][t] * x[t] == 0 by {
                if ip[t] {
                    let r2 = pivot_row(pc, row, t);
                    assert(r2 != i);
                    assert(a[i][pc[r2] as int] == 0);
                } else {
                    assert(x[t] == 0);
                }
            }
            lemma_dot_two(a[i], x, n, j, -1);
            assert(row_dot(a[i], x, n) == 0);
            let piv = a[i][j];
            let xj = x[j];
            assert(piv * xj == 0);
            assert(xj == 0) by (nonlinear_arith)
                requires
                    piv * xj == 0,
                    piv != 0,
            ;
        }
    }
}

/// Product of the pivots of the first `k` pivot rows.
pub open spec fn pivot_product(a: Seq<Seq<int>>, pc: Seq<usize>, k: int) -> int
    decreases k,
{
    if k <= 0 {
        1
    } else {
        pivot_product(a, pc, k - 1) * a[k - 1][pc[k - 1] as int]
    }
}

proof fn lemma_pivot_product(a: Seq<Seq<int>>, pc: Seq<usize>, k: int)
    requires
        forall|r: int| 0 <= r < k ==> #[trigger] a[r][pc[r] as int] != 0,
    ensures
        pivot_product(a, pc, k) != 0,
        forall|r: int| 0 <= r < k ==> pivot_product(a, pc, k) % #[trigger] a[r][pc[r] as int] == 0,
    decreases k,
{
    if k > 0 {
        lemma_pivot_product(a, pc, k - 1);
        let p = pivot_product(a, pc, k - 1);
        let v = a[k - 1][pc[k - 1] as int];
        assert(p * v != 0) by (nonlinear_arith)
            requires
                p != 0,
                v != 0,
        ;
        assert forall|r: int| 0 <= r < k implies (p * v) % #[trigger] a[r][pc[r] as int] == 0 by {
            let w = a[r][pc[r] as int];
            if r == k - 1 {
                lemma_mod_mult_any(p, w);
            } else {
                assert(p % w == 0);
                lemma_mod_times(p, v, w);
            }
        }
    }
}

/// `(q * d) % d == 0` for any nonzero `d`.
proof fn lemma_mod_mult_any(q: int, d: int)
    requires
        d != 0,
    ensures
        (q * d) % d == 0,
{
    if d > 0 {
        vstd::arithmetic::div_mod::lemma_mod_multiples_basic(q, d);
    } else {
        vstd::arithmetic::div_mod::lemma_fundamental_div_mod(q * d, d);
        let r = (q * d) % d;
        let t = (q * d) / d;
        assert(0 <= r < -d);
        assert(d * (q - t) == r) by (nonlinear_arith)
            requires
                q * d == d * t + r,
        ;
        assert(r == 0) by (nonlinear_arith)
            requires
                d * (q - t) == r,
                0 <= r < -d,
                d < 0,
        ;
    }
}

/// `x % d == 0` implies `(x * v) % d == 0`.
proof fn lemma_mod_times(x: int, v: int, d: int)
    requires
        d != 0,
        x % d == 0,
    ensures
        (x * v) % d == 0,
{
    vstd::arithmetic::div_mod::lemma_fundamental_div_mod(x, d);
    let k = x / d;
    assert(x * v == (k * v) * d) by (nonlinear_arith)
        requires
            x == d * k + 0,
    ;
    lemma_mod_mult_any(k * v, d);
}

/// The free columns `F` give the kernel of `m` its dimension `F.len()`: for
/// each there is a kernel vector nonzero there and zero on the others, and a
/// kernel vector zero on all of them is zero.
pub open spec fn frame_of(m: Seq<Seq<int>>, n: int, f: Seq<int>) -> bool {
    &&& forall|t: int| 0 <= t < f.len() ==> 0 <= #[trigger] f[t] < n
    &&& forall|t1: int, t2: int| 0 <= t1 < t2 < f.len() ==> #[trigger] f[t1] < #[trigger] f[t2]
    &&& forall|t: int| 0 <= t < f.len() ==> #[trigger] witness_for(m, n, f, t)
    &&& forall|x: Seq<int>|
        x.len() == n && #[trigger] kernel_of(m, n, x) && (forall|t: int| 0 <= t < f.len() ==> x[#[trigger] f[t]] == 0) ==> forall|j: int|
            0 <= j < n ==> #[trigger] x[j] == 0
}

/// Some kernel vector of `m` is nonzero at column `f[t]` and zero at the other columns of `f`.
pub open spec fn witness_for(m: Seq<Seq<int>>, n: int, f: Seq<int>, t: int) -> bool {
    exists|w: Seq<int>|
        w.len() == n && #[trigger] kernel_of(m, n, w) && w[f[t]] != 0 && (forall|s: int| 0 <= s < f.len() && s != t ==> w[#[trigger] f[s]] == 0)
}

/// A row of the basis as integers.
pub open spec fn vec_of(v: [i64; 16], n: int) -> Seq<int> {
    Seq::new(n as nat, |j: int| v[j] as int)
}

/// `b` is a kernel basis of `m` adapted to the columns `F`: one vector per
/// column of `F`, nonzero there and zero at the others, zero past `n`.
pub open spec fn basis_of(m: Seq<Seq<int>>, n: int, f: Seq<int>, b: Seq<[i64; 16]>) -> bool {
    &&& b.len() == f.len()
    &&& forall|t: int| 0 <= t < b.len() ==> #[trigger] kernel_of(m, n, vec_of(b[t], n))
    &&& forall|t: int| 0 <= t < b.len() ==> #[trigger] b[t][f[t]] != 0
    &&& forall|t: int, s: int| 0 <= t < b.len() && 0 <= s < b.len() && t != s ==> #[trigger] b[t][f[s]] == 0
    &&& forall|t: int, c: int| 0 <= t < b.len() && n <= c < 16 ==> #[trigger] b[t][c] == 0
}

/// The free (non-pivot) columns below `k`, in increasing order.
pub open spec fn free_cols(ip: Seq<bool>, k: int) -> Seq<int>
    decreases k,
{
    if k <= 0 {
        Seq::empty()
    } else if !ip[k - 1] {
        free_cols(ip, k - 1).push(k - 1)
    } else {
        free_cols(ip, k - 1)
    }
}

proof fn lemma_free_cols(ip: Seq<bool>, k: int)
    requires
        0 <= k,
    ensures
        free_cols(ip, k).len() == k - count_set(ip, k),
        forall|t: int| 0 <= t < free_cols(ip, k).len() ==> 0 <= #[trigger] free_cols(ip, k)[t] < k && !ip[free_cols(ip, k)[t]],
        forall|t1: int, t2: int| 0 <= t1 < t2 < free_cols(ip, k).len() ==> #[trigger] free_cols(ip, k)[t1] < #[trigger] free_cols(ip, k)[t2],
        forall|c: int| 0 <= c < k && !ip[c] ==> #[trigger] free_cols(ip, k)[c - count_set(ip, c)] == c,
        forall|c: int| 0 <= c <= k ==> 0 <= #[trigger] count_set(ip, c) <= c,
    decreases k,
{
    if k > 0 {
        lemma_free_cols(ip, k - 1);
        let fk = free_cols(ip, k);
        let fp = free_cols(ip, k - 1);
        assert forall|c: int| 0 <= c < k && !ip[c] implies #[trigger] fk[c - count_set(ip, c)] == c by {
            if c < k - 1 {
                assert(fp[c - count_set(ip, c)] == c);
                assert(c - count_set(ip, c) < fp.len()) by {
                    lemma_count_mono(ip, c + 1, k - 1);
                }
            }
        }
        assert forall|c: int| 0 <= c <= k implies 0 <= #[trigger] count_set(ip, c) <= c by {
            if c == k {
            }
        }
    }
}

proof fn lemma_count_mono(ip: Seq<bool>, a: int, b: int)
    requires
        0 <= a <= b,
    ensures
        count_set(ip, a) <= count_set(ip, b),
        count_set(ip, b) - count_set(ip, a) <= b - a,
    decreases b - a,
{
    if b > a {
        lemma_count_mono(ip, a, b - 1);
    }
}

proof fn lemma_dot_vec_scale(u: Seq<int>, x: Seq<int>, y: Seq<int>, k: int, g: int)
    requires
        0 <= k,
        forall|c: int| 0 <= c < k ==> #[trigger] x[c] == y[c] * g,
    ensures
        row_dot(u, x, k) == row_dot(u, y, k) * g,
    decreases k,
{
    if k > 0 {
        lemma_dot_vec_scale(u, x, y, k - 1, g);
        let a = row_dot(u, y, k - 1);
        assert(u[k - 1] * (y[k - 1] * g) + a * g == (a + u[k - 1] * y[k - 1]) * g) by (nonlinear_arith);
    }
}

/// The frame of free columns exists for the kernel of `m` once it is reduced.
proof fn lemma_frame(m: Seq<Seq<int>>, a: Seq<Seq<int>>, pc: Seq<usize>, ip: Seq<bool>, row: int, n: int)
    requires
        reduced(a, pc, ip, row, n),
        same_kernel(a, m, n),
        count_set(ip, n) == row,
    ensures
        frame_of(m, n, free_cols(ip, n)),
        free_cols(ip, n).len() == n - row,
{
    lemma_reduced_facts(a, pc, ip, row, n);
    lemma_free_cols(ip, n);
    lemma_pivot_product(a, pc, row);
    let f = free_cols(ip, n);
    let p = pivot_product(a, pc, row);
    assert forall|t: int| 0 <= t < f.len() implies #[trigger] witness_for(m, n, f, t) by {
        let w = free_vector(a, pc, ip, row, n, f[t], p);
        lemma_free_vector_kernel(a, pc, ip, row, n, f[t], p);
        assert(kernel_of(m, n, w));
        assert forall|s2: int| 0 <= s2 < f.len() && s2 != t implies w[#[trigger] f[s2]] == 0 by {
            if f[s2] < f[t] {
                assert(s2 < t);
            } else if f[s2] > f[t] {
                assert(s2 > t);
            }
            assert(f[s2] != f[t]);
        }
    }
    assert forall|x: Seq<int>|
        x.len() == n && #[trigger] kernel_of(m, n, x) && (forall|t: int| 0 <= t < f.len() ==> x[#[trigger] f[t]] == 0) implies forall|j: int|
        0 <= j < n ==> #[trigger] x[j] == 0 by {
        assert(kernel_of(a, n, x));
        assert forall|c: int| 0 <= c < n && !ip[c] implies #[trigger] x[c] == 0 by {
            let t = c - count_set(ip, c);
            lemma_count_mono(ip, c + 1, n);
            assert(f[t] == c);
        }
        lemma_free_columns_span(a, pc, ip, row, n, x);
    }
}

/// `x / d` for an exact divisor `d != 0`, as Rust's `/`.
fn div_exact(x: i128, d: i128) -> (r: i128)
    requires
        d != 0,
        d > i128::MIN,
        x > i128::MIN,
        (x as int) % (d as int) == 0,
    ensures
        r * d == x,
        r as int == (x as int) / (d as int),
{
    proof {
        vstd::arithmetic::div_mod::lemma_fundamental_div_mod(x as int, d as int);
    }
    if d < 0 {
        proof {
            let di = d as int;
            let xi = x as int;
            let q = xi / di;
            assert(xi == (-q) * (-di)) by (nonlinear_arith)
                requires
                    xi == di * q + 0,
            ;
            vstd::arithmetic::div_mod::lemma_mod_multiples_basic(-q, -di);
        }
        let t = div_trunc(x, -d);
        proof {
            let di = d as int;
            let xi = x as int;
            assert(t * (-di) == xi);
            assert((-t) * di == xi) by (nonlinear_arith)
                requires
                    t * (-di) == xi,
            ;
            assert(xi / di == -t) by {
                vstd::arithmetic::div_mod::lemma_fundamental_div_mod(xi, di);
                let q = xi / di;
                assert(di * (q + t) == 0) by (nonlinear_arith)
                    requires
                        xi == di * q + 0,
                        (-t) * di == xi,
                ;
                assert(q + t == 0) by (nonlinear_arith)
                    requires
                        di * (q + t) == 0,
                        di != 0,
                ;
            }
        }
        -t
    } else {
        let t = div_trunc(x, d);
        proof {
            let di = d as int;
            let xi = x as int;
            assert(xi / di == t) by {
                let q = xi / di;
                assert(di * (q - t) == 0) by (nonlinear_arith)
                    requires
                        xi == di * q + 0,
                        t * di == xi,
                ;
                assert(q - t == 0) by (nonlinear_arith)
                    requires
                        di * (q - t) == 0,
                        di != 0,
                ;
            }
        }
        t
    }
}

/// The position of the pivot column `j` in the list `pcs`.
pub open spec fn piv_index(pcs: Seq<int>, j: int) -> int {
    choose|r: int| 0 <= r < pcs.len() && pcs[r] == j
}

/// `x / g` rounded toward zero.
pub open spec fn tdiv(x: int, g: int) -> int {
    if x < 0 {
        -((-x) / g)
    } else {
        x / g
    }
}

/// The common multiple of the pivots that the basis construction builds,
/// from pivot row `r` on with the value `l` so far: each step replaces `l` by
/// `l / gcd(|l|, |pv|) * pv`. `None` where a magnitude of `i128::MIN` is
/// needed or a product leaves `i128`.
pub open spec fn lcm_fold(a: Seq<Seq<int>>, pcs: Seq<int>, r: int, l: int) -> Option<int>
    decreases pcs.len() - r,
{
    if r < 0 || r >= pcs.len() {
        Some(l)
    } else {
        let pv = a[r][pcs[r]];
        if l == i128::MIN || pv == i128::MIN {
            None
        } else {
            let l2 = tdiv(l, divisor_of(gcd_spec(absi(l) as nat, absi(pv) as nat))) * pv;
            if i128::MIN <= l2 <= i128::MAX {
                lcm_fold(a, pcs, r + 1, l2)
            } else {
                None
            }
        }
    }
}

/// The kernel vector for the free column `f` with `l` there: at each pivot
/// column the back-substituted value, zero elsewhere.
pub open spec fn free_vec(a: Seq<Seq<int>>, pcs: Seq<int>, f: int, l: int) -> Seq<int> {
    Seq::new(
        16,
        |j: int|
            if j == f {
                l
            } else if pcs.contains(j) {
                -a[piv_index(pcs, j)][f] * (l / a[piv_index(pcs, j)][j])
            } else {
                0
            },
    )
}

/// With `l` at the free column `f`: every back-substituted value fits in
/// `i128` and is not `i128::MIN`, and the vector divided by its content has
/// every entry below `2^62` in magnitude.
pub open spec fn column_parts(a: Seq<Seq<int>>, pcs: Seq<int>, n: int, f: int, l: int) -> bool {
    let v = free_vec(a, pcs, f, l);
    &&& forall|r: int|
        0 <= r < pcs.len() ==> #[trigger] a[r][f] != i128::MIN && i128::MIN <= -a[r][f] * (l / a[r][pcs[r]]) <= i128::MAX
    &&& forall|c: int| 0 <= c < n ==> #[trigger] v[c] > i128::MIN
    &&& forall|c: int| 0 <= c < n ==> absi(#[trigger] v[c] / divisor_of(content_upto(v, n))) < 0x4000_0000_0000_0000
}

/// The basis vector of the free column `f` is built without leaving `i128`
/// and, divided by its content, has every entry below `2^62` in magnitude.
pub open spec fn column_ok(a: Seq<Seq<int>>, pcs: Seq<int>, n: int, f: int) -> bool {
    match lcm_fold(a, pcs, 0, 1) {
        None => false,
        Some(l0) => l0 != i128::MIN && column_parts(a, pcs, n, f, if absi(l0) < 1 { 1 } else { absi(l0) }),
    }
}

/// The pivot list of the elimination agrees with the exec pivot arrays.
proof fn lemma_pcs_link(a: Seq<Seq<int>>, pc: Seq<usize>, ip: Seq<bool>, row: int, n: int)
    requires
        reduced(a, pc, ip, row, n),
    ensures
        forall|c: int| 0 <= c < 16 ==> (#[trigger] ip[c] <==> pcs_of(pc, row).contains(c)),
        forall|c: int| 0 <= c < 16 && #[trigger] ip[c] ==> piv_index(pcs_of(pc, row), c) == pivot_row(pc, row, c),
        forall|r: int| 0 <= r < row ==> #[trigger] pcs_of(pc, row)[r] == pc[r] as int,
{
    lemma_reduced_facts(a, pc, ip, row, n);
    let p = pcs_of(pc, row);
    assert forall|c: int| 0 <= c < 16 implies (#[trigger] ip[c] <==> p.contains(c)) by {
        if ip[c] {
            let r = pivot_row(pc, row, c);
            assert(p[r] == c);
        }
        if p.contains(c) {
            let r = choose|r: int| 0 <= r < p.len() && p[r] == c;
            assert(ip[pc[r] as int]);
        }
    }
    assert forall|c: int| 0 <= c < 16 && #[trigger] ip[c] implies piv_index(p, c) == pivot_row(pc, row, c) by {
        let r = pivot_row(pc, row, c);
        assert(p[r] == c);
        let r2 = piv_index(p, c);
        assert(0 <= r2 < row && p[r2] == c);
        if r2 < r {
            assert(pc[r2] < pc[r]);
        } else if r2 > r {
            assert(pc[r] < pc[r2]);
        }
    }
}

/// `gcd(a g, b g) = gcd(a, b) g`.
proof fn lemma_gcd_scale(a: nat, b: nat, g: nat)
    requires
        g >= 1,
    ensures
        gcd_spec(a * g, b * g) == gcd_spec(a, b) * g,
    decreases b,
{
    if b > 0 {
        let q = (a / b) as int;
        let r = (a % b) as int;
        vstd::arithmetic::div_mod::lemma_fundamental_div_mod(a as int, b as int);
        assert((a * g) as int == q * (b * g) + r * g) by (nonlinear_arith)
            requires
                a as int == b * q + r,
        ;
        assert(0 <= r * g < b * g) by (nonlinear_arith)
            requires
                0 <= r < b,
                g >= 1,
        ;
        assert(b * g > 0) by (nonlinear_arith)
            requires
                b > 0,
                g >= 1,
        ;
        vstd::arithmetic::div_mod::lemma_fundamental_div_mod_converse_mod((a * g) as int, (b * g) as int, q, r * g);
        assert(((a * g) % (b * g)) as int == r * g);
        lemma_gcd_scale(b, r as nat, g);
        assert(gcd_spec(a * g, b * g) == gcd_spec(b * g, (a * g) % (b * g)));
        assert((r as nat) * g == (a * g) % (b * g));
    } else {
        assert(b * g == 0) by (nonlinear_arith)
            requires
                b == 0,
        ;
    }
}

/// A row whose entries are `g` times those of `w` has `g` times its content.
proof fn lemma_content_scale(u: Seq<int>, w: Seq<int>, k: int, g: int)
    requires
        g >= 1,
        0 <= k <= u.len(),
        k <= w.len(),
        forall|i: int| 0 <= i < k ==> #[trigger] u[i] == w[i] * g,
    ensures
        content_upto(u, k) == content_upto(w, k) * g,
    decreases k,
{
    if k > 0 {
        lemma_content_scale(u, w, k - 1, g);
        let x = w[k - 1];
        assert(absi(u[k - 1]) == absi(x) * g) by (nonlinear_arith)
            requires
                u[k - 1] == x * g,
                g >= 1,
        ;
        let gn = g as nat;
        let ax = absi(x) as nat;
        let cw = content_upto(w, k - 1);
        assert(absi(u[k - 1]) as nat == ax * gn);
        assert(content_upto(u, k - 1) == cw * gn);
        lemma_gcd_scale(cw, ax, gn);
        assert(content_upto(u, k) == gcd_spec(cw * gn, ax * gn));
        assert(content_upto(w, k) == gcd_spec(cw, ax));
        assert(content_upto(u, k) == gcd_spec(cw, ax) * gn);
    } else {
        assert(content_upto(w, k) * g == 0) by (nonlinear_arith)
            requires
                content_upto(w, k) == 0,
        ;
    }
}

/// A row with a nonzero entry has positive content.
proof fn lemma_content_pos(u: Seq<int>, k: int, j: int)
    requires
        0 <= j < k <= u.len(),
        u[j] != 0,
    ensures
        content_upto(u, k) >= 1,
    decreases k,
{
    lemma_gcd_divides(content_upto(u, k - 1), absi(u[k - 1]) as nat);
    if j < k - 1 {
        lemma_content_pos(u, k - 1, j);
    }
}

/// The construction fails: the elimination leaves `i128`, or the nullity is
/// `d` and the basis vector of some free column cannot be built.
pub open spec fn basis_fails(m: [[i64; 16]; 16], n: int, d: int) -> bool {
    match elimination(m, n) {
        None => true,
        Some((a, row, pcs)) => n - row == d && exists|f: int| 0 <= f < n && !pcs.contains(f) && !#[trigger] column_ok(a, pcs, n, f),
    }
}

proof fn lemma_fails_at(m: [[i64; 16]; 16], n: int, d: int, a: Seq<Seq<int>>, row: int, pcs: Seq<int>, f: int)
    requires
        elimination(m, n) == Some((a, row, pcs)),
        n - row == d,
        0 <= f < n,
        !pcs.contains(f),
        !column_ok(a, pcs, n, f),
    ensures
        basis_fails(m, n, d),
{
    let e = elimination(m, n).unwrap();
    assert(e.0 == a && e.1 == row && e.2 == pcs);
    assert(0 <= f < n && !e.2.contains(f) && !column_ok(e.0, e.2, n, f));
}

/// An integer basis of the kernel of the skew matrix `m` (top-left `n x n`
/// block) if its nullity is `d`: fraction-free row reduction, then for each
/// free column the vector with a common multiple of the pivots there and the
/// back-substituted values at the pivot columns, divided by the gcd of its
/// entries. `Ok(None)` when the nullity is not `d`; `Err(Overflow)` where a
/// value leaves `i128`, or a basis entry reaches `2^62`.
pub fn kernel_basis_exact(m: &[[i64; 16]; 16], n: usize, d: usize) -> (res: Result<Option<Vec<[i64; 16]>>, Overflow>)
    requires
        n <= 16,
    ensures
        res is Err <==> basis_fails(*m, n as int, d as int),
        res matches Ok(opt) ==> exists|f: Seq<int>|
            #[trigger] frame_of(mat64(*m), n as int, f) && (opt is Some <==> f.len() == d) && (opt matches Some(b) ==> basis_of(
                mat64(*m),
                n as int,
                f,
                b@,
            )) && (opt matches Some(b) ==> forall|t: int| 0 <= t < b@.len() ==> #[trigger] b@[t][f[t]] > 0 && content_upto(vec_of(b@[t], n as int), n as int) == 1),
{
    let (a, piv_col, is_piv, row) = match eliminate(m, n) {
        Ok(t) => t,
        Err(e) => {
            return Err(e);
        },
    };
    let ghost am = mat(a);
    let ghost mm = mat64(*m);
    let ghost pc = piv_col@;
    let ghost ip = is_piv@;
    proof {
        assert(reduced(am, pc, ip, row as int, n as int));
        lemma_same_kernel_symm(am, mm, n as int);
        lemma_frame(mm, am, pc, ip, row as int, n as int);
        lemma_reduced_facts(am, pc, ip, row as int, n as int);
        lemma_free_cols(ip, n as int);
        lemma_pcs_link(am, pc, ip, row as int, n as int);
    }
    let ghost fr = free_cols(ip, n as int);
    let ghost pcs = pcs_of(pc, row as int);
    if n - row != d {
        return Ok(None);
    }
    let mut basis: Vec<[i64; 16]> = Vec::new();
    let mut col = 0usize;
    while col < n
        invariant
            n <= 16,
            row <= n,
            am == mat(a),
            mm == mat64(*m),
            pc == piv_col@,
            ip == is_piv@,
            reduced(am, pc, ip, row as int, n as int),
            same_kernel(am, mm, n as int),
            fr == free_cols(ip, n as int),
            frame_of(mm, n as int, fr),
            fr.len() == n - row,
            n - row == d,
            col <= n,
            basis@.len() == col - count_set(ip, col as int),
            forall|t: int| 0 <= t < basis@.len() ==> #[trigger] kernel_of(mm, n as int, vec_of(basis@[t], n as int)),
            forall|t: int| 0 <= t < basis@.len() ==> #[trigger] basis@[t][fr[t]] != 0,
            forall|t: int| 0 <= t < basis@.len() ==> #[trigger] basis@[t][fr[t]] > 0 && content_upto(vec_of(basis@[t], n as int), n as int) == 1,
            forall|t: int, s: int| 0 <= t < basis@.len() && 0 <= s < fr.len() && t != s ==> #[trigger] basis@[t][fr[s]] == 0,
            forall|t: int, c: int| 0 <= t < basis@.len() && n <= c < 16 ==> #[trigger] basis@[t][c] == 0,
            elimination(*m, n as int) == Some((am, row as int, pcs)),
            pcs == pcs_of(pc, row as int),
            forall|c: int| 0 <= c < 16 ==> (#[trigger] ip[c] <==> pcs.contains(c)),
            forall|c: int| 0 <= c < 16 && #[trigger] ip[c] ==> piv_index(pcs, c) == pivot_row(pc, row as int, c),
            forall|f: int| 0 <= f < col && !pcs.contains(f) ==> #[trigger] column_ok(am, pcs, n as int, f),
        decreases n - col,
    {
        proof {
            lemma_free_cols(ip, n as int);
            lemma_count_mono(ip, col as int, n as int);
            lemma_count_mono(ip, col + 1, n as int);
        }
        if !is_piv[col] {
            let ghost tpos = col - count_set(ip, col as int);
            proof {
                assert(fr[tpos] == col);
                lemma_reduced_facts(am, pc, ip, row as int, n as int);
                assert(!pcs.contains(col as int));
            }
            let mut l: i128 = 1;
            let mut r = 0usize;
            while r < row
                invariant
                    n <= 16,
                    row <= n,
                    am == mat(a),
                    pc == piv_col@,
                    reduced(am, pc, ip, row as int, n as int),
                    forall|x: int| 0 <= x < row ==> #[trigger] am[x][pc[x] as int] != 0,
                    r <= row,
                    l != 0,
                    forall|x: int| 0 <= x < r ==> (l as int) % #[trigger] am[x][pc[x] as int] == 0,
                    pcs == pcs_of(pc, row as int),
                    lcm_fold(am, pcs, 0, 1) == lcm_fold(am, pcs, r as int, l as int),
                    elimination(*m, n as int) == Some((am, row as int, pcs)),
                    !pcs.contains(col as int),
                    col < n,
                    n - row == d,
                decreases row - r,
            {
                let pv = a[r][piv_col[r]];
                proof {
                    assert(am[r as int][pc[r as int] as int] == pv as int);
                    assert(pv != 0);
                    assert(pcs[r as int] == pc[r as int] as int);
                }
                let al = match abs_checked(l) {
                    Some(v) => v,
                    None => {
                        proof {
                            assert(lcm_fold(am, pcs, r as int, l as int) is None);
                            assert(!column_ok(am, pcs, n as int, col as int));
                        }
                        proof {
                            lemma_fails_at(*m, n as int, d as int, am, row as int, pcs, col as int);
                        }
                        return Err(Overflow);
                    },
                };
                let ap = match abs_checked(pv) {
                    Some(v) => v,
                    None => {
                        proof {
                            assert(lcm_fold(am, pcs, r as int, l as int) is None);
                            assert(!column_ok(am, pcs, n as int, col as int));
                        }
                        proof {
                            lemma_fails_at(*m, n as int, d as int, am, row as int, pcs, col as int);
                        }
                        return Err(Overflow);
                    },
                };
                let g0 = gcd_i128(al, ap);
                proof {
                    lemma_gcd_divides(al as nat, ap as nat);
                }
                let g = if g0 < 1 { 1 } else { g0 };
                proof {
                    assert(g == g0);
                    if l < 0 {
                        lemma_mod_neg(al as int, g as int);
                        assert(-(al as int) == l as int);
                    }
                    if pv < 0 {
                        lemma_mod_neg(ap as int, g as int);
                        assert(-(ap as int) == pv as int);
                    }
                }
                let lq = div_trunc(l, g);
                proof {
                    assert(g as int == divisor_of(gcd_spec(absi(l as int) as nat, absi(pv as int) as nat)));
                    assert(lq as int == tdiv(l as int, g as int));
                }
                let l2 = match lq.checked_mul(pv) {
                    Some(v) => v,
                    None => {
                        proof {
                            assert(lcm_fold(am, pcs, r as int, l as int) is None);
                            assert(!column_ok(am, pcs, n as int, col as int));
                        }
                        proof {
                            lemma_fails_at(*m, n as int, d as int, am, row as int, pcs, col as int);
                        }
                        return Err(Overflow);
                    },
                };
                proof {
                    assert(lcm_fold(am, pcs, r as int, l as int) == lcm_fold(am, pcs, r + 1, l2 as int));
                }
                proof {
                    let li = l as int;
                    let gi = g as int;
                    let pvi = pv as int;
                    let lqi = lq as int;
                    vstd::arithmetic::div_mod::lemma_fundamental_div_mod(pvi, gi);
                    let h = pvi / gi;
                    assert(lqi * gi == li);
                    assert(lqi != 0) by (nonlinear_arith)
                        requires
                            lqi * gi == li,
                            li != 0,
                    ;
                    assert(lqi * pvi != 0) by (nonlinear_arith)
                        requires
                            lqi != 0,
                            pvi != 0,
                    ;
                    assert(lqi * pvi == li * h) by (nonlinear_arith)
                        requires
                            lqi * gi == li,
                            pvi == gi * h + 0,
                    ;
                    assert forall|x: int| 0 <= x < r + 1 implies ((l2 as int) % #[trigger] am[x][pc[x] as int] == 0) by {
                        let w = am[x][pc[x] as int];
                        if x == r {
                            assert(w == pvi);
                            lemma_mod_mult_any(lqi, pvi);
                            assert(lqi * pvi == l2);
                        } else {
                            lemma_mod_times(li, h, w);
                        }
                    }
                }
                l = l2;
                r += 1;
            }
            let ghost l_old = l;
            proof {
                assert(lcm_fold(am, pcs, 0, 1) == Some(l_old as int));
            }
            let l1 = match abs_checked(l) {
                Some(v) => v,
                None => {
                    proof {
                        assert(!column_ok(am, pcs, n as int, col as int));
                    }
                    proof {
                        lemma_fails_at(*m, n as int, d as int, am, row as int, pcs, col as int);
                    }
                    return Err(Overflow);
                },
            };
            let l = if l1 < 1 { 1 } else { l1 };
            proof {
                assert(l == l1);
                assert forall|x: int| 0 <= x < row implies ((l as int) % #[trigger] am[x][pc[x] as int] == 0) by {
                    let w = am[x][pc[x] as int];
                    assert(w != 0);
                    assert((l_old as int) % w == 0);
                    if l_old < 0 {
                        lemma_mod_neg_any(l_old as int, w);
                        assert(-(l_old as int) == l as int);
                    }
                }
            }
            proof {
                assert(column_ok(am, pcs, n as int, col as int) == column_parts(am, pcs, n as int, col as int, l as int));
            }
            let mut v = [0i128; 16];
            v[col] = l;
            let mut r = 0usize;
            while r < row
                invariant
                    n <= 16,
                    row <= n,
                    col < n,
                    am == mat(a),
                    pc == piv_col@,
                    ip == is_piv@,
                    !ip[col as int],
                    reduced(am, pc, ip, row as int, n as int),
                    forall|x: int| 0 <= x < row ==> #[trigger] am[x][pc[x] as int] != 0,
                    forall|x: int| 0 <= x < row ==> #[trigger] pc[x] < n,
                    forall|x: int| 0 <= x < row ==> #[trigger] pivot_row(pc, row as int, pc[x] as int) == x,
                    forall|c: int| 0 <= c < 16 && #[trigger] ip[c] ==> c < n && 0 <= pivot_row(pc, row as int, c) < row && pc[pivot_row(pc, row as int, c)] == c,
                    r <= row,
                    l >= 1,
                    forall|x: int| 0 <= x < row ==> (l as int) % #[trigger] am[x][pc[x] as int] == 0,
                    forall|x: int| 0 <= x < r ==> #[trigger] am[x][col as int] != i128::MIN && i128::MIN <= -am[x][col as int] * ((l as int) / am[x][pcs[x]]) <= i128::MAX,
                    lcm_fold(am, pcs, 0, 1) == Some(l_old as int),
                    l_old != i128::MIN,
                    l as int == (if absi(l_old as int) < 1 { 1 } else { absi(l_old as int) }),
                    pcs == pcs_of(pc, row as int),
                    elimination(*m, n as int) == Some((am, row as int, pcs)),
                    !pcs.contains(col as int),
                    n - row == d,
                    column_ok(am, pcs, n as int, col as int) == column_parts(am, pcs, n as int, col as int, l as int),
                    forall|j: int| 0 <= j < 16 ==> #[trigger] v[j] as int == if j == col {
                        l as int
                    } else if ip[j] && pivot_row(pc, row as int, j) < r {
                        -am[pivot_row(pc, row as int, j)][col as int] * ((l as int) / am[pivot_row(pc, row as int, j)][j])
                    } else {
                        0
                    },
                decreases row - r,
            {
                let pcr = piv_col[r];
                let pv = a[r][pcr];
                proof {
                    assert(am[r as int][pc[r as int] as int] == pv as int);
                    assert(pv != 0);
                    assert((l as int) % (pv as int) == 0);
                    lemma_divisor_bound(l as int, pv as int);
                }
                let t = div_exact(l, pv);
                proof {
                    assert(pcs[r as int] == pc[r as int] as int);
                    assert(am[r as int][col as int] == a[r as int][col as int] as int);
                    assert(column_ok(am, pcs, n as int, col as int) ==> am[r as int][col as int] != i128::MIN && i128::MIN <= -am[r as int][col as int]
                        * ((l as int) / am[r as int][pcs[r as int]]) <= i128::MAX);
                }
                if a[r][col] == i128::MIN {
                    proof {
                        lemma_fails_at(*m, n as int, d as int, am, row as int, pcs, col as int);
                    }
                    return Err(Overflow);
                }
                let negc = -a[r][col];
                let val = match negc.checked_mul(t) {
                    Some(x) => x,
                    None => {
                        proof {
                            lemma_fails_at(*m, n as int, d as int, am, row as int, pcs, col as int);
                        }
                        return Err(Overflow);
                    },
                };
                let ghost v0 = v;
                v[pcr] = val;
                proof {
                    assert(pivot_row(pc, row as int, pcr as int) == r);
                    assert forall|j: int| 0 <= j < 16 implies #[trigger] v[j] as int == if j == col {
                        l as int
                    } else if ip[j] && pivot_row(pc, row as int, j) < r + 1 {
                        -am[pivot_row(pc, row as int, j)][col as int] * ((l as int) / am[pivot_row(pc, row as int, j)][j])
                    } else {
                        0
                    } by {
                        if j == pcr {
                            assert(ip[j]);
                            assert(j != col);
                        } else {
                            assert(v[j] == v0[j]);
                            if ip[j] && pivot_row(pc, row as int, j) == r {
                                assert(pc[r as int] == j);
                            }
                        }
                    }
                }
                r += 1;
            }
            let ghost fv = free_vector(am, pc, ip, row as int, n as int, col as int, l as int);
            proof {
                assert forall|j: int| 0 <= j < n implies #[trigger] v[j] as int == fv[j] by {
                    if ip[j] {
                        assert(pivot_row(pc, row as int, j) < row);
                    }
                }
                assert forall|j: int| n <= j < 16 implies #[trigger] v[j] == 0 by {
                    if ip[j] {
                        assert(j < n);
                    }
                }
                lemma_free_vector_kernel(am, pc, ip, row as int, n as int, col as int, l as int);
            }
            let ghost v_pre = v;
            let ghost fvv = free_vec(am, pcs, col as int, l as int);
            proof {
                assert forall|j: int| 0 <= j < 16 implies #[trigger] fvv[j] == v_pre[j] as int by {
                    if j < n {
                        assert(v[j] as int == fv[j]);
                        if ip[j] {
                            assert(pcs.contains(j));
                            assert(piv_index(pcs, j) == pivot_row(pc, row as int, j));
                        } else {
                            assert(!pcs.contains(j));
                        }
                    } else {
                        assert(v[j] == 0);
                        if pcs.contains(j) {
                            let x = choose|x: int| 0 <= x < pcs.len() && pcs[x] == j;
                            assert(pc[x] < n);
                        }
                    }
                }
                assert(Seq::new(16, |c: int| v_pre[c] as int) =~= fvv);
            }
            let g = match divide_by_content(&mut v, n) {
                Ok(g) => g,
                Err(e) => {
                    proof {
                        if column_ok(am, pcs, n as int, col as int) {
                            assert forall|c: int| 0 <= c < n implies #[trigger] v_pre[c] > i128::MIN by {
                                assert(fvv[c] > i128::MIN);
                            }
                        }
                    }
                    proof {
                        lemma_fails_at(*m, n as int, d as int, am, row as int, pcs, col as int);
                    }
                    return Err(e);
                },
            };
            let ghost l_fv = l as int;
            proof {
                assert forall|x: int| 0 <= x < n implies #[trigger] fvv[x] > i128::MIN by {
                    assert(fvv[x] == v_pre[x] as int);
                }
                assert forall|x: int| 0 <= x < n implies #[trigger] v[x] * g == fvv[x] by {
                    assert(fvv[x] == v_pre[x] as int);
                }
                assert(Seq::new(16, |c: int| v_pre[c] as int) == fvv);
            }
            let mut out = [0i64; 16];
            let mut c = 0usize;
            while c < n
                invariant
                    n <= 16,
                    c <= n,
                    forall|x: int| 0 <= x < c ==> #[trigger] out[x] as int == v[x] as int,
                    forall|x: int| c <= x < 16 ==> #[trigger] out[x] == 0,
                    lcm_fold(am, pcs, 0, 1) == Some(l_old as int),
                    l_old != i128::MIN,
                    pcs == pcs_of(pc, row as int),
                    elimination(*m, n as int) == Some((am, row as int, pcs)),
                    !pcs.contains(col as int),
                    n - row == d,
                    column_ok(am, pcs, n as int, col as int) == column_parts(am, pcs, n as int, col as int, l_fv),
                    l_fv == l as int,
                    l_fv == (if absi(l_old as int) < 1 { 1 } else { absi(l_old as int) }),
                    col < n,
                    g >= 1,
                    fvv == free_vec(am, pcs, col as int, l_fv),
                    g as int == divisor_of(content_upto(fvv, n as int)),
                    forall|x: int| 0 <= x < n ==> #[trigger] v[x] * g == fvv[x],
                    forall|x: int| 0 <= x < row ==> #[trigger] am[x][col as int] != i128::MIN && i128::MIN <= -am[x][col as int] * (l_fv / am[x][pcs[x]]) <= i128::MAX,
                    forall|x: int| 0 <= x < n ==> #[trigger] fvv[x] > i128::MIN,
                    forall|x: int| 0 <= x < c ==> absi(#[trigger] fvv[x] / (g as int)) < 0x4000_0000_0000_0000,
                decreases n - c,
            {
                proof {
                    let vc = v[c as int] as int;
                    assert(fvv[c as int] == (g as int) * vc) by (nonlinear_arith)
                        requires
                            vc * (g as int) == fvv[c as int],
                    ;
                    vstd::arithmetic::div_mod::lemma_div_multiples_vanish(vc, g as int);
                    assert(fvv[c as int] / (g as int) == vc);
                    assert(column_ok(am, pcs, n as int, col as int) ==> absi(fvv[c as int] / divisor_of(content_upto(fvv, n as int))) < 0x4000_0000_0000_0000);
                }
                let av = match abs_checked(v[c]) {
                    Some(x) => x,
                    None => {
                        proof {
                            lemma_fails_at(*m, n as int, d as int, am, row as int, pcs, col as int);
                        }
                        return Err(Overflow);
                    },
                };
                if av >= 0x4000_0000_0000_0000i128 {
                    proof {
                        lemma_fails_at(*m, n as int, d as int, am, row as int, pcs, col as int);
                    }
                    return Err(Overflow);
                }
                out[c] = v[c] as i64;
                c += 1;
            }
            proof {
                assert(column_ok(am, pcs, n as int, col as int));
                let w = vec_of(out, n as int);
                let fvs = Seq::new(n as nat, |j: int| v_pre[j] as int);
                assert(fvs =~= fv);
                assert forall|j: int| 0 <= j < n implies #[trigger] fvs[j] == w[j] * g by {
                    assert(v[j] * g == v_pre[j]);
                }
                assert forall|i: int| 0 <= i < n implies #[trigger] row_dot(am[i], w, n as int) == 0 by {
                    lemma_dot_vec_scale(am[i], fvs, w, n as int, g as int);
                    assert(row_dot(am[i], fv, n as int) == 0);
                    let rd = row_dot(am[i], w, n as int);
                    assert(rd * g == 0);
                    assert(rd == 0) by (nonlinear_arith)
                        requires
                            rd * g == 0,
                            g >= 1,
                    ;
                }
                assert(kernel_of(am, n as int, w));
                assert(kernel_of(mm, n as int, w));
                let tp = col - count_set(ip, col as int);
                assert(out[col as int] * g == l) by {
                    assert(v[col as int] * g == v_pre[col as int]);
                }
                let oc = out[col as int] as int;
                assert(oc > 0) by (nonlinear_arith)
                    requires
                        oc * (g as int) == l as int,
                        l >= 1,
                        g >= 1,
                ;
                assert(content_upto(w, n as int) == 1) by {
                    assert forall|x: int| 0 <= x < n implies #[trigger] fvv[x] == w[x] * (g as int) by {
                        assert(fvv[x] == v_pre[x] as int);
                        assert(v[x] * g == v_pre[x]);
                    }
                    lemma_content_scale(fvv, w, n as int, g as int);
                    assert(fvv[col as int] == l as int);
                    lemma_content_pos(fvv, n as int, col as int);
                    let cw = content_upto(w, n as int) as int;
                    let cu = content_upto(fvv, n as int) as int;
                    assert(cu == cw * (g as int));
                    if cu > 1 {
                        assert(g as int == cu);
                        assert(cw == 1) by (nonlinear_arith)
                            requires
                                cu == cw * cu,
                                cu > 1,
                        ;
                    } else {
                        assert(g == 1);
                    }
                }
                assert forall|s2: int| 0 <= s2 < fr.len() && s2 != tp implies #[trigger] out[fr[s2]] == 0 by {
                    let fc = fr[s2];
                    assert(!ip[fc]);
                    if fc < col {
                        assert(s2 < tp) by {
                            if s2 > tp {
                                assert(fr[tp] < fr[s2]);
                            }
                        }
                    }
                    assert(fc != col as int) by {
                        if fc == col as int {
                            assert(fr[tp] == fr[s2]);
                            if s2 < tp {
                                assert(fr[s2] < fr[tp]);
                            } else {
                                assert(fr[tp] < fr[s2]);
                            }
                        }
                    }
                    assert(v_pre[fc] == 0);
                    assert(v[fc] * g == v_pre[fc]);
                    let q = v[fc] as int;
                    assert(q == 0) by (nonlinear_arith)
                        requires
                            q * g == 0,
                            g >= 1,
                    ;
                }
            }
            let ghost b0 = basis@;
            basis.push(out);
            proof {
                let tp = col - count_set(ip, col as int);
                assert(basis@.len() == tp + 1);
                assert(basis@[tp] == out);
                assert(fr[tp] == col);
                assert forall|t: int| 0 <= t < basis@.len() implies #[trigger] kernel_of(mm, n as int, vec_of(basis@[t], n as int)) by {
                    if t < tp {
                        assert(basis@[t] == b0[t]);
                    }
                }
                assert forall|t: int| 0 <= t < basis@.len() implies #[trigger] basis@[t][fr[t]] != 0 by {
                    if t < tp {
                        assert(basis@[t] == b0[t]);
                    }
                }
                assert forall|t: int| 0 <= t < basis@.len() implies #[trigger] basis@[t][fr[t]] > 0 && content_upto(vec_of(basis@[t], n as int), n as int)
                    == 1 by {
                    if t < tp {
                        assert(basis@[t] == b0[t]);
                    }
                }
                assert forall|t: int, s2: int| 0 <= t < basis@.len() && 0 <= s2 < fr.len() && t != s2 implies #[trigger] basis@[t][fr[s2]]
                    == 0 by {
                    if t < tp {
                        assert(basis@[t] == b0[t]);
                    }
                }
                assert forall|t: int, c2: int| 0 <= t < basis@.len() && n <= c2 < 16 implies #[trigger] basis@[t][c2] == 0 by {
                    if t < tp {
                        assert(basis@[t] == b0[t]);
                    }
                }
            }
            col += 1;
        } else {
            col += 1;
        }
    }
    Ok(Some(basis))
}

/// Negation keeps divisibility by any nonzero divisor.
proof fn lemma_mod_neg_any(x: int, d: int)
    requires
        d != 0,
        x % d == 0,
    ensures
        (-x) % d == 0,
{
    vstd::arithmetic::div_mod::lemma_fundamental_div_mod(x, d);
    let q = x / d;
    assert(-x == (-q) * d) by (nonlinear_arith)
        requires
            x == d * q + 0,
    ;
    lemma_mod_mult_any(-q, d);
}

proof fn lemma_same_kernel_symm(a: Seq<Seq<int>>, b: Seq<Seq<int>>, n: int)
    requires
        same_kernel(a, b, n),
    ensures
        same_kernel(b, a, n),
{
}

/// A nonzero exact divisor of a positive number is no larger than it.
proof fn lemma_divisor_bound(l: int, d: int)
    requires
        l >= 1,
        d != 0,
        l % d == 0,
    ensures
        absi(d) <= l,
{
    vstd::arithmetic::div_mod::lemma_fundamental_div_mod(l, d);
    let q = l / d;
    assert(absi(d) <= l) by (nonlinear_arith)
        requires
            l == d * q + 0,
            l >= 1,
            d != 0,
    {
        if q == 0 {
            assert(l == 0);
        }
        assert(absi(l) == absi(d) * absi(q));
        assert(absi(q) >= 1);
    }
}

/// Divides the first `n` entries of `v` by the gcd of their absolute values;
/// returns the divisor (at least 1).
fn divide_by_content(v: &mut [i128; 16], n: usize) -> (res: Result<i128, Overflow>)
    requires
        n <= 16,
    ensures
        res is Ok <==> forall|c: int| 0 <= c < n ==> #[trigger] old(v)[c] > i128::MIN,
        res matches Ok(g) ==> g == divisor_of(content_upto(Seq::new(16, |c: int| old(v)[c] as int), n as int)),
        res matches Ok(g) ==> {
            &&& g >= 1
            &&& forall|c: int| 0 <= c < n ==> #[trigger] final(v)[c] * g == old(v)[c]
            &&& forall|c: int| n <= c < 16 ==> #[trigger] final(v)[c] == old(v)[c]
        },
{
    let ghost v0 = *v;
    let mut g: i128 = 0;
    let mut c = 0usize;
    while c < n
        invariant
            n <= 16,
            c <= n,
            *v == v0,
            g >= 0,
            g > 0 ==> forall|x: int| 0 <= x < c ==> (#[trigger] v0[x] as int) % (g as int) == 0,
            g == 0 ==> forall|x: int| 0 <= x < c ==> #[trigger] v0[x] == 0,
            forall|x: int| 0 <= x < c ==> #[trigger] v0[x] > i128::MIN,
            v0 == *old(v),
            g as nat == content_upto(Seq::new(16, |x: int| v0[x] as int), c as int),
        decreases n - c,
    {
        let x = match abs_checked(v[c]) {
            Some(x) => x,
            None => {
                proof {
                    assert(!(v0[c as int] > i128::MIN));
                }
                return Err(Overflow);
            },
        };
        let g2 = gcd_i128(g, x);
        proof {
            lemma_gcd_divides(g as nat, x as nat);
            if g2 > 0 {
                assert forall|y: int| 0 <= y < c + 1 implies (#[trigger] v0[y] as int) % (g2 as int) == 0 by {
                    if y < c {
                        if g > 0 {
                            lemma_mod_trans(v0[y] as int, g as int, g2 as int);
                        } else {
                            assert(v0[y] == 0);
                        }
                    } else {
                        if v0[y] < 0 {
                            lemma_mod_neg(x as int, g2 as int);
                        }
                    }
                }
            } else {
                assert(x == 0);
            }
        }
        g = g2;
        c += 1;
    }
    if g > 1 {
        let mut c = 0usize;
        while c < n
            invariant
                n <= 16,
                c <= n,
                g > 1,
                forall|x: int| 0 <= x < n ==> (#[trigger] v0[x] as int) % (g as int) == 0,
                forall|x: int| 0 <= x < n ==> #[trigger] v0[x] > i128::MIN,
                forall|x: int| 0 <= x < c ==> #[trigger] v[x] * g == v0[x],
                forall|x: int| c <= x < 16 ==> #[trigger] v[x] == v0[x],
            decreases n - c,
        {
            let q = div_trunc(v[c], g);
            v[c] = q;
            c += 1;
        }
        Ok(g)
    } else {
        proof {
            assert forall|x: int| 0 <= x < n implies #[trigger] v[x] * 1 == v0[x] by {}
        }
        Ok(1)
    }
}

} // verus!
