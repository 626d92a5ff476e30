//! `L(n)`, the labelled tournaments on `n` vertices with no dominating pair,
//! in polynomial time: the caterpillar and odd-cycle-sun weights are summed by
//! fused count-compressed dynamic programmes instead of enumerating the
//! caterpillars and suns, with exact big-integer arithmetic throughout.
use vstd::prelude::*;
use crate::bigint::{Big, mul_big};
use crate::burnside::two_pow;
use crate::within::{c2, c2_spec, ipow, star, star_spec, ds, ds_spec, pow2, triple, triple_spec, rho_part, tdiv, lemma_div_tdiv, ADJ};
use crate::two_paradox::{binom, comb, d_rec, d_spec, dmemo_ok, wview, ipow_big, two_to, lemma_binom_bound, lemma_binom_nonneg};
use std::collections::HashMap;

verus! {

/// `sum_{a < n} Within([a, l, j]) * ADJ[d][a]`.
pub open spec fn wt_part(l: int, j: int, d: int, n: int) -> int
    decreases n,
{
    if n <= 0 {
        0
    } else {
        wt_part(l, j, d, n - 1) + triple_spec(n - 1, l, j) * ADJ[d][n - 1]
    }
}

/// The interior spine operator `Wtil(l)[j][d]`.
pub open spec fn wt_spec(l: int, j: int, d: int) -> int {
    wt_part(l, j, d, 4)
}

/// The read-out operator `rho(x)[d] = sum_a DS(a, x) * ADJ[d][a]`.
pub open spec fn rho_spec(x: int, d: int) -> int {
    rho_part(x, d, 4)
}

/// `r(l0)[j] = DS(l0, j)` for `j` in `0..4`.
pub fn r_init(l0: i128) -> (r: Vec<Big>)
    requires
        0 <= l0 <= 40,
    ensures
        r@.len() == 4,
        forall|j: int| 0 <= j < 4 ==> (#[trigger] r@[j]).wf() && r@[j]@ == ds_spec(l0 as int, j),
{
    let mut r: Vec<Big> = Vec::new();
    let mut j = 0usize;
    while j < 4
        invariant
            0 <= l0 <= 40,
            j <= 4,
            r@.len() == j,
            forall|q: int| 0 <= q < j ==> (#[trigger] r@[q]).wf() && r@[q]@ == ds_spec(l0 as int, q),
        decreases 4 - j,
    {
        r.push(ds(l0, j as i128));
        j += 1;
    }
    r
}

/// `Wtil(l)[j][d]` for `j, d` in `0..4`.
pub fn w_til(l: i128) -> (r: Vec<Vec<Big>>)
    requires
        0 <= l <= 40,
    ensures
        r@.len() == 4,
        forall|j: int| 0 <= j < 4 ==> (#[trigger] r@[j])@.len() == 4,
        forall|j: int, d: int| 0 <= j < 4 && 0 <= d < 4 ==> (#[trigger] r@[j]@[d]).wf(),
        forall|j: int, d: int| 0 <= j < 4 && 0 <= d < 4 ==> (#[trigger] r@[j]@[d])@ == wt_spec(l as int, j, d),
{
    let mut r: Vec<Vec<Big>> = Vec::new();
    let mut j = 0usize;
    while j < 4
        invariant
            0 <= l <= 40,
            j <= 4,
            r@.len() == j,
            forall|q: int| 0 <= q < j ==> (#[trigger] r@[q])@.len() == 4,
            forall|q: int, d: int| 0 <= q < j && 0 <= d < 4 ==> (#[trigger] r@[q]@[d]).wf(),
            forall|q: int, d: int| 0 <= q < j && 0 <= d < 4 ==> (#[trigger] r@[q]@[d])@ == wt_spec(l as int, q, d),
        decreases 4 - j,
    {
        let mut row: Vec<Big> = Vec::new();
        let mut d = 0usize;
        while d < 4
            invariant
                0 <= l <= 40,
                j < 4,
                d <= 4,
                row@.len() == d,
                forall|q: int| 0 <= q < d ==> (#[trigger] row@[q]).wf() && row@[q]@ == wt_spec(l as int, j as int, q),
            decreases 4 - d,
        {
            let mut acc = Big::zero();
            let mut a = 0usize;
            while a < 4
                invariant
                    0 <= l <= 40,
                    j < 4,
                    d < 4,
                    a <= 4,
                    acc.wf(),
                    acc@ == wt_part(l as int, j as int, d as int, a as int),
                decreases 4 - a,
            {
                let t = triple(a as i128, l, j as i128).mul_i128(ADJ[d][a]);
                acc = acc.add(&t);
                a += 1;
            }
            row.push(acc);
            d += 1;
        }
        r.push(row);
        j += 1;
    }
    r
}

/// `rho(x)[d]` for `d` in `0..4`.
pub fn rho_til(x: i128) -> (r: Vec<Big>)
    requires
        0 <= x <= 40,
    ensures
        r@.len() == 4,
        forall|d: int| 0 <= d < 4 ==> (#[trigger] r@[d]).wf() && r@[d]@ == rho_spec(x as int, d),
{
    let mut r: Vec<Big> = Vec::new();
    let mut d = 0usize;
    while d < 4
        invariant
            0 <= x <= 40,
            d <= 4,
            r@.len() == d,
            forall|q: int| 0 <= q < d ==> (#[trigger] r@[q]).wf() && r@[q]@ == rho_spec(x as int, q),
        decreases 4 - d,
    {
        let mut acc = Big::zero();
        let mut a = 0usize;
        while a < 4
            invariant
                0 <= x <= 40,
                d < 4,
                a <= 4,
                acc.wf(),
                acc@ == rho_part(x as int, d as int, a as int),
            decreases 4 - a,
        {
            let t = ds(a as i128, x).mul_i128(ADJ[d][a]);
            acc = acc.add(&t);
            a += 1;
        }
        r.push(acc);
        d += 1;
    }
    r
}

/// A three-index table of normalised big integers with extents `nx`, `ny`, `nz`.
pub open spec fn grid_ok(v: Seq<Vec<Vec<Big>>>, nx: int, ny: int, nz: int) -> bool {
    &&& v.len() == nx
    &&& forall|x: int| 0 <= x < nx ==> (#[trigger] v[x])@.len() == ny
    &&& forall|x: int, y: int| 0 <= x < nx && 0 <= y < ny ==> (#[trigger] v[x]@[y])@.len() == nz
    &&& forall|x: int, y: int, z: int| 0 <= x < nx && 0 <= y < ny && 0 <= z < nz ==> (#[trigger] v[x]@[y]@[z]).wf()
}

/// The table as a function of its three indices, zero outside its extents.
pub open spec fn grid_fn(v: Seq<Vec<Vec<Big>>>, nx: int, ny: int, nz: int) -> spec_fn(int, int, int) -> int {
    |x: int, y: int, z: int| if 0 <= x < nx && 0 <= y < ny && 0 <= z < nz { v[x]@[y]@[z]@ } else { 0 }
}

/// The interior operators `Wtil(l)` for `l < n`.
pub open spec fn wt_ok(w: Seq<Vec<Vec<Big>>>, n: int) -> bool {
    &&& w.len() == n
    &&& forall|l: int| 0 <= l < n ==> (#[trigger] w[l])@.len() == 4
    &&& forall|l: int, j: int| 0 <= l < n && 0 <= j < 4 ==> (#[trigger] w[l]@[j])@.len() == 4
    &&& forall|l: int, j: int, d: int| 0 <= l < n && 0 <= j < 4 && 0 <= d < 4 ==> (#[trigger] w[l]@[j]@[d]).wf()
    &&& forall|l: int, j: int, d: int| 0 <= l < n && 0 <= j < 4 && 0 <= d < 4 ==> (#[trigger] w[l]@[j]@[d])@ == wt_spec(l, j, d)
}

/// Labelling weight of a spine vertex taking `l` leaves when `u` labels are used:
/// `(k - u) * C(k - u - 1, l)` (the multinomial `k!/prod l_i!` telescoped).
pub open spec fn lab(k: int, u: int, l: int) -> int {
    (k - u) * binom(k - u - 1, l)
}

/// The caterpillar state after the first spine vertex: `(j, c, u)` holds the
/// weight with Within-index `j`, `c` copies in, `u` labels used (`u = 1 + l0`,
/// `l0 >= 1` leaves, room left for a further vertex).
pub open spec fn cat_init(k: int, t: int) -> spec_fn(int, int, int) -> int {
    |j: int, c: int, u: int|
        if 0 <= j < 4 && 0 <= c <= t && 2 <= u <= k - 1 {
            ds_spec(u - 1, j) * (two_pow(((u - 1) * (t - c)) as nat) * binom(t, c) * lab(k, 0, u - 1))
        } else {
            0
        }
}

/// Contribution of source `(jp, cp, u)` to target `(j, c, up)` of an interior step.
pub open spec fn cat_term(s: spec_fn(int, int, int) -> int, k: int, t: int, j: int, c: int, up: int, u: int, jp: int, cp: int) -> int {
    let l = up - 1 - u;
    s(jp, cp, u) * wt_spec(l, j, jp) * two_pow((l * (t - c)) as nat) * lab(k, u, l) * binom(t - cp, c)
}

/// `sum_{cp < n}` of the interior contributions.
pub open spec fn cat_cp(s: spec_fn(int, int, int) -> int, k: int, t: int, j: int, c: int, up: int, u: int, jp: int, n: int) -> int
    decreases n,
{
    if n <= 0 {
        0
    } else {
        cat_cp(s, k, t, j, c, up, u, jp, n - 1) + cat_term(s, k, t, j, c, up, u, jp, n - 1)
    }
}

/// `sum_{jp < n}` of the interior contributions.
pub open spec fn cat_jp(s: spec_fn(int, int, int) -> int, k: int, t: int, j: int, c: int, up: int, u: int, n: int) -> int
    decreases n,
{
    if n <= 0 {
        0
    } else {
        cat_jp(s, k, t, j, c, up, u, n - 1) + cat_cp(s, k, t, j, c, up, u, n - 1, t + 1)
    }
}

/// `sum_{u < n}` of the interior contributions.
pub open spec fn cat_u(s: spec_fn(int, int, int) -> int, k: int, t: int, j: int, c: int, up: int, n: int) -> int
    decreases n,
{
    if n <= 0 {
        0
    } else {
        cat_u(s, k, t, j, c, up, n - 1) + cat_jp(s, k, t, j, c, up, n - 1, 4)
    }
}

/// One interior spine vertex: the state after it, leaving room for the read-out vertex.
pub open spec fn cat_next(s: spec_fn(int, int, int) -> int, k: int, t: int) -> spec_fn(int, int, int) -> int {
    |j: int, c: int, up: int|
        if 0 <= j < 4 && 0 <= c <= t && 0 <= up <= k - 1 {
            cat_u(s, k, t, j, c, up, up)
        } else {
            0
        }
}

/// The caterpillar state after `n` interior spine vertices.
pub open spec fn cat_iter(k: int, t: int, n: nat) -> spec_fn(int, int, int) -> int
    decreases n,
{
    if n == 0 {
        cat_init(k, t)
    } else {
        cat_next(cat_iter(k, t, (n - 1) as nat), k, t)
    }
}

proof fn lemma_lab_fits(k: int, u: int, l: int)
    requires
        0 <= u < k <= 30,
        0 <= l,
    ensures
        0 <= lab(k, u, l) <= 30 * two_pow(62),
{
    lemma_binom_bound(k - u - 1, l);
    lemma_binom_nonneg(k - u - 1, l);
    crate::within::lemma_two_pow_mono_pub((k - u - 1) as nat, 62);
    assert(lab(k, u, l) <= 30 * two_pow(62)) by (nonlinear_arith)
        requires
            0 <= binom(k - u - 1, l) <= two_pow(62),
            0 < k - u <= 30,
            lab(k, u, l) == (k - u) * binom(k - u - 1, l),
    ;
    assert(0 <= lab(k, u, l)) by (nonlinear_arith)
        requires
            0 <= binom(k - u - 1, l),
            0 < k - u,
            lab(k, u, l) == (k - u) * binom(k - u - 1, l),
    ;
}

/// `lab(k, u, l)` as an `i128`.
fn lab_exec(k: usize, u: usize, l: usize) -> (r: i128)
    requires
        u < k <= 30,
        l <= 30,
    ensures
        r == lab(k as int, u as int, l as int),
{
    proof {
        lemma_lab_fits(k as int, u as int, l as int);
        crate::within::lemma_two_pow_62();
    }
    let c = comb((k - u - 1) as i128, l as i128);
    ((k - u) as i128) * c
}

/// Entry `(j, c, up)` of the state after one interior spine vertex.
fn cat_entry(v: &Vec<Vec<Vec<Big>>>, k: usize, t: usize, wt: &Vec<Vec<Vec<Big>>>, j: usize, c: usize, up: usize) -> (r: Big)
    requires
        2 <= k <= 30,
        t <= 30,
        grid_ok(v@, 4, t + 1, k + 1),
        wt_ok(wt@, k as int),
        j < 4,
        c <= t,
        up + 1 <= k,
    ensures
        r.wf(),
        r@ == cat_u(grid_fn(v@, 4, t + 1, k + 1), k as int, t as int, j as int, c as int, up as int, up as int),
{
    let ghost s = grid_fn(v@, 4, t + 1, k + 1);
    let mut acc = Big::zero();
    let mut u = 0usize;
    while u < up
        invariant
            2 <= k <= 30,
            t <= 30,
            grid_ok(v@, 4, t + 1, k + 1),
            wt_ok(wt@, k as int),
            j < 4,
            c <= t,
            up + 1 <= k,
            s == grid_fn(v@, 4, t + 1, k + 1),
            u <= up,
            acc.wf(),
            acc@ == cat_u(s, k as int, t as int, j as int, c as int, up as int, u as int),
        decreases up - u,
    {
        let l = up - 1 - u;
        proof {
            assert(l * (t - c) <= 900) by (nonlinear_arith)
                requires
                    l <= 30,
                    t - c <= 30,
            ;
        }
        let pw = pow2((l * (t - c)) as u32);
        let lb = lab_exec(k, u, l);
        let mut accj = Big::zero();
        let mut jp = 0usize;
        while jp < 4
            invariant
                2 <= k <= 30,
                t <= 30,
                grid_ok(v@, 4, t + 1, k + 1),
                wt_ok(wt@, k as int),
                j < 4,
                c <= t,
                u < up,
                up + 1 <= k,
                l == up - 1 - u,
                s == grid_fn(v@, 4, t + 1, k + 1),
                pw.wf(),
                pw@ == two_pow((l * (t - c)) as nat),
                lb == lab(k as int, u as int, l as int),
                jp <= 4,
                accj.wf(),
                accj@ == cat_jp(s, k as int, t as int, j as int, c as int, up as int, u as int, jp as int),
            decreases 4 - jp,
        {
            let w = &wt[l][j][jp];
            let mut accc = Big::zero();
            let mut cp = 0usize;
            while cp <= t
                invariant
                    2 <= k <= 30,
                    t <= 30,
                    grid_ok(v@, 4, t + 1, k + 1),
                    j < 4,
                    jp < 4,
                    c <= t,
                    u < up,
                    up + 1 <= k,
                    l == up - 1 - u,
                    s == grid_fn(v@, 4, t + 1, k + 1),
                    pw.wf(),
                    pw@ == two_pow((l * (t - c)) as nat),
                    lb == lab(k as int, u as int, l as int),
                    w.wf(),
                    w@ == wt_spec(l as int, j as int, jp as int),
                    cp <= t + 1,
                    accc.wf(),
                    accc@ == cat_cp(s, k as int, t as int, j as int, c as int, up as int, u as int, jp as int, cp as int),
                decreases t + 1 - cp,
            {
                let cmb = comb((t - cp) as i128, c as i128);
                let e = &v[jp][cp][u];
                let term = mul_big(&mul_big(e, w), &pw).mul_i128(lb).mul_i128(cmb);
                proof {
                    assert(e@ == s(jp as int, cp as int, u as int));
                }
                accc = accc.add(&term);
                cp += 1;
            }
            accj = accj.add(&accc);
            jp += 1;
        }
        acc = acc.add(&accj);
        u += 1;
    }
    acc
}

/// One interior spine vertex of the caterpillar programme: the new state from
/// the old one, each target summing its sources.
pub fn cat_interior(v: &Vec<Vec<Vec<Big>>>, k: usize, t: usize, wt: &Vec<Vec<Vec<Big>>>) -> (nv: Vec<Vec<Vec<Big>>>)
    requires
        2 <= k <= 30,
        t <= 30,
        grid_ok(v@, 4, t + 1, k + 1),
        wt_ok(wt@, k as int),
    ensures
        grid_ok(nv@, 4, t + 1, k + 1),
        grid_fn(nv@, 4, t + 1, k + 1) == cat_next(grid_fn(v@, 4, t + 1, k + 1), k as int, t as int),
{
    let ghost s = grid_fn(v@, 4, t + 1, k + 1);
    let ghost ns = cat_next(s, k as int, t as int);
    let mut nv: Vec<Vec<Vec<Big>>> = Vec::new();
    let mut j = 0usize;
    while j < 4
        invariant
            2 <= k <= 30,
            t <= 30,
            grid_ok(v@, 4, t + 1, k + 1),
            wt_ok(wt@, k as int),
            s == grid_fn(v@, 4, t + 1, k + 1),
            ns == cat_next(s, k as int, t as int),
            j <= 4,
            nv@.len() == j,
            forall|x: int| 0 <= x < j ==> (#[trigger] nv@[x])@.len() == t + 1,
            forall|x: int, y: int| 0 <= x < j && 0 <= y <= t ==> (#[trigger] nv@[x]@[y])@.len() == k + 1,
            forall|x: int, y: int, z: int| 0 <= x < j && 0 <= y <= t && 0 <= z <= k ==> (#[trigger] nv@[x]@[y]@[z]).wf(),
            forall|x: int, y: int, z: int| 0 <= x < j && 0 <= y <= t && 0 <= z <= k ==> (#[trigger] nv@[x]@[y]@[z])@ == ns(x, y, z),
        decreases 4 - j,
    {
        let mut plane: Vec<Vec<Big>> = Vec::new();
        let mut c = 0usize;
        while c <= t
            invariant
                2 <= k <= 30,
                t <= 30,
                grid_ok(v@, 4, t + 1, k + 1),
                wt_ok(wt@, k as int),
                s == grid_fn(v@, 4, t + 1, k + 1),
                ns == cat_next(s, k as int, t as int),
                j < 4,
                c <= t + 1,
                plane@.len() == c,
                forall|y: int| 0 <= y < c ==> (#[trigger] plane@[y])@.len() == k + 1,
                forall|y: int, z: int| 0 <= y < c && 0 <= z <= k ==> (#[trigger] plane@[y]@[z]).wf(),
                forall|y: int, z: int| 0 <= y < c && 0 <= z <= k ==> (#[trigger] plane@[y]@[z])@ == ns(j as int, y, z),
            decreases t + 1 - c,
        {
            let mut row: Vec<Big> = Vec::new();
            let mut up = 0usize;
            while up <= k
                invariant
                    2 <= k <= 30,
                    t <= 30,
                    grid_ok(v@, 4, t + 1, k + 1),
                    wt_ok(wt@, k as int),
                    s == grid_fn(v@, 4, t + 1, k + 1),
                    ns == cat_next(s, k as int, t as int),
                    j < 4,
                    c <= t,
                    up <= k + 1,
                    row@.len() == up,
                    forall|z: int| 0 <= z < up ==> (#[trigger] row@[z]).wf(),
                    forall|z: int| 0 <= z < up ==> (#[trigger] row@[z])@ == ns(j as int, c as int, z),
                decreases k + 1 - up,
            {
                let x = if up + 1 <= k {
                    cat_entry(v, k, t, wt, j, c, up)
                } else {
                    Big::zero()
                };
                row.push(x);
                up += 1;
            }
            plane.push(row);
            c += 1;
        }
        nv.push(plane);
        j += 1;
    }
    proof {
        assert(grid_fn(nv@, 4, t + 1, k + 1) =~= ns);
    }
    nv
}

/// The interior operators `Wtil(l)` for `l < n`.
fn wt_tables(n: usize) -> (r: Vec<Vec<Vec<Big>>>)
    requires
        n <= 30,
    ensures
        wt_ok(r@, n as int),
{
    let mut r: Vec<Vec<Vec<Big>>> = Vec::new();
    let mut l = 0usize;
    while l < n
        invariant
            n <= 30,
            l <= n,
            r@.len() == l,
            forall|q: int| 0 <= q < l ==> (#[trigger] r@[q])@.len() == 4,
            forall|q: int, j: int| 0 <= q < l && 0 <= j < 4 ==> (#[trigger] r@[q]@[j])@.len() == 4,
            forall|q: int, j: int, d: int| 0 <= q < l && 0 <= j < 4 && 0 <= d < 4 ==> (#[trigger] r@[q]@[j]@[d]).wf(),
            forall|q: int, j: int, d: int| 0 <= q < l && 0 <= j < 4 && 0 <= d < 4 ==> (#[trigger] r@[q]@[j]@[d])@ == wt_spec(q, j, d),
        decreases n - l,
    {
        let w = w_til(l as i128);
        r.push(w);
        l += 1;
    }
    r
}

/// `sum_{c < n} 2^(l (t - c)) C(t - cp, c)`: the read-out vertex's leaf factor
/// summed over the copies that take it.
pub open spec fn q_part(t: int, l: int, cp: int, n: int) -> int
    decreases n,
{
    if n <= 0 {
        0
    } else {
        q_part(t, l, cp, n - 1) + two_pow((l * (t - (n - 1))) as nat) * binom(t - cp, n - 1)
    }
}

/// Contribution of state entry `(jp, cp, u)` to the read-out (the last spine
/// vertex takes the remaining `l = k - 1 - u` leaves).
pub open spec fn rd_term(s: spec_fn(int, int, int) -> int, k: int, t: int, u: int, jp: int, cp: int) -> int {
    let l = k - 1 - u;
    s(jp, cp, u) * rho_spec(l, jp) * q_part(t, l, cp, t + 1) * lab(k, u, l)
}

/// `sum_{cp < n}` of the read-out contributions.
pub open spec fn rd_cp(s: spec_fn(int, int, int) -> int, k: int, t: int, u: int, jp: int, n: int) -> int
    decreases n,
{
    if n <= 0 {
        0
    } else {
        rd_cp(s, k, t, u, jp, n - 1) + rd_term(s, k, t, u, jp, n - 1)
    }
}

/// `sum_{jp < n}` of the read-out contributions.
pub open spec fn rd_jp(s: spec_fn(int, int, int) -> int, k: int, t: int, u: int, n: int) -> int
    decreases n,
{
    if n <= 0 {
        0
    } else {
        rd_jp(s, k, t, u, n - 1) + rd_cp(s, k, t, u, n - 1, t + 1)
    }
}

/// `sum_{u < n}` of the read-out contributions.
pub open spec fn rd_u(s: spec_fn(int, int, int) -> int, k: int, t: int, n: int) -> int
    decreases n,
{
    if n <= 0 {
        0
    } else {
        rd_u(s, k, t, n - 1) + rd_jp(s, k, t, n - 1, 4)
    }
}

/// `p` successive truncating divisions by `det G = 144`.
pub open spec fn tdiv_pow(x: int, p: nat) -> int
    decreases p,
{
    if p == 0 {
        x
    } else {
        tdiv(tdiv_pow(x, (p - 1) as nat), 144)
    }
}

/// The read-out of a state (every entry with at least one leaf left for the
/// last spine vertex), cleared of `144^power`.
pub open spec fn readout_spec(s: spec_fn(int, int, int) -> int, k: int, t: int, power: nat) -> int {
    tdiv_pow(rd_u(s, k, t, k - 1), power)
}

/// The read-out operators `rho(l)` for `l < n`.
pub open spec fn rho_ok(r: Seq<Vec<Big>>, n: int) -> bool {
    &&& r.len() == n
    &&& forall|l: int| 0 <= l < n ==> (#[trigger] r[l])@.len() == 4
    &&& forall|l: int, d: int| 0 <= l < n && 0 <= d < 4 ==> (#[trigger] r[l]@[d]).wf()
    &&& forall|l: int, d: int| 0 <= l < n && 0 <= d < 4 ==> (#[trigger] r[l]@[d])@ == rho_spec(l, d)
}

fn rho_tables(n: usize) -> (r: Vec<Vec<Big>>)
    requires
        n <= 30,
    ensures
        rho_ok(r@, n as int),
{
    let mut r: Vec<Vec<Big>> = Vec::new();
    let mut l = 0usize;
    while l < n
        invariant
            n <= 30,
            l <= n,
            r@.len() == l,
            forall|q: int| 0 <= q < l ==> (#[trigger] r@[q])@.len() == 4,
            forall|q: int, d: int| 0 <= q < l && 0 <= d < 4 ==> (#[trigger] r@[q]@[d]).wf(),
            forall|q: int, d: int| 0 <= q < l && 0 <= d < 4 ==> (#[trigger] r@[q]@[d])@ == rho_spec(q, d),
        decreases n - l,
    {
        let x = rho_til(l as i128);
        r.push(x);
        l += 1;
    }
    r
}

/// `q_part(t, l, cp, t + 1)`.
fn leaf_factor(t: usize, l: usize, cp: usize) -> (r: Big)
    requires
        t <= 30,
        l <= 30,
        cp <= t,
    ensures
        r.wf(),
        r@ == q_part(t as int, l as int, cp as int, t + 1),
{
    let mut acc = Big::zero();
    let mut c = 0usize;
    while c <= t
        invariant
            t <= 30,
            l <= 30,
            cp <= t,
            c <= t + 1,
            acc.wf(),
            acc@ == q_part(t as int, l as int, cp as int, c as int),
        decreases t + 1 - c,
    {
        proof {
            assert(l * (t - c) <= 900) by (nonlinear_arith)
                requires
                    l <= 30,
                    t - c <= 30,
            ;
        }
        let cmb = comb((t - cp) as i128, c as i128);
        let term = pow2((l * (t - c)) as u32).mul_i128(cmb);
        acc = acc.add(&term);
        c += 1;
    }
    acc
}

/// The read-out of the caterpillar state `v`, divided by `144^power`.
pub fn cat_readout(v: &Vec<Vec<Vec<Big>>>, k: usize, t: usize, rho: &Vec<Vec<Big>>, power: usize) -> (r: Big)
    requires
        2 <= k <= 30,
        t <= 30,
        grid_ok(v@, 4, t + 1, k + 1),
        rho_ok(rho@, k as int),
    ensures
        r.wf(),
        r@ == readout_spec(grid_fn(v@, 4, t + 1, k + 1), k as int, t as int, power as nat),
{
    let ghost s = grid_fn(v@, 4, t + 1, k + 1);
    let mut acc = Big::zero();
    let mut u = 0usize;
    while u + 1 < k
        invariant
            2 <= k <= 30,
            t <= 30,
            grid_ok(v@, 4, t + 1, k + 1),
            rho_ok(rho@, k as int),
            s == grid_fn(v@, 4, t + 1, k + 1),
            u + 1 <= k,
            acc.wf(),
            acc@ == rd_u(s, k as int, t as int, u as int),
        decreases k - u,
    {
        let l = k - 1 - u;
        let lb = lab_exec(k, u, l);
        let mut qs: Vec<Big> = Vec::new();
        let mut cp = 0usize;
        while cp <= t
            invariant
                t <= 30,
                l <= 30,
                cp <= t + 1,
                qs@.len() == cp,
                forall|q: int| 0 <= q < cp ==> (#[trigger] qs@[q]).wf() && qs@[q]@ == q_part(t as int, l as int, q, t + 1),
            decreases t + 1 - cp,
        {
            qs.push(leaf_factor(t, l, cp));
            cp += 1;
        }
        let mut accj = Big::zero();
        let mut jp = 0usize;
        while jp < 4
            invariant
                2 <= k <= 30,
                t <= 30,
                grid_ok(v@, 4, t + 1, k + 1),
                rho_ok(rho@, k as int),
                s == grid_fn(v@, 4, t + 1, k + 1),
                u + 1 < k,
                l == k - 1 - u,
                lb == lab(k as int, u as int, l as int),
                qs@.len() == t + 1,
                forall|q: int| 0 <= q <= t ==> (#[trigger] qs@[q]).wf() && qs@[q]@ == q_part(t as int, l as int, q, t + 1),
                jp <= 4,
                accj.wf(),
                accj@ == rd_jp(s, k as int, t as int, u as int, jp as int),
            decreases 4 - jp,
        {
            let rl = &rho[l][jp];
            let mut accc = Big::zero();
            let mut cp = 0usize;
            while cp <= t
                invariant
                    2 <= k <= 30,
                    t <= 30,
                    grid_ok(v@, 4, t + 1, k + 1),
                    s == grid_fn(v@, 4, t + 1, k + 1),
                    u + 1 < k,
                    jp < 4,
                    l == k - 1 - u,
                    lb == lab(k as int, u as int, l as int),
                    qs@.len() == t + 1,
                    forall|q: int| 0 <= q <= t ==> (#[trigger] qs@[q]).wf() && qs@[q]@ == q_part(t as int, l as int, q, t + 1),
                    rl.wf(),
                    rl@ == rho_spec(l as int, jp as int),
                    cp <= t + 1,
                    accc.wf(),
                    accc@ == rd_cp(s, k as int, t as int, u as int, jp as int, cp as int),
                decreases t + 1 - cp,
            {
                let e = &v[jp][cp][u];
                let term = mul_big(&mul_big(e, rl), &qs[cp]).mul_i128(lb);
                proof {
                    assert(e@ == s(jp as int, cp as int, u as int));
                }
                accc = accc.add(&term);
                cp += 1;
            }
            accj = accj.add(&accc);
            jp += 1;
        }
        acc = acc.add(&accj);
        u += 1;
    }
    let mut p = 0usize;
    let ghost x = acc@;
    while p < power
        invariant
            p <= power,
            acc.wf(),
            acc@ == tdiv_pow(x, p as nat),
        decreases power - p,
    {
        let q = acc.div_small_exact(144);
        proof {
            lemma_div_tdiv(acc, q, 144);
        }
        acc = q;
        p += 1;
    }
    acc
}

/// The caterpillar state after the first spine vertex, as a table.
fn cat_init_grid(k: usize, t: usize) -> (v: Vec<Vec<Vec<Big>>>)
    requires
        2 <= k <= 30,
        t <= 30,
    ensures
        grid_ok(v@, 4, t + 1, k + 1),
        grid_fn(v@, 4, t + 1, k + 1) == cat_init(k as int, t as int),
{
    let ghost ns = cat_init(k as int, t as int);
    let mut nv: Vec<Vec<Vec<Big>>> = Vec::new();
    let mut j = 0usize;
    while j < 4
        invariant
            2 <= k <= 30,
            t <= 30,
            ns == cat_init(k as int, t as int),
            j <= 4,
            nv@.len() == j,
            forall|x: int| 0 <= x < j ==> (#[trigger] nv@[x])@.len() == t + 1,
            forall|x: int, y: int| 0 <= x < j && 0 <= y <= t ==> (#[trigger] nv@[x]@[y])@.len() == k + 1,
            forall|x: int, y: int, z: int| 0 <= x < j && 0 <= y <= t && 0 <= z <= k ==> (#[trigger] nv@[x]@[y]@[z]).wf(),
            forall|x: int, y: int, z: int| 0 <= x < j && 0 <= y <= t && 0 <= z <= k ==> (#[trigger] nv@[x]@[y]@[z])@ == ns(x, y, z),
        decreases 4 - j,
    {
        let mut plane: Vec<Vec<Big>> = Vec::new();
        let mut c = 0usize;
        while c <= t
            invariant
                2 <= k <= 30,
                t <= 30,
                ns == cat_init(k as int, t as int),
                j < 4,
                c <= t + 1,
                plane@.len() == c,
                forall|y: int| 0 <= y < c ==> (#[trigger] plane@[y])@.len() == k + 1,
                forall|y: int, z: int| 0 <= y < c && 0 <= z <= k ==> (#[trigger] plane@[y]@[z]).wf(),
                forall|y: int, z: int| 0 <= y < c && 0 <= z <= k ==> (#[trigger] plane@[y]@[z])@ == ns(j as int, y, z),
            decreases t + 1 - c,
        {
            let mut row: Vec<Big> = Vec::new();
            let mut u = 0usize;
            while u <= k
                invariant
                    2 <= k <= 30,
                    t <= 30,
                    ns == cat_init(k as int, t as int),
                    j < 4,
                    c <= t,
                    u <= k + 1,
                    row@.len() == u,
                    forall|z: int| 0 <= z < u ==> (#[trigger] row@[z]).wf(),
                    forall|z: int| 0 <= z < u ==> (#[trigger] row@[z])@ == ns(j as int, c as int, z),
                decreases k + 1 - u,
            {
                let x = if 2 <= u && u + 1 <= k {
                    let l0 = u - 1;
                    proof {
                        assert(l0 * (t - c) <= 900) by (nonlinear_arith)
                            requires
                                l0 <= 30,
                                t - c <= 30,
                        ;
                    }
                    let lb = lab_exec(k, 0, l0);
                    let sc = pow2((l0 * (t - c)) as u32).mul_i128(comb(t as i128, c as i128)).mul_i128(lb);
                    mul_big(&ds(l0 as i128, j as i128), &sc)
                } else {
                    Big::zero()
                };
                row.push(x);
                u += 1;
            }
            plane.push(row);
            c += 1;
        }
        nv.push(plane);
        j += 1;
    }
    proof {
        assert(grid_fn(nv@, 4, t + 1, k + 1) =~= ns);
    }
    nv
}

/// The read-outs after `0, 1, ..., n - 1` interior spine vertices, the one
/// after `i` of them cleared of `144^(i + 1)`.
pub open spec fn cat_total(k: int, t: int, n: nat) -> int
    decreases n,
{
    if n == 0 {
        0
    } else {
        cat_total(k, t, (n - 1) as nat) + readout_spec(cat_iter(k, t, (n - 1) as nat), k, t, n)
    }
}

/// The caterpillars with at least two spine vertices, weighted: each spine
/// is read in both directions, hence the halving.
pub open spec fn cat_spec(k: int, t: int) -> int {
    tdiv(cat_total(k, t, (k + 1) as nat), 2)
}

/// `sum` over labelled caterpillars with at least two spine vertices on `k`
/// vertices of `Within(C) I(C)^t`, by the fused spine programme.
pub fn cat_mge2(k: i128, t: i128) -> (r: Big)
    requires
        2 <= k <= 30,
        0 <= t <= 30,
    ensures
        r.wf(),
        r@ == cat_spec(k as int, t as int),
{
    let ku = k as usize;
    let tu = t as usize;
    let wt = wt_tables(ku);
    let rho = rho_tables(ku);
    let mut v = cat_init_grid(ku, tu);
    let mut total = Big::zero();
    let mut st = 0usize;
    while st <= ku
        invariant
            2 <= ku <= 30,
            tu <= 30,
            ku == k,
            tu == t,
            wt_ok(wt@, ku as int),
            rho_ok(rho@, ku as int),
            st <= ku + 1,
            grid_ok(v@, 4, tu + 1, ku + 1),
            grid_fn(v@, 4, tu + 1, ku + 1) == cat_iter(k as int, t as int, st as nat),
            total.wf(),
            total@ == cat_total(k as int, t as int, st as nat),
        decreases ku + 1 - st,
    {
        let ro = cat_readout(&v, ku, tu, &rho, st + 1);
        total = total.add(&ro);
        v = cat_interior(&v, ku, tu, &wt);
        st += 1;
    }
    let r = total.div_small_exact(2);
    proof {
        lemma_div_tdiv(total, r, 2);
    }
    r
}

/// `S_k(t)`: the sum over labelled caterpillars `C` on `k` vertices of
/// `Within(C) I(C)^t`, where `I(C)` counts the independent sets of `C`.
pub open spec fn sk_spec(k: int, t: int) -> int {
    if k < 2 {
        0
    } else if k == 2 {
        ipow(3, t as nat) * 2
    } else {
        star_spec(k - 1) * k * ipow(two_pow((k - 1) as nat) as int + 1, t as nat) + if k >= 4 {
            cat_spec(k, t)
        } else {
            0
        }
    }
}

/// `S_k(t)`: the single edge, the stars `K_{1,k-1}` (`k` labellings each,
/// `I = 2^(k-1) + 1`) and the caterpillars with a longer spine.
pub fn sk(k: i128, t: i128) -> (r: Big)
    requires
        k <= 30,
        0 <= t <= 30,
    ensures
        r.wf(),
        r@ == sk_spec(k as int, t as int),
{
    if k < 2 {
        return Big::zero();
    }
    if k == 2 {
        return ipow_big(3, t as usize).mul_i128(2);
    }
    let l0 = k - 1;
    let base = two_to(l0 as usize) + 1;
    let mut total = mul_big(&star(l0).mul_i128(k), &ipow_big(base, t as usize));
    if k >= 4 {
        total = total.add(&cat_mge2(k, t));
    }
    total
}

/// `w_k(t) = (-1)^(k-1) S_k(t)`.
pub open spec fn wk_spec(k: int, t: int) -> int {
    if (k - 1) % 2 == 0 {
        sk_spec(k, t)
    } else {
        -sk_spec(k, t)
    }
}

/// The signed caterpillar weight `w_k(t)`.
pub fn wk(k: i128, t: i128) -> (r: Big)
    requires
        1 <= k <= 30,
        0 <= t <= 30,
    ensures
        r.wf(),
        r@ == wk_spec(k as int, t as int),
{
    let s = sk(k, t);
    if (k - 1) % 2 == 0 {
        s
    } else {
        s.mul_i128(-1)
    }
}

/// The odd-cycle-sun state after the seam vertex of a `g`-cycle on `v` labelled
/// vertices, seed in-set of size `c0` out of `t` copies: `(a, b, u)` holds the
/// weight with `a` copies in inside the seed set, `b` outside, `u` labels used.
pub open spec fn sun_init(v: int, t: int, g: int, c0: int) -> spec_fn(int, int, int) -> int {
    |a: int, b: int, u: int|
        if a == c0 && b == 0 && 1 <= u <= v - (g - 1) {
            two_pow(((u - 1) * (t - c0)) as nat) * two_pow(c2_spec(u - 1) as nat) * lab(v, 0, u - 1) * binom(t, c0)
        } else {
            0
        }
}

/// Contribution of source `(a2, b2, u)` to target `(a, b, up)` of a cycle step.
pub open spec fn sun_term(s: spec_fn(int, int, int) -> int, v: int, t: int, c0: int, a: int, b: int, up: int, u: int, a2: int, b2: int) -> int {
    let l = up - 1 - u;
    s(a2, b2, u) * lab(v, u, l) * two_pow(c2_spec(l) as nat) * binom(c0 - a2, a) * binom(t - c0 - b2, b) * two_pow(
        (l * (t - a - b)) as nat,
    )
}

/// `sum_{b2 < n}` of the cycle-step contributions.
pub open spec fn sun_b2(s: spec_fn(int, int, int) -> int, v: int, t: int, c0: int, a: int, b: int, up: int, u: int, a2: int, n: int) -> int
    decreases n,
{
    if n <= 0 {
        0
    } else {
        sun_b2(s, v, t, c0, a, b, up, u, a2, n - 1) + sun_term(s, v, t, c0, a, b, up, u, a2, n - 1)
    }
}

/// `sum_{a2 < n}` of the cycle-step contributions.
pub open spec fn sun_a2(s: spec_fn(int, int, int) -> int, v: int, t: int, c0: int, a: int, b: int, up: int, u: int, n: int) -> int
    decreases n,
{
    if n <= 0 {
        0
    } else {
        sun_a2(s, v, t, c0, a, b, up, u, n - 1) + sun_b2(s, v, t, c0, a, b, up, u, n - 1, t - c0 + 1)
    }
}

/// `sum_{u < n}` of the cycle-step contributions.
pub open spec fn sun_u(s: spec_fn(int, int, int) -> int, v: int, t: int, c0: int, a: int, b: int, up: int, n: int) -> int
    decreases n,
{
    if n <= 0 {
        0
    } else {
        sun_u(s, v, t, c0, a, b, up, n - 1) + sun_a2(s, v, t, c0, a, b, up, n - 1, c0 + 1)
    }
}

/// Cycle vertex `step` (of `1..g`): each later vertex keeps at least one
/// label, and the last one closes the odd cycle with no copy in inside the seed set.
pub open spec fn sun_next(s: spec_fn(int, int, int) -> int, v: int, t: int, g: int, c0: int, step: int) -> spec_fn(int, int, int) -> int {
    |a: int, b: int, up: int|
        if 0 <= a <= c0 && 0 <= b <= t - c0 && 0 <= up <= v && up <= v - (g - 1 - step) && (step == g - 1 ==> a == 0) {
            sun_u(s, v, t, c0, a, b, up, up)
        } else {
            0
        }
}

/// The sun state after `n` cycle vertices beyond the seam.
pub open spec fn sun_iter(v: int, t: int, g: int, c0: int, n: nat) -> spec_fn(int, int, int) -> int
    decreases n,
{
    if n == 0 {
        sun_init(v, t, g, c0)
    } else {
        sun_next(sun_iter(v, t, g, c0, (n - 1) as nat), v, t, g, c0, n as int)
    }
}

/// `sum_{b < n}` of the entries `(a, b, v)` (all labels used).
pub open spec fn sun_read_b(s: spec_fn(int, int, int) -> int, v: int, a: int, n: int) -> int
    decreases n,
{
    if n <= 0 {
        0
    } else {
        sun_read_b(s, v, a, n - 1) + s(a, n - 1, v)
    }
}

/// `sum_{a < n}` of the fully labelled entries.
pub open spec fn sun_read_a(s: spec_fn(int, int, int) -> int, v: int, top: int, n: int) -> int
    decreases n,
{
    if n <= 0 {
        0
    } else {
        sun_read_a(s, v, top, n - 1) + sun_read_b(s, v, n - 1, top + 1)
    }
}

/// `sum_{c0 < n}` over the seed in-set sizes of the closed cycles.
pub open spec fn sun_c0(v: int, t: int, g: int, n: int) -> int
    decreases n,
{
    if n <= 0 {
        0
    } else {
        sun_c0(v, t, g, n - 1) + sun_read_a(sun_iter(v, t, g, n - 1, (g - 1) as nat), v, t - (n - 1), n)
    }
}

/// The labelled odd-cycle suns on `v` vertices with a `g`-cycle, weighted by
/// `I(S)^t` and their `Within` count, before the dihedral division.
pub open spec fn sun_spec(v: int, t: int, g: int) -> int {
    sun_c0(v, t, g, t + 1)
}

/// Entry `(a, b, up)` of the state after cycle vertex `step`.
fn sun_entry(w: &Vec<Vec<Vec<Big>>>, v: usize, t: usize, c0: usize, a: usize, b: usize, up: usize) -> (r: Big)
    requires
        v <= 30,
        t <= 30,
        c0 <= t,
        grid_ok(w@, c0 + 1, t - c0 + 1, v + 1),
        a <= c0,
        b <= t - c0,
        up <= v,
    ensures
        r.wf(),
        r@ == sun_u(grid_fn(w@, c0 + 1, t - c0 + 1, v + 1), v as int, t as int, c0 as int, a as int, b as int, up as int, up as int),
{
    let ghost s = grid_fn(w@, c0 + 1, t - c0 + 1, v + 1);
    let top = t - c0;
    let mut acc = Big::zero();
    let mut u = 0usize;
    while u < up
        invariant
            v <= 30,
            t <= 30,
            c0 <= t,
            top == t - c0,
            grid_ok(w@, c0 + 1, t - c0 + 1, v + 1),
            a <= c0,
            b <= top,
            up <= v,
            s == grid_fn(w@, c0 + 1, t - c0 + 1, v + 1),
            u <= up,
            acc.wf(),
            acc@ == sun_u(s, v as int, t as int, c0 as int, a as int, b as int, up as int, u as int),
        decreases up - u,
    {
        let l = up - 1 - u;
        proof {
            assert(l * (t - a - b) <= 900) by (nonlinear_arith)
                requires
                    l <= 30,
                    t - a - b <= 30,
            ;
        }
        let lb = lab_exec(v, u, l);
        let wf = pow2(c2(l as i128));
        let lf = pow2((l * (t - a - b)) as u32);
        let mut acca = Big::zero();
        let mut a2 = 0usize;
        while a2 <= c0
            invariant
                v <= 30,
                t <= 30,
                c0 <= t,
                top == t - c0,
                grid_ok(w@, c0 + 1, t - c0 + 1, v + 1),
                a <= c0,
                b <= top,
                u < up <= v,
                l == up - 1 - u,
                s == grid_fn(w@, c0 + 1, t - c0 + 1, v + 1),
                lb == lab(v as int, u as int, l as int),
                wf.wf(),
                wf@ == two_pow(c2_spec(l as int) as nat),
                lf.wf(),
                lf@ == two_pow((l * (t - a - b)) as nat),
                a2 <= c0 + 1,
                acca.wf(),
                acca@ == sun_a2(s, v as int, t as int, c0 as int, a as int, b as int, up as int, u as int, a2 as int),
            decreases c0 + 1 - a2,
        {
            let ca = comb((c0 - a2) as i128, a as i128);
            let mut accb = Big::zero();
            let mut b2 = 0usize;
            while b2 <= top
                invariant
                    v <= 30,
                    t <= 30,
                    c0 <= t,
                    top == t - c0,
                    grid_ok(w@, c0 + 1, t - c0 + 1, v + 1),
                    a <= c0,
                    b <= top,
                    u < up <= v,
                    a2 <= c0,
                    l == up - 1 - u,
                    s == grid_fn(w@, c0 + 1, t - c0 + 1, v + 1),
                    lb == lab(v as int, u as int, l as int),
                    wf.wf(),
                    wf@ == two_pow(c2_spec(l as int) as nat),
                    lf.wf(),
                    lf@ == two_pow((l * (t - a - b)) as nat),
                    ca == binom(c0 - a2, a as int),
                    b2 <= top + 1,
                    accb.wf(),
                    accb@ == sun_b2(s, v as int, t as int, c0 as int, a as int, b as int, up as int, u as int, a2 as int, b2 as int),
                decreases top + 1 - b2,
            {
                let cb = comb((top - b2) as i128, b as i128);
                let e = &w[a2][b2][u];
                let term = mul_big(&mul_big(&e.mul_i128(lb), &wf).mul_i128(ca).mul_i128(cb), &lf);
                proof {
                    assert(e@ == s(a2 as int, b2 as int, u as int));
                }
                accb = accb.add(&term);
                b2 += 1;
            }
            acca = acca.add(&accb);
            a2 += 1;
        }
        acc = acc.add(&acca);
        u += 1;
    }
    acc
}

/// One cycle vertex of the sun programme: the new state from the old one.
fn sun_step(w: &Vec<Vec<Vec<Big>>>, v: usize, t: usize, g: usize, c0: usize, step: usize) -> (nw: Vec<Vec<Vec<Big>>>)
    requires
        v <= 30,
        t <= 30,
        c0 <= t,
        1 <= step <= g - 1,
        g <= v,
        grid_ok(w@, c0 + 1, t - c0 + 1, v + 1),
    ensures
        grid_ok(nw@, c0 + 1, t - c0 + 1, v + 1),
        grid_fn(nw@, c0 + 1, t - c0 + 1, v + 1) == sun_next(
            grid_fn(w@, c0 + 1, t - c0 + 1, v + 1),
            v as int,
            t as int,
            g as int,
            c0 as int,
            step as int,
        ),
{
    let ghost s = grid_fn(w@, c0 + 1, t - c0 + 1, v + 1);
    let ghost ns = sun_next(s, v as int, t as int, g as int, c0 as int, step as int);
    let top = t - c0;
    let mut nw: Vec<Vec<Vec<Big>>> = Vec::new();
    let mut a = 0usize;
    while a <= c0
        invariant
            v <= 30,
            t <= 30,
            c0 <= t,
            top == t - c0,
            1 <= step <= g - 1,
            g <= v,
            grid_ok(w@, c0 + 1, t - c0 + 1, v + 1),
            s == grid_fn(w@, c0 + 1, t - c0 + 1, v + 1),
            ns == sun_next(s, v as int, t as int, g as int, c0 as int, step as int),
            a <= c0 + 1,
            nw@.len() == a,
            forall|x: int| 0 <= x < a ==> (#[trigger] nw@[x])@.len() == top + 1,
            forall|x: int, y: int| 0 <= x < a && 0 <= y <= top ==> (#[trigger] nw@[x]@[y])@.len() == v + 1,
            forall|x: int, y: int, z: int| 0 <= x < a && 0 <= y <= top && 0 <= z <= v ==> (#[trigger] nw@[x]@[y]@[z]).wf(),
            forall|x: int, y: int, z: int| 0 <= x < a && 0 <= y <= top && 0 <= z <= v ==> (#[trigger] nw@[x]@[y]@[z])@ == ns(x, y, z),
        decreases c0 + 1 - a,
    {
        let mut plane: Vec<Vec<Big>> = Vec::new();
        let mut b = 0usize;
        while b <= top
            invariant
                v <= 30,
                t <= 30,
                c0 <= t,
                top == t - c0,
                1 <= step <= g - 1,
                g <= v,
                grid_ok(w@, c0 + 1, t - c0 + 1, v + 1),
                s == grid_fn(w@, c0 + 1, t - c0 + 1, v + 1),
                ns == sun_next(s, v as int, t as int, g as int, c0 as int, step as int),
                a <= c0,
                b <= top + 1,
                plane@.len() == b,
                forall|y: int| 0 <= y < b ==> (#[trigger] plane@[y])@.len() == v + 1,
                forall|y: int, z: int| 0 <= y < b && 0 <= z <= v ==> (#[trigger] plane@[y]@[z]).wf(),
                forall|y: int, z: int| 0 <= y < b && 0 <= z <= v ==> (#[trigger] plane@[y]@[z])@ == ns(a as int, y, z),
            decreases top + 1 - b,
        {
            let mut row: Vec<Big> = Vec::new();
            let mut up = 0usize;
            while up <= v
                invariant
                    v <= 30,
                    t <= 30,
                    c0 <= t,
                    top == t - c0,
                    1 <= step <= g - 1,
                    g <= v,
                    grid_ok(w@, c0 + 1, t - c0 + 1, v + 1),
                    s == grid_fn(w@, c0 + 1, t - c0 + 1, v + 1),
                    ns == sun_next(s, v as int, t as int, g as int, c0 as int, step as int),
                    a <= c0,
                    b <= top,
                    up <= v + 1,
                    row@.len() == up,
                    forall|z: int| 0 <= z < up ==> (#[trigger] row@[z]).wf(),
                    forall|z: int| 0 <= z < up ==> (#[trigger] row@[z])@ == ns(a as int, b as int, z),
                decreases v + 1 - up,
            {
                let keep = up + (g - 1 - step) <= v && (step != g - 1 || a == 0);
                let x = if keep {
                    sun_entry(w, v, t, c0, a, b, up)
                } else {
                    Big::zero()
                };
                row.push(x);
                up += 1;
            }
            plane.push(row);
            b += 1;
        }
        nw.push(plane);
        a += 1;
    }
    proof {
        assert(grid_fn(nw@, c0 + 1, t - c0 + 1, v + 1) =~= ns);
    }
    nw
}

/// The sun state after the seam vertex, as a table.
fn sun_init_grid(v: usize, t: usize, g: usize, c0: usize) -> (w: Vec<Vec<Vec<Big>>>)
    requires
        v <= 30,
        t <= 30,
        c0 <= t,
        1 <= g <= v,
    ensures
        grid_ok(w@, c0 + 1, t - c0 + 1, v + 1),
        grid_fn(w@, c0 + 1, t - c0 + 1, v + 1) == sun_init(v as int, t as int, g as int, c0 as int),
{
    let ghost ns = sun_init(v as int, t as int, g as int, c0 as int);
    let top = t - c0;
    let mult = comb(t as i128, c0 as i128);
    let mut nw: Vec<Vec<Vec<Big>>> = Vec::new();
    let mut a = 0usize;
    while a <= c0
        invariant
            v <= 30,
            t <= 30,
            c0 <= t,
            top == t - c0,
            1 <= g <= v,
            mult == binom(t as int, c0 as int),
            ns == sun_init(v as int, t as int, g as int, c0 as int),
            a <= c0 + 1,
            nw@.len() == a,
            forall|x: int| 0 <= x < a ==> (#[trigger] nw@[x])@.len() == top + 1,
            forall|x: int, y: int| 0 <= x < a && 0 <= y <= top ==> (#[trigger] nw@[x]@[y])@.len() == v + 1,
            forall|x: int, y: int, z: int| 0 <= x < a && 0 <= y <= top && 0 <= z <= v ==> (#[trigger] nw@[x]@[y]@[z]).wf(),
            forall|x: int, y: int, z: int| 0 <= x < a && 0 <= y <= top && 0 <= z <= v ==> (#[trigger] nw@[x]@[y]@[z])@ == ns(x, y, z),
        decreases c0 + 1 - a,
    {
        let mut plane: Vec<Vec<Big>> = Vec::new();
        let mut b = 0usize;
        while b <= top
            invariant
                v <= 30,
                t <= 30,
                c0 <= t,
                top == t - c0,
                1 <= g <= v,
                mult == binom(t as int, c0 as int),
                ns == sun_init(v as int, t as int, g as int, c0 as int),
                a <= c0,
                b <= top + 1,
                plane@.len() == b,
                forall|y: int| 0 <= y < b ==> (#[trigger] plane@[y])@.len() == v + 1,
                forall|y: int, z: int| 0 <= y < b && 0 <= z <= v ==> (#[trigger] plane@[y]@[z]).wf(),
                forall|y: int, z: int| 0 <= y < b && 0 <= z <= v ==> (#[trigger] plane@[y]@[z])@ == ns(a as int, y, z),
            decreases top + 1 - b,
        {
            let mut row: Vec<Big> = Vec::new();
            let mut u = 0usize;
            while u <= v
                invariant
                    v <= 30,
                    t <= 30,
                    c0 <= t,
                    top == t - c0,
                    1 <= g <= v,
                    mult == binom(t as int, c0 as int),
                    ns == sun_init(v as int, t as int, g as int, c0 as int),
                    a <= c0,
                    b <= top,
                    u <= v + 1,
                    row@.len() == u,
                    forall|z: int| 0 <= z < u ==> (#[trigger] row@[z]).wf(),
                    forall|z: int| 0 <= z < u ==> (#[trigger] row@[z])@ == ns(a as int, b as int, z),
                decreases v + 1 - u,
            {
                let x = if a == c0 && b == 0 && 1 <= u && u + (g - 1) <= v {
                    let l0 = u - 1;
                    proof {
                        assert(l0 * (t - c0) <= 900) by (nonlinear_arith)
                            requires
                                l0 <= 30,
                                t - c0 <= 30,
                        ;
                    }
                    let lf = pow2((l0 * (t - c0)) as u32);
                    let wf = pow2(c2(l0 as i128));
                    let lb = lab_exec(v, 0, l0);
                    mul_big(&lf, &wf).mul_i128(lb).mul_i128(mult)
                } else {
                    Big::zero()
                };
                row.push(x);
                u += 1;
            }
            plane.push(row);
            b += 1;
        }
        nw.push(plane);
        a += 1;
    }
    proof {
        assert(grid_fn(nw@, c0 + 1, t - c0 + 1, v + 1) =~= ns);
    }
    nw
}

/// The fully labelled entries of a closed sun state, summed.
fn sun_read(w: &Vec<Vec<Vec<Big>>>, v: usize, t: usize, c0: usize) -> (r: Big)
    requires
        v <= 30,
        t <= 30,
        c0 <= t,
        grid_ok(w@, c0 + 1, t - c0 + 1, v + 1),
    ensures
        r.wf(),
        r@ == sun_read_a(grid_fn(w@, c0 + 1, t - c0 + 1, v + 1), v as int, t - c0, c0 + 1),
{
    let ghost s = grid_fn(w@, c0 + 1, t - c0 + 1, v + 1);
    let top = t - c0;
    let mut acc = Big::zero();
    let mut a = 0usize;
    while a <= c0
        invariant
            v <= 30,
            t <= 30,
            c0 <= t,
            top == t - c0,
            grid_ok(w@, c0 + 1, t - c0 + 1, v + 1),
            s == grid_fn(w@, c0 + 1, t - c0 + 1, v + 1),
            a <= c0 + 1,
            acc.wf(),
            acc@ == sun_read_a(s, v as int, top as int, a as int),
        decreases c0 + 1 - a,
    {
        let mut accb = Big::zero();
        let mut b = 0usize;
        while b <= top
            invariant
                v <= 30,
                t <= 30,
                c0 <= t,
                top == t - c0,
                grid_ok(w@, c0 + 1, t - c0 + 1, v + 1),
                s == grid_fn(w@, c0 + 1, t - c0 + 1, v + 1),
                a <= c0,
                b <= top + 1,
                accb.wf(),
                accb@ == sun_read_b(s, v as int, a as int, b as int),
            decreases top + 1 - b,
        {
            let e = &w[a][b][v];
            proof {
                assert(e@ == s(a as int, b as int, v as int));
            }
            accb = accb.add(e);
            b += 1;
        }
        acc = acc.add(&accb);
        a += 1;
    }
    acc
}

/// The labelled odd-cycle suns on `v` vertices whose cycle has length `g`,
/// each weighted by `Within(S) I(S)^t`, times `2g` over the global factor 2:
/// a cyclic-seam programme over the copies in inside and outside the seed set.
pub fn sun_cycle(v: i128, t: i128, g: i128) -> (r: Big)
    requires
        3 <= g <= v <= 30,
        0 <= t <= 30,
    ensures
        r.wf(),
        r@ == sun_spec(v as int, t as int, g as int),
{
    let vu = v as usize;
    let tu = t as usize;
    let gu = g as usize;
    let mut gsum = Big::zero();
    let mut c0 = 0usize;
    while c0 <= tu
        invariant
            3 <= gu <= vu <= 30,
            tu <= 30,
            vu == v,
            tu == t,
            gu == g,
            c0 <= tu + 1,
            gsum.wf(),
            gsum@ == sun_c0(v as int, t as int, g as int, c0 as int),
        decreases tu + 1 - c0,
    {
        let mut w = sun_init_grid(vu, tu, gu, c0);
        let mut step = 1usize;
        while step < gu
            invariant
                3 <= gu <= vu <= 30,
                tu <= 30,
                vu == v,
                tu == t,
                gu == g,
                c0 <= tu,
                1 <= step <= gu,
                grid_ok(w@, c0 + 1, tu - c0 + 1, vu + 1),
                grid_fn(w@, c0 + 1, tu - c0 + 1, vu + 1) == sun_iter(v as int, t as int, g as int, c0 as int, (step - 1) as nat),
            decreases gu - step,
        {
            w = sun_step(&w, vu, tu, gu, c0, step);
            step += 1;
        }
        let x = sun_read(&w, vu, tu, c0);
        gsum = gsum.add(&x);
        c0 += 1;
    }
    gsum
}

/// `sum` over the first `n` odd cycle lengths `g = 3, 5, ...` of the sun
/// weights divided by `g`.
pub open spec fn oc_sum(v: int, t: int, n: nat) -> int
    decreases n,
{
    if n == 0 {
        0
    } else {
        let g: int = 2 * (n as int) + 1;
        oc_sum(v, t, (n - 1) as nat) + tdiv(sun_spec(v, t, g), g)
    }
}

/// `oc_v(t)`: the signed odd-cycle-sun weight on `v` vertices, over the odd
/// cycle lengths `3 <= g <= v`.
pub open spec fn oc_spec(v: int, t: int) -> int {
    let n = if v >= 3 { ((v - 1) / 2) as nat } else { 0 };
    if v % 2 == 0 {
        oc_sum(v, t, n)
    } else {
        -oc_sum(v, t, n)
    }
}

/// The signed odd-cycle-sun weight `oc_v(t)`.
pub fn oc_v(v: i128, t: i128) -> (r: Big)
    requires
        0 <= v <= 30,
        0 <= t <= 30,
    ensures
        r.wf(),
        r@ == oc_spec(v as int, t as int),
{
    let mut total = Big::zero();
    let mut g = 3i128;
    let ghost mut n: nat = 0;
    while g <= v
        invariant
            0 <= v <= 30,
            0 <= t <= 30,
            g == 2 * n + 3,
            n == 0 || g <= v + 2,
            total.wf(),
            total@ == oc_sum(v as int, t as int, n),
        decreases v + 2 - g,
    {
        let gsum = sun_cycle(v, t, g);
        let q = gsum.div_small_exact(g as u64);
        proof {
            lemma_div_tdiv(gsum, q, g as u64);
        }
        total = total.add(&q);
        g += 2;
        proof {
            n = n + 1;
        }
    }
    proof {
        if v >= 3 {
            assert(n == (v - 1) / 2);
        } else {
            assert(n == 0);
        }
    }
    if v % 2 == 0 {
        total
    } else {
        total.mul_i128(-1)
    }
}

/// The per-size caterpillar weights `w_1(t), ..., w_v(t)` (index 0 unused).
pub open spec fn forest_weights(v: int, t: int) -> Seq<int> {
    Seq::new((v + 1) as nat, |k: int| if k >= 1 { wk_spec(k, t) } else { 0 })
}

/// The caterpillar-forest part of `A_v(t)`: the forest recurrence `D(v, 0)`
/// over the weights `w_k(t)`.
pub fn a_forest(v: i128, t: i128) -> (r: Big)
    requires
        0 <= v <= 30,
        0 <= t <= 30,
    ensures
        r.wf(),
        r@ == d_spec(forest_weights(v as int, t as int), v as int, 0),
{
    let mut wc: Vec<Big> = Vec::new();
    wc.push(Big::zero());
    let mut k = 1i128;
    while k <= v
        invariant
            0 <= v <= 30,
            0 <= t <= 30,
            1 <= k <= v + 1,
            wc@.len() == k,
            forall|q: int| 0 <= q < k ==> (#[trigger] wc@[q]).wf(),
            forall|q: int| 0 <= q < k ==> (#[trigger] wc@[q])@ == forest_weights(v as int, t as int)[q],
        decreases v + 1 - k,
    {
        wc.push(wk(k, t));
        k += 1;
    }
    let mut memo: HashMap<u64, Big> = HashMap::new();
    proof {
        assert(wview(wc@) =~= forest_weights(v as int, t as int));
        broadcast use vstd::std_specs::hash::group_hash_axioms;
        assert(memo@ == Map::<u64, Big>::empty());
    }
    d_rec(v as usize, 0, &wc, &mut memo)
}

/// `A_v(t)`: forests of caterpillars plus odd-cycle suns on `v` vertices.
pub open spec fn a_spec(v: int, t: int) -> int {
    d_spec(forest_weights(v, t), v, 0) + oc_spec(v, t)
}

/// `A_v(t)`.
pub fn a_v(v: i128, t: i128) -> (r: Big)
    requires
        0 <= v <= 30,
        0 <= t <= 30,
    ensures
        r.wf(),
        r@ == a_spec(v as int, t as int),
{
    a_forest(v, t).add(&oc_v(v, t))
}

/// `2^C(n,2) + sum_{w=2..v} C(n, w) 2^C(n-w, 2) A_w(n - w)`.
pub open spec fn lp_spec(n: int, v: int) -> int
    decreases v,
{
    if v < 2 {
        two_pow(c2_spec(n) as nat) as int
    } else {
        lp_spec(n, v - 1) + a_spec(v, n - v) * binom(n, v) * two_pow(c2_spec(n - v) as nat)
    }
}

/// `L(n)` is built from `2^C(n,2)` and, for each size `v >= 2` of the set of
/// vertices dominated by no pair, `C(n,v) 2^C(n-v,2)` times `A_v(n-v)`, whose
/// two parts are the caterpillar forests on the `v` vertices (the forest
/// recurrence over the weights `w_k`) and the odd-cycle suns on them; with
/// fewer than three vertices there is no odd cycle and the sun part is zero.
pub proof fn lemma_l_count_parts(n: int, v: int)
    ensures
        v < 2 ==> lp_spec(n, v) == two_pow(c2_spec(n) as nat),
        v >= 2 ==> lp_spec(n, v) == lp_spec(n, v - 1) + (d_spec(forest_weights(v, n - v), v, 0) + oc_spec(v, n - v)) * binom(
            n,
            v,
        ) * two_pow(c2_spec(n - v) as nat),
        a_spec(v, n - v) == d_spec(forest_weights(v, n - v), v, 0) + oc_spec(v, n - v),
        v < 3 ==> oc_spec(v, n - v) == 0,
{
    if v < 3 {
        assert(oc_sum(v, n - v, 0) == 0);
    }
}

/// `L(n)`: the labelled tournaments on `n` vertices with no dominating pair
/// (domination number at least 3), in polynomially many big-integer operations.
pub fn l_count(n: i128) -> (r: Big)
    requires
        0 <= n <= 30,
    ensures
        r.wf(),
        r@ == lp_spec(n as int, n as int),
{
    let mut tot = pow2(c2(n));
    let mut v = 2i128;
    while v <= n
        invariant
            0 <= n <= 30,
            2 <= v,
            n < 2 ==> v == 2,
            n >= 2 ==> v <= n + 1,
            tot.wf(),
            tot@ == lp_spec(n as int, v - 1),
        decreases n + 2 - v,
    {
        let t = n - v;
        let mut term = a_v(v, t).mul_i128(comb(n, v));
        term = mul_big(&term, &pow2(c2(n - v)));
        tot = tot.add(&term);
        v += 1;
    }
    proof {
        if n < 2 {
            assert(lp_spec(n as int, n as int) == lp_spec(n as int, 1));
        }
    }
    tot
}

/// The domination-number distribution of the labelled tournaments on `n`
/// vertices given `l = L(n)`: `(gamma = 1, gamma = 2, gamma >= 3, all)`, where
/// a dominating vertex accounts for `n 2^C(n-1, 2)` of them, `l` for the
/// third, and the rest for the second.
pub fn distribution(n: i128, l: Big) -> (r: (Big, Big, Big, Big))
    requires
        1 <= n <= 30,
        l.wf(),
    ensures
        r.0.wf() && r.1.wf() && r.2.wf() && r.3.wf(),
        r.0@ == two_pow(c2_spec(n - 1) as nat) * n,
        r.2@ == l@,
        r.3@ == two_pow(c2_spec(n as int) as nat),
        r.0@ + r.1@ + r.2@ == r.3@,
{
    let g1 = pow2(c2(n - 1)).mul_i128(n);
    let ttl = pow2(c2(n));
    let g2 = ttl.add(&g1.mul_i128(-1)).add(&l.mul_i128(-1));
    (g1, g2, l, ttl)
}

/// The domination-number distribution with `L(n)` from the polynomial programme.
pub fn domination_counts(n: i128) -> (r: (Big, Big, Big, Big))
    requires
        1 <= n <= 30,
    ensures
        r.0.wf() && r.1.wf() && r.2.wf() && r.3.wf(),
        r.0@ == two_pow(c2_spec(n - 1) as nat) * n,
        r.2@ == lp_spec(n as int, n as int),
        r.3@ == two_pow(c2_spec(n as int) as nat),
        r.0@ + r.1@ + r.2@ == r.3@,
{
    distribution(n, l_count(n))
}

} // verus!
