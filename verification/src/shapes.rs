//! The graphs behind the two-paradox count: compositions that describe
//! caterpillars and odd-cycle suns, their dihedral canonical forms and
//! automorphism counts, and the neighbour masks of the graphs themselves.
use vstd::prelude::*;
use crate::seqs::copy_usizes;
use crate::bits::{bit, lemma_bit_or, lemma_bit_single, lemma_bit_zero};
use crate::burnside::{fact, lemma_fact_pos};
use crate::two_paradox::factorial;

verus! {

/// Each sequence of `l` with `x` put in front.
pub open spec fn front(x: usize, l: Seq<Seq<usize>>) -> Seq<Seq<usize>> {
    l.map_values(|q: Seq<usize>| seq![x] + q)
}

/// Each sequence of `l` with `c` put in front.
pub open spec fn prepend(c: Seq<usize>, l: Seq<Seq<usize>>) -> Seq<Seq<usize>> {
    l.map_values(|q: Seq<usize>| c + q)
}

/// The contents of a vector of vectors.
pub open spec fn nested(v: Seq<Vec<usize>>) -> Seq<Seq<usize>> {
    v.map_values(|x: Vec<usize>| x@)
}

/// The compositions of `total` into `parts` nonnegative parts, in
/// lexicographic order.
pub open spec fn clist(parts: nat, total: nat) -> Seq<Seq<usize>>
    decreases parts, total + 2,
{
    if parts == 0 {
        if total == 0 {
            seq![Seq::<usize>::empty()]
        } else {
            Seq::empty()
        }
    } else {
        cfrom(parts, total, 0)
    }
}

/// The compositions of `total` into `parts > 0` parts whose first part is at least `f`.
pub open spec fn cfrom(parts: nat, total: nat, f: nat) -> Seq<Seq<usize>>
    decreases parts, total + 1 - f,
{
    if parts == 0 || f > total {
        Seq::empty()
    } else {
        front(f as usize, clist((parts - 1) as nat, (total - f) as nat)) + cfrom(parts, total, f + 1)
    }
}

proof fn lemma_prepend_concat(c: Seq<usize>, a: Seq<Seq<usize>>, b: Seq<Seq<usize>>)
    ensures
        prepend(c, a + b) == prepend(c, a) + prepend(c, b),
{
    assert(prepend(c, a + b) =~= prepend(c, a) + prepend(c, b));
}

proof fn lemma_prepend_front(c: Seq<usize>, p: usize, l: Seq<Seq<usize>>)
    ensures
        prepend(c, front(p, l)) == prepend(c.push(p), l),
{
    assert forall|i: int| 0 <= i < l.len() implies prepend(c, front(p, l))[i] =~= prepend(c.push(p), l)[i] by {}
    assert(prepend(c, front(p, l)) =~= prepend(c.push(p), l));
}

/// Appends to `out`, each behind the prefix `cur`, every composition of
/// `total` into `parts` parts, in lexicographic order.
pub fn compose(parts: usize, total: usize, cur: &mut Vec<usize>, out: &mut Vec<Vec<usize>>)
    ensures
        final(cur)@ == old(cur)@,
        nested(final(out)@) == nested(old(out)@) + prepend(old(cur)@, clist(parts as nat, total as nat)),
    decreases parts,
{
    if parts == 0 {
        if total == 0 {
            let c = copy_usizes(cur);
            out.push(c);
            proof {
                assert(prepend(cur@, clist(0, 0)) =~= seq![cur@ + Seq::<usize>::empty()]);
                assert(cur@ + Seq::<usize>::empty() =~= cur@);
                assert(nested(out@) =~= nested(old(out)@) + prepend(old(cur)@, clist(parts as nat, total as nat)));
            }
        } else {
            proof {
                assert(prepend(cur@, clist(0, total as nat)) =~= Seq::<Seq<usize>>::empty());
                assert(nested(out@) =~= nested(old(out)@) + prepend(old(cur)@, clist(parts as nat, total as nat)));
            }
        }
        return;
    }
    let ghost c0 = cur@;
    let ghost out0 = nested(out@);
    let mut first = 0usize;
    proof {
        assert(clist(parts as nat, total as nat) == cfrom(parts as nat, total as nat, 0));
        assert(nested(out@) =~= out0 + Seq::<Seq<usize>>::empty());
    }
    loop
        invariant_except_break
            cur@ == c0,
            nested(out@) + prepend(c0, cfrom(parts as nat, total as nat, first as nat)) == out0 + prepend(
                c0,
                cfrom(parts as nat, total as nat, 0),
            ),
        invariant
            0 < parts,
            first <= total,
        ensures
            first == total,
            cur@ == c0,
            nested(out@) + prepend(c0, cfrom(parts as nat, total as nat, (first + 1) as nat)) == out0 + prepend(
                c0,
                cfrom(parts as nat, total as nat, 0),
            ),
        decreases total - first,
    {
        cur.push(first);
        let ghost before = nested(out@);
        compose(parts - 1, total - first, cur, out);
        cur.pop();
        proof {
            assert(cur@ =~= c0);
            let rest = clist((parts - 1) as nat, (total - first) as nat);
            assert(cfrom(parts as nat, total as nat, first as nat) == front(first, rest) + cfrom(
                parts as nat,
                total as nat,
                (first + 1) as nat,
            ));
            lemma_prepend_concat(c0, front(first, rest), cfrom(parts as nat, total as nat, (first + 1) as nat));
            lemma_prepend_front(c0, first, rest);
            assert(nested(out@) == before + prepend(c0.push(first), rest));
            assert(nested(out@) + prepend(c0, cfrom(parts as nat, total as nat, (first + 1) as nat)) =~= before
                + prepend(c0, cfrom(parts as nat, total as nat, first as nat)));
        }
        if first == total {
            break;
        }
        first += 1;
    }
    proof {
        assert(cfrom(parts as nat, total as nat, (total + 1) as nat) =~= Seq::<Seq<usize>>::empty());
        assert(prepend(c0, Seq::<Seq<usize>>::empty()) =~= Seq::<Seq<usize>>::empty());
        assert(nested(out@) =~= nested(out@) + prepend(c0, cfrom(parts as nat, total as nat, (first + 1) as nat)));
        assert(prepend(c0, clist(parts as nat, total as nat)) == prepend(c0, cfrom(parts as nat, total as nat, 0)));
    }
}

proof fn lemma_prepend_empty(l: Seq<Seq<usize>>)
    ensures
        prepend(Seq::empty(), l) == l,
{
    assert forall|i: int| 0 <= i < l.len() implies prepend(Seq::empty(), l)[i] =~= l[i] by {}
    assert(prepend(Seq::empty(), l) =~= l);
}

/// The compositions of `total` into `parts` parts, in lexicographic order.
pub fn compositions(total: usize, parts: usize) -> (r: Vec<Vec<usize>>)
    ensures
        nested(r@) == clist(parts as nat, total as nat),
{
    let mut out: Vec<Vec<usize>> = Vec::new();
    let mut cur: Vec<usize> = Vec::new();
    compose(parts, total, &mut cur, &mut out);
    proof {
        assert(nested(Seq::<Vec<usize>>::empty()) =~= Seq::<Seq<usize>>::empty());
        lemma_prepend_empty(clist(parts as nat, total as nat));
        assert(nested(out@) =~= clist(parts as nat, total as nat));
    }
    out
}

/// The leaf-count words of caterpillars on `k` vertices: for each spine
/// length `m` in `1..=k`, the compositions of `k - m` into `m` parts.
pub open spec fn seqs_upto(k: nat, m: nat) -> Seq<Seq<usize>>
    decreases m,
{
    if m == 0 || m > k {
        Seq::empty()
    } else {
        seqs_upto(k, (m - 1) as nat) + clist(m, (k - m) as nat)
    }
}

/// All leaf-count words of `k`-vertex caterpillars, spine length 1 first.
pub fn gen_seqs(k: usize) -> (r: Vec<Vec<usize>>)
    ensures
        nested(r@) == seqs_upto(k as nat, k as nat),
{
    let mut out: Vec<Vec<usize>> = Vec::new();
    proof {
        assert(nested(out@) =~= seqs_upto(k as nat, 0));
    }
    if k == 0 {
        return out;
    }
    let mut m = 1usize;
    loop
        invariant_except_break
            nested(out@) == seqs_upto(k as nat, (m - 1) as nat),
        invariant
            1 <= m <= k,
        ensures
            nested(out@) == seqs_upto(k as nat, k as nat),
        decreases k - m,
    {
        let c = compositions(k - m, m);
        let ghost before = out@;
        let mut i = 0usize;
        while i < c.len()
            invariant
                0 <= i <= c@.len(),
                nested(out@) == nested(before) + nested(c@).take(i as int),
            decreases c@.len() - i,
        {
            let v = copy_usizes(&c[i]);
            let ghost o1 = out@;
            out.push(v);
            proof {
                assert(nested(out@) =~= nested(o1).push(c@[i as int]@));
                assert(nested(c@).take(i + 1) =~= nested(c@).take(i as int).push(c@[i as int]@));
                assert(nested(out@) =~= nested(before) + nested(c@).take(i + 1));
            }
            i += 1;
        }
        proof {
            assert(nested(c@).take(c@.len() as int) =~= nested(c@));
            assert(seqs_upto(k as nat, m as nat) == seqs_upto(k as nat, (m - 1) as nat) + clist(m as nat, (k - m) as nat));
        }
        if m == k {
            break;
        }
        m += 1;
    }
    out
}

/// Where the dihedral symmetry `(rot, r)` of a `g`-cycle sends position `i`:
/// the rotation `i + r`, or the reflection `r - i`, both mod `g`.
pub open spec fn dperm(g: int, rot: bool, r: int, i: int) -> int {
    if rot {
        (i + r) % g
    } else {
        (r - i) % g
    }
}

pub fn dihedral_perm(g: usize, rot: bool, r: usize, i: usize) -> (p: usize)
    requires
        g > 0,
        i + r <= usize::MAX,
        g + g <= usize::MAX,
    ensures
        p == dperm(g as int, rot, r as int, i as int),
        p < g,
{
    if rot {
        (i + r) % g
    } else {
        let x = r % g + g - i % g;
        proof {
            let gi = g as int;
            let ri = r as int;
            let ii = i as int;
            vstd::arithmetic::div_mod::lemma_fundamental_div_mod(ri, gi);
            vstd::arithmetic::div_mod::lemma_fundamental_div_mod(ii, gi);
            vstd::arithmetic::div_mod::lemma_mod_multiples_vanish(ii / gi - ri / gi + 1, ri - ii, gi);
            assert(gi * (ii / gi - ri / gi + 1) + (ri - ii) == (x as int)) by (nonlinear_arith)
                requires
                    ri == gi * (ri / gi) + ri % gi,
                    ii == gi * (ii / gi) + ii % gi,
                    x as int == ri % gi + gi - ii % gi,
            ;
        }
        x % g
    }
}

/// `a` comes strictly before `b` in lexicographic order (a proper prefix first).
pub open spec fn lex_lt(a: Seq<usize>, b: Seq<usize>) -> bool
    decreases a.len(),
{
    if a.len() == 0 {
        b.len() > 0
    } else if b.len() == 0 {
        false
    } else if a[0] != b[0] {
        a[0] < b[0]
    } else {
        lex_lt(a.drop_first(), b.drop_first())
    }
}

proof fn lemma_lex_step(a: Seq<usize>, b: Seq<usize>, i: int)
    requires
        0 <= i < a.len(),
        i < b.len(),
        forall|t: int| 0 <= t < i ==> a[t] == b[t],
    ensures
        lex_lt(a, b) == if a[i] != b[i] {
            a[i] < b[i]
        } else {
            lex_lt(a.subrange(i + 1, a.len() as int), b.subrange(i + 1, b.len() as int))
        },
    decreases i,
{
    if i == 0 {
        assert(a.drop_first() =~= a.subrange(1, a.len() as int));
        assert(b.drop_first() =~= b.subrange(1, b.len() as int));
    } else {
        lemma_lex_step(a.drop_first(), b.drop_first(), i - 1);
        assert(a.drop_first().subrange(i, a.len() - 1) =~= a.subrange(i + 1, a.len() as int));
        assert(b.drop_first().subrange(i, b.len() - 1) =~= b.subrange(i + 1, b.len() as int));
    }
}

proof fn lemma_lex_end(a: Seq<usize>, b: Seq<usize>)
    requires
        a.len() == 0 || b.len() == 0,
    ensures
        lex_lt(a, b) == (a.len() == 0 && b.len() > 0),
{
}

fn lex_less(a: &Vec<usize>, b: &Vec<usize>) -> (r: bool)
    ensures
        r == lex_lt(a@, b@),
{
    let mut i = 0usize;
    while i < a.len() && i < b.len()
        invariant
            i <= a@.len(),
            i <= b@.len(),
            forall|t: int| 0 <= t < i ==> a@[t] == b@[t],
        decreases a@.len() - i,
    {
        proof {
            lemma_lex_step(a@, b@, i as int);
        }
        if a[i] != b[i] {
            return a[i] < b[i];
        }
        i += 1;
    }
    proof {
        lemma_lex_tail(a@, b@, i as int);
    }
    a.len() - i == 0 && b.len() - i > 0
}

proof fn lemma_lex_tail(a: Seq<usize>, b: Seq<usize>, i: int)
    requires
        0 <= i <= a.len(),
        i <= b.len(),
        i == a.len() || i == b.len(),
        forall|t: int| 0 <= t < i ==> a[t] == b[t],
    ensures
        lex_lt(a, b) == (a.len() == i && b.len() > i),
    decreases i,
{
    if i > 0 {
        lemma_lex_tail(a.drop_first(), b.drop_first(), i - 1);
    }
}

/// The sequence read around the cycle in the order given by the symmetry `(rot, r)`.
pub open spec fn turned(s: Seq<usize>, rot: bool, r: int) -> Seq<usize> {
    Seq::new(s.len(), |i: int| s[dperm(s.len() as int, rot, r, i)])
}

/// `best` is the lexicographically least of the sequences read around the
/// cycle under the `2g` dihedral symmetries.
pub open spec fn dihedral_min(s: Seq<usize>, best: Seq<usize>) -> bool {
    &&& exists|rot: bool, r: int| 0 <= r < s.len() && best == #[trigger] turned(s, rot, r)
    &&& forall|rot: bool, r: int| 0 <= r < s.len() ==> !lex_lt(#[trigger] turned(s, rot, r), best)
}

proof fn lemma_lex_irrefl(a: Seq<usize>)
    ensures
        !lex_lt(a, a),
    decreases a.len(),
{
    if a.len() > 0 {
        lemma_lex_irrefl(a.drop_first());
    }
}

proof fn lemma_lex_trans(a: Seq<usize>, b: Seq<usize>, c: Seq<usize>)
    requires
        lex_lt(a, b),
        lex_lt(b, c),
    ensures
        lex_lt(a, c),
    decreases a.len(),
{
    if a.len() > 0 && b.len() > 0 && c.len() > 0 && a[0] == b[0] && b[0] == c[0] {
        lemma_lex_trans(a.drop_first(), b.drop_first(), c.drop_first());
    }
}

/// Lexicographic order is total on sequences.
pub proof fn lemma_lex_total(a: Seq<usize>, b: Seq<usize>)
    ensures
        lex_lt(a, b) || lex_lt(b, a) || a == b,
    decreases a.len(),
{
    if a.len() > 0 && b.len() > 0 && a[0] == b[0] {
        lemma_lex_total(a.drop_first(), b.drop_first());
        if a.drop_first() == b.drop_first() {
            assert(a =~= seq![a[0]] + a.drop_first());
            assert(b =~= seq![b[0]] + b.drop_first());
        }
    } else if a.len() == 0 && b.len() == 0 {
        assert(a =~= b);
    }
}

/// The dihedral canonical form of a cyclic sequence: its least reading, in
/// lexicographic order, under the rotations and reflections of the cycle.
pub fn dihedral_canon(seq: &Vec<usize>) -> (best: Vec<usize>)
    requires
        seq@.len() >= 1,
        seq@.len() + seq@.len() <= usize::MAX,
    ensures
        dihedral_min(seq@, best@),
{
    let g = seq.len();
    let mut best: Vec<usize> = Vec::new();
    let mut have = false;
    let mut pass = 0usize;
    let ghost mut wrot: bool = true;
    let ghost mut wr: int = 0;
    while pass < 2
        invariant
            g == seq@.len() >= 1,
            g + g <= usize::MAX,
            pass <= 2,
            have == (pass > 0),
            have ==> 0 <= wr < g && best@ == turned(seq@, wrot, wr),
            forall|rot: bool, r: int|
                0 <= r < g && (pass >= 1 && rot || pass >= 2 && !rot) ==> !lex_lt(#[trigger] turned(seq@, rot, r), best@),
        decreases 2 - pass,
    {
        let rot = pass == 0;
        let mut r = 0usize;
        while r < g
            invariant
                g == seq@.len() >= 1,
                g + g <= usize::MAX,
                pass < 2,
                rot == (pass == 0),
                r <= g,
                have == (pass > 0 || r > 0),
                have ==> 0 <= wr < g && best@ == turned(seq@, wrot, wr),
                forall|rot2: bool, r2: int|
                    0 <= r2 < g && (pass >= 1 && rot2 || (rot2 == rot && r2 < r)) ==> !lex_lt(#[trigger] turned(seq@, rot2, r2), best@),
            decreases g - r,
        {
            let mut cand: Vec<usize> = Vec::new();
            let mut i = 0usize;
            while i < g
                invariant
                    g == seq@.len() >= 1,
                    g + g <= usize::MAX,
                    r < g,
                    i <= g,
                    cand@ == turned(seq@, rot, r as int).take(i as int),
                decreases g - i,
            {
                let k = dihedral_perm(g, rot, r, i);
                cand.push(seq[k]);
                proof {
                    assert(cand@ =~= turned(seq@, rot, r as int).take(i + 1));
                }
                i += 1;
            }
            proof {
                assert(cand@ =~= turned(seq@, rot, r as int));
            }
            let replace = if !have { true } else { lex_less(&cand, &best) };
            if replace {
                proof {
                    let old_best = best@;
                    assert forall|rot2: bool, r2: int|
                        0 <= r2 < g && (pass >= 1 && rot2 || (rot2 == rot && r2 < r + 1)) implies !lex_lt(#[trigger] turned(seq@, rot2, r2), cand@) by {
                        if rot2 == rot && r2 == r {
                            lemma_lex_irrefl(cand@);
                        } else if lex_lt(turned(seq@, rot2, r2), cand@) {
                            lemma_lex_trans(turned(seq@, rot2, r2), cand@, old_best);
                        }
                    }
                    wrot = rot;
                    wr = r as int;
                }
                best = cand;
            } else {
                proof {
                    lemma_lex_total(cand@, best@);
                    if cand@ != best@ {
                        assert(lex_lt(best@, cand@));
                        assert forall|rot2: bool, r2: int|
                            0 <= r2 < g && (pass >= 1 && rot2 || (rot2 == rot && r2 < r + 1)) implies !lex_lt(#[trigger] turned(seq@, rot2, r2), best@) by {
                            if rot2 == rot && r2 == r {
                                if lex_lt(turned(seq@, rot2, r2), best@) {
                                    lemma_lex_trans(best@, cand@, best@);
                                    lemma_lex_irrefl(best@);
                                }
                            }
                        }
                    } else {
                        lemma_lex_irrefl(best@);
                    }
                }
            }
            have = true;
            r += 1;
        }
        pass += 1;
    }
    proof {
        assert(best@ == turned(seq@, wrot, wr));
    }
    best
}

/// Number of `r < k` for which the reading under `(rot, r)` is the sequence itself.
pub open spec fn fixed_count(s: Seq<usize>, rot: bool, k: int) -> int
    decreases k,
{
    if k <= 0 {
        0
    } else {
        fixed_count(s, rot, k - 1) + if turned(s, rot, k - 1) == s { 1int } else { 0int }
    }
}

/// `prod_{i < k} s[i]!`.
pub open spec fn fact_prod(s: Seq<usize>, k: int) -> int
    decreases k,
{
    if k <= 0 {
        1
    } else {
        fact_prod(s, k - 1) * fact(s[k - 1] as nat)
    }
}

pub proof fn lemma_fact_prod_mono(s: Seq<usize>, k: int, m: int)
    requires
        0 <= k <= m <= s.len(),
    ensures
        1 <= fact_prod(s, k) <= fact_prod(s, m),
    decreases m,
{
    if m > k {
        lemma_fact_prod_mono(s, k, m - 1);
        lemma_fact_pos(s[m - 1] as nat);
        let a = fact_prod(s, m - 1);
        let b = fact(s[m - 1] as nat) as int;
        assert(a <= a * b) by (nonlinear_arith)
            requires
                a >= 1,
                b >= 1,
        ;
    } else if k > 0 {
        lemma_fact_prod_mono(s, k - 1, k - 1);
        lemma_fact_pos(s[k - 1] as nat);
        let a = fact_prod(s, k - 1);
        let b = fact(s[k - 1] as nat) as int;
        assert(a * b >= 1) by (nonlinear_arith)
            requires
                a >= 1,
                b >= 1,
        ;
    }
}

proof fn lemma_fixed_count_bound(s: Seq<usize>, rot: bool, k: int)
    requires
        k >= 0,
    ensures
        0 <= fixed_count(s, rot, k) <= k,
    decreases k,
{
    if k > 0 {
        lemma_fixed_count_bound(s, rot, k - 1);
    }
}

/// Automorphism count of the odd-cycle sun with leaf counts `leaves` around
/// its `g`-cycle: the dihedral symmetries that fix the leaf word, times the
/// permutations of each vertex's leaves.
pub fn aut_oc(g: usize, leaves: &Vec<usize>) -> (a: i128)
    requires
        g >= 1,
        leaves@.len() == g,
        g + g <= usize::MAX,
        forall|i: int| 0 <= i < g ==> #[trigger] leaves@[i] <= 33,
        2 * g * fact_prod(leaves@, g as int) <= i128::MAX,
    ensures
        a == (fixed_count(leaves@, true, g as int) + fixed_count(leaves@, false, g as int)) * fact_prod(leaves@, g as int),
{
    let mut stab = 0i128;
    let mut pass = 0usize;
    while pass < 2
        invariant
            g >= 1,
            leaves@.len() == g,
            g + g <= usize::MAX,
            pass <= 2,
            stab == (if pass >= 1 { fixed_count(leaves@, true, g as int) } else { 0 }) + (if pass >= 2 {
                fixed_count(leaves@, false, g as int)
            } else {
                0
            }),
            0 <= stab <= pass * g,
        decreases 2 - pass,
    {
        let rot = pass == 0;
        let ghost base = stab as int;
        let mut r = 0usize;
        while r < g
            invariant
                g >= 1,
                leaves@.len() == g,
                g + g <= usize::MAX,
                pass < 2,
                rot == (pass == 0),
                r <= g,
                stab == base + fixed_count(leaves@, rot, r as int),
                0 <= base <= pass * g,
                0 <= fixed_count(leaves@, rot, r as int) <= r,
            decreases g - r,
        {
            let mut all = true;
            let mut i = 0usize;
            while i < g
                invariant
                    g >= 1,
                    leaves@.len() == g,
                    g + g <= usize::MAX,
                    r < g,
                    i <= g,
                    all == (forall|t: int| 0 <= t < i ==> #[trigger] turned(leaves@, rot, r as int)[t] == leaves@[t]),
                decreases g - i,
            {
                let k = dihedral_perm(g, rot, r, i);
                proof {
                    assert(turned(leaves@, rot, r as int)[i as int] == leaves@[k as int]);
                }
                if leaves[k] != leaves[i] {
                    all = false;
                }
                i += 1;
            }
            proof {
                if all {
                    assert(turned(leaves@, rot, r as int) =~= leaves@);
                } else {
                    assert(turned(leaves@, rot, r as int) != leaves@);
                }
                lemma_fixed_count_bound(leaves@, rot, r + 1);
            }
            if all {
                stab += 1;
            }
            r += 1;
        }
        pass += 1;
    }
    let mut prod = 1i128;
    let mut i = 0usize;
    proof {
        lemma_fact_prod_mono(leaves@, 0, g as int);
    }
    while i < g
        invariant
            g >= 1,
            leaves@.len() == g,
            forall|t: int| 0 <= t < g ==> #[trigger] leaves@[t] <= 33,
            2 * g * fact_prod(leaves@, g as int) <= i128::MAX,
            i <= g,
            prod == fact_prod(leaves@, i as int),
        decreases g - i,
    {
        proof {
            lemma_fact_prod_mono(leaves@, i + 1, g as int);
            lemma_fact_prod_mono(leaves@, 0, i as int);
            lemma_fact_pos(leaves@[i as int] as nat);
        }
        let f = factorial(leaves[i] as i128);
        proof {
            assert(leaves@[i as int] > 0 ==> f == fact(leaves@[i as int] as nat));
            assert(leaves@[i as int] == 0 ==> f == 1 && fact(0) == 1);
            assert(fact_prod(leaves@, i + 1) == prod * f);
            let p = fact_prod(leaves@, g as int);
            assert(p <= 2 * g * p) by (nonlinear_arith)
                requires
                    g >= 1,
                    p >= 1,
            ;
        }
        prod = prod * f;
        i += 1;
    }
    proof {
        let p = fact_prod(leaves@, g as int);
        assert(stab * p <= 2 * g * p) by (nonlinear_arith)
            requires
                0 <= stab <= 2 * g,
                p >= 1,
        ;
        assert(stab * p >= 0) by (nonlinear_arith)
            requires
                0 <= stab,
                p >= 1,
        ;
    }
    stab * prod
}

/// Sum of the first `k` entries.
pub open spec fn usum(s: Seq<usize>, k: int) -> int
    decreases k,
{
    if k <= 0 {
        0
    } else {
        usum(s, k - 1) + s[k - 1]
    }
}

proof fn lemma_usum_mono(s: Seq<usize>, a: int, b: int)
    requires
        0 <= a <= b <= s.len(),
    ensures
        usum(s, a) <= usum(s, b),
        usum(s, a) >= 0,
    decreases b,
{
    if b > a {
        lemma_usum_mono(s, a, b - 1);
    } else if a > 0 {
        lemma_usum_mono(s, a - 1, a - 1);
    }
}

/// The leaf edges of the first `k` attachment vertices: vertex `c` gets
/// `leaves[c]` new leaves, numbered consecutively from `base`.
pub open spec fn leaf_edges(leaves: Seq<usize>, base: int, k: int) -> Seq<(usize, usize)>
    decreases k,
{
    if k <= 0 {
        Seq::empty()
    } else {
        leaf_edges(leaves, base, k - 1) + Seq::new(
            leaves[k - 1] as nat,
            |t: int| ((k - 1) as usize, (base + usum(leaves, k - 1) + t) as usize),
        )
    }
}

/// The edges of the odd-cycle sun: the cycle `i -- (i + 1) % g`, then the leaves.
pub open spec fn sun_edges(g: int, leaves: Seq<usize>) -> Seq<(usize, usize)> {
    Seq::new(g as nat, |i: int| (i as usize, ((i + 1) % g) as usize)) + leaf_edges(leaves, g, g)
}

/// Some edge among the first `e` joins `x` and `y`.
pub open spec fn joined(edges: Seq<(usize, usize)>, e: int, x: int, y: int) -> bool {
    exists|k: int| 0 <= k < e && (#[trigger] edges[k] == (x as usize, y as usize) || edges[k] == (y as usize, x as usize))
}

/// Appends the leaf edges of attachment vertices `0..k` to `edges`, numbering
/// the new leaves from `base`; returns the next free vertex number.
fn push_leaves(leaves: &Vec<usize>, k: usize, base: usize, edges: &mut Vec<(usize, usize)>) -> (nxt: usize)
    requires
        k <= leaves@.len(),
        base + usum(leaves@, k as int) <= usize::MAX,
    ensures
        nxt == base + usum(leaves@, k as int),
        final(edges)@ == old(edges)@ + leaf_edges(leaves@, base as int, k as int),
{
    let mut nxt = base;
    let mut i = 0usize;
    let ghost e0 = edges@;
    proof {
        assert(edges@ =~= e0 + leaf_edges(leaves@, base as int, 0));
    }
    while i < k
        invariant
            k <= leaves@.len(),
            base + usum(leaves@, k as int) <= usize::MAX,
            i <= k,
            nxt == base + usum(leaves@, i as int),
            edges@ == e0 + leaf_edges(leaves@, base as int, i as int),
        decreases k - i,
    {
        proof {
            lemma_usum_mono(leaves@, i + 1, k as int);
        }
        let l = leaves[i];
        let ghost before = edges@;
        let mut t = 0usize;
        while t < l
            invariant
                i < k <= leaves@.len(),
                l == leaves@[i as int],
                base + usum(leaves@, i + 1) <= usize::MAX,
                t <= l,
                nxt == base + usum(leaves@, i as int) + t,
                edges@ == before + Seq::new(t as nat, |u: int| (i as usize, (base + usum(leaves@, i as int) + u) as usize)),
            decreases l - t,
        {
            edges.push((i, nxt));
            nxt += 1;
            t += 1;
            proof {
                assert(edges@ =~= before + Seq::new(t as nat, |u: int| (i as usize, (base + usum(leaves@, i as int) + u) as usize)));
            }
        }
        proof {
            assert(edges@ =~= e0 + leaf_edges(leaves@, base as int, i + 1));
        }
        i += 1;
    }
    nxt
}

/// The odd-cycle sun with leaf counts `leaves` around its `g`-cycle: its
/// vertex count `g + sum leaves` and neighbour masks (`bit(adjm[a], b)` iff
/// some edge joins `a` and `b`).
pub fn build_sun(g: usize, leaves: &Vec<usize>) -> (r: (usize, Vec<u64>))
    requires
        leaves@.len() >= g,
        g + usum(leaves@, g as int) <= 64,
    ensures
        r.0 == g + usum(leaves@, g as int),
        r.1@.len() == r.0,
        forall|a: int, b: int|
            0 <= a < r.0 && 0 <= b < 64 ==> #[trigger] bit(r.1@[a], b) == joined(sun_edges(g as int, leaves@), sun_edges(g as int, leaves@).len() as int, a, b),
{
    let mut edges: Vec<(usize, usize)> = Vec::new();
    let mut i = 0usize;
    while i < g
        invariant
            i <= g,
            edges@ == Seq::new(i as nat, |t: int| (t as usize, ((t + 1) % (g as int)) as usize)),
        decreases g - i,
    {
        edges.push((i, (i + 1) % g));
        i += 1;
        proof {
            assert(edges@ =~= Seq::new(i as nat, |t: int| (t as usize, ((t + 1) % (g as int)) as usize)));
        }
    }
    proof {
        lemma_usum_mono(leaves@, 0, g as int);
    }
    let nn = push_leaves(leaves, g, g, &mut edges);
    let ghost es = sun_edges(g as int, leaves@);
    proof {
        assert(edges@ =~= es);
    }
    let mut adjm: Vec<u64> = vec![0u64; nn];
    let mut e = 0usize;
    proof {
        assert forall|k: int| 0 <= k < es.len() implies (#[trigger] es[k]).0 < nn && es[k].1 < nn by {
            if k >= g {
                lemma_leaf_edges_range(leaves@, g as int, g as int, k - g);
            }
        }
        assert forall|a: int, b: int| 0 <= a < nn && 0 <= b < 64 implies #[trigger] bit(adjm@[a], b) == joined(es, 0, a, b) by {
            lemma_bit_zero(b as u64);
        }
    }
    while e < edges.len()
        invariant
            nn <= 64,
            edges@ == es,
            adjm@.len() == nn,
            forall|k: int| 0 <= k < es.len() ==> (#[trigger] es[k]).0 < nn && es[k].1 < nn,
            e <= es.len(),
            forall|a: int, b: int| 0 <= a < nn && 0 <= b < 64 ==> #[trigger] bit(adjm@[a], b) == joined(es, e as int, a, b),
        decreases es.len() - e,
    {
        let (a, b) = edges[e];
        let ghost m0 = adjm@;
        let xa = adjm[a] | (1u64 << (b as u64));
        adjm.set(a, xa);
        let xb = adjm[b] | (1u64 << (a as u64));
        adjm.set(b, xb);
        proof {
            assert forall|x: int, y: int| 0 <= x < nn && 0 <= y < 64 implies #[trigger] bit(adjm@[x], y) == joined(es, e + 1, x, y) by {
                lemma_bit_or(m0[x], 1u64 << (b as u64), y as u64);
                lemma_bit_single(b as u64, y as u64);
                lemma_bit_or(m0[x], 1u64 << (a as u64), y as u64);
                lemma_bit_single(a as u64, y as u64);
                if x == a as int && x == b as int {
                    lemma_bit_or(xa, 1u64 << (a as u64), y as u64);
                }
                if joined(es, e + 1, x, y) && !joined(es, e as int, x, y) {
                    assert(es[e as int] == (x as usize, y as usize) || es[e as int] == (y as usize, x as usize));
                }
                if joined(es, e as int, x, y) {
                    let k = choose|k: int| 0 <= k < e && (#[trigger] es[k] == (x as usize, y as usize) || es[k] == (y as usize, x as usize));
                    assert(0 <= k < e + 1);
                }
                if (x == a && y == b) || (x == b && y == a) {
                    assert(es[e as int] == (a, b));
                }
            }
        }
        e += 1;
    }
    (nn, adjm)
}

proof fn lemma_leaf_edges_range(leaves: Seq<usize>, base: int, k: int, idx: int)
    requires
        0 <= k <= leaves.len(),
        0 <= idx < leaf_edges(leaves, base, k).len(),
        base >= k,
        base + usum(leaves, k) <= usize::MAX,
    ensures
        leaf_edges(leaves, base, k)[idx].0 < k,
        base <= leaf_edges(leaves, base, k)[idx].1 < base + usum(leaves, k),
        leaf_edges(leaves, base, k).len() == usum(leaves, k),
    decreases k,
{
    if k > 0 {
        lemma_leaf_edges_len(leaves, base, k - 1);
        lemma_leaf_edges_len(leaves, base, k);
        lemma_usum_mono(leaves, k - 1, k);
        if idx < leaf_edges(leaves, base, k - 1).len() {
            lemma_leaf_edges_range(leaves, base, k - 1, idx);
        } else {
            let t = idx - leaf_edges(leaves, base, k - 1).len();
            assert(leaf_edges(leaves, base, k)[idx] == ((k - 1) as usize, (base + usum(leaves, k - 1) + t) as usize));
        }
    } else {
        lemma_leaf_edges_len(leaves, base, k);
    }
}

proof fn lemma_leaf_edges_len(leaves: Seq<usize>, base: int, k: int)
    requires
        0 <= k <= leaves.len(),
    ensures
        leaf_edges(leaves, base, k).len() == usum(leaves, k),
    decreases k,
{
    if k > 0 {
        lemma_leaf_edges_len(leaves, base, k - 1);
    }
}

/// The edges of the caterpillar with leaf-count word `seq`: the spine path
/// `0 -- 1 -- .. -- m-1`, then the leaves, numbered from `m`.
pub open spec fn cat_edges(seq: Seq<usize>) -> Seq<(usize, usize)> {
    Seq::new((seq.len() - 1) as nat, |i: int| (i as usize, (i + 1) as usize)) + leaf_edges(seq, seq.len() as int, seq.len() as int)
}

/// Neighbour lists on `k` vertices after adding the first `e` edges in order:
/// edge `(a, b)` appends `b` to `a`'s list, then `a` to `b`'s.
pub open spec fn nbr_lists(edges: Seq<(usize, usize)>, k: int, e: int) -> Seq<Seq<usize>>
    decreases e,
{
    if e <= 0 {
        Seq::new(k as nat, |i: int| Seq::<usize>::empty())
    } else {
        let p = nbr_lists(edges, k, e - 1);
        let (a, b) = edges[e - 1];
        let p1 = p.update(a as int, p[a as int].push(b));
        p1.update(b as int, p1[b as int].push(a))
    }
}

proof fn lemma_nbr_lists_len(edges: Seq<(usize, usize)>, k: int, e: int)
    requires
        k >= 0,
        e <= edges.len(),
        forall|t: int| 0 <= t < e ==> (#[trigger] edges[t]).0 < k && edges[t].1 < k,
    ensures
        nbr_lists(edges, k, e).len() == k,
    decreases e,
{
    if e > 0 {
        lemma_nbr_lists_len(edges, k, e - 1);
    }
}

/// The caterpillar with leaf-count word `seq` (spine length `seq.len() >= 1`):
/// its vertex count and neighbour lists.
pub fn build_caterpillar(seq: &Vec<usize>) -> (r: (usize, Vec<Vec<usize>>))
    requires
        seq@.len() >= 1,
        seq@.len() + usum(seq@, seq@.len() as int) <= usize::MAX,
    ensures
        r.0 == seq@.len() + usum(seq@, seq@.len() as int),
        nested(r.1@) == nbr_lists(cat_edges(seq@), r.0 as int, cat_edges(seq@).len() as int),
{
    let m = seq.len();
    let mut edges: Vec<(usize, usize)> = Vec::new();
    let mut i = 0usize;
    while i < m - 1
        invariant
            m == seq@.len() >= 1,
            i <= m - 1,
            edges@ == Seq::new(i as nat, |t: int| (t as usize, (t + 1) as usize)),
        decreases m - 1 - i,
    {
        edges.push((i, i + 1));
        i += 1;
        proof {
            assert(edges@ =~= Seq::new(i as nat, |t: int| (t as usize, (t + 1) as usize)));
        }
    }
    let k = push_leaves(seq, m, m, &mut edges);
    let ghost es = cat_edges(seq@);
    proof {
        assert(edges@ =~= es);
        lemma_leaf_edges_len(seq@, m as int, m as int);
        assert forall|t: int| 0 <= t < es.len() implies (#[trigger] es[t]).0 < k && es[t].1 < k by {
            if t >= m - 1 {
                lemma_leaf_edges_range(seq@, m as int, m as int, t - (m - 1));
            }
        }
    }
    let mut adj: Vec<Vec<usize>> = Vec::new();
    let mut v = 0usize;
    while v < k
        invariant
            v <= k,
            nested(adj@) == Seq::new(v as nat, |t: int| Seq::<usize>::empty()),
        decreases k - v,
    {
        let ghost before = adj@;
        adj.push(Vec::new());
        v += 1;
        proof {
            assert(nested(adj@) =~= nested(before).push(Seq::<usize>::empty()));
            assert(nested(adj@) =~= Seq::new(v as nat, |t: int| Seq::<usize>::empty()));
        }
    }
    let mut e = 0usize;
    proof {
        assert(nested(adj@) =~= nbr_lists(es, k as int, 0));
    }
    while e < edges.len()
        invariant
            edges@ == es,
            forall|t: int| 0 <= t < es.len() ==> (#[trigger] es[t]).0 < k && es[t].1 < k,
            e <= es.len(),
            adj@.len() == k,
            nested(adj@) == nbr_lists(es, k as int, e as int),
        decreases es.len() - e,
    {
        let (a, b) = edges[e];
        proof {
            lemma_nbr_lists_len(es, k as int, e as int);
        }
        let ghost before = nested(adj@);
        let mut ra = copy_usizes(&adj[a]);
        ra.push(b);
        adj.set(a, ra);
        let ghost mid = nested(adj@);
        proof {
            assert(mid =~= before.update(a as int, before[a as int].push(b)));
        }
        let mut rb = copy_usizes(&adj[b]);
        rb.push(a);
        adj.set(b, rb);
        proof {
            assert(nested(adj@) =~= mid.update(b as int, mid[b as int].push(a)));
        }
        e += 1;
    }
    (k, adj)
}

/// Neighbour masks from neighbour lists: bit `u` of `m[v]` is set iff `u`
/// occurs in `adj[v]`.
pub fn adj_bitmask(k: usize, adj: &Vec<Vec<usize>>) -> (m: Vec<u64>)
    requires
        adj@.len() >= k,
        forall|v: int, t: int| 0 <= v < k && 0 <= t < adj@[v]@.len() ==> #[trigger] adj@[v]@[t] < 64,
    ensures
        m@.len() == k,
        forall|v: int, u: int| 0 <= v < k && 0 <= u < 64 ==> #[trigger] bit(m@[v], u) == adj@[v]@.contains(u as usize),
{
    let mut m: Vec<u64> = vec![0u64; k];
    let mut v = 0usize;
    while v < k
        invariant
            adj@.len() >= k,
            forall|x: int, t: int| 0 <= x < k && 0 <= t < adj@[x]@.len() ==> #[trigger] adj@[x]@[t] < 64,
            m@.len() == k,
            v <= k,
            forall|x: int, u: int| 0 <= x < v && 0 <= u < 64 ==> #[trigger] bit(m@[x], u) == adj@[x]@.contains(u as usize),
            forall|x: int| v <= x < k ==> #[trigger] m@[x] == 0u64,
        decreases k - v,
    {
        let row = &adj[v];
        let mut t = 0usize;
        proof {
            assert forall|u: int| 0 <= u < 64 implies #[trigger] bit(m@[v as int], u) == row@.take(0).contains(u as usize) by {
                lemma_bit_zero(u as u64);
            }
        }
        while t < row.len()
            invariant
                row@ == adj@[v as int]@,
                forall|q: int| 0 <= q < row@.len() ==> #[trigger] row@[q] < 64,
                m@.len() == k,
                v < k,
                t <= row@.len(),
                forall|x: int, u: int| 0 <= x < v && 0 <= u < 64 ==> #[trigger] bit(m@[x], u) == adj@[x]@.contains(u as usize),
                forall|x: int| v < x < k ==> #[trigger] m@[x] == 0u64,
                forall|u: int| 0 <= u < 64 ==> #[trigger] bit(m@[v as int], u) == row@.take(t as int).contains(u as usize),
            decreases row@.len() - t,
        {
            let u = row[t];
            let old_row = m[v];
            let ghost m0 = m@;
            let x = old_row | (1u64 << (u as u64));
            m.set(v, x);
            proof {
                assert(row@.take(t + 1) =~= row@.take(t as int).push(u));
                assert forall|w: int| 0 <= w < 64 implies #[trigger] bit(m@[v as int], w) == row@.take(t + 1).contains(w as usize) by {
                    lemma_bit_or(old_row, 1u64 << (u as u64), w as u64);
                    lemma_bit_single(u as u64, w as u64);
                    assert(bit(m0[v as int], w) == row@.take(t as int).contains(w as usize));
                    if row@.take(t as int).contains(w as usize) {
                        let q = choose|q: int| 0 <= q < t && #[trigger] row@.take(t as int)[q] == w as usize;
                        assert(row@.take(t + 1)[q] == w as usize);
                    }
                    if row@.take(t + 1).contains(w as usize) {
                        let q = choose|q: int| 0 <= q < t + 1 && #[trigger] row@.take(t + 1)[q] == w as usize;
                        if q < t {
                            assert(row@.take(t as int)[q] == w as usize);
                        }
                    }
                    if w == u as int {
                        assert(row@.take(t + 1)[t as int] == u);
                    }
                }
                assert forall|xx: int, uu: int| 0 <= xx < v && 0 <= uu < 64 implies #[trigger] bit(m@[xx], uu) == adj@[xx]@.contains(uu as usize) by {
                    assert(m@[xx] == m0[xx]);
                }
            }
            t += 1;
        }
        proof {
            assert(row@.take(row@.len() as int) =~= row@);
        }
        v += 1;
    }
    m
}

proof fn lemma_nbr_lists_shape(edges: Seq<(usize, usize)>, k: int, e: int)
    requires
        k >= 0,
        0 <= e <= edges.len(),
        forall|t: int| 0 <= t < e ==> (#[trigger] edges[t]).0 < k && edges[t].1 < k,
        forall|t: int| 0 <= t < e ==> (#[trigger] edges[t]).0 != edges[t].1,
    ensures
        nbr_lists(edges, k, e).len() == k,
        forall|v: int| 0 <= v < k ==> (#[trigger] nbr_lists(edges, k, e)[v]).len() <= e,
        forall|v: int, t: int| 0 <= v < k && 0 <= t < nbr_lists(edges, k, e)[v].len() ==> #[trigger] nbr_lists(edges, k, e)[v][t] < k,
    decreases e,
{
    if e > 0 {
        lemma_nbr_lists_shape(edges, k, e - 1);
        let p = nbr_lists(edges, k, e - 1);
        let (a, b) = edges[e - 1];
        let p1 = p.update(a as int, p[a as int].push(b));
        let p2 = p1.update(b as int, p1[b as int].push(a));
        assert forall|v: int| 0 <= v < k implies (#[trigger] p2[v]).len() <= e by {
        }
        assert forall|v: int, t: int| 0 <= v < k && 0 <= t < p2[v].len() implies #[trigger] p2[v][t] < k by {
            if v == b as int {
                if t < p1[v].len() {
                    assert(p2[v][t] == p1[v][t]);
                }
            } else {
                assert(p2[v] == p1[v]);
            }
            if v == a as int && t < p1[v].len() && v != b as int {
                if t < p[v].len() {
                    assert(p1[v][t] == p[v][t]);
                }
            }
        }
    }
}

/// The caterpillar's neighbour lists name vertices in range, each list no
/// longer than twice the edge count, which is one less than the vertex count.
pub proof fn lemma_cat_adj(seq: Seq<usize>)
    requires
        seq.len() >= 1,
        seq.len() + usum(seq, seq.len() as int) <= usize::MAX,
    ensures
        cat_edges(seq).len() == seq.len() + usum(seq, seq.len() as int) - 1,
        nbr_lists(cat_edges(seq), seq.len() + usum(seq, seq.len() as int), cat_edges(seq).len() as int).len() == seq.len() + usum(seq, seq.len() as int),
        forall|v: int|
            0 <= v < seq.len() + usum(seq, seq.len() as int) ==> (#[trigger] nbr_lists(cat_edges(seq), seq.len() + usum(seq, seq.len() as int), cat_edges(seq).len() as int)[v]).len()
                <= cat_edges(seq).len(),
        forall|v: int, t: int|
            0 <= v < seq.len() + usum(seq, seq.len() as int) && 0 <= t < nbr_lists(cat_edges(seq), seq.len() + usum(seq, seq.len() as int), cat_edges(seq).len() as int)[v].len()
                ==> #[trigger] nbr_lists(cat_edges(seq), seq.len() + usum(seq, seq.len() as int), cat_edges(seq).len() as int)[v][t] < seq.len() + usum(seq, seq.len() as int),
{
    let m = seq.len() as int;
    let k = m + usum(seq, m);
    let es = cat_edges(seq);
    lemma_leaf_edges_len(seq, m, m);
    lemma_usum_nonneg(seq, m);
    assert forall|t: int| 0 <= t < es.len() implies (#[trigger] es[t]).0 < k && es[t].1 < k && es[t].0 != es[t].1 by {
        if t >= m - 1 {
            lemma_leaf_edges_range(seq, m, m, t - (m - 1));
        }
    }
    lemma_nbr_lists_shape(es, k, es.len() as int);
}

proof fn lemma_usum_nonneg(s: Seq<usize>, k: int)
    requires
        0 <= k <= s.len(),
    ensures
        usum(s, k) >= 0,
    decreases k,
{
    if k > 0 {
        lemma_usum_nonneg(s, k - 1);
    }
}

} // verus!
