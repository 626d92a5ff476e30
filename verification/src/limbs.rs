//! Value of little-endian base-2^64 limb sequences, and the facts the
//! big-integer routines need about it.
use vstd::prelude::*;

verus! {

/// The limb base, 2^64.
pub open spec fn base() -> nat {
    0x1_0000_0000_0000_0000nat
}

/// `base()^k`.
pub open spec fn bp(k: nat) -> nat
    decreases k,
{
    if k == 0 {
        1
    } else {
        base() * bp((k - 1) as nat)
    }
}

/// Limb `i` of `s`, zero past the end.
pub open spec fn limb(s: Seq<u64>, i: int) -> nat {
    if 0 <= i < s.len() {
        s[i] as nat
    } else {
        0
    }
}

/// Value of the lowest `i` limbs.
pub open spec fn vp(s: Seq<u64>, i: nat) -> nat
    decreases i,
{
    if i == 0 {
        0
    } else {
        vp(s, (i - 1) as nat) + limb(s, i - 1) * bp((i - 1) as nat)
    }
}

/// Value of the limbs from `i` upward, scaled so limb `i` has weight one.
pub open spec fn hv(s: Seq<u64>, i: int) -> nat
    decreases s.len() - i,
{
    if i >= s.len() || i < 0 {
        0
    } else {
        s[i] as nat + base() * hv(s, i + 1)
    }
}

/// Value of a limb sequence.
pub open spec fn val(s: Seq<u64>) -> nat {
    vp(s, s.len())
}

/// No zero limb at the top.
pub open spec fn normalized(s: Seq<u64>) -> bool {
    s.len() == 0 || s.last() != 0
}

pub proof fn lemma_bp_pos(k: nat)
    ensures
        bp(k) >= 1,
    decreases k,
{
    if k > 0 {
        lemma_bp_pos((k - 1) as nat);
        assert(base() * bp((k - 1) as nat) >= 1) by (nonlinear_arith)
            requires
                bp((k - 1) as nat) >= 1,
        ;
    }
}

pub proof fn lemma_bp_mono(i: nat, j: nat)
    requires
        i <= j,
    ensures
        bp(i) <= bp(j),
    decreases j,
{
    if i < j {
        lemma_bp_mono(i, (j - 1) as nat);
        lemma_bp_pos((j - 1) as nat);
        assert(bp((j - 1) as nat) <= base() * bp((j - 1) as nat)) by (nonlinear_arith)
            requires
                bp((j - 1) as nat) >= 1,
        ;
    }
}

/// Prefix values only read the limbs below `i`.
pub proof fn lemma_vp_agree(s: Seq<u64>, t: Seq<u64>, i: nat)
    requires
        forall|k: int| 0 <= k < i ==> limb(s, k) == limb(t, k),
    ensures
        vp(s, i) == vp(t, i),
    decreases i,
{
    if i > 0 {
        lemma_vp_agree(s, t, (i - 1) as nat);
    }
}

/// Limbs past the end add nothing.
pub proof fn lemma_vp_tail(s: Seq<u64>, i: nat)
    requires
        i >= s.len(),
    ensures
        vp(s, i) == val(s),
    decreases i,
{
    if i > s.len() {
        lemma_vp_tail(s, (i - 1) as nat);
        let b = bp((i - 1) as nat);
        assert(limb(s, i - 1) == 0);
        assert(0 * b == 0) by (nonlinear_arith);
    }
}

/// `i` limbs hold less than `base()^i`.
pub proof fn lemma_vp_bound(s: Seq<u64>, i: nat)
    ensures
        vp(s, i) < bp(i),
    decreases i,
{
    if i > 0 {
        let k = (i - 1) as nat;
        lemma_vp_bound(s, k);
        let l = limb(s, k as int);
        assert(l < base());
        assert(vp(s, k) + l * bp(k) < base() * bp(k)) by (nonlinear_arith)
            requires
                vp(s, k) < bp(k),
                l < base(),
        ;
    }
}

pub proof fn lemma_val_bound(s: Seq<u64>)
    ensures
        val(s) < bp(s.len()),
{
    lemma_vp_bound(s, s.len());
}

/// Appending a limb on top adds it at weight `base()^len`.
pub proof fn lemma_val_push(s: Seq<u64>, x: u64)
    ensures
        val(s.push(x)) == val(s) + x * bp(s.len()),
{
    let t = s.push(x);
    lemma_vp_agree(s, t, s.len());
}

/// Removing a zero top limb keeps the value.
pub proof fn lemma_val_drop_zero(s: Seq<u64>)
    requires
        s.len() > 0,
        s.last() == 0,
    ensures
        val(s.drop_last()) == val(s),
{
    let t = s.drop_last();
    lemma_vp_agree(s, t, t.len());
    let b = bp(t.len());
    assert(limb(s, t.len() as int) == 0);
    assert(0 * b == 0) by (nonlinear_arith);
}

/// The top limb gives a lower bound on the value.
pub proof fn lemma_val_lower(s: Seq<u64>)
    requires
        s.len() > 0,
    ensures
        val(s) >= s.last() * bp((s.len() - 1) as nat),
        s.last() != 0 ==> val(s) >= bp((s.len() - 1) as nat),
{
    let k = (s.len() - 1) as nat;
    assert(limb(s, k as int) == s.last());
    lemma_bp_pos(k);
    assert(s.last() != 0 ==> s.last() * bp(k) >= bp(k)) by (nonlinear_arith)
        requires
            bp(k) >= 1,
    ;
}

/// A normalized sequence is zero exactly when it is empty.
pub proof fn lemma_val_zero(s: Seq<u64>)
    requires
        normalized(s),
    ensures
        (val(s) == 0) <==> (s.len() == 0),
{
    if s.len() > 0 {
        lemma_val_lower(s);
        lemma_bp_pos((s.len() - 1) as nat);
    }
}

/// Low part plus scaled high part is the whole value.
pub proof fn lemma_split(s: Seq<u64>, i: int)
    requires
        0 <= i <= s.len(),
    ensures
        val(s) == vp(s, i as nat) + bp(i as nat) * hv(s, i),
    decreases i,
{
    if i == 0 {
        lemma_vp_tail(s, s.len());
        lemma_split_up(s, 0);
    } else {
        lemma_split(s, i - 1);
        let k = (i - 1) as nat;
        assert(hv(s, i - 1) == s[i - 1] as nat + base() * hv(s, i));
        assert(limb(s, i - 1) == s[i - 1] as nat);
        let a = vp(s, k);
        let b = bp(k);
        let x = s[i - 1] as nat;
        let h = hv(s, i);
        assert(a + b * (x + base() * h) == (a + x * b) + (base() * b) * h) by (nonlinear_arith);
    }
}

/// `val` read from the top: `val(s) == hv(s, 0)`.
proof fn lemma_split_up(s: Seq<u64>, i: int)
    requires
        0 <= i <= s.len(),
    ensures
        vp(s, s.len()) == vp(s, i as nat) + bp(i as nat) * hv(s, i),
    decreases s.len() - i,
{
    if i == s.len() {
        assert(hv(s, i) == 0);
        assert(bp(i as nat) * 0 == 0) by (nonlinear_arith);
    } else {
        lemma_split_up(s, i + 1);
        assert(hv(s, i) == s[i] as nat + base() * hv(s, i + 1));
        let a = vp(s, i as nat);
        let b = bp(i as nat);
        let x = s[i] as nat;
        let h = hv(s, i + 1);
        assert(limb(s, i) == x);
        assert(vp(s, (i + 1) as nat) == a + x * b);
        assert(bp((i + 1) as nat) == base() * b);
        assert((a + x * b) + (base() * b) * h == a + b * (x + base() * h)) by (nonlinear_arith);
    }
}

/// The high part only reads the limbs at and above `i`.
pub proof fn lemma_hv_agree(s: Seq<u64>, t: Seq<u64>, i: int)
    requires
        0 <= i,
        s.len() == t.len(),
        forall|k: int| i <= k < s.len() ==> s[k] == t[k],
    ensures
        hv(s, i) == hv(t, i),
    decreases s.len() - i,
{
    if i < s.len() {
        lemma_hv_agree(s, t, i + 1);
    }
}

/// Shifting up by one limb multiplies by the base.
pub proof fn lemma_val_shift(s: Seq<u64>)
    ensures
        val(seq![0u64] + s) == base() * val(s),
{
    let t = seq![0u64] + s;
    lemma_split(t, 1);
    lemma_split(s, 0);
    assert(hv(t, 1) == hv(s, 0)) by {
        lemma_hv_shift(s, t, 0);
    }
    assert(t[0] == 0u64);
    assert(limb(t, 0) == 0);
    assert(vp(t, 0) == 0);
    assert(vp(t, 1) == vp(t, 0) + limb(t, 0) * bp(0));
    assert(bp(0) == 1);
    let l0 = limb(t, 0);
    let b0 = bp(0);
    assert(l0 * b0 == 0) by (nonlinear_arith)
        requires
            l0 == 0,
    ;
    assert(vp(t, 1) == 0) by {
        reveal_with_fuel(vp, 2);
    }
    assert(bp(1) == base() * bp(0));
    let h = hv(s, 0);
    assert(bp(1) == base()) by (nonlinear_arith)
        requires
            bp(1) == base() * bp(0),
            bp(0) == 1,
    ;
    assert(val(s) == h) by {
        assert(vp(s, 0) == 0);
        assert(bp(0) * h == h) by (nonlinear_arith)
            requires
                bp(0) == 1,
        ;
    }
}

proof fn lemma_hv_shift(s: Seq<u64>, t: Seq<u64>, i: int)
    requires
        0 <= i <= s.len(),
        t == seq![0u64] + s,
    ensures
        hv(t, i + 1) == hv(s, i),
    decreases s.len() - i,
{
    if i < s.len() {
        lemma_hv_shift(s, t, i + 1);
    }
}

/// The value read from the top.
pub proof fn lemma_val_hv(s: Seq<u64>)
    ensures
        val(s) == hv(s, 0),
{
    lemma_split(s, 0);
    assert(vp(s, 0) == 0);
    assert(bp(0) == 1);
    let h = hv(s, 0);
    assert(bp(0) * h == h) by (nonlinear_arith)
        requires
            bp(0) == 1,
    ;
}

/// Prepending a zero limb keeps a nonempty normalized sequence normalized.
pub proof fn lemma_shift_normalized(s: Seq<u64>)
    requires
        normalized(s),
        s.len() > 0,
    ensures
        normalized(seq![0u64] + s),
        (seq![0u64] + s).len() > 0,
{
    let t = seq![0u64] + s;
    assert(t.last() == s.last());
}

/// A shorter sequence is smaller than a longer normalized one.
pub proof fn lemma_shorter_smaller(a: Seq<u64>, b: Seq<u64>)
    requires
        normalized(b),
        a.len() < b.len(),
    ensures
        val(a) < val(b),
{
    lemma_val_bound(a);
    lemma_val_lower(b);
    lemma_bp_mono(a.len(), (b.len() - 1) as nat);
}

/// Between normalized sequences, a value at least as large has at least as many limbs.
pub proof fn lemma_len_from_val(a: Seq<u64>, b: Seq<u64>)
    requires
        normalized(a),
        normalized(b),
        val(a) >= val(b),
    ensures
        b.len() <= a.len(),
{
    if b.len() > a.len() {
        lemma_shorter_smaller(a, b);
    }
}

/// Equal-length sequences agreeing above `i` are ordered by limb `i`.
pub proof fn lemma_top_differs(a: Seq<u64>, b: Seq<u64>, i: usize)
    requires
        a.len() == b.len(),
        i < a.len(),
        forall|k: int| i < k < a.len() ==> a[k] == b[k],
        a[i as int] < b[i as int],
    ensures
        val(a) < val(b),
{
    let ii = i as int;
    lemma_hv_agree(a, b, ii + 1);
    lemma_split(a, ii);
    lemma_split(b, ii);
    lemma_vp_bound(a, i as nat);
    let h = hv(a, ii + 1);
    assert(hv(a, ii) == a[ii] as nat + base() * h);
    assert(hv(b, ii) == b[ii] as nat + base() * h);
    let pa = vp(a, i as nat);
    let pb = vp(b, i as nat);
    let bb = bp(i as nat);
    let ha = hv(a, ii);
    let hb = hv(b, ii);
    assert(pa + bb * ha < pb + bb * hb) by (nonlinear_arith)
        requires
            pa < bb,
            ha + 1 <= hb,
    ;
}

/// `base()^(i+j) == base()^i * base()^j`.
pub proof fn lemma_bp_add(i: nat, j: nat)
    ensures
        bp(i + j) == bp(i) * bp(j),
    decreases j,
{
    if j == 0 {
        assert(bp(i) * 1 == bp(i)) by (nonlinear_arith);
    } else {
        lemma_bp_add(i, (j - 1) as nat);
        assert(bp((i + j) as nat) == base() * bp((i + j - 1) as nat));
        assert(bp(j) == base() * bp((j - 1) as nat));
        let a = bp(i);
        let b = bp((j - 1) as nat);
        assert(base() * (a * b) == a * (base() * b)) by (nonlinear_arith);
    }
}

/// Weighted value of 128-bit accumulators: `sum acc[m] * base()^m` over `m < k`.
pub open spec fn accv(s: Seq<u128>, k: nat) -> nat
    decreases k,
{
    if k == 0 {
        0
    } else {
        accv(s, (k - 1) as nat) + (if k - 1 < s.len() { s[k - 1] as nat } else { 0 }) * bp((k - 1) as nat)
    }
}

/// Changing one accumulator changes the weighted value by the scaled difference.
pub proof fn lemma_accv_update(s: Seq<u128>, m: int, x: u128, k: nat)
    requires
        0 <= m < s.len(),
    ensures
        accv(s.update(m, x), k) + (if m < k { s[m] as nat * bp(m as nat) } else { 0 }) == accv(s, k) + (if m < k { x as nat * bp(m as nat) } else { 0 }),
    decreases k,
{
    if k > 0 {
        lemma_accv_update(s, m, x, (k - 1) as nat);
    }
}

} // verus!
