//! A minimal exact signed big integer: sign plus little-endian base-2^64
//! magnitude with no zero limb at the top.
use vstd::prelude::*;
use crate::limbs::{base, bp, limb, vp, hv, val, normalized, lemma_bp_pos, lemma_bp_mono,
    lemma_vp_agree, lemma_vp_tail, lemma_vp_bound, lemma_val_bound, lemma_val_push,
    lemma_val_drop_zero, lemma_val_lower, lemma_val_zero, lemma_split, lemma_hv_agree,
    lemma_val_shift, lemma_val_hv, lemma_shift_normalized, lemma_shorter_smaller, lemma_len_from_val,
    lemma_top_differs};
use std::cmp::Ordering;

verus! {

/// Signed big integer.
pub struct Big {
    pub neg: bool,
    pub mag: Vec<u64>,
}

impl View for Big {
    type V = int;

    open spec fn view(&self) -> int {
        if self.neg {
            -(val(self.mag@) as int)
        } else {
            val(self.mag@) as int
        }
    }
}

/// Low and high halves of a 128-bit word.
pub proof fn lemma_u128_halves(s: u128)
    ensures
        (s & 0xFFFF_FFFF_FFFF_FFFFu128) < base(),
        (s >> 64u128) < base(),
        (s & 0xFFFF_FFFF_FFFF_FFFFu128) + (s >> 64u128) * base() == s,
{
    assert(s & 0xFFFF_FFFF_FFFF_FFFFu128 == s % 0x1_0000_0000_0000_0000u128) by (bit_vector);
    assert(s >> 64u128 == s / 0x1_0000_0000_0000_0000u128) by (bit_vector);
}

impl Big {
    /// Normal form: no zero top limb, and zero is never negative.
    pub open spec fn wf(&self) -> bool {
        &&& normalized(self.mag@)
        &&& (self.mag@.len() == 0 ==> !self.neg)
    }

    /// A separate copy with the same value.
    pub fn duplicate(&self) -> (r: Big)
        ensures
            r.neg == self.neg,
            r.mag@ == self.mag@,
            r@ == self@,
            self.wf() ==> r.wf(),
    {
        Big { neg: self.neg, mag: crate::seqs::copy_u64s(&self.mag) }
    }

    /// Zero.
    pub fn zero() -> (r: Big)
        ensures
            r.wf(),
            r@ == 0,
    {
        Big { neg: false, mag: Vec::new() }
    }

    /// Drops zero top limbs and clears the sign of zero.
    pub fn norm(self) -> (r: Big)
        ensures
            r.wf(),
            r@ == self@,
    {
        let mut s = self;
        while s.mag.len() > 0 && s.mag[s.mag.len() - 1] == 0
            invariant
                val(s.mag@) == val(self.mag@),
                s.neg == self.neg,
            decreases s.mag.len(),
        {
            proof {
                lemma_val_drop_zero(s.mag@);
            }
            s.mag.pop();
        }
        if s.mag.len() == 0 {
            s.neg = false;
            proof {
                assert(val(s.mag@) == 0);
            }
        }
        s
    }

    /// Exact conversion from a 128-bit signed integer.
    pub fn from_i128(x: i128) -> (r: Big)
        ensures
            r.wf(),
            r@ == x,
    {
        let neg = x < 0;
        let mut u: u128 = if neg { ((-(x + 1)) as u128) + 1 } else { x as u128 };
        let ghost total: nat = if neg { (-x) as nat } else { x as nat };
        let mut m: Vec<u64> = Vec::new();
        proof {
            assert(u as int == total);
            assert(bp(0) == 1);
            assert(u * bp(0) == u) by (nonlinear_arith)
                requires
                    bp(0) == 1,
            ;
        }
        while u > 0
            invariant
                val(m@) + u * bp(m@.len()) == total,
                m@.len() <= 2,
                m@.len() == 1 ==> u < base(),
                m@.len() == 2 ==> u == 0,
            decreases u,
        {
            proof {
                lemma_u128_halves(u);
                lemma_val_push(m@, (u & 0xFFFF_FFFF_FFFF_FFFFu128) as u64);
                let lo = (u & 0xFFFF_FFFF_FFFF_FFFFu128) as nat;
                let hi = (u >> 64u128) as nat;
                let b = bp(m@.len());
                assert(bp((m@.len() + 1) as nat) == base() * b);
                assert(u * b == lo * b + hi * (base() * b)) by (nonlinear_arith)
                    requires
                        lo + hi * base() == u,
                ;
            }
            m.push((u & 0xFFFF_FFFF_FFFF_FFFF) as u64);
            u >>= 64;
        }
        proof {
            assert(u * bp(m@.len()) == 0) by (nonlinear_arith)
                requires
                    u == 0,
            ;
        }
        let b = Big { neg, mag: m };
        b.norm()
    }

    /// The value is zero (for a normalized integer).
    pub fn is_zero(&self) -> (r: bool)
        requires
            self.wf(),
        ensures
            r == (self@ == 0),
    {
        proof {
            lemma_val_zero(self.mag@);
        }
        self.mag.len() == 0
    }

    /// Magnitude sum of two limb vectors.
    pub fn add_mag(a: &[u64], b: &[u64]) -> (r: Vec<u64>)
        ensures
            val(r@) == val(a@) + val(b@),
            (normalized(a@) && normalized(b@)) ==> normalized(r@),
    {
        let mut r: Vec<u64> = Vec::new();
        let mut carry = 0u128;
        let len = if a.len() >= b.len() { a.len() } else { b.len() };
        let mut i = 0usize;
        while i < len
            invariant
                i <= len,
                len == if a@.len() >= b@.len() { a@.len() } else { b@.len() },
                r@.len() == i,
                carry <= 1,
                val(r@) + carry * bp(i as nat) == vp(a@, i as nat) + vp(b@, i as nat),
                (normalized(a@) && normalized(b@)) && i == len && len > 0 ==> (carry != 0 || r@[i - 1] != 0),
            decreases len - i,
        {
            let av: u128 = if i < a.len() { a[i] as u128 } else { 0 };
            let bv: u128 = if i < b.len() { b[i] as u128 } else { 0 };
            let s = av + bv + carry;
            proof {
                lemma_u128_halves(s);
                lemma_val_push(r@, (s & 0xFFFF_FFFF_FFFF_FFFFu128) as u64);
                let lo = (s & 0xFFFF_FFFF_FFFF_FFFFu128) as nat;
                let hi = (s >> 64u128) as nat;
                let bb = bp(i as nat);
                assert(bp((i + 1) as nat) == base() * bb);
                assert(av == limb(a@, i as int));
                assert(bv == limb(b@, i as int));
                assert(s * bb == lo * bb + hi * (base() * bb)) by (nonlinear_arith)
                    requires
                        lo + hi * base() == s,
                ;
                assert((av + bv + carry) * bb == av * bb + bv * bb + carry * bb) by (nonlinear_arith);
                assert(s <= 2 * 0xFFFF_FFFF_FFFF_FFFFu128 + 1);
                assert(hi <= 1) by (nonlinear_arith)
                    requires
                        lo + hi * base() == s,
                        s < 2 * base(),
                ;
                if i + 1 == len && (normalized(a@) && normalized(b@)) {
                    if a@.len() == len {
                        assert(av == a@.last());
                    } else {
                        assert(bv == b@.last());
                    }
                    assert(s >= 1);
                    if hi == 0 {
                        assert(lo == s);
                    }
                }
            }
            r.push((s & 0xFFFF_FFFF_FFFF_FFFF) as u64);
            carry = s >> 64;
            i += 1;
        }
        proof {
            lemma_vp_tail(a@, len as nat);
            lemma_vp_tail(b@, len as nat);
        }
        if carry > 0 {
            proof {
                lemma_val_push(r@, carry as u64);
            }
            r.push(carry as u64);
        }
        proof {
            if (normalized(a@) && normalized(b@)) && len == 0 {
                assert(r@.len() == 0);
            }
        }
        r
    }

    /// Magnitude difference `a - b` for `a >= b`.
    pub fn sub_mag(a: &[u64], b: &[u64]) -> (r: Vec<u64>)
        requires
            b@.len() <= a@.len(),
            val(a@) >= val(b@),
        ensures
            r@.len() == a@.len(),
            val(r@) == val(a@) - val(b@),
    {
        let mut r: Vec<u64> = Vec::new();
        let mut borrow = 0i128;
        let mut i = 0usize;
        while i < a.len()
            invariant
                b@.len() <= a@.len(),
                i <= a@.len(),
                r@.len() == i,
                0 <= borrow <= 1,
                val(r@) + vp(b@, i as nat) == vp(a@, i as nat) + borrow * bp(i as nat),
            decreases a@.len() - i,
        {
            let av = a[i] as i128;
            let bv: i128 = if i < b.len() { b[i] as i128 } else { 0 };
            let ob = borrow;
            let mut s = av - bv - borrow;
            proof {
                assert(1i128 << 64 == 0x1_0000_0000_0000_0000i128) by (bit_vector);
            }
            if s < 0 {
                s += 1i128 << 64;
                borrow = 1;
            } else {
                borrow = 0;
            }
            proof {
                assert(1i128 << 64 == 0x1_0000_0000_0000_0000i128) by (bit_vector);
                assert(0 <= s < base());
                lemma_val_push(r@, s as u64);
                let bb = bp(i as nat);
                assert(bp((i + 1) as nat) == base() * bb);
                assert(av == limb(a@, i as int));
                assert(bv == limb(b@, i as int));
                let vr = val(r@) as int;
                let vpa = vp(a@, i as nat) as int;
                let vpb = vp(b@, i as nat) as int;
                assert(vr + s * bb + (vpb + bv * bb) == (vpa + av * bb) + borrow * (base() * bb)) by (nonlinear_arith)
                    requires
                        vr + vpb == vpa + ob * bb,
                        s == av - bv - ob + borrow * base(),
                ;
            }
            r.push(s as u64);
            i += 1;
        }
        proof {
            lemma_vp_tail(b@, a@.len() as nat);
            lemma_val_bound(r@);
            lemma_bp_pos(a@.len() as nat);
            if borrow == 1 {
                assert(false);
            }
        }
        r
    }

    /// Compares two normalized magnitudes.
    pub fn cmp_mag(a: &[u64], b: &[u64]) -> (r: Ordering)
        requires
            normalized(a@),
            normalized(b@),
        ensures
            (r == Ordering::Less) == (val(a@) < val(b@)),
            (r == Ordering::Equal) == (val(a@) == val(b@)),
            (r == Ordering::Greater) == (val(a@) > val(b@)),
    {
        if a.len() != b.len() {
            proof {
                if a@.len() < b@.len() {
                    lemma_shorter_smaller(a@, b@);
                } else {
                    lemma_shorter_smaller(b@, a@);
                }
            }
            if a.len() < b.len() {
                return Ordering::Less;
            } else {
                return Ordering::Greater;
            }
        }
        let mut i = a.len();
        while i > 0
            invariant
                a@.len() == b@.len(),
                i <= a@.len(),
                forall|k: int| i <= k < a@.len() ==> a@[k] == b@[k],
            decreases i,
        {
            i -= 1;
            if a[i] != b[i] {
                if a[i] < b[i] {
                    proof {
                        lemma_top_differs(a@, b@, i);
                    }
                    return Ordering::Less;
                } else {
                    proof {
                        lemma_top_differs(b@, a@, i);
                    }
                    return Ordering::Greater;
                }
            }
        }
        proof {
            assert(a@ =~= b@);
        }
        Ordering::Equal
    }

    /// Exact sum. Operands of opposite sign must be normalized.
    pub fn add(&self, o: &Big) -> (r: Big)
        requires
            self.neg == o.neg || (normalized(self.mag@) && normalized(o.mag@)),
        ensures
            r.wf(),
            r@ == self@ + o@,
    {
        if self.neg == o.neg {
            Big { neg: self.neg, mag: Big::add_mag(&self.mag, &o.mag) }.norm()
        } else {
            match Big::cmp_mag(&self.mag, &o.mag) {
                Ordering::Equal => Big::zero(),
                Ordering::Greater => {
                    proof {
                        lemma_len_from_val(self.mag@, o.mag@);
                    }
                    Big { neg: self.neg, mag: Big::sub_mag(&self.mag, &o.mag) }.norm()
                },
                Ordering::Less => {
                    proof {
                        lemma_len_from_val(o.mag@, self.mag@);
                    }
                    Big { neg: o.neg, mag: Big::sub_mag(&o.mag, &self.mag) }.norm()
                },
            }
        }
    }
}

/// Magnitude times one limb.
fn mul_limb(m: &[u64], f: u64) -> (r: Vec<u64>)
    ensures
        val(r@) == val(m@) * f,
        normalized(m@) && m@.len() > 0 && f > 0 ==> normalized(r@) && r@.len() > 0,
{
    let mut r: Vec<u64> = Vec::new();
    let mut carry = 0u128;
    let mut i = 0usize;
    proof {
        assert(vp(m@, 0) * f == 0) by (nonlinear_arith)
            requires
                vp(m@, 0) == 0,
        ;
    }
    while i < m.len()
        invariant
            i <= m@.len(),
            r@.len() == i,
            carry < base(),
            val(r@) + carry * bp(i as nat) == vp(m@, i as nat) * f,
            normalized(m@) && i == m@.len() && i > 0 && f > 0 ==> (carry != 0 || r@[i - 1] != 0),
        decreases m@.len() - i,
    {
        let mi = m[i] as u128;
        let fu = f as u128;
        proof {
            assert(mi * fu + carry <= 0xFFFF_FFFF_FFFF_FFFFu128 * 0xFFFF_FFFF_FFFF_FFFFu128 + 0xFFFF_FFFF_FFFF_FFFFu128) by (nonlinear_arith)
                requires
                    mi <= 0xFFFF_FFFF_FFFF_FFFFu128,
                    fu <= 0xFFFF_FFFF_FFFF_FFFFu128,
                    carry <= 0xFFFF_FFFF_FFFF_FFFFu128,
            ;
        }
        let p = mi * fu + carry;
        proof {
            lemma_u128_halves(p);
            lemma_val_push(r@, (p & 0xFFFF_FFFF_FFFF_FFFFu128) as u64);
            let lo = (p & 0xFFFF_FFFF_FFFF_FFFFu128) as nat;
            let hi = (p >> 64u128) as nat;
            let bb = bp(i as nat);
            assert(bp((i + 1) as nat) == base() * bb);
            assert(mi == limb(m@, i as int));
            let vpm = vp(m@, i as nat);
            assert(val(r@) + lo * bb + hi * (base() * bb) == (vpm + mi * bb) * f) by (nonlinear_arith)
                requires
                    val(r@) + carry * bb == vpm * f,
                    lo + hi * base() == p,
                    p == mi * f + carry,
            ;
            if normalized(m@) && i + 1 == m@.len() && f > 0 {
                assert(mi == m@.last());
                assert(p >= 1) by (nonlinear_arith)
                    requires
                        mi >= 1,
                        fu >= 1,
                        p == mi * fu + carry,
                ;
                if hi == 0 {
                    assert(lo == p);
                }
            }
        }
        r.push((p & 0xFFFF_FFFF_FFFF_FFFF) as u64);
        carry = p >> 64;
        i += 1;
    }
    proof {
        lemma_vp_tail(m@, i as nat);
    }
    if carry > 0 {
        proof {
            lemma_val_push(r@, carry as u64);
        }
        r.push(carry as u64);
    }
    r
}

/// Shifts a magnitude up by one limb.
fn shift_limb(v: &mut Vec<u64>)
    ensures
        final(v)@ == seq![0u64] + old(v)@,
        val(final(v)@) == base() * val(old(v)@),
{
    proof {
        lemma_val_shift(old(v)@);
        assert(old(v)@.insert(0, 0u64) =~= seq![0u64] + old(v)@);
    }
    v.insert(0, 0);
}

/// Absolute value of a 128-bit signed integer.
fn abs_u128(x: i128) -> (u: u128)
    ensures
        u as int == if x < 0 { -x } else { x as int },
{
    if x < 0 {
        ((-(x + 1)) as u128) + 1
    } else {
        x as u128
    }
}

impl Big {
    /// Exact product with a 128-bit signed integer.
    pub fn mul_i128(&self, x: i128) -> (r: Big)
        requires
            self.wf(),
        ensures
            r.wf(),
            r@ == self@ * x,
    {
        if x == 0 || self.is_zero() {
            proof {
                assert(self@ * x == 0) by (nonlinear_arith)
                    requires
                        x == 0 || self@ == 0,
                ;
            }
            return Big::zero();
        }
        let neg = self.neg ^ (x < 0);
        let u = abs_u128(x);
        let lo = (u & 0xFFFF_FFFF_FFFF_FFFF) as u64;
        let hi = (u >> 64) as u64;
        proof {
            lemma_u128_halves(u);
        }
        let p_lo = mul_limb(&self.mag, lo);
        let mut res = Big { neg: false, mag: p_lo };
        if hi != 0 {
            let mut p_hi = mul_limb(&self.mag, hi);
            shift_limb(&mut p_hi);
            res = res.add(&Big { neg: false, mag: p_hi });
        }
        proof {
            let v = val(self.mag@);
            if hi == 0 {
                assert(val(res.mag@) == v * lo);
                assert(v * lo == v * u) by (nonlinear_arith)
                    requires
                        lo + hi * base() == u,
                        hi == 0,
                ;
            } else {
                assert(val(res.mag@) == v * lo + base() * (v * hi));
                assert(v * lo + base() * (v * hi) == v * u) by (nonlinear_arith)
                    requires
                        lo + hi * base() == u,
                ;
            }
        }
        res.neg = neg;
        proof {
            let v = val(self.mag@) as int;
            let ui = u as int;
            if self.neg {
                if x < 0 {
                    assert((-v) * x == v * ui) by (nonlinear_arith) requires ui == -x;
                } else {
                    assert((-v) * x == -(v * ui)) by (nonlinear_arith) requires ui == x;
                }
            } else {
                if x < 0 {
                    assert(v * x == -(v * ui)) by (nonlinear_arith) requires ui == -x;
                } else {
                    assert(v * x == v * ui) by (nonlinear_arith) requires ui == x;
                }
            }
        }
        res.norm()
    }

    /// Division by a small positive divisor, truncating the magnitude
    /// (exact when `d` divides the value).
    pub fn div_small_exact(&self, d: u64) -> (r: Big)
        requires
            d > 0,
        ensures
            r.wf(),
            r@ == if self.neg { -((val(self.mag@) / (d as nat)) as int) } else { (val(self.mag@) / (d as nat)) as int },
    {
        let len = self.mag.len();
        let mut out: Vec<u64> = Vec::new();
        let mut k = 0usize;
        while k < len
            invariant
                k <= len,
                out@.len() == k,
                forall|j: int| 0 <= j < k ==> out@[j] == 0,
            decreases len - k,
        {
            out.push(0);
            k += 1;
        }
        let mut rem = 0u128;
        let mut i = len;
        proof {
            assert(hv(self.mag@, len as int) == 0);
            assert(hv(out@, len as int) == 0);
        }
        while i > 0
            invariant
                len == self.mag@.len(),
                out@.len() == len,
                i <= len,
                rem < d,
                hv(self.mag@, i as int) == d * hv(out@, i as int) + rem,
            decreases i,
        {
            i -= 1;
            let x = self.mag[i] as u128;
            proof {
                assert(rem < 0x1_0000_0000_0000_0000u128 ==> (rem << 64u128) | x == rem * 0x1_0000_0000_0000_0000u128 + x)
                    by (bit_vector)
                    requires
                        x < 0x1_0000_0000_0000_0000u128,
                ;
            }
            let cur = (rem << 64) | x;
            let du = d as u128;
            let q = cur / du;
            proof {
                assert(q < base()) by (nonlinear_arith)
                    requires
                        q == cur / du,
                        cur == rem * base() + x,
                        x < base(),
                        rem < du,
                        du > 0,
                ;
            }
            let ghost old_out = out@;
            out.set(i, q as u64);
            let nrem = cur % du;
            proof {
                lemma_hv_agree(old_out, out@, i + 1);
                assert(hv(out@, i as int) == q + base() * hv(out@, i + 1));
                assert(hv(self.mag@, i as int) == x + base() * hv(self.mag@, i + 1));
                let ho = hv(out@, i + 1);
                let dd = d as nat;
                assert(cur == dd * q + nrem) by (nonlinear_arith)
                    requires
                        q == cur / du,
                        nrem == cur % du,
                        du == dd,
                        du > 0,
                ;
                assert(x + base() * (dd * ho + rem) == dd * (q + base() * ho) + nrem) by (nonlinear_arith)
                    requires
                        cur == dd * q + nrem,
                        cur == rem * base() + x,
                ;
            }
            rem = nrem;
        }
        proof {
            lemma_val_hv(self.mag@);
            lemma_val_hv(out@);
            let v = val(self.mag@) as int;
            vstd::arithmetic::div_mod::lemma_fundamental_div_mod_converse(v, d as int, val(out@) as int, rem as int);
            assert(val(out@) as int * d as int == d as int * val(out@) as int) by (nonlinear_arith);
        }
        Big { neg: self.neg, mag: out }.norm()
    }

    /// Exact product with a limb.
    pub fn mul_u64(&self, f: u64) -> (r: Big)
        requires
            self.wf(),
        ensures
            r.wf(),
            r@ == self@ * f,
    {
        if f == 0 || self.is_zero() {
            proof {
                assert(self@ * f == 0) by (nonlinear_arith)
                    requires
                        f == 0 || self@ == 0,
                ;
            }
            return Big::zero();
        }
        let r = mul_limb(&self.mag, f);
        proof {
            let v = val(self.mag@) as int;
            assert((-v) * f == -(v * f)) by (nonlinear_arith);
        }
        Big { neg: self.neg, mag: r }.norm()
    }
}

/// Exact product of two big integers.
pub fn mul_big(a: &Big, b: &Big) -> (r: Big)
    requires
        a.wf(),
        b.wf(),
    ensures
        r.wf(),
        r@ == a@ * b@,
{
    if a.is_zero() || b.is_zero() {
        proof {
            assert(a@ * b@ == 0) by (nonlinear_arith)
                requires
                    a@ == 0 || b@ == 0,
            ;
        }
        return Big::zero();
    }
    let ghost sa: int = if a.neg { -1 } else { 1 };
    let ghost va = val(a.mag@) as int;
    let mut res = Big::zero();
    let mut i = 0usize;
    proof {
        assert(sa * va * vp(b.mag@, 0) == 0) by (nonlinear_arith)
            requires
                vp(b.mag@, 0) == 0,
        ;
        if a.neg {
            assert(a@ == sa * va);
        } else {
            assert(a@ == sa * va);
        }
    }
    while i < b.mag.len()
        invariant
            a.wf(),
            b.wf(),
            a@ != 0,
            i <= b.mag@.len(),
            res.wf(),
            a@ == sa * va,
            res@ == sa * va * vp(b.mag@, i as nat),
        decreases b.mag@.len() - i,
    {
        let l = b.mag[i];
        let ghost bb = bp(i as nat);
        proof {
            assert(l == limb(b.mag@, i as int));
        }
        if l == 0 {
            proof {
                assert(vp(b.mag@, (i + 1) as nat) == vp(b.mag@, i as nat) + 0 * bb);
                assert(0 * bb == 0) by (nonlinear_arith);
            }
            i += 1;
            continue;
        }
        let mut part = a.mul_u64(l);
        let mut k = 0usize;
        proof {
            assert(bp(0) == 1);
            assert(part@ == a@ * l * bp(0)) by (nonlinear_arith)
                requires
                    part@ == a@ * l,
                    bp(0) == 1,
            ;
            assert(part@ != 0) by (nonlinear_arith)
                requires
                    part@ == a@ * l,
                    a@ != 0,
                    l > 0,
            ;
        }
        while k < i
            invariant
                k <= i,
                part.wf(),
                part@ != 0,
                part@ == a@ * l * bp(k as nat),
            decreases i - k,
        {
            proof {
                lemma_val_zero(part.mag@);
                lemma_shift_normalized(part.mag@);
            }
            let ghost before = part@;
            let ghost bv = val(part.mag@) as int;
            shift_limb(&mut part.mag);
            proof {
                assert(bp((k + 1) as nat) == base() * bp(k as nat));
                let w = a@ * l;
                let bk = bp(k as nat) as int;
                if part.neg {
                    assert(part@ == -(base() * bv));
                    assert(before == -bv);
                    assert(-(base() * bv) == base() * (w * bk)) by (nonlinear_arith)
                        requires
                            -bv == w * bk,
                    ;
                } else {
                    assert(part@ == base() * bv);
                    assert(base() * bv == base() * (w * bk)) by (nonlinear_arith)
                        requires
                            bv == w * bk,
                    ;
                }
                assert(base() * (w * bk) == w * (base() * bk)) by (nonlinear_arith);
                assert(base() * (w * bk) != 0) by (nonlinear_arith)
                    requires
                        w * bk != 0,
                ;
            }
            k += 1;
        }
        res = res.add(&part);
        proof {
            let pv = vp(b.mag@, i as nat);
            assert(vp(b.mag@, (i + 1) as nat) == pv + l * bb);
            assert(sa * va * pv + sa * va * l * bb == sa * va * (pv + l * bb)) by (nonlinear_arith);
        }
        i += 1;
    }
    proof {
        lemma_vp_tail(b.mag@, i as nat);
    }
    let ghost before = res@;
    res.neg = a.neg ^ b.neg;
    proof {
        let vb = val(b.mag@) as int;
        let vr = val(res.mag@) as int;
        assert(before == sa * va * vb);
        assert(sa * va * vb == sa * (va * vb)) by (nonlinear_arith);
        assert(va * vb >= 0) by (nonlinear_arith)
            requires
                va >= 0,
                vb >= 0,
        ;
        assert(vr == va * vb) by (nonlinear_arith)
            requires
                vr >= 0,
                va * vb >= 0,
                before == vr || before == -vr,
                before == sa * (va * vb),
                sa == 1 || sa == -1,
        ;
        if b.neg {
            assert(b@ == -vb);
        } else {
            assert(b@ == vb);
        }
        assert(res@ == a@ * b@) by (nonlinear_arith)
            requires
                vr == va * vb,
                a@ == sa * va,
                sa == (if a.neg { -1int } else { 1int }),
                b@ == (if b.neg { -vb } else { vb }),
                res@ == (if a.neg ^ b.neg { -vr } else { vr }),
        ;
    }
    res.norm()
}

} // verus!
