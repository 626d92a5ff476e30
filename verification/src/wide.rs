//! Exact unsigned 256-bit integers as four little-endian 64-bit limbs.
use vstd::prelude::*;
use crate::limbs::{base, bp, limb, vp, hv, val, lemma_bp_pos, lemma_vp_agree, lemma_vp_tail,
    lemma_vp_bound, lemma_val_bound, lemma_val_push, lemma_split, lemma_hv_agree, lemma_val_hv,
    lemma_top_differs, lemma_bp_add, accv, lemma_accv_update, lemma_bp_mono};
use crate::bigint::lemma_u128_halves;
use std::cmp::Ordering;

verus! {

/// An unsigned 256-bit integer.
#[derive(Clone, Copy)]
pub struct W(pub [u64; 4]);

impl View for W {
    type V = nat;

    open spec fn view(&self) -> nat {
        val(self.0@)
    }
}

/// `2^256`.
pub open spec fn w_limit() -> nat {
    bp(4)
}

impl W {
    /// A 64-bit value.
    pub fn from_u64(x: u64) -> (r: W)
        ensures
            r@ == x,
    {
        let r = W([x, 0, 0, 0]);
        proof {
            lemma_w_val(r.0@);
            let s = r.0@;
            assert(s[1] as nat * bp(1) + s[2] as nat * bp(2) + s[3] as nat * bp(3) == 0) by (nonlinear_arith)
                requires
                    s[1] == 0,
                    s[2] == 0,
                    s[3] == 0,
            ;
        }
        r
    }

    /// The value is zero.
    pub fn is_zero(&self) -> (r: bool)
        ensures
            r == (self@ == 0),
    {
        proof {
            lemma_w_val(self.0@);
            lemma_bp_pos(1);
            lemma_bp_pos(2);
            lemma_bp_pos(3);
            let s = self.0@;
            let (a, b, c, d) = (s[0] as nat, s[1] as nat, s[2] as nat, s[3] as nat);
            assert((a + b * bp(1) + c * bp(2) + d * bp(3) == 0) <==> (a == 0 && b == 0 && c == 0 && d == 0))
                by (nonlinear_arith)
                requires
                    bp(1) >= 1,
                    bp(2) >= 1,
                    bp(3) >= 1,
            ;
        }
        self.0[0] == 0 && self.0[1] == 0 && self.0[2] == 0 && self.0[3] == 0
    }

    /// Sum; the sum must stay below `2^256`.
    pub fn add(&self, o: &W) -> (r: W)
        requires
            self@ + o@ < w_limit(),
        ensures
            r@ == self@ + o@,
    {
        let mut r = [0u64; 4];
        let mut carry = 0u128;
        let mut i = 0usize;
        while i < 4
            invariant
                i <= 4,
                carry <= 1,
                self@ + o@ < w_limit(),
                vp(r@, i as nat) + carry * bp(i as nat) == vp(self.0@, i as nat) + vp(o.0@, i as nat),
            decreases 4 - i,
        {
            let s = self.0[i] as u128 + o.0[i] as u128 + carry;
            let ghost old_r = r@;
            proof {
                lemma_u128_halves(s);
            }
            r[i] = s as u64;
            proof {
                let lo = (s & 0xFFFF_FFFF_FFFF_FFFFu128) as nat;
                let hi = (s >> 64u128) as nat;
                assert(s as u64 == (s & 0xFFFF_FFFF_FFFF_FFFFu128) as u64) by (bit_vector);
                lemma_vp_agree(old_r, r@, i as nat);
                let bb = bp(i as nat);
                assert(bp((i + 1) as nat) == base() * bb);
                assert(limb(r@, i as int) == lo);
                let av = limb(self.0@, i as int);
                let bv = limb(o.0@, i as int);
                assert(s * bb == lo * bb + hi * (base() * bb)) by (nonlinear_arith)
                    requires
                        lo + hi * base() == s,
                ;
                assert((av + bv + carry) * bb == av * bb + bv * bb + carry * bb) by (nonlinear_arith);
                assert(hi <= 1) by (nonlinear_arith)
                    requires
                        lo + hi * base() == s,
                        s < 2 * base(),
                ;
            }
            carry = s >> 64;
            i += 1;
        }
        proof {
            lemma_vp_bound(r@, 4);
            if carry != 0 {
                assert(false);
            }
        }
        W(r)
    }

    /// Difference; requires `o <= self`.
    pub fn sub(&self, o: &W) -> (r: W)
        requires
            o@ <= self@,
        ensures
            r@ == self@ - o@,
    {
        let mut r = [0u64; 4];
        let mut borrow = 0i128;
        let mut i = 0usize;
        while i < 4
            invariant
                i <= 4,
                0 <= borrow <= 1,
                o@ <= self@,
                vp(r@, i as nat) + vp(o.0@, i as nat) == vp(self.0@, i as nat) + borrow * bp(i as nat),
            decreases 4 - i,
        {
            let av = self.0[i] as i128;
            let bv = o.0[i] as i128;
            let ob = borrow;
            let s = av - bv - borrow;
            proof {
                assert(1i128 << 64 == 0x1_0000_0000_0000_0000i128) by (bit_vector);
            }
            let ghost old_r = r@;
            if s < 0 {
                r[i] = (s + (1i128 << 64)) as u64;
                borrow = 1;
            } else {
                r[i] = s as u64;
                borrow = 0;
            }
            proof {
                lemma_vp_agree(old_r, r@, i as nat);
                let bb = bp(i as nat);
                assert(bp((i + 1) as nat) == base() * bb);
                let x = r@[i as int] as int;
                assert(x == s + borrow * base());
                assert(limb(r@, i as int) == x);
                assert(av == limb(self.0@, i as int));
                assert(bv == limb(o.0@, i as int));
                let vr = vp(old_r, i as nat) as int;
                let vpa = vp(self.0@, i as nat) as int;
                let vpb = vp(o.0@, i as nat) as int;
                assert(vr + x * bb + (vpb + bv * bb) == (vpa + av * bb) + borrow * (base() * bb)) by (nonlinear_arith)
                    requires
                        vr + vpb == vpa + ob * bb,
                        x == av - bv - ob + borrow * base(),
                ;
            }
            i += 1;
        }
        proof {
            lemma_vp_bound(r@, 4);
            lemma_bp_pos(4);
            if borrow == 1 {
                assert(false);
            }
        }
        W(r)
    }
}

/// The value of a four-limb sequence, limb by limb.
pub proof fn lemma_w_val(s: Seq<u64>)
    requires
        s.len() == 4,
    ensures
        val(s) == s[0] as nat + s[1] * bp(1) + s[2] * bp(2) + s[3] * bp(3),
{
    assert(vp(s, 0) == 0);
    assert(bp(0) == 1);
    let x0 = limb(s, 0);
    assert(x0 * bp(0) == x0) by (nonlinear_arith)
        requires
            bp(0) == 1,
    ;
    assert(vp(s, 1) == s[0] as nat);
    assert(vp(s, 2) == vp(s, 1) + limb(s, 1) * bp(1));
    assert(vp(s, 3) == vp(s, 2) + limb(s, 2) * bp(2));
    assert(vp(s, 4) == vp(s, 3) + limb(s, 3) * bp(3));
}

impl W {
    /// Product; the product must stay below `2^256`.
    pub fn mul(&self, o: &W) -> (r: W)
        requires
            self@ * o@ < w_limit(),
        ensures
            r@ == self@ * o@,
    {
        let mut acc = [0u128; 8];
        let mut i = 0usize;
        let ghost vb = o@;
        proof {
            assert(accv(acc@, 8) == 0) by {
                lemma_accv_zero(acc@, 8);
            }
            assert(vp(self.0@, 0) * vb == 0) by (nonlinear_arith)
                requires
                    vp(self.0@, 0) == 0,
            ;
        }
        while i < 4
            invariant
                i <= 4,
                vb == o@,
                forall|k: int| 0 <= k < 8 ==> acc@[k] <= 8 * i * 0xFFFF_FFFF_FFFF_FFFFu128,
                accv(acc@, 8) == vp(self.0@, i as nat) * vb,
            decreases 4 - i,
        {
            let ai = self.0[i];
            if ai == 0 {
                proof {
                    assert(vp(self.0@, (i + 1) as nat) == vp(self.0@, i as nat) + limb(self.0@, i as int) * bp(i as nat));
                    assert(0 * bp(i as nat) == 0) by (nonlinear_arith);
                }
                i += 1;
                continue;
            }
            let mut j = 0usize;
            proof {
                assert(ai * vp(o.0@, 0) * bp(i as nat) == 0) by (nonlinear_arith)
                    requires
                        vp(o.0@, 0) == 0,
                ;
            }
            while j < 4
                invariant
                    i < 4,
                    j <= 4,
                    ai == self.0@[i as int],
                    vb == o@,
                    forall|k: int| 0 <= k < 8 ==> acc@[k] <= (8 * i + 2 * j) * 0xFFFF_FFFF_FFFF_FFFFu128,
                    accv(acc@, 8) == vp(self.0@, i as nat) * vb + ai * vp(o.0@, j as nat) * bp(i as nat),
                decreases 4 - j,
            {
                let bj = o.0[j];
                if bj == 0 {
                    proof {
                        assert(vp(o.0@, (j + 1) as nat) == vp(o.0@, j as nat) + limb(o.0@, j as int) * bp(j as nat));
                        assert(0 * bp(j as nat) == 0) by (nonlinear_arith);
                    }
                    j += 1;
                    continue;
                }
                proof {
                    assert(ai as u128 * bj as u128 <= 0xFFFF_FFFF_FFFF_FFFFu128 * 0xFFFF_FFFF_FFFF_FFFFu128) by (nonlinear_arith)
                        requires
                            ai <= 0xFFFF_FFFF_FFFF_FFFFu64,
                            bj <= 0xFFFF_FFFF_FFFF_FFFFu64,
                    ;
                }
                let p = ai as u128 * bj as u128;
                proof {
                    lemma_u128_halves(p);
                }
                let k = i + j;
                let lo = p & 0xFFFF_FFFF_FFFF_FFFF;
                let hi = p >> 64;
                let ghost s0 = acc@;
                acc[k] = acc[k] + lo;
                let ghost s1 = acc@;
                acc[k + 1] = acc[k + 1] + hi;
                proof {
                    assert(s1 =~= s0.update(k as int, s1[k as int]));
                    assert(acc@ =~= s1.update((k + 1) as int, acc@[(k + 1) as int]));
                    lemma_accv_update(s0, k as int, s1[k as int], 8);
                    lemma_accv_update(s1, (k + 1) as int, acc@[(k + 1) as int], 8);
                    lemma_bp_add(i as nat, j as nat);
                    let bk = bp(k as nat);
                    let bk1 = bp((k + 1) as nat);
                    let x0 = s0[k as int] as nat;
                    let x1 = s1[(k + 1) as int] as nat;
                    assert(s1[k as int] == x0 + lo);
                    assert(acc@[(k + 1) as int] == x1 + hi);
                    assert((x0 + lo) * bk == x0 * bk + lo * bk) by (nonlinear_arith);
                    assert((x1 + hi) * bk1 == x1 * bk1 + hi * bk1) by (nonlinear_arith);
                    assert(accv(s1, 8) == accv(s0, 8) + lo * bk);
                    assert(accv(acc@, 8) == accv(s1, 8) + hi * bk1);
                    assert(bp((k + 1) as nat) == base() * bk);
                    assert(bj == limb(o.0@, j as int));
                    assert(vp(o.0@, (j + 1) as nat) == vp(o.0@, j as nat) + bj * bp(j as nat));
                    let bi = bp(i as nat);
                    let bjj = bp(j as nat);
                    let vj = vp(o.0@, j as nat);
                    assert(lo * bk + hi * (base() * bk) == ai * bj * bk) by (nonlinear_arith)
                        requires
                            lo + hi * base() == p,
                            p == ai * bj,
                    ;
                    assert(ai * vj * bi + ai * bj * (bi * bjj) == ai * (vj + bj * bjj) * bi) by (nonlinear_arith);
                }
                j += 1;
            }
            proof {
                lemma_vp_tail(o.0@, 4);
                assert(vp(self.0@, (i + 1) as nat) == vp(self.0@, i as nat) + ai * bp(i as nat));
                let vi = vp(self.0@, i as nat);
                assert(vi * vb + ai * vb * bp(i as nat) == (vi + ai * bp(i as nat)) * vb) by (nonlinear_arith);
            }
            i += 1;
        }
        proof {
            lemma_vp_tail(self.0@, 4);
        }
        let mut r = [0u64; 4];
        let mut carry = 0u128;
        let mut k = 0usize;
        let ghost mut hi_sum: nat = 0;
        while k < 8
            invariant
                k <= 8,
                forall|m: int| 0 <= m < 8 ==> acc@[m] <= 32 * 0xFFFF_FFFF_FFFF_FFFFu128,
                carry <= 64,
                accv(acc@, 8) == self@ * o@,
                self@ * o@ < w_limit(),
                vp(r@, if k < 4 { k as nat } else { 4 }) + hi_sum + carry * bp(k as nat) == accv(acc@, k as nat),
                hi_sum == 0 || hi_sum >= bp(4),
                k <= 4 ==> hi_sum == 0,
            decreases 8 - k,
        {
            let s = acc[k] + carry;
            proof {
                lemma_u128_halves(s);
                assert(s as u64 == (s & 0xFFFF_FFFF_FFFF_FFFFu128) as u64) by (bit_vector);
            }
            let lo = (s & 0xFFFF_FFFF_FFFF_FFFF) as u64;
            let ghost old_r = r@;
            if k < 4 {
                r[k] = lo;
            }
            proof {
                let bk = bp(k as nat);
                let hi = (s >> 64u128) as nat;
                assert(bp((k + 1) as nat) == base() * bk);
                assert(s * bk == lo * bk + hi * (base() * bk)) by (nonlinear_arith)
                    requires
                        lo + hi * base() == s,
                ;
                assert((acc@[k as int] + carry) * bk == acc@[k as int] * bk + carry * bk) by (nonlinear_arith);
                assert(hi <= 64) by (nonlinear_arith)
                    requires
                        lo + hi * base() == s,
                        s <= 33 * 0xFFFF_FFFF_FFFF_FFFFu128,
                ;
                if k < 4 {
                    lemma_vp_agree(old_r, r@, k as nat);
                    assert(limb(r@, k as int) == lo);
                } else {
                    lemma_bp_mono(4, k as nat);
                    assert(lo == 0 || lo * bk >= bp(4)) by (nonlinear_arith)
                        requires
                            bk >= bp(4),
                    ;
                }
            }
            proof {
                if k >= 4 {
                    hi_sum = (hi_sum + lo * bp(k as nat)) as nat;
                }
            }
            carry = s >> 64;
            k += 1;
        }
        proof {
            lemma_vp_bound(r@, 4);
            lemma_bp_pos(8);
            lemma_bp_mono(4, 8);
            assert(hi_sum == 0);
            assert(carry * bp(8) < bp(4));
            assert(carry == 0) by (nonlinear_arith)
                requires
                    carry * bp(8) < bp(4),
                    bp(4) <= bp(8),
            ;
            assert(carry * bp(8) == 0) by (nonlinear_arith)
                requires
                    carry == 0,
            ;
        }
        W(r)
    }

    /// Product with a 64-bit value; must stay below `2^256`.
    pub fn mul_u64(&self, x: u64) -> (r: W)
        requires
            self@ * x < w_limit(),
        ensures
            r@ == self@ * x,
    {
        self.mul(&W::from_u64(x))
    }

    /// Quotient and remainder by a nonzero 64-bit divisor.
    pub fn divmod_u64(&self, x: u64) -> (r: (W, u64))
        requires
            x != 0,
        ensures
            r.0@ * x + r.1 == self@,
            r.1 < x,
            r.0@ == self@ / (x as nat),
            r.1 == self@ % (x as nat),
    {
        let mut r = [0u64; 4];
        let mut rem = 0u128;
        let mut i = 4usize;
        proof {
            assert(hv(self.0@, 4) == 0);
            assert(hv(r@, 4) == 0);
        }
        while i > 0
            invariant
                i <= 4,
                rem < x,
                hv(self.0@, i as int) == x * hv(r@, i as int) + rem,
            decreases i,
        {
            i -= 1;
            let y = self.0[i] as u128;
            proof {
                assert(rem < 0x1_0000_0000_0000_0000u128 ==> (rem << 64u128) | y == rem * 0x1_0000_0000_0000_0000u128 + y)
                    by (bit_vector)
                    requires
                        y < 0x1_0000_0000_0000_0000u128,
                ;
            }
            let cur = (rem << 64) | y;
            let xu = x as u128;
            let q = cur / xu;
            proof {
                assert(q < base()) by (nonlinear_arith)
                    requires
                        q == cur / xu,
                        cur == rem * base() + y,
                        y < base(),
                        rem < xu,
                        xu > 0,
                ;
            }
            let ghost old_r = r@;
            r[i] = q as u64;
            let nrem = cur % xu;
            proof {
                lemma_hv_agree(old_r, r@, i + 1);
                assert(hv(r@, i as int) == q + base() * hv(r@, i + 1));
                assert(hv(self.0@, i as int) == y + base() * hv(self.0@, i + 1));
                let ho = hv(r@, i + 1);
                let xx = x as nat;
                assert(cur == xx * q + nrem) by (nonlinear_arith)
                    requires
                        q == cur / xu,
                        nrem == cur % xu,
                        xu == xx,
                        xu > 0,
                ;
                assert(y + base() * (xx * ho + rem) == xx * (q + base() * ho) + nrem) by (nonlinear_arith)
                    requires
                        cur == xx * q + nrem,
                        cur == rem * base() + y,
                ;
            }
            rem = nrem;
        }
        proof {
            lemma_val_hv(self.0@);
            lemma_val_hv(r@);
            vstd::arithmetic::div_mod::lemma_fundamental_div_mod_converse(self@ as int, x as int, val(r@) as int, rem as int);
            assert(val(r@) * x == x * val(r@)) by (nonlinear_arith);
        }
        (W(r), rem as u64)
    }
}

proof fn lemma_accv_zero(s: Seq<u128>, k: nat)
    requires
        forall|m: int| 0 <= m < s.len() ==> s[m] == 0,
    ensures
        accv(s, k) == 0,
    decreases k,
{
    if k > 0 {
        lemma_accv_zero(s, (k - 1) as nat);
        let b = bp((k - 1) as nat);
        assert(0 * b == 0) by (nonlinear_arith);
    }
}

impl W {
    /// Three-way comparison of the values.
    pub fn cmp_w(&self, o: &W) -> (r: Ordering)
        ensures
            (r == Ordering::Less) == (self@ < o@),
            (r == Ordering::Equal) == (self@ == o@),
            (r == Ordering::Greater) == (self@ > o@),
    {
        let mut i = 4usize;
        while i > 0
            invariant
                i <= 4,
                self.0@.len() == 4,
                o.0@.len() == 4,
                forall|k: int| i <= k < 4 ==> self.0@[k] == o.0@[k],
            decreases i,
        {
            i -= 1;
            if self.0[i] < o.0[i] {
                proof {
                    lemma_top_differs(self.0@, o.0@, i);
                }
                return Ordering::Less;
            }
            if self.0[i] > o.0[i] {
                proof {
                    lemma_top_differs(o.0@, self.0@, i);
                }
                return Ordering::Greater;
            }
        }
        proof {
            assert(self.0@ =~= o.0@);
        }
        Ordering::Equal
    }
}

} // verus!
