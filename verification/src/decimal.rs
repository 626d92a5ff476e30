//! Decimal text of the exact integers.
use vstd::prelude::*;
use crate::limbs::{base, hv, val, lemma_hv_agree, lemma_val_hv};
use crate::bigint::Big;
use crate::wide::W;

verus! {

/// The decimal digits of `x` as ASCII bytes, most significant first, with no
/// leading zero (`"0"` for zero).
pub open spec fn dec_digits(x: nat) -> Seq<u8>
    decreases x,
{
    if x < 10 {
        seq![(48 + x) as u8]
    } else {
        dec_digits(x / 10).push((48 + x % 10) as u8)
    }
}

/// The digits of `x`, or nothing for zero.
pub open spec fn dec_or_empty(x: nat) -> Seq<u8> {
    if x == 0 {
        Seq::empty()
    } else {
        dec_digits(x)
    }
}

/// The text of a signed value: a minus sign before a negative one.
pub open spec fn signed_text(x: int) -> Seq<char> {
    let d = if x < 0 { dec_digits((-x) as nat) } else { dec_digits(x as nat) };
    let body = Seq::new(d.len(), |i: int| d[i] as char);
    if x < 0 {
        seq!['-'] + body
    } else {
        body
    }
}

/// An ASCII byte string as a `String`, through `String::from_utf8`: every
/// byte below 128 is valid UTF-8 and stands for the character of that code.
#[verifier::external_body]
fn ascii_string(bytes: Vec<u8>) -> (s: String)
    requires
        forall|i: int| 0 <= i < bytes@.len() ==> #[trigger] bytes@[i] < 128,
    ensures
        s@ == Seq::new(bytes@.len(), |i: int| bytes@[i] as char),
{
    String::from_utf8(bytes).unwrap()
}

/// Quotient and remainder of a little-endian magnitude by a nonzero limb.
fn mag_divmod(mag: &Vec<u64>, d: u64) -> (r: (Vec<u64>, u64))
    requires
        d > 0,
    ensures
        val(r.0@) == val(mag@) / (d as nat),
        r.1 as nat == val(mag@) % (d as nat),
{
    let len = mag.len();
    let mut out: Vec<u64> = Vec::new();
    let mut k = 0usize;
    while k < len
        invariant
            k <= len,
            out@.len() == k,
            forall|j: int| 0 <= j < k ==> out@[j] == 0,
        decreases len - k,
    {
        out.push(0);
        k += 1;
    }
    let mut rem = 0u128;
    let mut i = len;
    proof {
        assert(hv(mag@, len as int) == 0);
        assert(hv(out@, len as int) == 0);
    }
    while i > 0
        invariant
            len == mag@.len(),
            out@.len() == len,
            i <= len,
            rem < d,
            hv(mag@, i as int) == d * hv(out@, i as int) + rem,
        decreases i,
    {
        i -= 1;
        let x = mag[i] as u128;
        let du = d as u128;
        let cur = rem * 0x1_0000_0000_0000_0000u128 + x;
        let q = cur / du;
        proof {
            assert(q < base()) by (nonlinear_arith)
                requires
                    q == cur / du,
                    cur == rem * base() + x,
                    x < base(),
                    rem < du,
                    du > 0,
            ;
        }
        let ghost old_out = out@;
        out.set(i, q as u64);
        let nrem = cur % du;
        proof {
            lemma_hv_agree(old_out, out@, i + 1);
            assert(hv(out@, i as int) == q + base() * hv(out@, i + 1));
            assert(hv(mag@, i as int) == x + base() * hv(mag@, i + 1));
            let ho = hv(out@, i + 1);
            let dd = d as nat;
            assert(cur == dd * q + nrem) by (nonlinear_arith)
                requires
                    q == cur / du,
                    nrem == cur % du,
                    du == dd,
                    du > 0,
            ;
            assert(x + base() * (dd * ho + rem) == dd * (q + base() * ho) + nrem) by (nonlinear_arith)
                requires
                    cur == dd * q + nrem,
                    cur == rem * base() + x,
            ;
        }
        rem = nrem;
    }
    proof {
        lemma_val_hv(mag@);
        lemma_val_hv(out@);
        let qv = val(out@) as int;
        assert(qv * (d as int) == (d as int) * qv) by (nonlinear_arith);
        assert(val(mag@) as int == qv * (d as int) + rem as int);
        vstd::arithmetic::div_mod::lemma_fundamental_div_mod_converse(val(mag@) as int, d as int, qv, rem as int);
    }
    (out, rem as u64)
}

proof fn lemma_dec_step(c: nat)
    requires
        c > 0,
    ensures
        dec_or_empty(c) == dec_or_empty(c / 10).push((48 + c % 10) as u8),
{
    if c < 10 {
        assert(c / 10 == 0);
        assert(dec_or_empty(c) =~= seq![(48 + c) as u8]);
        assert(Seq::<u8>::empty().push((48 + c % 10) as u8) =~= seq![(48 + c) as u8]);
    }
}

/// `rev` read backwards.
pub open spec fn reversed(rev: Seq<u8>) -> Seq<u8> {
    Seq::new(rev.len(), |i: int| rev[rev.len() - 1 - i])
}

/// The decimal digits of the magnitude `mag` (`"0"` for zero).
fn mag_digits(mag: &Vec<u64>) -> (r: Vec<u8>)
    ensures
        r@ == dec_digits(val(mag@)),
        forall|i: int| 0 <= i < r@.len() ==> 48 <= #[trigger] r@[i] < 58,
{
    let mut cur = crate::seqs::copy_u64s(mag);
    let mut rev: Vec<u8> = Vec::new();
    let ghost x = val(mag@);
    loop
        invariant
            dec_or_empty(x) == dec_or_empty(val(cur@)) + reversed(rev@),
            forall|i: int| 0 <= i < rev@.len() ==> 48 <= #[trigger] rev@[i] < 58,
        ensures
            dec_or_empty(x) == reversed(rev@),
            forall|i: int| 0 <= i < rev@.len() ==> 48 <= #[trigger] rev@[i] < 58,
        decreases val(cur@),
    {
        let (q, r) = mag_divmod(&cur, 10);
        let ghost c = val(cur@);
        let mut nz = false;
        let mut i = 0usize;
        while i < cur.len()
            invariant
                i <= cur@.len(),
                nz == exists|j: int| 0 <= j < i && #[trigger] cur@[j] != 0,
            decreases cur@.len() - i,
        {
            if cur[i] != 0 {
                nz = true;
            }
            i += 1;
        }
        proof {
            lemma_val_zero_iff(cur@);
        }
        if !nz {
            proof {
                assert(val(cur@) == 0);
                assert(dec_or_empty(0) =~= Seq::<u8>::empty());
                assert(dec_or_empty(x) =~= reversed(rev@));
            }
            break;
        }
        let ghost rev0 = rev@;
        rev.push(48 + r as u8);
        proof {
            lemma_dec_step(c);
            assert(reversed(rev@) =~= seq![(48 + c % 10) as u8] + reversed(rev0));
            assert(dec_or_empty(c) == dec_or_empty(c / 10) + seq![(48 + c % 10) as u8]);
            assert(dec_or_empty(x) =~= dec_or_empty(val(q@)) + reversed(rev@));
        }
        cur = q;
    }
    let mut out: Vec<u8> = Vec::new();
    if rev.len() == 0 {
        out.push(48);
        proof {
            if x != 0 {
                lemma_dec_nonempty(x);
            }
            assert(x == 0);
            assert(out@ =~= dec_digits(0));
        }
        return out;
    }
    let mut i = rev.len();
    while i > 0
        invariant
            i <= rev@.len(),
            out@ == reversed(rev@).subrange(0, (rev@.len() - i) as int),
            forall|j: int| 0 <= j < rev@.len() ==> 48 <= #[trigger] rev@[j] < 58,
        decreases i,
    {
        i -= 1;
        out.push(rev[i]);
        proof {
            assert(out@ =~= reversed(rev@).subrange(0, (rev@.len() - i) as int));
        }
    }
    proof {
        assert(out@ =~= reversed(rev@));
        assert(x != 0) by {
            if x == 0 {
                assert(reversed(rev@).len() == 0);
            }
        }
    }
    out
}

proof fn lemma_dec_nonempty(x: nat)
    ensures
        dec_digits(x).len() >= 1,
    decreases x,
{
    if x >= 10 {
        lemma_dec_nonempty(x / 10);
    }
}

proof fn lemma_val_zero_iff(s: Seq<u64>)
    ensures
        (val(s) == 0) == (forall|j: int| 0 <= j < s.len() ==> s[j] == 0),
{
    lemma_vp_zero_iff(s, s.len());
}

proof fn lemma_vp_zero_iff(s: Seq<u64>, k: nat)
    requires
        k <= s.len(),
    ensures
        (crate::limbs::vp(s, k) == 0) == (forall|j: int| 0 <= j < k ==> s[j] == 0),
    decreases k,
{
    if k > 0 {
        lemma_vp_zero_iff(s, (k - 1) as nat);
        crate::limbs::lemma_bp_pos((k - 1) as nat);
        let b = crate::limbs::bp((k - 1) as nat);
        let l = crate::limbs::limb(s, k - 1);
        assert(l == s[k - 1] as nat);
        assert((l * b == 0) == (l == 0)) by (nonlinear_arith)
            requires
                b >= 1,
        ;
        if !(forall|j: int| 0 <= j < k ==> s[j] == 0) {
            if forall|j: int| 0 <= j < k - 1 ==> s[j] == 0 {
                assert(s[k - 1] != 0);
            }
        }
    }
}

impl Big {
    /// Decimal text, with a minus sign for a negative value.
    pub fn to_string(&self) -> (s: String)
        requires
            self.wf(),
        ensures
            s@ == signed_text(self@),
    {
        let digits = mag_digits(&self.mag);
        let mut bytes: Vec<u8> = Vec::new();
        if self.neg {
            bytes.push(45);
        }
        let start = bytes.len();
        let mut i = 0usize;
        while i < digits.len()
            invariant
                start <= 1,
                bytes@.len() == start + i,
                i <= digits@.len(),
                start == 1 ==> bytes@[0] == 45,
                forall|j: int| 0 <= j < i ==> #[trigger] bytes@[start + j] == digits@[j],
                forall|j: int| 0 <= j < digits@.len() ==> 48 <= #[trigger] digits@[j] < 58,
                forall|j: int| 0 <= j < bytes@.len() ==> #[trigger] bytes@[j] < 128,
            decreases digits@.len() - i,
        {
            bytes.push(digits[i]);
            i += 1;
        }
        let ghost bv = bytes@;
        let s = ascii_string(bytes);
        proof {
            let v = val(self.mag@);
            if self.neg {
                assert(v > 0) by {
                    if v == 0 {
                        lemma_val_zero_iff(self.mag@);
                        crate::limbs::lemma_val_lower(self.mag@);
                    }
                }
                let d = dec_digits(v);
                assert(-self@ == v);
                assert(digits@ == d);
                assert(signed_text(self@) =~= seq!['-'] + Seq::new(d.len(), |k: int| d[k] as char));
                assert forall|k: int| 0 <= k < s@.len() implies #[trigger] s@[k] == signed_text(self@)[k] by {
                    if k == 0 {
                        assert(bv[0] == 45);
                    } else {
                        assert(bv[1 + (k - 1)] == digits@[k - 1]);
                    }
                }
                assert(s@ =~= signed_text(self@));
            } else {
                let d = dec_digits(v);
                assert(digits@ == d);
                assert forall|k: int| 0 <= k < s@.len() implies #[trigger] s@[k] == signed_text(self@)[k] by {
                    assert(bv[0 + k] == digits@[k]);
                }
                assert(s@ =~= signed_text(self@));
            }
        }
        s
    }
}

impl W {
    /// Decimal text.
    pub fn to_string(&self) -> (s: String)
        ensures
            s@ == signed_text(self@ as int),
    {
        let limbs: Vec<u64> = vec![self.0[0], self.0[1], self.0[2], self.0[3]];
        proof {
            assert(limbs@ =~= self.0@);
        }
        let digits = mag_digits(&limbs);
        let s = ascii_string(digits);
        proof {
            assert(s@ =~= signed_text(self@ as int));
        }
        s
    }
}

} // verus!
