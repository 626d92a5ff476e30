//! Bit-level facts about `u64` masks, used by every bitmask routine.
use vstd::prelude::*;
use vstd::std_specs::bits::u64_trailing_zeros;

verus! {

/// Bit `j` of `x` is set.
pub open spec fn bit(x: u64, j: int) -> bool {
    (x >> (j as u64)) & 1u64 == 1u64
}

/// `mask` with bit `j` cleared.
pub open spec fn drop_bit(mask: u64, j: int) -> u64 {
    mask & !(1u64 << (j as u64))
}

/// Every set bit of `x` lies below `n`.
pub open spec fn within(x: u64, n: int) -> bool {
    forall|j: int| 0 <= j < 64 && #[trigger] bit(x, j) ==> j < n
}

pub proof fn lemma_bit_or(a: u64, b: u64, j: u64)
    requires
        j < 64,
    ensures
        bit(a | b, j as int) == (bit(a, j as int) || bit(b, j as int)),
{
    assert(((a | b) >> j) & 1u64 == 1u64 <==> ((a >> j) & 1u64 == 1u64 || (b >> j) & 1u64 == 1u64))
        by (bit_vector)
        requires
            j < 64,
    ;
}

pub proof fn lemma_bit_and(a: u64, b: u64, j: u64)
    requires
        j < 64,
    ensures
        bit(a & b, j as int) == (bit(a, j as int) && bit(b, j as int)),
{
    assert(((a & b) >> j) & 1u64 == 1u64 <==> ((a >> j) & 1u64 == 1u64 && (b >> j) & 1u64 == 1u64))
        by (bit_vector)
        requires
            j < 64,
    ;
}

pub proof fn lemma_bit_not(a: u64, j: u64)
    requires
        j < 64,
    ensures
        bit(!a, j as int) == !bit(a, j as int),
{
    assert(((!a) >> j) & 1u64 == 1u64 <==> !((a >> j) & 1u64 == 1u64)) by (bit_vector)
        requires
            j < 64,
    ;
}

pub proof fn lemma_bit_single(k: u64, j: u64)
    requires
        k < 64,
        j < 64,
    ensures
        bit(1u64 << k, j as int) == (j == k),
{
    assert((((1u64 << k) >> j) & 1u64 == 1u64) <==> (j == k)) by (bit_vector)
        requires
            k < 64,
            j < 64,
    ;
}

pub proof fn lemma_bit_zero(j: u64)
    requires
        j < 64,
    ensures
        !bit(0u64, j as int),
{
    assert((0u64 >> j) & 1u64 == 0u64) by (bit_vector);
}

pub proof fn lemma_bit_max(j: u64)
    requires
        j < 64,
    ensures
        bit(0xffff_ffff_ffff_ffffu64, j as int),
{
    assert((0xffff_ffff_ffff_ffffu64 >> j) & 1u64 == 1u64) by (bit_vector)
        requires
            j < 64,
    ;
}

pub proof fn lemma_low_mask(n: u64, j: u64)
    requires
        n < 64,
        j < 64,
    ensures
        (1u64 << n) >= 1,
        bit(((1u64 << n) - 1) as u64, j as int) == (j < n),
{
    assert((1u64 << n) >= 1) by (bit_vector)
        requires
            n < 64,
    ;
    assert(((((1u64 << n) - 1) as u64 >> j) & 1u64 == 1u64) <==> (j < n)) by (bit_vector)
        requires
            n < 64,
            j < 64,
    ;
}

/// Two masks are equal exactly when they agree on every bit.
pub proof fn lemma_bits_ext(a: u64, b: u64)
    ensures
        (a == b) <==> (forall|j: int| 0 <= j < 64 ==> bit(a, j) == bit(b, j)),
{
    if forall|j: int| 0 <= j < 64 ==> bit(a, j) == bit(b, j) {
        let c = a ^ b;
        if c != 0 {
            let t = c.trailing_zeros() as u64;
            vstd::std_specs::bits::axiom_u64_trailing_zeros(c);
            assert(t < 64);
            assert((c >> t) & 1u64 == 1u64);
            assert(((a ^ b) >> t) & 1u64 == 1u64 ==> (((a >> t) & 1u64 == 1u64) != ((b >> t) & 1u64
                == 1u64))) by (bit_vector);
            assert(bit(a, t as int) == bit(b, t as int));
            assert(false);
        }
        assert(a ^ b == 0 ==> a == b) by (bit_vector);
    }
}

/// A mask with no bit set is zero.
pub proof fn lemma_no_bits_zero(a: u64)
    ensures
        (a == 0) <==> (forall|j: int| 0 <= j < 64 ==> !bit(a, j)),
{
    lemma_bits_ext(a, 0);
    assert forall|j: int| 0 <= j < 64 implies !bit(0u64, j) by {
        lemma_bit_zero(j as u64);
    }
}

/// Adding new bits to a mask makes it strictly larger.
pub proof fn lemma_or_grows(a: u64, b: u64)
    requires
        a & b == 0,
        b != 0,
    ensures
        (a | b) > a,
{
    assert(a & b == 0 && b != 0 ==> (a | b) > a) by (bit_vector);
}

/// Clearing a set bit makes a mask strictly smaller, and no larger under any further mask.
pub proof fn lemma_clear_bit(x: u64, j: u64)
    requires
        j < 64,
        bit(x, j as int),
    ensures
        (x & !(1u64 << j)) < x,
        forall|y: u64| #[trigger] (x & !(1u64 << j) & y) <= (x & !(1u64 << j)),
{
    assert((x >> j) & 1u64 == 1u64 && j < 64 ==> (x & !(1u64 << j)) < x) by (bit_vector);
    assert forall|y: u64| #[trigger] (x & !(1u64 << j) & y) <= (x & !(1u64 << j)) by {
        let w = x & !(1u64 << j);
        assert(w & y <= w) by (bit_vector);
    }
}

/// The lowest set bit of a nonzero mask, as `trailing_zeros` finds it.
pub proof fn lemma_lowest_bit(avail: u64)
    requires
        avail != 0,
    ensures
        u64_trailing_zeros(avail) < 64,
        bit(avail, u64_trailing_zeros(avail) as int),
        forall|j: int| 0 <= j < u64_trailing_zeros(avail) ==> !#[trigger] bit(avail, j),
        (avail & !(1u64 << (u64_trailing_zeros(avail) as u64))) < avail,
        forall|y: u64| #[trigger] (avail & !(1u64 << (u64_trailing_zeros(avail) as u64)) & y) <= (avail & !(1u64 << (u64_trailing_zeros(avail) as u64))),
        avail & ((avail - 1) as u64) == avail & !(1u64 << (u64_trailing_zeros(avail) as u64)),
{
    vstd::std_specs::bits::axiom_u64_trailing_zeros(avail);
    let x = u64_trailing_zeros(avail) as u64;
    lemma_clear_bit(avail, x);
    assert forall|j: int| 0 <= j < u64_trailing_zeros(avail) implies !#[trigger] bit(avail, j) by {
        assert((avail >> (j as u64)) & 1u64 == 0u64);
    }
    let sh = (64 - x) as u64;
    assert(avail << sh == 0);
    assert(x < 64 && (avail >> x) & 1u64 == 1u64 && sh == 64 - x && avail << sh == 0
        ==> avail & ((avail - 1) as u64) == avail & !(1u64 << x)) by (bit_vector);
}

/// The members of `drop_bit(x, j)` are those of `x` other than `j`.
pub proof fn lemma_drop_bit(x: u64, j: int)
    requires
        0 <= j < 64,
    ensures
        forall|t: int| 0 <= t < 64 ==> #[trigger] bit(drop_bit(x, j), t) == (bit(x, t) && t != j),
{
    assert forall|t: int| 0 <= t < 64 implies #[trigger] bit(drop_bit(x, j), t) == (bit(x, t) && t != j) by {
        lemma_bit_and(x, !(1u64 << (j as u64)), t as u64);
        lemma_bit_not(1u64 << (j as u64), t as u64);
        lemma_bit_single(j as u64, t as u64);
    }
}

/// Setting bit `k` of a 16-bit row adds exactly member `k`; the zero row has no member.
pub proof fn lemma_bit16_set(a: u16, k: u16, t: u16)
    requires
        k < 16,
        t < 16,
    ensures
        crate::signature::bit16(a | (1u16 << k), t as int) == (crate::signature::bit16(a, t as int) || t == k),
        !crate::signature::bit16(0u16, t as int),
{
    assert((((a | (1u16 << k)) >> t) & 1u16 == 1u16) == (((a >> t) & 1u16 == 1u16) || t == k) && (0u16 >> t)
        & 1u16 == 0u16) by (bit_vector)
        requires
            k < 16,
            t < 16,
    ;
}

/// The bits of a 16-bit row seen through its 64-bit widening.
pub proof fn lemma_bit16_wide(x: u16)
    ensures
        forall|j: int| 0 <= j < 64 ==> #[trigger] bit(x as u64, j) == (j < 16 && crate::signature::bit16(x, j)),
{
    assert forall|j: int| 0 <= j < 64 implies #[trigger] bit(x as u64, j) == (j < 16 && crate::signature::bit16(x, j)) by {
        let jj = j as u64;
        assert((((x as u64) >> jj) & 1u64 == 1u64) <==> (jj < 16 && (x >> (jj as u16)) & 1u16 == 1u16)) by (bit_vector)
            requires
                jj < 64,
        ;
    }
}

/// Bit `j` of a 32-bit word.
pub open spec fn bit32(x: u32, j: int) -> bool {
    (x >> (j as u32)) & 1u32 == 1u32
}

/// The bits of a 32-bit word seen through its 64-bit widening.
pub proof fn lemma_bit32_wide(x: u32)
    ensures
        forall|j: int| 0 <= j < 64 ==> #[trigger] bit(x as u64, j) == (j < 32 && bit32(x, j)),
{
    assert forall|j: int| 0 <= j < 64 implies #[trigger] bit(x as u64, j) == (j < 32 && bit32(x, j)) by {
        let jj = j as u64;
        assert((((x as u64) >> jj) & 1u64 == 1u64) <==> (jj < 32 && (x >> (jj as u32)) & 1u32 == 1u32)) by (bit_vector)
            requires
                jj < 64,
        ;
    }
}

/// A mask below `2^16` has no bit at position 16 or above.
pub proof fn lemma_small_mask(x: u64)
    requires
        x <= 0xffff,
    ensures
        forall|j: int| 16 <= j < 64 ==> !#[trigger] bit(x, j),
{
    assert forall|j: int| 16 <= j < 64 implies !#[trigger] bit(x, j) by {
        let jj = j as u64;
        assert(x <= 0xffff && 16 <= jj < 64 ==> (x >> jj) & 1u64 == 0u64) by (bit_vector);
    }
}


/// Setting bit `k` of a 32-bit word adds exactly member `k`; zero has no member.
pub proof fn lemma_bit32_set(a: u32, k: u32, t: u32)
    requires
        k < 32,
        t < 32,
    ensures
        bit32(a | (1u32 << k), t as int) == (bit32(a, t as int) || t == k),
        !bit32(0u32, t as int),
{
    assert((((a | (1u32 << k)) >> t) & 1u32 == 1u32) == (((a >> t) & 1u32 == 1u32) || t == k) && (0u32 >> t) & 1u32 == 0u32)
        by (bit_vector)
        requires
            k < 32,
            t < 32,
    ;
}

} // verus!
