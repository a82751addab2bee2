//! Single bits of a storage word, and the masks that select its lanes.

use vstd::prelude::*;

verus! {

/// Number of cells that one storage word carries.
pub const LANE_WIDTH: usize = 62;

/// The two halo bits of a word: the lowest and the highest.
pub const EDGE_MASK: u64 = 0x8000_0000_0000_0001;

/// The 62 lanes of a word: every bit but the two halo bits.
pub const LANE_MASK: u64 = 0x7FFF_FFFF_FFFF_FFFE;

/// Whether bit `i` of `w` is set, counting from the least significant bit.
pub open spec fn bit(w: u64, i: u64) -> bool {
    (w >> i) & 1 == 1
}

/// A bit of `a & b` is set when it is set in both.
pub proof fn lemma_bit_and(a: u64, b: u64, i: u64)
    requires
        i < 64,
    ensures
        bit(a & b, i) == (bit(a, i) && bit(b, i)),
{
    assert(((a & b) >> i) & 1 == 1 <==> ((a >> i) & 1 == 1 && (b >> i) & 1 == 1)) by (bit_vector)
        requires
            i < 64,
    ;
}

/// The zero word has no bit set.
pub proof fn lemma_bit_zero(i: u64)
    requires
        i < 64,
    ensures
        !bit(0, i),
{
    assert((0u64 >> i) & 1 == 0) by (bit_vector)
        requires
            i < 64,
    ;
}

/// The lane mask has bits 1 to 62 set.
pub proof fn lemma_bit_lane_mask(i: u64)
    requires
        i < 64,
    ensures
        bit(LANE_MASK, i) == (1 <= i <= 62),
{
    assert((0x7FFF_FFFF_FFFF_FFFEu64 >> i) & 1 == 1 <==> (1 <= i && i <= 62)) by (bit_vector)
        requires
            i < 64,
    ;
}

/// The edge mask has bits 0 and 63 set.
pub proof fn lemma_bit_edge_mask(i: u64)
    requires
        i < 64,
    ensures
        bit(EDGE_MASK, i) == (i == 0 || i == 63),
{
    assert((0x8000_0000_0000_0001u64 >> i) & 1 == 1 <==> (i == 0 || i == 63)) by (bit_vector)
        requires
            i < 64,
    ;
}

/// The mask that selects, in the last column of a grid, the two halo bits
/// and every lane after the first `tail` ones.
pub open spec fn tail_mask(tail: u64) -> u64 {
    EDGE_MASK | (!1u64 << tail)
}

/// The tail mask for `tail` cells has bit 0 and every bit above `tail` set;
/// its complement has bits 1 to `tail` set.
pub proof fn lemma_bit_tail_mask(tail: u64, i: u64)
    requires
        1 <= tail <= 62,
        i < 64,
    ensures
        bit(tail_mask(tail), i) == (i == 0 || i > tail),
        bit(!tail_mask(tail), i) == (1 <= i <= tail),
{
    assert({
        &&& (((0x8000_0000_0000_0001u64 | (!1u64 << tail)) >> i) & 1 == 1 <==> (i == 0 || i > tail))
        &&& (((!(0x8000_0000_0000_0001u64 | (!1u64 << tail))) >> i) & 1 == 1 <==> (1 <= i && i <= tail))
    }) by (bit_vector)
        requires
            1 <= tail <= 62,
            i < 64,
    ;
}

/// `old ^ ((src ^ old) & mask)` takes the bits that `mask` selects from
/// `src` and the others from `old`.
pub proof fn lemma_bit_blend(old_word: u64, src: u64, mask: u64, i: u64)
    requires
        i < 64,
    ensures
        bit(old_word ^ ((src ^ old_word) & mask), i) == (if bit(mask, i) {
            bit(src, i)
        } else {
            bit(old_word, i)
        }),
{
    assert(((old_word ^ ((src ^ old_word) & mask)) >> i) & 1 == (if (mask >> i) & 1 == 1 {
        (src >> i) & 1
    } else {
        (old_word >> i) & 1
    })) by (bit_vector)
        requires
            i < 64,
    ;
}

/// A bit of `a | b` is set when it is set in either.
pub proof fn lemma_bit_or(a: u64, b: u64, i: u64)
    requires
        i < 64,
    ensures
        bit(a | b, i) == (bit(a, i) || bit(b, i)),
{
    assert(((a | b) >> i) & 1 == 1 <==> ((a >> i) & 1 == 1 || (b >> i) & 1 == 1)) by (bit_vector)
        requires
            i < 64,
    ;
}

/// Shifting left by the lane width moves bit 0 to bit 62 and bit 1 to bit 63.
pub proof fn lemma_bit_shl_lanes(w: u64, i: u64)
    requires
        i < 64,
    ensures
        bit(w << 62, i) == (i >= 62 && bit(w, (i - 62) as u64)),
{
    let j = (i - 62) as u64;
    assert(((w << 62) >> i) & 1 == 1 <==> (i >= 62 && (w >> j) & 1 == 1)) by (bit_vector)
        requires
            i < 64,
            i >= 62 ==> j == i - 62,
    ;
}

/// Shifting right by the lane width moves bit 62 to bit 0 and bit 63 to bit 1.
pub proof fn lemma_bit_shr_lanes(w: u64, i: u64)
    requires
        i < 64,
    ensures
        bit(w >> 62, i) == (i <= 1 && bit(w, (i + 62) as u64)),
{
    let j = (i + 62) as u64;
    assert(((w >> 62) >> i) & 1 == 1 <==> (i <= 1 && (w >> j) & 1 == 1)) by (bit_vector)
        requires
            i < 64,
            j == i + 62,
    ;
}

/// Setting or clearing one bit leaves every other bit as it was.
pub proof fn lemma_bit_assign(w: u64, at: u64, i: u64)
    requires
        at < 64,
        i < 64,
    ensures
        bit(w | (1u64 << at), i) == (i == at || bit(w, i)),
        bit(w & !(1u64 << at), i) == (i != at && bit(w, i)),
{
    assert({
        &&& (((w | (1u64 << at)) >> i) & 1 == 1 <==> (i == at || (w >> i) & 1 == 1))
        &&& (((w & !(1u64 << at)) >> i) & 1 == 1 <==> (i != at && (w >> i) & 1 == 1))
    }) by (bit_vector)
        requires
            at < 64,
            i < 64,
    ;
}

/// The mask that selects the lowest `k` bits of a word.
pub open spec fn low_mask(k: u64) -> u64 {
    if k >= 64 {
        0xFFFF_FFFF_FFFF_FFFF
    } else {
        !(0xFFFF_FFFF_FFFF_FFFFu64 << k)
    }
}

/// Two words that agree on their lowest `k` bits and on bit `k` agree on
/// their lowest `k + 1` bits.
proof fn lemma_low_bits_step(a: u64, b: u64, k: u64)
    requires
        k < 64,
        a & low_mask(k) == b & low_mask(k),
        bit(a, k) == bit(b, k),
    ensures
        a & low_mask((k + 1) as u64) == b & low_mask((k + 1) as u64),
{
    let lo = low_mask(k);
    let hi = low_mask((k + 1) as u64);
    assert(hi == lo | (1u64 << k)) by (bit_vector)
        requires
            k < 64,
            lo == !(0xFFFF_FFFF_FFFF_FFFFu64 << k),
            hi == (if k == 63 {
                0xFFFF_FFFF_FFFF_FFFFu64
            } else {
                !(0xFFFF_FFFF_FFFF_FFFFu64 << ((k + 1) as u64))
            }),
    ;
    assert(a & hi == b & hi) by (bit_vector)
        requires
            k < 64,
            hi == lo | (1u64 << k),
            a & lo == b & lo,
            ((a >> k) & 1 == 1) == ((b >> k) & 1 == 1),
    ;
}

/// Two words whose first `k` bits agree one by one agree under the mask of
/// the lowest `k` bits.
proof fn lemma_low_bits_equal(a: u64, b: u64, k: u64)
    requires
        k <= 64,
        forall|i: u64| i < k ==> bit(a, i) == bit(b, i),
    ensures
        a & low_mask(k) == b & low_mask(k),
    decreases k,
{
    if k == 0 {
        assert(a & low_mask(0) == b & low_mask(0)) by (bit_vector);
    } else {
        let j = (k - 1) as u64;
        lemma_low_bits_equal(a, b, j);
        lemma_low_bits_step(a, b, j);
    }
}

/// Two words whose bits agree at every position are the same word.
pub proof fn lemma_bits_determine_word(a: u64, b: u64)
    requires
        forall|i: u64| i < 64 ==> bit(a, i) == bit(b, i),
    ensures
        a == b,
{
    lemma_low_bits_equal(a, b, 64);
    assert(a & 0xFFFF_FFFF_FFFF_FFFF == a) by (bit_vector);
    assert(b & 0xFFFF_FFFF_FFFF_FFFF == b) by (bit_vector);
}

} // verus!
