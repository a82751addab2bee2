//! The word-level transition: one row of 62 cells advanced at once.

use vstd::prelude::*;
use crate::bits::{bit, lemma_bit_and, lemma_bit_lane_mask, LANE_MASK};
use crate::board::{count, survives};

verus! {

/// Number of live lanes among the eight that surround lane `i` of `row`:
/// lanes `i - 1`, `i`, `i + 1` of `above` and of `below`, and lanes `i - 1`,
/// `i + 1` of `row` itself.
pub open spec fn lane_neighbours(above: u64, row: u64, below: u64, i: u64) -> int {
    let l = (i - 1) as u64;
    let r = (i + 1) as u64;
    count(bit(above, l)) + count(bit(above, i)) + count(bit(above, r))
        + count(bit(row, l)) + count(bit(row, r))
        + count(bit(below, l)) + count(bit(below, i)) + count(bit(below, r))
}

/// Low bit of the lane-wise sum of three words.
spec fn sum_low(a: u64, b: u64, c: u64) -> u64 {
    a ^ b ^ c
}

/// High bit of the lane-wise sum of three words.
spec fn sum_high(a: u64, b: u64, c: u64) -> u64 {
    (a & b) | (a & c) | (b & c)
}

/// The word that the carry-save network computes from three stacked rows.
///
/// The first sum counts, lane by lane, the cells of the three rows; its two
/// bit planes are then summed over the lanes to the left and to the right,
/// with the cells above and below the lane itself as the middle term. A lane
/// with neighbour count `n` ends with `ax + 2 * (ay + bx) + 4 * by == n`.
spec fn network(above: u64, row: u64, below: u64) -> u64 {
    let ix = sum_low(above, row, below);
    let iy = sum_high(above, row, below);
    let ax = sum_low(ix << 1, above ^ below, ix >> 1);
    let ay = sum_high(ix << 1, above ^ below, ix >> 1);
    let bx = sum_low(iy << 1, above & below, iy >> 1);
    let by = sum_high(iy << 1, above & below, iy >> 1);
    (row | ax) & (ay ^ bx) & !by & LANE_MASK
}

/// Every lane of the network's word follows Conway's rule.
proof fn lemma_network_lane(above: u64, row: u64, below: u64, i: u64)
    requires
        1 <= i <= 62,
    ensures
        bit(network(above, row, below), i) == survives(
            bit(row, i),
            lane_neighbours(above, row, below, i),
        ),
{
    let l = (i - 1) as u64;
    let r = (i + 1) as u64;
    let n = network(above, row, below);
    let a0 = (above >> l) & 1;
    let a1 = (above >> i) & 1;
    let a2 = (above >> r) & 1;
    let r0 = (row >> l) & 1;
    let r1 = (row >> i) & 1;
    let r2 = (row >> r) & 1;
    let b0 = (below >> l) & 1;
    let b1 = (below >> i) & 1;
    let b2 = (below >> r) & 1;
    assert({
        &&& a0 <= 1 && a1 <= 1 && a2 <= 1 && r0 <= 1 && r1 <= 1 && r2 <= 1 && b0 <= 1 && b1 <= 1 && b2 <= 1
        &&& ((n >> i) & 1 == 1) <==> (a0 + a1 + a2 + r0 + r2 + b0 + b1 + b2 == 3 || (r1 == 1 && a0 + a1 + a2 + r0 + r2 + b0 + b1 + b2 == 2))
    }) by (bit_vector)
        requires
            1 <= i <= 62,
            l == i - 1,
            r == i + 1,
            n == network(above, row, below),
            a0 == (above >> l) & 1,
            a1 == (above >> i) & 1,
            a2 == (above >> r) & 1,
            r0 == (row >> l) & 1,
            r1 == (row >> i) & 1,
            r2 == (row >> r) & 1,
            b0 == (below >> l) & 1,
            b1 == (below >> i) & 1,
            b2 == (below >> r) & 1,
    ;
}

/// Adds three words lane by lane, as a full adder does: the low bit and the
/// high bit of each lane's sum.
fn bit_sum(a: u64, b: u64, c: u64) -> (sum: (u64, u64))
    ensures
        sum.0 == sum_low(a, b, c),
        sum.1 == sum_high(a, b, c),
{
    (a ^ b ^ c, (a & b) | (a & c) | (b & c))
}

/// Advances one row by a generation, all 62 lanes at once.
///
/// `row` holds the cells in bits 1 to 62 and, in bits 0 and 63, the cells
/// that border it on the left and on the right; `above` and `below` hold the
/// two adjacent rows in the same layout. Each lane of the result follows
/// Conway's rule on its eight neighbours, and the two halo bits of the result
/// are clear.
pub fn next_row(above: u64, row: u64, below: u64) -> (next: u64)
    ensures
        forall|i: u64|
            i < 64 ==> #[trigger] bit(next, i) == (1 <= i <= 62 && survives(
                bit(row, i),
                lane_neighbours(above, row, below, i),
            )),
{
    let (ix, iy) = bit_sum(above, row, below);
    let (ax, ay) = bit_sum(ix << 1, above ^ below, ix >> 1);
    let (bx, by) = bit_sum(iy << 1, above & below, iy >> 1);
    let next = (row | ax) & (ay ^ bx) & !by & LANE_MASK;
    proof {
        assert(next == network(above, row, below));
        assert forall|i: u64| i < 64 implies #[trigger] bit(next, i) == (1 <= i <= 62 && survives(
            bit(row, i),
            lane_neighbours(above, row, below, i),
        )) by {
            if 1 <= i <= 62 {
                lemma_network_lane(above, row, below, i);
            } else {
                lemma_bit_and((row | ax) & (ay ^ bx) & !by, LANE_MASK, i);
                lemma_bit_lane_mask(i);
            }
        }
    }
    next
}

} // verus!
