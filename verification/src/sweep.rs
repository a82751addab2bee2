//! The passes that one generation is made of: setting the halo bits of a
//! column from its neighbours, and advancing a column whose halo is set.

use vstd::prelude::*;
use crate::bits::{
    bit, lemma_bit_and, lemma_bit_blend, lemma_bit_edge_mask, lemma_bit_or, lemma_bit_shl_lanes,
    lemma_bit_shr_lanes, lemma_bit_tail_mask, lemma_bit_zero, tail_mask, EDGE_MASK, LANE_WIDTH,
};
use crate::board::{cell, has_shape, life_step, live_neighbours, Board};
use crate::kernel::{lane_neighbours, next_row};
use crate::layout::{
    is_lane_mask, lane_x, rows_haloed, rows_pending, rows_settled, same_outside, shows_packed,
    shows_window, word_at,
};

verus! {

/// Clears, in each word of the only column of a grid, the two halo bits and
/// the lanes beyond the grid's width.
pub(crate) fn mask_single(
    cells: &mut Vec<u64>,
    h: usize,
    mask: u64,
    Ghost(b): Ghost<Board>,
    Ghost(width): Ghost<int>,
)
    requires
        h <= old(cells).len(),
        1 <= width <= 62,
        has_shape(b, width, h as int),
        mask == tail_mask(width as u64),
        rows_pending(old(cells)@, 0, h as int, b, 0),
    ensures
        same_outside(old(cells)@, final(cells)@, 0, h as int),
        rows_haloed(final(cells)@, 0, h as int, b, 0),
{
    let mut y: usize = 0;
    while y < h
        invariant
            y <= h <= cells.len(),
            cells.len() == old(cells).len(),
            1 <= width <= 62,
            has_shape(b, width, h as int),
            mask == tail_mask(width as u64),
            rows_pending(old(cells)@, 0, h as int, b, 0),
            forall|j: int| y <= j < cells.len() ==> #[trigger] cells@[j] == old(cells)@[j],
            forall|k: int| 0 <= k < y ==> shows_window(b, 0, k, #[trigger] word_at(cells@, 0, k)),
        decreases h - y,
    {
        let lone = cells[y];
        let masked = lone & !mask;
        proof {
            assert(lone == word_at(old(cells)@, 0, y as int));
            assert forall|i: u64| i < 64 implies #[trigger] bit(masked, i) == cell(
                b,
                lane_x(0, i),
                y as int,
            ) by {
                lemma_bit_and(lone, !mask, i);
                lemma_bit_tail_mask(width as u64, i);
            }
        }
        let ghost before = cells@;
        cells.set(y, masked);
        proof {
            assert forall|k: int| 0 <= k < y + 1 implies shows_window(
                b,
                0,
                k,
                #[trigger] word_at(cells@, 0, k),
            ) by {
                if k < y {
                    assert(word_at(cells@, 0, k) == word_at(before, 0, k));
                } else {
                    assert(word_at(cells@, 0, k) == masked);
                }
            }
        }
        y += 1;
    }
}

/// Sets the halo of the leftmost column of a grid that has a second column:
/// bit 63 of each word takes the first cell of the word to its right, and
/// bit 0 is cleared, as nothing lies to the left.
pub(crate) fn exchange_first(
    cells: &mut Vec<u64>,
    h: usize,
    Ghost(b): Ghost<Board>,
    Ghost(width): Ghost<int>,
)
    requires
        h + h <= old(cells).len(),
        62 < width,
        has_shape(b, width, h as int),
        rows_pending(old(cells)@, 0, h as int, b, 0),
        rows_pending(old(cells)@, h as int, h as int, b, 1),
    ensures
        same_outside(old(cells)@, final(cells)@, 0, h as int),
        rows_haloed(final(cells)@, 0, h as int, b, 0),
{
    let mut y: usize = 0;
    while y < h
        invariant
            y <= h,
            h + h <= cells.len(),
            cells.len() == old(cells).len(),
            62 < width,
            has_shape(b, width, h as int),
            rows_pending(old(cells)@, 0, h as int, b, 0),
            rows_pending(old(cells)@, h as int, h as int, b, 1),
            forall|j: int| y <= j < cells.len() ==> #[trigger] cells@[j] == old(cells)@[j],
            forall|k: int| 0 <= k < y ==> shows_window(b, 0, k, #[trigger] word_at(cells@, 0, k)),
        decreases h - y,
    {
        let first = cells[y];
        let second = cells[h + y];
        let haloed = first ^ (((second << LANE_WIDTH) ^ first) & EDGE_MASK);
        proof {
            assert(first == word_at(old(cells)@, 0, y as int));
            assert(second == word_at(old(cells)@, h as int, y as int));
            assert forall|i: u64| i < 64 implies #[trigger] bit(haloed, i) == cell(
                b,
                lane_x(0, i),
                y as int,
            ) by {
                lemma_bit_blend(first, second << 62, EDGE_MASK, i);
                lemma_bit_edge_mask(i);
                lemma_bit_shl_lanes(second, i);
                if i == 63 {
                    assert(lane_x(0, 63) == lane_x(1, 1));
                    assert(bit(second, 1) == cell(b, lane_x(1, 1), y as int));
                }
            }
        }
        let ghost before = cells@;
        cells.set(y, haloed);
        proof {
            assert forall|k: int| 0 <= k < y + 1 implies shows_window(
                b,
                0,
                k,
                #[trigger] word_at(cells@, 0, k),
            ) by {
                if k < y {
                    assert(word_at(cells@, 0, k) == word_at(before, 0, k));
                } else {
                    assert(word_at(cells@, 0, k) == haloed);
                }
            }
        }
        y += 1;
    }
}

/// Sets the halo of column `c`, which has a column on either side: bit 0 of
/// each word takes the last cell of the word to its left, bit 63 the first
/// cell of the word to its right. `base` is where the column starts.
pub(crate) fn exchange_inner(
    cells: &mut Vec<u64>,
    base: usize,
    h: usize,
    Ghost(b): Ghost<Board>,
    Ghost(width): Ghost<int>,
    Ghost(c): Ghost<int>,
)
    requires
        h <= base,
        base + h + h <= old(cells).len(),
        1 <= c,
        62 * (c + 1) < width,
        has_shape(b, width, h as int),
        rows_pending(old(cells)@, base - h, h as int, b, c - 1),
        rows_pending(old(cells)@, base as int, h as int, b, c),
        rows_pending(old(cells)@, base + h, h as int, b, c + 1),
    ensures
        same_outside(old(cells)@, final(cells)@, base as int, h as int),
        rows_haloed(final(cells)@, base as int, h as int, b, c),
{
    let mut y: usize = 0;
    while y < h
        invariant
            y <= h <= base,
            base + h + h <= cells.len(),
            cells.len() == old(cells).len(),
            1 <= c,
            62 * (c + 1) < width,
            has_shape(b, width, h as int),
            rows_pending(old(cells)@, base - h, h as int, b, c - 1),
            rows_pending(old(cells)@, base as int, h as int, b, c),
            rows_pending(old(cells)@, base + h, h as int, b, c + 1),
            forall|j: int|
                0 <= j < cells.len() && !(base <= j < base + y) ==> #[trigger] cells@[j] == old(
                    cells,
                )@[j],
            forall|k: int|
                0 <= k < y ==> shows_window(b, c, k, #[trigger] word_at(cells@, base as int, k)),
        decreases h - y,
    {
        let left = cells[base - h + y];
        let mid = cells[base + y];
        let right = cells[base + h + y];
        let haloed = mid ^ ((((left >> LANE_WIDTH) | (right << LANE_WIDTH)) ^ mid) & EDGE_MASK);
        proof {
            assert(left == word_at(old(cells)@, base - h, y as int));
            assert(mid == word_at(old(cells)@, base as int, y as int));
            assert(right == word_at(old(cells)@, base + h, y as int));
            assert forall|i: u64| i < 64 implies #[trigger] bit(haloed, i) == cell(
                b,
                lane_x(c, i),
                y as int,
            ) by {
                lemma_bit_blend(mid, (left >> 62) | (right << 62), EDGE_MASK, i);
                lemma_bit_edge_mask(i);
                lemma_bit_or(left >> 62, right << 62, i);
                lemma_bit_shr_lanes(left, i);
                lemma_bit_shl_lanes(right, i);
                if i == 0 {
                    assert(lane_x(c, 0) == lane_x(c - 1, 62));
                    assert(bit(left, 62) == cell(b, lane_x(c - 1, 62), y as int));
                } else if i == 63 {
                    assert(lane_x(c, 63) == lane_x(c + 1, 1));
                    assert(bit(right, 1) == cell(b, lane_x(c + 1, 1), y as int));
                }
            }
        }
        let ghost before = cells@;
        cells.set(base + y, haloed);
        proof {
            assert forall|k: int| 0 <= k < y + 1 implies shows_window(
                b,
                c,
                k,
                #[trigger] word_at(cells@, base as int, k),
            ) by {
                if k < y {
                    assert(word_at(cells@, base as int, k) == word_at(before, base as int, k));
                } else {
                    assert(word_at(cells@, base as int, k) == haloed);
                }
            }
        }
        y += 1;
    }
}

/// Sets the halo of the rightmost column `c` of a grid that has a column to
/// its left: bit 0 of each word takes the last cell of the word to its left,
/// and bit 63 and the lanes beyond the grid's width are cleared.
pub(crate) fn exchange_last(
    cells: &mut Vec<u64>,
    base: usize,
    h: usize,
    mask: u64,
    Ghost(b): Ghost<Board>,
    Ghost(width): Ghost<int>,
    Ghost(c): Ghost<int>,
)
    requires
        h <= base,
        base + h <= old(cells).len(),
        1 <= c,
        62 * c < width <= 62 * (c + 1),
        has_shape(b, width, h as int),
        mask == tail_mask((width - 62 * c) as u64),
        rows_pending(old(cells)@, base - h, h as int, b, c - 1),
        rows_pending(old(cells)@, base as int, h as int, b, c),
    ensures
        same_outside(old(cells)@, final(cells)@, base as int, h as int),
        rows_haloed(final(cells)@, base as int, h as int, b, c),
{
    let mut y: usize = 0;
    while y < h
        invariant
            y <= h <= base,
            base + h <= cells.len(),
            cells.len() == old(cells).len(),
            1 <= c,
            62 * c < width <= 62 * (c + 1),
            has_shape(b, width, h as int),
            mask == tail_mask((width - 62 * c) as u64),
            rows_pending(old(cells)@, base - h, h as int, b, c - 1),
            rows_pending(old(cells)@, base as int, h as int, b, c),
            forall|j: int|
                0 <= j < cells.len() && !(base <= j < base + y) ==> #[trigger] cells@[j] == old(
                    cells,
                )@[j],
            forall|k: int|
                0 <= k < y ==> shows_window(b, c, k, #[trigger] word_at(cells@, base as int, k)),
        decreases h - y,
    {
        let left = cells[base - h + y];
        let last = cells[base + y];
        let haloed = last ^ (((left >> LANE_WIDTH) ^ last) & mask);
        proof {
            assert(left == word_at(old(cells)@, base - h, y as int));
            assert(last == word_at(old(cells)@, base as int, y as int));
            assert forall|i: u64| i < 64 implies #[trigger] bit(haloed, i) == cell(
                b,
                lane_x(c, i),
                y as int,
            ) by {
                lemma_bit_blend(last, left >> 62, mask, i);
                lemma_bit_tail_mask((width - 62 * c) as u64, i);
                lemma_bit_shr_lanes(left, i);
                if i == 0 {
                    assert(lane_x(c, 0) == lane_x(c - 1, 62));
                    assert(bit(left, 62) == cell(b, lane_x(c - 1, 62), y as int));
                }
            }
        }
        let ghost before = cells@;
        cells.set(base + y, haloed);
        proof {
            assert forall|k: int| 0 <= k < y + 1 implies shows_window(
                b,
                c,
                k,
                #[trigger] word_at(cells@, base as int, k),
            ) by {
                if k < y {
                    assert(word_at(cells@, base as int, k) == word_at(before, base as int, k));
                } else {
                    assert(word_at(cells@, base as int, k) == haloed);
                }
            }
        }
        y += 1;
    }
}

/// Advances column `c`, whose halo is set, by one generation, from the top
/// row down. `keep` selects the lanes of the column that lie inside the grid;
/// every other bit of the column is left clear.
pub(crate) fn tick_column(
    cells: &mut Vec<u64>,
    base: usize,
    h: usize,
    keep: u64,
    Ghost(b): Ghost<Board>,
    Ghost(width): Ghost<int>,
    Ghost(c): Ghost<int>,
)
    requires
        base + h <= old(cells).len(),
        0 <= c,
        has_shape(b, width, h as int),
        is_lane_mask(keep, c, width),
        rows_haloed(old(cells)@, base as int, h as int, b, c),
    ensures
        same_outside(old(cells)@, final(cells)@, base as int, h as int),
        rows_settled(final(cells)@, base as int, h as int, life_step(b), c),
{
    let ghost next_board = life_step(b);
    let mut above: u64 = 0;
    let mut y: usize = 0;
    proof {
        assert forall|i: u64| i < 64 implies #[trigger] bit(above, i) == cell(
            b,
            lane_x(c, i),
            -1,
        ) by {
            lemma_bit_zero(i);
        }
    }
    while y < h
        invariant
            y <= h,
            base + h <= cells.len(),
            cells.len() == old(cells).len(),
            0 <= c,
            has_shape(b, width, h as int),
            next_board == life_step(b),
            is_lane_mask(keep, c, width),
            rows_haloed(old(cells)@, base as int, h as int, b, c),
            shows_window(b, c, y - 1, above),
            forall|j: int|
                0 <= j < cells.len() && !(base <= j < base + y) ==> #[trigger] cells@[j] == old(
                    cells,
                )@[j],
            forall|k: int|
                0 <= k < y ==> shows_packed(
                    next_board,
                    c,
                    k,
                    #[trigger] word_at(cells@, base as int, k),
                ),
        decreases h - y,
    {
        let row = cells[base + y];
        let below = if y + 1 < h {
            cells[base + y + 1]
        } else {
            0
        };
        let grown = next_row(above, row, below);
        let next = grown & keep;
        proof {
            assert(row == word_at(old(cells)@, base as int, y as int));
            assert(shows_window(b, c, y as int, row));
            assert(shows_window(b, c, y + 1, below)) by {
                if y + 1 < h {
                    assert(below == word_at(old(cells)@, base as int, y + 1));
                } else {
                    assert forall|i: u64| i < 64 implies #[trigger] bit(below, i) == cell(
                        b,
                        lane_x(c, i),
                        y + 1,
                    ) by {
                        lemma_bit_zero(i);
                    }
                }
            }
            assert forall|i: u64| i < 64 implies #[trigger] bit(next, i) == (1 <= i <= 62 && cell(
                next_board,
                lane_x(c, i),
                y as int,
            )) by {
                lemma_bit_and(grown, keep, i);
                if 1 <= i <= 62 && lane_x(c, i) < width {
                    lemma_lane_count(b, c, y as int, above, row, below, i);
                }
            }
        }
        let ghost before = cells@;
        cells.set(base + y, next);
        proof {
            assert forall|k: int| 0 <= k < y + 1 implies shows_packed(
                next_board,
                c,
                k,
                #[trigger] word_at(cells@, base as int, k),
            ) by {
                if k < y {
                    assert(word_at(cells@, base as int, k) == word_at(before, base as int, k));
                } else {
                    assert(word_at(cells@, base as int, k) == next);
                }
            }
        }
        above = row;
        y += 1;
    }
}

/// Three stacked words that show rows `y - 1`, `y`, `y + 1` of a board with
/// their halos give each lane the neighbours that its cell has on the board.
proof fn lemma_lane_count(b: Board, c: int, y: int, above: u64, row: u64, below: u64, i: u64)
    requires
        1 <= i <= 62,
        shows_window(b, c, y - 1, above),
        shows_window(b, c, y, row),
        shows_window(b, c, y + 1, below),
    ensures
        lane_neighbours(above, row, below, i) == live_neighbours(b, lane_x(c, i), y),
        bit(row, i) == cell(b, lane_x(c, i), y),
{
    let l = (i - 1) as u64;
    let r = (i + 1) as u64;
    assert(lane_x(c, l) == lane_x(c, i) - 1);
    assert(lane_x(c, r) == lane_x(c, i) + 1);
    assert(bit(above, l) == cell(b, lane_x(c, l), y - 1));
    assert(bit(above, i) == cell(b, lane_x(c, i), y - 1));
    assert(bit(above, r) == cell(b, lane_x(c, r), y - 1));
    assert(bit(row, l) == cell(b, lane_x(c, l), y));
    assert(bit(row, r) == cell(b, lane_x(c, r), y));
    assert(bit(below, l) == cell(b, lane_x(c, l), y + 1));
    assert(bit(below, i) == cell(b, lane_x(c, i), y + 1));
    assert(bit(below, r) == cell(b, lane_x(c, r), y + 1));
}

} // verus!
