//! How a board is laid out over storage words: which cell a bit of a word
//! stands for, and what a whole column of words says about a board.

use vstd::prelude::*;
use crate::bits::bit;
use crate::board::{cell, Board};

verus! {

/// Number of packed columns that a grid of the given width needs: the width
/// divided by the lane width, rounded up.
pub open spec fn columns(width: int) -> int {
    (width - 1) / 62 + 1
}

/// Number of cells that the last packed column holds.
pub open spec fn tail_width(width: int) -> int {
    (width - 1) % 62 + 1
}

/// Index of the storage word that holds the cell at `(x, y)` in a grid of
/// the given height: the words of one packed column follow each other, row
/// by row.
pub open spec fn slot(x: int, y: int, height: int) -> int {
    (x / 62) * height + y
}

/// The bit of its word that holds a cell of column `x`. Bit 0 is never
/// used for a cell, nor is bit 63.
pub open spec fn offset(x: int) -> u64 {
    (x % 62 + 1) as u64
}

/// The board that a store of words holds for a grid of the given size.
pub open spec fn unpack(words: Seq<u64>, width: int, height: int) -> Board {
    Seq::new(
        height as nat,
        |y: int| Seq::new(width as nat, |x: int| bit(words[slot(x, y, height)], offset(x))),
    )
}

/// The x coordinate that bit `i` of a word in packed column `c` stands for.
/// Bit 0 stands for the last cell of the column to the left, bit 63 for the
/// first cell of the column to the right.
pub open spec fn lane_x(c: int, i: u64) -> int {
    c * 62 + i - 1
}

/// Row `y` of packed column `c`, between generations: the lanes hold the
/// cells of `b`, and every other bit is clear.
pub open spec fn shows_packed(b: Board, c: int, y: int, w: u64) -> bool {
    forall|i: u64| i < 64 ==> #[trigger] bit(w, i) == (1 <= i <= 62 && cell(b, lane_x(c, i), y))
}

/// Row `y` of packed column `c` with its halo: every bit, the two halo bits
/// included, holds the cell of `b` that it stands for.
pub open spec fn shows_window(b: Board, c: int, y: int, w: u64) -> bool {
    forall|i: u64| i < 64 ==> #[trigger] bit(w, i) == cell(b, lane_x(c, i), y)
}

/// Row `y` of packed column `c` before its halo is set: the lanes that lie
/// inside the board hold the cells of `b`; nothing is said of the other bits.
pub open spec fn shows_lanes(b: Board, c: int, y: int, w: u64) -> bool {
    forall|i: u64|
        1 <= i <= 62 && lane_x(c, i) < b[y].len() ==> #[trigger] bit(w, i) == cell(
            b,
            lane_x(c, i),
            y,
        )
}

/// The board `b` with the cells of row `y` that lie in packed column `c`
/// taken from the lanes of `w`.
pub open spec fn with_word(b: Board, c: int, y: int, w: u64) -> Board {
    b.update(
        y,
        Seq::new(
            b[y].len(),
            |x: int|
                if x / 62 == c {
                    bit(w, offset(x))
                } else {
                    b[y][x]
                },
        ),
    )
}

/// What folding a sequence of words with exclusive or, from zero, gives.
pub open spec fn xor_fold(words: Seq<u64>) -> u64
    decreases words.len(),
{
    if words.len() == 0 {
        0
    } else {
        words.last() ^ xor_fold(words.drop_last())
    }
}

/// The word `y` places after `base`.
pub open spec fn word_at(cells: Seq<u64>, base: int, y: int) -> u64 {
    cells[base + y]
}

/// The `h` words from `base` on are the rows of column `c` of `b`, packed.
pub open spec fn rows_settled(cells: Seq<u64>, base: int, h: int, b: Board, c: int) -> bool {
    forall|y: int| 0 <= y < h ==> shows_packed(b, c, y, #[trigger] word_at(cells, base, y))
}

/// The `h` words from `base` on are the rows of column `c` of `b`, each with
/// its halo.
pub open spec fn rows_haloed(cells: Seq<u64>, base: int, h: int, b: Board, c: int) -> bool {
    forall|y: int| 0 <= y < h ==> shows_window(b, c, y, #[trigger] word_at(cells, base, y))
}

/// The `h` words from `base` on hold the rows of column `c` of `b` in their
/// lanes.
pub open spec fn rows_pending(cells: Seq<u64>, base: int, h: int, b: Board, c: int) -> bool {
    forall|y: int| 0 <= y < h ==> shows_lanes(b, c, y, #[trigger] word_at(cells, base, y))
}

/// Column `c` of a column-major store of height `h` is settled.
pub open spec fn col_settled(cells: Seq<u64>, h: int, b: Board, c: int) -> bool {
    rows_settled(cells, c * h, h, b, c)
}

/// Column `c` of a column-major store of height `h` is haloed.
pub open spec fn col_haloed(cells: Seq<u64>, h: int, b: Board, c: int) -> bool {
    rows_haloed(cells, c * h, h, b, c)
}

/// Column `c` of a column-major store of height `h` is pending.
pub open spec fn col_pending(cells: Seq<u64>, h: int, b: Board, c: int) -> bool {
    rows_pending(cells, c * h, h, b, c)
}

/// The packing invariant of a store between generations: both dimensions
/// are positive, there is one word for each row of each packed column, and
/// every word holds the cells of the board in its lanes and nothing else.
pub open spec fn is_packed(words: Seq<u64>, width: int, height: int) -> bool {
    &&& width >= 1
    &&& height >= 1
    &&& words.len() == columns(width) * height
    &&& forall|c: int|
        0 <= c < columns(width) ==> #[trigger] col_settled(
            words,
            height,
            unpack(words, width, height),
            c,
        )
}

/// `z` differs from `a` at most in the `h` words from `base` on.
pub open spec fn same_outside(a: Seq<u64>, z: Seq<u64>, base: int, h: int) -> bool {
    &&& z.len() == a.len()
    &&& forall|j: int| 0 <= j < a.len() && !(base <= j < base + h) ==> #[trigger] z[j] == a[j]
}

/// `keep` selects exactly the lanes of column `c` that lie inside a board of
/// the given width.
pub open spec fn is_lane_mask(keep: u64, c: int, width: int) -> bool {
    forall|i: u64| i < 64 ==> #[trigger] bit(keep, i) == (1 <= i <= 62 && lane_x(c, i) < width)
}

/// Where the words of column `k` lie relative to those of column `c`.
pub proof fn lemma_slots(h: int, k: int, c: int)
    requires
        h > 0,
    ensures
        k < c ==> k * h + h <= c * h,
        k > c ==> k * h >= c * h + h,
        (k + 1) * h == k * h + h,
        k >= 0 ==> k * h >= 0,
{
    assert(k < c ==> k * h + h <= c * h) by (nonlinear_arith)
        requires
            h > 0,
    ;
    assert(k > c ==> k * h >= c * h + h) by (nonlinear_arith)
        requires
            h > 0,
    ;
    assert((k + 1) * h == k * h + h) by (nonlinear_arith);
    assert(k >= 0 ==> k * h >= 0) by (nonlinear_arith)
        requires
            h > 0,
    ;
}

/// The word of cell `(x, y)` lies inside a store of the grid's size.
pub proof fn lemma_slot_in_store(width: int, height: int, x: int, y: int)
    requires
        0 <= x < width,
        0 <= y < height,
    ensures
        0 <= slot(x, y, height) < columns(width) * height,
        0 <= x / 62 < columns(width),
{
    let c = x / 62;
    let n = columns(width);
    assert(c < n);
    lemma_slots(height, c, n);
    lemma_slots(height, c, 0);
}

/// A change confined to column `c` leaves the words of any other column `k`
/// as they were, and with them what that column says about a board.
pub proof fn lemma_col_kept(a: Seq<u64>, z: Seq<u64>, h: int, c: int, k: int, b: Board)
    requires
        h > 0,
        0 <= k,
        0 <= c,
        k != c,
        k * h + h <= a.len(),
        same_outside(a, z, c * h, h),
    ensures
        forall|y: int| 0 <= y < h ==> #[trigger] word_at(z, k * h, y) == word_at(a, k * h, y),
        col_settled(a, h, b, k) ==> col_settled(z, h, b, k),
        col_haloed(a, h, b, k) ==> col_haloed(z, h, b, k),
        col_pending(a, h, b, k) ==> col_pending(z, h, b, k),
{
    lemma_slots(h, k, c);
    assert forall|y: int| 0 <= y < h implies #[trigger] word_at(z, k * h, y) == word_at(a, k * h, y) by {
        assert(z[k * h + y] == a[k * h + y]);
    }
}

/// A change confined to column `c` of a store of `n` columns leaves what
/// every other column says about the boards `b` and `next`.
pub proof fn lemma_cols_kept(
    a: Seq<u64>,
    z: Seq<u64>,
    h: int,
    n: int,
    c: int,
    b: Board,
    next: Board,
)
    requires
        h > 0,
        0 <= c < n,
        a.len() == n * h,
        same_outside(a, z, c * h, h),
    ensures
        forall|k: int|
            0 <= k < n && k != c && col_settled(a, h, next, k) ==> #[trigger] col_settled(
                z,
                h,
                next,
                k,
            ),
        forall|k: int|
            0 <= k < n && k != c && col_haloed(a, h, b, k) ==> #[trigger] col_haloed(z, h, b, k),
        forall|k: int|
            0 <= k < n && k != c && col_pending(a, h, b, k) ==> #[trigger] col_pending(z, h, b, k),
{
    assert forall|k: int| 0 <= k < n && k != c && col_settled(a, h, next, k) implies #[trigger] col_settled(
        z,
        h,
        next,
        k,
    ) by {
        lemma_slots(h, k, n);
        lemma_col_kept(a, z, h, c, k, next);
    }
    assert forall|k: int| 0 <= k < n && k != c && col_haloed(a, h, b, k) implies #[trigger] col_haloed(
        z,
        h,
        b,
        k,
    ) by {
        lemma_slots(h, k, n);
        lemma_col_kept(a, z, h, c, k, b);
    }
    assert forall|k: int| 0 <= k < n && k != c && col_pending(a, h, b, k) implies #[trigger] col_pending(
        z,
        h,
        b,
        k,
    ) by {
        lemma_slots(h, k, n);
        lemma_col_kept(a, z, h, c, k, b);
    }
}

} // verus!
