//! The grid: packed storage, its dimensions, and the operations on it.

use vstd::prelude::*;
use crate::bits::{
    bit, lemma_bit_and, lemma_bit_assign, lemma_bit_lane_mask, lemma_bit_tail_mask,
    lemma_bit_zero, lemma_bits_determine_word, tail_mask, EDGE_MASK, LANE_MASK, LANE_WIDTH,
};
use crate::board::{cell, dead_board, generations, has_shape, life_step, with_cell, Board};
use crate::layout::{
    col_haloed, col_pending, col_settled, columns, is_lane_mask, is_packed, lane_x,
    lemma_cols_kept,
    lemma_slot_in_store, lemma_slots, offset, shows_packed, slot, tail_width, unpack, with_word,
    word_at, xor_fold,
};
use crate::sweep::{exchange_first, exchange_inner, exchange_last, mask_single, tick_column};

verus! {

/// A Game of Life grid of fixed size. Everything outside the grid is dead.
///
/// The cells are stored in packed columns of 62 cells' width, one word per
/// row of a packed column, all the words of the first packed column first.
/// A word holds its cells in bits 1 to 62; bits 0 and 63 are used while a
/// generation is computed and are clear otherwise, as are the lanes of the
/// last packed column that lie beyond the grid's width.
pub struct GameOfLife {
    width: usize,
    height: usize,
    cells: Vec<u64>,
}

impl View for GameOfLife {
    type V = Board;

    /// The board that the grid holds: `height` rows of `width` cells, read
    /// from the storage words.
    open spec fn view(&self) -> Board {
        unpack(self.words(), self.spec_width() as int, self.spec_height() as int)
    }
}

impl GameOfLife {
    /// Number of cells in a row.
    pub closed spec fn spec_width(&self) -> usize {
        self.width
    }

    /// Number of rows.
    pub closed spec fn spec_height(&self) -> usize {
        self.height
    }

    /// The storage words, column by column.
    pub closed spec fn words(&self) -> Seq<u64> {
        self.cells@
    }

    /// The grid's invariant: both dimensions are positive, there is one word
    /// for each row of each packed column, and every word holds the cells of
    /// the board in its lanes and nothing else.
    pub open spec fn wf(&self) -> bool {
        is_packed(self.words(), self.spec_width() as int, self.spec_height() as int)
    }

    /// The board of a grid has the grid's dimensions.
    pub proof fn lemma_shape(&self)
        ensures
            has_shape(self@, self.spec_width() as int, self.spec_height() as int),
    {
    }

    /// What the storage of a grid holds between generations: bit `i` of the
    /// word of row `y` in packed column `c` is set exactly when `i` is a lane
    /// and the cell that the lane stands for is a live cell of the board. So
    /// both halo bits are clear, and so is every lane beyond the grid's
    /// width.
    pub proof fn lemma_storage(&self, c: int, y: int, i: u64)
        requires
            self.wf(),
            0 <= c < columns(self.spec_width() as int),
            0 <= y < self.spec_height(),
            i < 64,
        ensures
            0 <= c * self.spec_height() + y < self.words().len(),
            bit(self.words()[c * self.spec_height() + y], i) == (1 <= i <= 62 && cell(
                self@,
                lane_x(c, i),
                y,
            )),
    {
        let h = self.height as int;
        lemma_slots(h, c, columns(self.width as int));
        lemma_slots(h, c, 0);
        assert(col_settled(self.cells@, h, self@, c));
        assert(shows_packed(self@, c, y, word_at(self.cells@, c * h, y)));
    }

    /// The storage of a grid is determined by its board: two grids that hold
    /// the same board hold the same words.
    pub proof fn lemma_words_determined(&self, other: &GameOfLife)
        requires
            self.wf(),
            other.wf(),
            self@ == other@,
        ensures
            self.spec_width() == other.spec_width(),
            self.spec_height() == other.spec_height(),
            self.words() == other.words(),
    {
        let h = self.height as int;
        let n = columns(self.width as int);
        assert(self@.len() == self.height && other@.len() == other.height);
        assert(self@[0].len() == self.width && other@[0].len() == other.width);
        assert forall|j: int| 0 <= j < self.cells@.len() implies self.cells@[j] == other.cells@[j] by {
            let c = j / h;
            let y = j % h;
            assert(j == c * h + y && 0 <= y < h && 0 <= c < n) by (nonlinear_arith)
                requires
                    0 <= j < n * h,
                    h > 0,
                    c == j / h,
                    y == j % h,
            ;
            assert forall|i: u64| i < 64 implies bit(self.cells@[j], i) == bit(
                other.cells@[j],
                i,
            ) by {
                self.lemma_storage(c, y, i);
                other.lemma_storage(c, y, i);
            }
            lemma_bits_determine_word(self.cells@[j], other.cells@[j]);
        }
        assert(self.cells@ =~= other.cells@);
    }

    /// An all-dead grid of `width` by `height` cells.
    pub fn new(width: usize, height: usize) -> (grid: GameOfLife)
        requires
            width >= 1,
            height >= 1,
            columns(width as int) * height <= usize::MAX,
        ensures
            grid.wf(),
            grid.spec_width() == width,
            grid.spec_height() == height,
            grid@ == dead_board(width as int, height as int),
    {
        let ncols = (width - 1) / LANE_WIDTH + 1;
        let cells = vec![0u64; ncols * height];
        let grid = GameOfLife { width, height, cells };
        proof {
            assert forall|j: int| 0 <= j < grid.cells@.len() implies grid.cells@[j] == 0 by {}
            lemma_all_clear(grid);
        }
        grid
    }

    /// An all-dead grid of `width` by `height` cells, or `None` where a
    /// dimension is zero or the number of storage words does not fit the
    /// machine's address range.
    pub fn try_new(width: usize, height: usize) -> (made: Option<GameOfLife>)
        ensures
            made.is_some() == (width >= 1 && height >= 1 && columns(width as int) * height
                <= usize::MAX),
            made matches Some(grid) ==> {
                &&& grid.wf()
                &&& grid.spec_width() == width
                &&& grid.spec_height() == height
                &&& grid@ == dead_board(width as int, height as int)
            },
    {
        if width == 0 || height == 0 {
            return None;
        }
        let ncols = (width - 1) / LANE_WIDTH + 1;
        match ncols.checked_mul(height) {
            Some(_) => Some(GameOfLife::new(width, height)),
            None => None,
        }
    }

    /// Number of cells in a row.
    #[verifier::when_used_as_spec(spec_width)]
    pub fn width(&self) -> (w: usize)
        ensures
            w == self.spec_width(),
    {
        self.width
    }

    /// Number of rows.
    #[verifier::when_used_as_spec(spec_height)]
    pub fn height(&self) -> (h: usize)
        ensures
            h == self.spec_height(),
    {
        self.height
    }

    /// Advances the grid by one generation, in place.
    ///
    /// Each packed column first has its halo set from the columns beside it
    /// and is advanced only when both of them have read its old cells: the
    /// sweep goes from left to right and advances a column once the halo of
    /// the column to its right is set.
    pub fn tick(&mut self)
        requires
            old(self).wf(),
        ensures
            final(self).wf(),
            final(self).spec_width() == old(self).spec_width(),
            final(self).spec_height() == old(self).spec_height(),
            final(self)@ == life_step(old(self)@),
    {
        let ghost b = self@;
        let ghost next = life_step(b);
        let ghost w = self.width as int;
        let ghost n = columns(w);
        let h = self.height;
        let tail: u64 = ((self.width - 1) % LANE_WIDTH + 1) as u64;
        let mask = EDGE_MASK | (!1u64 << tail);
        let keep = !mask;
        proof {
            assert(self.cells@.len() == self.cells.len());
            lemma_masks(w, keep);
            assert forall|k: int| 0 <= k < n implies #[trigger] col_pending(
                self.cells@,
                h as int,
                b,
                k,
            ) by {
                assert(col_settled(self.cells@, h as int, b, k));
            }
            lemma_slots(h as int, 0, n);
            lemma_slots(h as int, 1, n);
        }
        if self.width <= LANE_WIDTH {
            mask_single(&mut self.cells, h, mask, Ghost(b), Ghost(w));
            tick_column(&mut self.cells, 0, h, keep, Ghost(b), Ghost(w), Ghost(0));
        } else {
            let ghost start = self.cells@;
            exchange_first(&mut self.cells, h, Ghost(b), Ghost(w));
            // `curr` is where column `c` starts; the column before it is
            // haloed, those before that are settled, and `c` and the
            // columns after it still hold the old cells.
            let mut curr: usize = h;
            let ghost mut c: int = 1;
            proof {
                lemma_cols_kept(start, self.cells@, h as int, n, 0, b, next);
            }
            while curr + h < self.cells.len()
                invariant
                    self.width == old(self).width,
                    self.height == old(self).height,
                    h == self.height,
                    h >= 1,
                    w == self.width,
                    n == columns(w),
                    b == old(self)@,
                    next == life_step(b),
                    has_shape(b, w, h as int),
                    self.cells@.len() == n * h,
                    1 <= c < n,
                    curr == c * h,
                    curr + h <= self.cells.len(),
                    forall|k: int|
                        0 <= k < c - 1 ==> #[trigger] col_settled(self.cells@, h as int, next, k),
                    col_haloed(self.cells@, h as int, b, c - 1),
                    forall|k: int|
                        c <= k < n ==> #[trigger] col_pending(self.cells@, h as int, b, k),
                    forall|k: int| 0 <= k < n - 1 ==> #[trigger] is_lane_mask(LANE_MASK, k, w),
                decreases self.cells@.len() - curr,
            {
                proof {
                    lemma_slots(h as int, c, n);
                    lemma_slots(h as int, c - 1, c);
                    assert(c + 1 < n) by {
                        if c + 1 >= n {
                            assert((c + 1) * h == n * h);
                        }
                    }
                    lemma_slots(h as int, c + 1, n);
                    assert(col_pending(self.cells@, h as int, b, c));
                    assert(col_pending(self.cells@, h as int, b, c + 1));
                }
                let ghost before = self.cells@;
                exchange_inner(&mut self.cells, curr, h, Ghost(b), Ghost(w), Ghost(c));
                let ghost between = self.cells@;
                proof {
                    lemma_cols_kept(before, between, h as int, n, c, b, next);
                    assert(col_haloed(between, h as int, b, c - 1));
                    assert(is_lane_mask(LANE_MASK, c - 1, w));
                }
                tick_column(
                    &mut self.cells,
                    curr - h,
                    h,
                    LANE_MASK,
                    Ghost(b),
                    Ghost(w),
                    Ghost(c - 1),
                );
                proof {
                    lemma_cols_kept(between, self.cells@, h as int, n, c - 1, b, next);
                    c = c + 1;
                }
                curr += h;
            }
            proof {
                lemma_slots(h as int, c, n);
                lemma_slots(h as int, c - 1, c);
                assert(c == n - 1) by {
                    if c + 1 < n {
                        lemma_slots(h as int, c + 1, n);
                    }
                }
                assert(col_pending(self.cells@, h as int, b, c));
            }
            let ghost before = self.cells@;
            exchange_last(&mut self.cells, curr, h, mask, Ghost(b), Ghost(w), Ghost(c));
            tick_column(&mut self.cells, curr, h, keep, Ghost(b), Ghost(w), Ghost(c));
            let ghost between = self.cells@;
            proof {
                lemma_cols_kept(before, between, h as int, n, c, b, next);
                assert(col_haloed(between, h as int, b, c - 1));
                assert(is_lane_mask(LANE_MASK, c - 1, w));
            }
            tick_column(&mut self.cells, curr - h, h, LANE_MASK, Ghost(b), Ghost(w), Ghost(c - 1));
            proof {
                lemma_cols_kept(between, self.cells@, h as int, n, c - 1, b, next);
            }
        }
        proof {
            lemma_settled_is_view(*self, next);
        }
    }

    /// Whether the cell at `(x, y)` is alive.
    #[inline]
    pub fn is_alive(&self, x: usize, y: usize) -> (alive: bool)
        requires
            self.wf(),
            x < self.spec_width(),
            y < self.spec_height(),
        ensures
            alive == self@[y as int][x as int],
    {
        let (index, offset) = self.locate(x, y);
        ((self.cells[index] >> offset) & 1) == 1
    }

    /// Where the cell at `(x, y)` is stored: the index of its word, and its
    /// bit in that word.
    fn locate(&self, x: usize, y: usize) -> (place: (usize, u64))
        requires
            self.wf(),
            x < self.spec_width(),
            y < self.spec_height(),
        ensures
            place.0 == slot(x as int, y as int, self.spec_height() as int),
            place.0 < self.words().len(),
            place.1 == offset(x as int),
    {
        proof {
            lemma_slot_in_store(self.width as int, self.height as int, x as int, y as int);
            lemma_slots(self.height as int, x as int / 62, 0);
            assert(self.cells@.len() == self.cells.len());
        }
        let index = (x / LANE_WIDTH) * self.height + y;
        let offset = x % LANE_WIDTH + 1;
        (index, offset as u64)
    }

    /// Sets the cell at `(x, y)` to `alive` and leaves every other cell as it
    /// is.
    pub fn set_alive(&mut self, x: usize, y: usize, alive: bool)
        requires
            old(self).wf(),
            x < old(self).spec_width(),
            y < old(self).spec_height(),
        ensures
            final(self).wf(),
            final(self).spec_width() == old(self).spec_width(),
            final(self).spec_height() == old(self).spec_height(),
            final(self)@ == with_cell(old(self)@, x as int, y as int, alive),
    {
        let (index, offset) = self.locate(x, y);
        let held = self.cells[index];
        let stored = if alive {
            held | (1u64 << offset)
        } else {
            held & !(1u64 << offset)
        };
        let ghost b = self@;
        let ghost before = self.cells@;
        self.cells.set(index, stored);
        proof {
            let target = with_cell(b, x as int, y as int, alive);
            let c = x as int / 62;
            assert(col_settled(before, self.height as int, b, c));
            assert(shows_packed(b, c, y as int, word_at(before, c * self.height, y as int)));
            assert forall|i: u64| i < 64 implies #[trigger] bit(stored, i) == (1 <= i <= 62 && cell(
                target,
                lane_x(c, i),
                y as int,
            )) by {
                assert(bit(held, i) == (1 <= i <= 62 && cell(b, lane_x(c, i), y as int)));
                lemma_bit_assign(held, offset, i);
            }
            lemma_word_replaced(*old(self), *self, target, c, y as int);
        }
    }

    /// Stores the lanes of `word` as the cells of row `y` in packed column
    /// `column`. The two halo bits of `word`, and its lanes beyond the
    /// grid's width, are ignored.
    pub fn set_word(&mut self, column: usize, y: usize, word: u64)
        requires
            old(self).wf(),
            column < columns(old(self).spec_width() as int),
            y < old(self).spec_height(),
        ensures
            final(self).wf(),
            final(self).spec_width() == old(self).spec_width(),
            final(self).spec_height() == old(self).spec_height(),
            final(self)@ == with_word(old(self)@, column as int, y as int, word),
    {
        let ghost w = self.width as int;
        let ghost h = self.height as int;
        let ghost n = columns(w);
        let tail: u64 = ((self.width - 1) % LANE_WIDTH + 1) as u64;
        let keep = if column == (self.width - 1) / LANE_WIDTH {
            !(EDGE_MASK | (!1u64 << tail))
        } else {
            LANE_MASK
        };
        proof {
            lemma_slots(h, column as int, n);
            lemma_slots(h, column as int, 0);
            assert(self.cells@.len() == self.cells.len());
            lemma_masks(w, !tail_mask(tail));
            assert(is_lane_mask(keep, column as int, w));
        }
        let index = column * self.height + y;
        let stored = word & keep;
        let ghost b = self@;
        self.cells.set(index, stored);
        proof {
            let target = with_word(b, column as int, y as int, word);
            assert forall|i: u64| i < 64 implies #[trigger] bit(stored, i) == (1 <= i <= 62 && cell(
                target,
                lane_x(column as int, i),
                y as int,
            )) by {
                lemma_bit_and(word, keep, i);
            }
            lemma_word_replaced(*old(self), *self, target, column as int, y as int);
        }
    }

    /// Advances the grid by `steps` generations.
    pub fn advance(&mut self, steps: usize)
        requires
            old(self).wf(),
        ensures
            final(self).wf(),
            final(self).spec_width() == old(self).spec_width(),
            final(self).spec_height() == old(self).spec_height(),
            final(self)@ == generations(old(self)@, steps as nat),
    {
        let mut done: usize = 0;
        while done < steps
            invariant
                done <= steps,
                self.wf(),
                self.spec_width() == old(self).spec_width(),
                self.spec_height() == old(self).spec_height(),
                self@ == generations(old(self)@, done as nat),
            decreases steps - done,
        {
            self.tick();
            done += 1;
        }
    }

    /// The exclusive or of all storage words: a checksum of the grid.
    pub fn parity(&self) -> (sum: u64)
        ensures
            sum == xor_fold(self.words()),
    {
        let mut sum: u64 = 0;
        let mut i: usize = 0;
        while i < self.cells.len()
            invariant
                i <= self.cells.len(),
                sum == xor_fold(self.cells@.take(i as int)),
            decreases self.cells.len() - i,
        {
            proof {
                assert(self.cells@.take(i + 1).drop_last() =~= self.cells@.take(i as int));
            }
            sum = self.cells[i] ^ sum;
            i += 1;
        }
        proof {
            assert(self.cells@.take(i as int) =~= self.cells@);
        }
        sum
    }
}

/// The masks that `tick` applies select the lanes inside the grid: the lane
/// mask in every column but the last, `keep` in the last.
proof fn lemma_masks(width: int, keep: u64)
    requires
        1 <= width,
        keep == !tail_mask(tail_width(width) as u64),
    ensures
        is_lane_mask(keep, columns(width) - 1, width),
        forall|k: int| 0 <= k < columns(width) - 1 ==> #[trigger] is_lane_mask(LANE_MASK, k, width),
{
    let n = columns(width);
    let t = tail_width(width) as u64;
    assert forall|i: u64| i < 64 implies #[trigger] bit(keep, i) == (1 <= i <= 62 && lane_x(
        n - 1,
        i,
    ) < width) by {
        lemma_bit_tail_mask(t, i);
    }
    assert forall|k: int| 0 <= k < n - 1 implies #[trigger] is_lane_mask(LANE_MASK, k, width) by {
        assert forall|i: u64| i < 64 implies #[trigger] bit(LANE_MASK, i) == (1 <= i <= 62
            && lane_x(k, i) < width) by {
            lemma_bit_lane_mask(i);
        }
    }
}

/// A store whose every column is settled on a board holds that board.
proof fn lemma_settled_is_view(grid: GameOfLife, b: Board)
    requires
        grid.width >= 1,
        grid.height >= 1,
        grid.cells@.len() == columns(grid.width as int) * grid.height,
        has_shape(b, grid.width as int, grid.height as int),
        forall|c: int|
            0 <= c < columns(grid.width as int) ==> #[trigger] col_settled(
                grid.cells@,
                grid.height as int,
                b,
                c,
            ),
    ensures
        grid@ == b,
        grid.wf(),
{
    let w = grid.width as int;
    let h = grid.height as int;
    assert forall|y: int, x: int| 0 <= y < h && 0 <= x < w implies #[trigger] grid@[y][x]
        == b[y][x] by {
        let c = x / 62;
        let i = (x % 62 + 1) as u64;
        lemma_slot_in_store(w, h, x, y);
        assert(col_settled(grid.cells@, h, b, c));
        assert(shows_packed(b, c, y, word_at(grid.cells@, c * h, y)));
        assert(bit(word_at(grid.cells@, c * h, y), i) == (1 <= i <= 62 && cell(b, lane_x(c, i), y)));
    }
    assert(grid@ =~~= b);
}

/// Replacing the word of row `y` in packed column `c` by one that shows
/// that row of `target` gives a grid that holds `target`, where `target` is
/// the old board but for the cells of that word.
proof fn lemma_word_replaced(before: GameOfLife, after: GameOfLife, target: Board, c: int, y: int)
    requires
        before.wf(),
        after.width == before.width,
        after.height == before.height,
        0 <= c < columns(before.width as int),
        0 <= y < before.height,
        after.cells@.len() == before.cells@.len(),
        forall|j: int|
            0 <= j < before.cells@.len() && j != c * before.height + y ==> after.cells@[j]
                == before.cells@[j],
        shows_packed(target, c, y, after.cells@[c * before.height + y]),
        has_shape(target, before.width as int, before.height as int),
        forall|r: int, x: int|
            0 <= r < before.height && 0 <= x < before.width && !(r == y && x / 62 == c)
                ==> #[trigger] target[r][x] == before@[r][x],
    ensures
        after.wf(),
        after@ == target,
{
    let h = before.height as int;
    let n = columns(before.width as int);
    let b = before@;
    assert forall|k: int| 0 <= k < n implies #[trigger] col_settled(after.cells@, h, target, k) by {
        lemma_slots(h, k, n);
        lemma_slots(h, k, c);
        assert(col_settled(before.cells@, h, b, k));
        assert forall|r: int| 0 <= r < h implies shows_packed(
            target,
            k,
            r,
            #[trigger] word_at(after.cells@, k * h, r),
        ) by {
            let was = word_at(before.cells@, k * h, r);
            assert(shows_packed(b, k, r, was));
            if !(k == c && r == y) {
                assert forall|i: u64| i < 64 implies #[trigger] bit(was, i) == (1 <= i <= 62
                    && cell(target, lane_x(k, i), r)) by {
                    assert(bit(was, i) == (1 <= i <= 62 && cell(b, lane_x(k, i), r)));
                }
            }
        }
    }
    lemma_settled_is_view(after, target);
}

/// A store of zero words holds the all-dead board.
proof fn lemma_all_clear(grid: GameOfLife)
    requires
        grid.width >= 1,
        grid.height >= 1,
        grid.cells@.len() == columns(grid.width as int) * grid.height,
        forall|j: int| 0 <= j < grid.cells@.len() ==> grid.cells@[j] == 0,
    ensures
        grid.wf(),
        grid@ == dead_board(grid.width as int, grid.height as int),
{
    let w = grid.width as int;
    let h = grid.height as int;
    assert forall|y: int, x: int| 0 <= y < h && 0 <= x < w implies !(#[trigger] grid@[y][x]) by {
        lemma_slot_in_store(w, h, x, y);
        lemma_bit_zero((x % 62 + 1) as u64);
    }
    assert(grid@ =~~= dead_board(w, h));
    assert forall|c: int| 0 <= c < columns(w) implies #[trigger] col_settled(
        grid.cells@,
        h,
        grid@,
        c,
    ) by {
        lemma_slots(h, c, columns(w));
        lemma_slots(h, c, 0);
        assert forall|y: int| 0 <= y < h implies shows_packed(
            grid@,
            c,
            y,
            #[trigger] word_at(grid.cells@, c * h, y),
        ) by {
            assert forall|i: u64| i < 64 implies #[trigger] bit(word_at(grid.cells@, c * h, y), i)
                == (1 <= i <= 62 && cell(grid@, lane_x(c, i), y)) by {
                lemma_bit_zero(i);
            }
        }
    }
}

} // verus!
