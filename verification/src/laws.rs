//! Laws of the model and of the grid that follow from the contracts.

use vstd::prelude::*;
use crate::board::{cell, generations, has_shape, life_step, Board};
use crate::grid::GameOfLife;
use crate::layout::xor_fold;
use crate::random::random_board;

verus! {

/// The board of the given shape whose only live cells are the four of the
/// 2 by 2 block with its top left corner at `(x, y)`.
pub open spec fn block_board(width: int, height: int, x: int, y: int) -> Board {
    Seq::new(
        height as nat,
        |r: int| Seq::new(width as nat, |k: int| x <= k <= x + 1 && y <= r <= y + 1),
    )
}

/// The board of the given shape whose only live cells are three in a row,
/// the middle one at `(x, y)`.
pub open spec fn flat_blinker(width: int, height: int, x: int, y: int) -> Board {
    Seq::new(height as nat, |r: int| Seq::new(width as nat, |k: int| x - 1 <= k <= x + 1 && r == y))
}

/// The board of the given shape whose only live cells are three in a
/// column, the middle one at `(x, y)`.
pub open spec fn upright_blinker(width: int, height: int, x: int, y: int) -> Board {
    Seq::new(height as nat, |r: int| Seq::new(width as nat, |k: int| k == x && y - 1 <= r <= y + 1))
}

/// A block is a still life: a board that holds one 2 by 2 block and nothing
/// else is its own next generation.
pub proof fn lemma_block_is_still(width: int, height: int, x: int, y: int)
    requires
        0 <= x,
        x + 1 < width,
        0 <= y,
        y + 1 < height,
    ensures
        life_step(block_board(width, height, x, y)) == block_board(width, height, x, y),
{
    let b = block_board(width, height, x, y);
    assert forall|r: int, k: int| 0 <= r < height && 0 <= k < width implies #[trigger] life_step(
        b,
    )[r][k] == b[r][k] by {
        lemma_block_cells(width, height, x, y, k - 1, r - 1);
        lemma_block_cells(width, height, x, y, k, r - 1);
        lemma_block_cells(width, height, x, y, k + 1, r - 1);
        lemma_block_cells(width, height, x, y, k - 1, r);
        lemma_block_cells(width, height, x, y, k, r);
        lemma_block_cells(width, height, x, y, k + 1, r);
        lemma_block_cells(width, height, x, y, k - 1, r + 1);
        lemma_block_cells(width, height, x, y, k, r + 1);
        lemma_block_cells(width, height, x, y, k + 1, r + 1);
    }
    assert(life_step(b) =~~= b);
}

proof fn lemma_block_cells(width: int, height: int, x: int, y: int, k: int, r: int)
    requires
        0 <= x,
        x + 1 < width,
        0 <= y,
        y + 1 < height,
    ensures
        cell(block_board(width, height, x, y), k, r) == (x <= k <= x + 1 && y <= r <= y + 1),
{
}

/// A block stays as it is for any number of generations.
pub proof fn lemma_block_is_still_forever(width: int, height: int, x: int, y: int, n: nat)
    requires
        0 <= x,
        x + 1 < width,
        0 <= y,
        y + 1 < height,
    ensures
        generations(block_board(width, height, x, y), n) == block_board(width, height, x, y),
    decreases n,
{
    if n > 0 {
        lemma_block_is_still_forever(width, height, x, y, (n - 1) as nat);
        lemma_block_is_still(width, height, x, y);
    }
}

proof fn lemma_flat_cells(width: int, height: int, x: int, y: int, k: int, r: int)
    requires
        1 <= x,
        x + 1 < width,
        1 <= y,
        y + 1 < height,
    ensures
        cell(flat_blinker(width, height, x, y), k, r) == (x - 1 <= k <= x + 1 && r == y),
        cell(upright_blinker(width, height, x, y), k, r) == (k == x && y - 1 <= r <= y + 1),
{
}

/// A blinker turns: three cells in a row, with room above and below, become
/// three cells in a column round the same middle, and the other way round.
pub proof fn lemma_blinker_turns(width: int, height: int, x: int, y: int)
    requires
        1 <= x,
        x + 1 < width,
        1 <= y,
        y + 1 < height,
    ensures
        life_step(flat_blinker(width, height, x, y)) == upright_blinker(width, height, x, y),
        life_step(upright_blinker(width, height, x, y)) == flat_blinker(width, height, x, y),
{
    let flat = flat_blinker(width, height, x, y);
    let upright = upright_blinker(width, height, x, y);
    assert forall|r: int, k: int| 0 <= r < height && 0 <= k < width implies #[trigger] life_step(
        flat,
    )[r][k] == upright[r][k] && #[trigger] life_step(upright)[r][k] == flat[r][k] by {
        lemma_flat_cells(width, height, x, y, k - 1, r - 1);
        lemma_flat_cells(width, height, x, y, k, r - 1);
        lemma_flat_cells(width, height, x, y, k + 1, r - 1);
        lemma_flat_cells(width, height, x, y, k - 1, r);
        lemma_flat_cells(width, height, x, y, k, r);
        lemma_flat_cells(width, height, x, y, k + 1, r);
        lemma_flat_cells(width, height, x, y, k - 1, r + 1);
        lemma_flat_cells(width, height, x, y, k, r + 1);
        lemma_flat_cells(width, height, x, y, k + 1, r + 1);
    }
    assert(life_step(flat) =~~= upright);
    assert(life_step(upright) =~~= flat);
}

/// A blinker has period two: after two generations it is back where it was.
pub proof fn lemma_blinker_period(width: int, height: int, x: int, y: int)
    requires
        1 <= x,
        x + 1 < width,
        1 <= y,
        y + 1 < height,
    ensures
        generations(flat_blinker(width, height, x, y), 2) == flat_blinker(width, height, x, y),
        generations(flat_blinker(width, height, x, y), 1) != flat_blinker(width, height, x, y),
{
    let flat = flat_blinker(width, height, x, y);
    lemma_blinker_turns(width, height, x, y);
    assert(generations(flat, 0) == flat);
    assert(generations(flat, 1) == life_step(generations(flat, 0)));
    assert(generations(flat, 2) == life_step(generations(flat, 1)));
    assert(generations(flat, 1)[y - 1][x]);
    assert(!flat[y - 1][x]);
}

/// A generation never changes the shape of a board.
pub proof fn lemma_generations_keep_shape(b: Board, width: int, height: int, n: nat)
    requires
        has_shape(b, width, height),
    ensures
        has_shape(generations(b, n), width, height),
    decreases n,
{
    if n > 0 {
        lemma_generations_keep_shape(b, width, height, (n - 1) as nat);
    }
}

/// A run is reproducible: two grids that were filled from the same seed and
/// advanced by the same number of generations hold the same storage words,
/// and so have the same checksum.
pub proof fn lemma_checksum_reproducible(
    one: &GameOfLife,
    two: &GameOfLife,
    width: int,
    height: int,
    seed: u128,
    steps: nat,
)
    requires
        one.wf(),
        two.wf(),
        one@ == generations(random_board(width, height, seed), steps),
        two@ == generations(random_board(width, height, seed), steps),
    ensures
        one.words() == two.words(),
        xor_fold(one.words()) == xor_fold(two.words()),
{
    one.lemma_words_determined(two);
}

} // verus!
