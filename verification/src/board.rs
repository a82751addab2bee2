//! The mathematical model: a board of cells and the rule that yields the
//! next generation.

use vstd::prelude::*;

verus! {

/// A board is a sequence of rows, each a sequence of cells; `b[y][x]` is the
/// cell in column `x` of row `y`.
pub type Board = Seq<Seq<bool>>;

/// Whether every row of `b` has `width` cells and there are `height` rows.
pub open spec fn has_shape(b: Board, width: int, height: int) -> bool {
    &&& b.len() == height
    &&& forall|y: int| 0 <= y < height ==> (#[trigger] b[y]).len() == width
}

/// The cell at `(x, y)`, with everything outside the board dead.
pub open spec fn cell(b: Board, x: int, y: int) -> bool {
    0 <= y < b.len() && 0 <= x < b[y].len() && b[y][x]
}

/// 1 for a live cell, 0 for a dead one.
pub open spec fn count(alive: bool) -> int {
    if alive {
        1
    } else {
        0
    }
}

/// Number of live cells among the eight that surround `(x, y)`.
pub open spec fn live_neighbours(b: Board, x: int, y: int) -> int {
    count(cell(b, x - 1, y - 1)) + count(cell(b, x, y - 1)) + count(cell(b, x + 1, y - 1))
        + count(cell(b, x - 1, y)) + count(cell(b, x + 1, y))
        + count(cell(b, x - 1, y + 1)) + count(cell(b, x, y + 1)) + count(cell(b, x + 1, y + 1))
}

/// Conway's rule: a cell is alive in the next generation when it has exactly
/// three live neighbours, or is alive now and has exactly two.
pub open spec fn survives(alive: bool, neighbours: int) -> bool {
    neighbours == 3 || (alive && neighbours == 2)
}

/// The next generation of `b`.
pub open spec fn life_step(b: Board) -> Board {
    Seq::new(
        b.len(),
        |y: int| Seq::new(b[y].len(), |x: int| survives(b[y][x], live_neighbours(b, x, y))),
    )
}

/// The board after `n` generations.
pub open spec fn generations(b: Board, n: nat) -> Board
    decreases n,
{
    if n == 0 {
        b
    } else {
        life_step(generations(b, (n - 1) as nat))
    }
}

/// The board `b` with the cell at `(x, y)` set to `alive`.
pub open spec fn with_cell(b: Board, x: int, y: int, alive: bool) -> Board {
    b.update(y, b[y].update(x, alive))
}

/// The board of the given shape on which every cell is dead.
pub open spec fn dead_board(width: int, height: int) -> Board {
    Seq::new(height as nat, |y: int| Seq::new(width as nat, |x: int| false))
}

} // verus!
