//! A picture of a grid in box-drawing characters.

use vstd::prelude::*;
use crate::board::Board;
use crate::grid::GameOfLife;

verus! {

/// The character that stands for a cell: a full block for a live one, a
/// space for a dead one.
pub open spec fn glyph(alive: bool) -> char {
    if alive {
        '█'
    } else {
        ' '
    }
}

/// A horizontal edge of the frame: a corner, `width` dashes, a corner, and a
/// line feed.
pub open spec fn edge_line(left: char, right: char, width: nat) -> Seq<char> {
    seq![left] + Seq::new(width, |k: int| '─') + seq![right, '\n']
}

/// One row of cells between the two vertical edges of the frame, with a
/// line feed.
pub open spec fn row_line(row: Seq<bool>) -> Seq<char> {
    seq!['│'] + Seq::new(row.len(), |k: int| glyph(row[k])) + seq!['│', '\n']
}

/// The lines of the first `n` rows of `b`, one after the other.
pub open spec fn rows_text(b: Board, n: nat) -> Seq<char>
    decreases n,
{
    if n == 0 {
        Seq::empty()
    } else {
        rows_text(b, (n - 1) as nat) + row_line(b[n - 1])
    }
}

/// The picture of a board whose rows are `width` cells long: the rows, top
/// to bottom, inside a frame.
pub open spec fn picture(b: Board, width: nat) -> Seq<char> {
    edge_line('┌', '┐', width) + rows_text(b, b.len()) + edge_line('└', '┘', width)
}

/// Appends `count` copies of `fill` to `text`.
fn push_run(text: &mut Vec<char>, fill: char, count: usize)
    ensures
        final(text)@ == old(text)@ + Seq::new(count as nat, |k: int| fill),
{
    let mut done: usize = 0;
    while done < count
        invariant
            done <= count,
            text@ == old(text)@ + Seq::new(done as nat, |k: int| fill),
        decreases count - done,
    {
        text.push(fill);
        done += 1;
        proof {
            assert(text@ =~= old(text)@ + Seq::new(done as nat, |k: int| fill));
        }
    }
    proof {
        assert(text@ =~= old(text)@ + Seq::new(count as nat, |k: int| fill));
    }
}

impl GameOfLife {
    /// The picture of the grid, character by character.
    pub fn render(&self) -> (text: Vec<char>)
        requires
            self.wf(),
        ensures
            text@ == picture(self@, self.spec_width() as nat),
    {
        let width = self.width();
        let height = self.height();
        let mut text: Vec<char> = Vec::new();
        text.push('┌');
        push_run(&mut text, '─', width);
        text.push('┐');
        text.push('\n');
        proof {
            assert(text@ =~= edge_line('┌', '┐', width as nat));
        }
        let ghost top = text@;
        let mut y: usize = 0;
        while y < height
            invariant
                self.wf(),
                width == self.spec_width(),
                height == self.spec_height(),
                y <= height,
                text@ == top + rows_text(self@, y as nat),
            decreases height - y,
        {
            let ghost start = text@;
            text.push('│');
            let mut x: usize = 0;
            while x < width
                invariant
                    self.wf(),
                    width == self.spec_width(),
                    height == self.spec_height(),
                    y < height,
                    x <= width,
                    text@ == start + seq!['│'] + Seq::new(
                        x as nat,
                        |k: int| glyph(self@[y as int][k]),
                    ),
                decreases width - x,
            {
                let mark = if self.is_alive(x, y) {
                    '█'
                } else {
                    ' '
                };
                text.push(mark);
                x += 1;
                proof {
                    assert(text@ =~= start + seq!['│'] + Seq::new(
                        x as nat,
                        |k: int| glyph(self@[y as int][k]),
                    ));
                }
            }
            text.push('│');
            text.push('\n');
            y += 1;
            proof {
                assert(text@ =~= start + row_line(self@[y - 1]));
                assert(text@ =~= top + rows_text(self@, y as nat));
            }
        }
        text.push('└');
        push_run(&mut text, '─', width);
        text.push('┘');
        text.push('\n');
        proof {
            assert(text@ =~= picture(self@, width as nat));
        }
        text
    }
}

} // verus!
