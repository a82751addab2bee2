//! Filling a grid with words drawn from a seeded pseudorandom generator.

use vstd::prelude::*;
use crate::bits::{bit, LANE_WIDTH};
use crate::board::Board;
use crate::grid::GameOfLife;
use crate::layout::{columns, lemma_slots, offset, slot};

verus! {

/// The state in which `oorandom::Rand64::new` leaves a generator made from
/// `seed`: its state word and its increment.
pub uninterp spec fn rand64_seeded(seed: u128) -> (u128, u128);

/// What `oorandom::Rand64::rand_u64` does to a generator in the given
/// state: the word it returns, and the state it leaves the generator in.
pub uninterp spec fn rand64_drawn(state: (u128, u128)) -> (u64, (u128, u128));

/// Calls `oorandom::Rand64::new` and hands back the state of the new
/// generator, as `Rand64::state` reports it. The generator is a permuted
/// congruential generator, so that state depends on the seed alone; that is
/// all the contract claims.
#[verifier::external_body]
fn rand64_new(seed: u128) -> (state: (u128, u128))
    ensures
        state == rand64_seeded(seed),
{
    oorandom::Rand64::new(seed).state()
}

/// Calls `oorandom::Rand64::rand_u64` on a generator restored from `state`
/// with `Rand64::from_state`, and hands back the word drawn and the state
/// that the generator is left in. Both depend on the state before the call
/// alone; that is all the contract claims.
#[verifier::external_body]
fn rand64_draw(state: (u128, u128)) -> (drawn: (u64, (u128, u128)))
    ensures
        drawn == rand64_drawn(state),
{
    let mut rng = oorandom::Rand64::from_state(state);
    let value = rng.rand_u64();
    (value, rng.state())
}

/// The state of a generator made from `seed` after `n` words were drawn.
pub open spec fn stream_state(seed: u128, n: nat) -> (u128, u128)
    decreases n,
{
    if n == 0 {
        rand64_seeded(seed)
    } else {
        rand64_drawn(stream_state(seed, (n - 1) as nat)).1
    }
}

/// The word that a generator made from `seed` returns on draw number `n`,
/// counting from zero.
pub open spec fn stream_word(seed: u128, n: nat) -> u64 {
    rand64_drawn(stream_state(seed, n)).0
}

/// The board that the words of a generator made from `seed` give when the
/// storage words of a grid are filled with them in storage order: the word
/// of row `y` in packed column `c` is draw number `c * height + y`.
pub open spec fn random_board(width: int, height: int, seed: u128) -> Board {
    Seq::new(
        height as nat,
        |y: int|
            Seq::new(
                width as nat,
                |x: int| bit(stream_word(seed, slot(x, y, height) as nat), offset(x)),
            ),
    )
}

impl GameOfLife {
    /// Replaces every cell by a pseudorandom one: the storage words are set,
    /// in storage order, to the words that `oorandom::Rand64` yields for
    /// `seed`.
    pub fn randomize(&mut self, seed: u128)
        requires
            old(self).wf(),
        ensures
            final(self).wf(),
            final(self).spec_width() == old(self).spec_width(),
            final(self).spec_height() == old(self).spec_height(),
            final(self)@ == random_board(
                old(self).spec_width() as int,
                old(self).spec_height() as int,
                seed,
            ),
    {
        let width = self.width();
        let height = self.height();
        let ncols = (width - 1) / LANE_WIDTH + 1;
        let ghost goal = random_board(width as int, height as int, seed);
        let mut state = rand64_new(seed);
        let mut c: usize = 0;
        while c < ncols
            invariant
                self.wf(),
                self.spec_width() == width,
                self.spec_height() == height,
                width >= 1,
                height >= 1,
                ncols == columns(width as int),
                goal == random_board(width as int, height as int, seed),
                c <= ncols,
                state == stream_state(seed, (c * height) as nat),
                forall|y: int, x: int|
                    0 <= y < height && 0 <= x < width && x / 62 < c ==> #[trigger] self@[y][x]
                        == goal[y][x],
            decreases ncols - c,
        {
            let mut y: usize = 0;
            proof {
                lemma_slots(height as int, c as int, 0);
            }
            while y < height
                invariant
                    self.wf(),
                    self.spec_width() == width,
                    self.spec_height() == height,
                    width >= 1,
                    height >= 1,
                    ncols == columns(width as int),
                    goal == random_board(width as int, height as int, seed),
                    c < ncols,
                    y <= height,
                    c * height >= 0,
                    state == stream_state(seed, (c * height + y) as nat),
                    forall|r: int, x: int|
                        0 <= r < height && 0 <= x < width && (x / 62 < c || (x / 62 == c && r < y))
                            ==> #[trigger] self@[r][x] == goal[r][x],
                decreases height - y,
            {
                let (value, next) = rand64_draw(state);
                proof {
                    assert(value == stream_word(seed, (c * height + y) as nat));
                    assert(next == stream_state(seed, (c * height + y + 1) as nat));
                }
                self.set_word(c, y, value);
                state = next;
                y += 1;
            }
            proof {
                lemma_slots(height as int, c as int, 0);
            }
            c += 1;
        }
        proof {
            assert(self@ =~~= goal);
        }
    }
}

} // verus!
