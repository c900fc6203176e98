//! The computer's side of a game: which move it makes when it is its turn,
//! and how a player's typed choice is read.

use crate::board::{is_last_cell, Board};
use crate::decimal::{parsed_number, parsenum};
use crate::search::{is_first_win, lemma_wins_takes_a_cell, winnable};
use vstd::prelude::*;

verus! {

/// The number in `1..=most` that `text` stands for, if it stands for one.
pub open spec fn choice_of(text: Seq<char>, most: u8) -> Option<u8> {
    match parsed_number(text) {
        Some(n) => if 1 <= n <= most {
            Some(n as u8)
        } else {
            None
        },
        None => None,
    }
}

/// Reads a row, a column or a board size that a player typed: a decimal
/// number from 1 to `most`. Anything else is no choice.
pub fn read_choice(text: &str, most: u8) -> (choice: Option<u8>)
    ensures
        choice == choice_of(text@, most),
{
    match parsenum(text) {
        Some(n) => if 1 <= n && n <= most as u64 {
            Some(n as u8)
        } else {
            None
        },
        None => None,
    }
}

impl Board {
    /// Makes the computer's move: the first winning move where there is one,
    /// else the last cell that is left. What comes back is the cell taken
    /// and the flag that says whether taking it lost the game; `None` means
    /// that the board was empty, and then nothing has changed.
    ///
    /// The computer only loses when the poison cell is all that is left.
    pub fn computer_move(&mut self) -> (played: Option<((u8, u8), bool)>)
        requires
            old(self)@.wf(),
        ensures
            final(self)@.wf(),
            match played {
                Some(((row, column), lost)) => {
                    &&& if winnable(old(self)@.remaining) {
                        is_first_win(old(self)@.remaining, row as int, column as int)
                    } else {
                        is_last_cell(old(self)@.remaining, row as int, column as int)
                    }
                    &&& final(self)@ == old(self)@.chomped(row as int, column as int)
                    &&& old(self)@.verdict(row as int, column as int) == Ok::<bool, Seq<char>>(
                        lost,
                    )
                    &&& lost ==> old(self)@.remaining == set![(1int, 1int)]
                },
                None => {
                    &&& old(self)@.remaining == Set::<(int, int)>::empty()
                    &&& final(self)@ == old(self)@
                },
            },
    {
        let ghost cells = self@.remaining;
        let found = self.winning_move();
        let chosen = match found {
            Some(cell) => Some(cell),
            None => self.find_smallest_chomp(),
        };
        match chosen {
            None => None,
            Some((row, column)) => {
                proof {
                    if found is Some {
                        lemma_wins_takes_a_cell(cells, row as int, column as int);
                    }
                }
                match self.chomp(row, column) {
                    Ok(lost) => {
                        proof {
                            if lost {
                                assert forall|p: (int, int)| cells.contains(p) implies p == (
                                    1int,
                                    1int,
                                ) by {
                                    assert(crate::board::full_grid(
                                        old(self)@.rows,
                                        old(self)@.columns,
                                    ).contains(p));
                                }
                                assert(cells =~= set![(1int, 1int)]);
                            }
                        }
                        Some(((row, column), lost))
                    },
                    Err(_) => None,
                }
            },
        }
    }
}

} // verus!
