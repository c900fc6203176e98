//! Perfect play: which moves win, and the search that finds the first of them.

use crate::board::{after_chomp, reads_before, Board};
use vstd::prelude::*;

verus! {

/// Taking a cell that is there leaves fewer cells.
pub proof fn lemma_chomp_shrinks(cells: Set<(int, int)>, row: int, column: int)
    requires
        cells.finite(),
        cells.contains((row, column)),
    ensures
        after_chomp(cells, row, column).finite(),
        after_chomp(cells, row, column).len() < cells.len(),
{
    let rest = after_chomp(cells, row, column);
    let others = cells.remove((row, column));
    assert(rest.subset_of(others));
    vstd::set_lib::lemma_len_subset(rest, others);
}

/// Taking `(row, column)` from `cells` is a winning move: the cell is there,
/// it is not the poison cell `(1, 1)`, and whoever moves next has no winning
/// move.
pub open spec fn wins(cells: Set<(int, int)>, row: int, column: int) -> bool
    decreases cells.len(), 0nat,
    when cells.finite()
{
    if cells.contains((row, column)) && (row, column) != (1int, 1int) {
        proof {
            lemma_chomp_shrinks(cells, row, column);
        }
        !winnable(after_chomp(cells, row, column))
    } else {
        false
    }
}

/// The player to move at `cells` has a winning move: one of the cells that
/// are left wins.
pub open spec fn winnable(cells: Set<(int, int)>) -> bool
    decreases cells.len(), 1nat,
    when cells.finite()
{
    exists|row: int, column: int| #[trigger]
        cells.contains((row, column)) && wins(cells, row, column)
}

/// `(row, column)` is the first winning move at `cells` in reading order.
pub open spec fn is_first_win(cells: Set<(int, int)>, row: int, column: int) -> bool {
    &&& wins(cells, row, column)
    &&& forall|r: int, c: int| #[trigger] wins(cells, r, c) ==> !reads_before((r, c), (row, column))
}

/// A winning move is a cell that is there, and never the poison cell.
pub proof fn lemma_wins_takes_a_cell(cells: Set<(int, int)>, row: int, column: int)
    requires
        cells.finite(),
        wins(cells, row, column),
    ensures
        cells.contains((row, column)),
        (row, column) != (1int, 1int),
        !winnable(after_chomp(cells, row, column)),
        winnable(cells),
{
    lemma_chomp_shrinks(cells, row, column);
}

/// Where no cell wins, the position cannot be won.
pub proof fn lemma_no_winning_cell(cells: Set<(int, int)>)
    requires
        cells.finite(),
        forall|row: int, column: int| #[trigger]
            cells.contains((row, column)) ==> !wins(cells, row, column),
    ensures
        !winnable(cells),
{
}

impl Board {
    /// Searches every line of play for a winning move and returns the first
    /// one in reading order, or `None` when every move loses against best
    /// play. The poison cell is never offered.
    pub fn winning_move(&self) -> (result: Option<(u8, u8)>)
        requires
            self@.wf(),
        ensures
            match result {
                Some((row, column)) => is_first_win(self@.remaining, row as int, column as int),
                None => !winnable(self@.remaining),
            },
            result != Some((1u8, 1u8)),
        decreases self@.remaining.len(),
    {
        let ghost cells = self@.remaining;
        let rows = self.rows();
        let columns = self.columns();
        let mut i: u8 = 0;
        while i < rows
            invariant
                self@.wf(),
                cells == self@.remaining,
                rows == self@.rows,
                columns == self@.columns,
                i <= rows,
                forall|r: int, c: int| #[trigger]
                    cells.contains((r, c)) && wins(cells, r, c) ==> r > i,
            decreases rows - i,
        {
            i += 1;
            let mut j: u8 = 0;
            while j < columns
                invariant
                    self@.wf(),
                    cells == self@.remaining,
                    rows == self@.rows,
                    columns == self@.columns,
                    1 <= i <= rows,
                    j <= columns,
                    forall|r: int, c: int| #[trigger]
                        cells.contains((r, c)) && wins(cells, r, c) ==> r > i || (r == i && c
                            > j),
                decreases columns - j,
            {
                j += 1;
                if self.contains(i, j) && !(i == 1 && j == 1) {
                    let mut next = self.clone();
                    match next.chomp(i, j) {
                        Ok(_) => (),
                        Err(_) => {
                            return None;
                        },
                    }
                    proof {
                        lemma_chomp_shrinks(cells, i as int, j as int);
                    }
                    let reply = next.winning_move();
                    match reply {
                        None => {
                            return Some((i, j));
                        },
                        Some((r, c)) => {
                            proof {
                                lemma_wins_takes_a_cell(next@.remaining, r as int, c as int);
                            }
                        },
                    }
                }
            }
        }
        proof {
            lemma_no_winning_cell(cells);
        }
        None
    }
}

} // verus!
