//! The board of a game of Chomp and the rule by which a move changes it.

use std::collections::HashSet;
use vstd::prelude::*;
use vstd::string::StringExecFns;

verus! {

broadcast use vstd::std_specs::hash::group_hash_axioms;

/// Widest board the game offers.
pub const MAX_COLUMNS: u8 = 5;

/// Tallest board the game offers.
pub const MAX_ROWS: u8 = 4;

/// Why a move at a cell outside the board is refused.
pub const OUT_OF_BOUNDS: &'static str = "Block does not exist";

/// Why a move at a cell that was eaten before is refused.
pub const ALREADY_CHOMPED: &'static str = "Block has already been chomped";

/// What a board is, mathematically: its size and the cells not yet eaten.
/// Cells are `(row, column)` pairs, both counted from 1.
pub struct Position {
    pub rows: int,
    pub columns: int,
    pub remaining: Set<(int, int)>,
}

/// The cells of a fresh `rows` by `columns` board.
pub open spec fn full_grid(rows: int, columns: int) -> Set<(int, int)> {
    Set::new(|p: (int, int)| 1 <= p.0 <= rows && 1 <= p.1 <= columns)
}

/// The cells that are left of `cells` once `(row, column)` is taken: the
/// cell itself and everything below and to the right of it go.
pub open spec fn after_chomp(cells: Set<(int, int)>, row: int, column: int) -> Set<(int, int)> {
    Set::new(|p: (int, int)| cells.contains(p) && !(p.0 >= row && p.1 >= column))
}

/// Reading order on cells: `a` stands in an earlier row than `b`, or in the
/// same row and an earlier column.
pub open spec fn reads_before(a: (int, int), b: (int, int)) -> bool {
    a.0 < b.0 || (a.0 == b.0 && a.1 < b.1)
}

/// `(row, column)` is the last of `cells` in reading order: it is one of
/// them and none of them comes after it.
pub open spec fn is_last_cell(cells: Set<(int, int)>, row: int, column: int) -> bool {
    &&& cells.contains((row, column))
    &&& forall|p: (int, int)| #[trigger] cells.contains(p) ==> !reads_before((row, column), p)
}

impl Position {
    /// The position a game starts from.
    pub open spec fn fresh(rows: int, columns: int) -> Position {
        Position { rows, columns, remaining: full_grid(rows, columns) }
    }

    /// A cell is only ever absent together with everything below and to the
    /// right of it; said the other way round, a cell that is left has every
    /// cell above and to the left of it left too.
    pub open spec fn quadrant_closed(self) -> bool {
        forall|r: int, c: int, r2: int, c2: int|
            1 <= r <= r2 && 1 <= c <= c2 && #[trigger] self.remaining.contains((r2, c2))
                ==> #[trigger] self.remaining.contains((r, c))
    }

    /// How a move at `(row, column)` is answered: with the flag that says
    /// whether the move loses the game, which it does exactly when it takes
    /// the poison cell `(1, 1)`, or with the reason for which it is refused.
    pub open spec fn verdict(self, row: int, column: int) -> Result<bool, Seq<char>> {
        if row > self.rows || column > self.columns {
            Err(OUT_OF_BOUNDS@)
        } else if !self.remaining.contains((row, column)) {
            Err(ALREADY_CHOMPED@)
        } else {
            Ok(row == 1 && column == 1)
        }
    }

    /// The position after a move at `(row, column)`: an accepted move takes
    /// the cell and everything below and to the right of it, a refused move
    /// changes nothing.
    pub open spec fn chomped(self, row: int, column: int) -> Position {
        if self.verdict(row, column) is Ok {
            Position {
                rows: self.rows,
                columns: self.columns,
                remaining: after_chomp(self.remaining, row, column),
            }
        } else {
            self
        }
    }

    /// The first `width` cells of row `row` as text: `x` for a cell that is
    /// left, a blank for one that is gone.
    pub open spec fn row_text(self, row: int, width: int) -> Seq<char> {
        Seq::new(
            width as nat,
            |j: int| if self.remaining.contains((row, j + 1)) { 'x' } else { ' ' },
        )
    }

    /// The first `height` rows as text, top row first, each row ended by a
    /// line feed.
    pub open spec fn picture(self, height: int) -> Seq<char>
        decreases height,
    {
        if height <= 0 {
            Seq::empty()
        } else {
            self.picture(height - 1) + self.row_text(height, self.columns) + seq!['\n']
        }
    }

    /// What holds of every position that play can reach.
    pub open spec fn wf(self) -> bool {
        &&& 0 <= self.rows <= u8::MAX
        &&& 0 <= self.columns <= u8::MAX
        &&& self.remaining.finite()
        &&& self.remaining.subset_of(full_grid(self.rows, self.columns))
        &&& self.quadrant_closed()
    }
}

/// The two reasons for refusing a move are told apart by their text.
pub proof fn lemma_reasons_differ()
    ensures
        OUT_OF_BOUNDS@ != ALREADY_CHOMPED@,
{
    reveal_strlit("Block does not exist");
    reveal_strlit("Block has already been chomped");
    assert(OUT_OF_BOUNDS@.len() == 20);
    assert(ALREADY_CHOMPED@.len() == 30);
}

impl Position {
    /// A fresh position is one that play can reach.
    pub proof fn lemma_fresh_wf(rows: int, columns: int)
        requires
            0 <= rows <= u8::MAX,
            0 <= columns <= u8::MAX,
        ensures
            Position::fresh(rows, columns).wf(),
    {
        let keys = Set::new(|k: u16| 1 <= k / 256 <= rows && 1 <= k % 256 <= columns);
        let all = Set::new(|k: u16| 0 <= k <= u16::MAX);
        assert(all =~= vstd::set_lib::set_int_range(0, 65536).map(|i: int| i as u16)) by {
            assert forall|k: u16| all.contains(k) implies vstd::set_lib::set_int_range(
                0,
                65536,
            ).map(|i: int| i as u16).contains(k) by {
                assert(vstd::set_lib::set_int_range(0, 65536).contains(k as int));
            }
        }
        vstd::set_lib::lemma_int_range(0, 65536);
        vstd::set_lib::set_int_range(0, 65536).lemma_map_finite(|i: int| i as u16);
        vstd::set_lib::lemma_set_subset_finite(all, keys);
        lemma_cells_of_finite(keys);
        assert forall|p: (int, int)| cells_of(keys).contains(p) <==> full_grid(
            rows,
            columns,
        ).contains(p) by {
            if 0 <= p.0 < 256 && 0 <= p.1 < 256 {
                lemma_key_holds_cell(p.0, p.1);
            }
        }
        assert(cells_of(keys) =~= full_grid(rows, columns));
    }

    /// A move at a cell outside the board is refused as out of bounds, and
    /// the position stays as it is.
    pub proof fn lemma_outside_is_refused(self, row: int, column: int)
        requires
            row > self.rows || column > self.columns,
        ensures
            self.verdict(row, column) == Err::<bool, Seq<char>>(OUT_OF_BOUNDS@),
            self.chomped(row, column) == self,
    {
    }

    /// A move at a cell of the board that is no longer there is refused as
    /// already chomped, and the position stays as it is.
    pub proof fn lemma_missing_is_refused(self, row: int, column: int)
        requires
            row <= self.rows,
            column <= self.columns,
            !self.remaining.contains((row, column)),
        ensures
            self.verdict(row, column) == Err::<bool, Seq<char>>(ALREADY_CHOMPED@),
            self.chomped(row, column) == self,
    {
    }

    /// After an accepted move at `(row, column)` no cell from there down and
    /// to the right is left, and every other cell is as it was before.
    pub proof fn lemma_accepted_takes_quadrant(self, row: int, column: int)
        requires
            self.verdict(row, column) is Ok,
        ensures
            forall|r: int, c: int|
                r >= row && c >= column ==> !#[trigger] self.chomped(
                    row,
                    column,
                ).remaining.contains((r, c)),
            forall|r: int, c: int|
                !(r >= row && c >= column) ==> (#[trigger] self.chomped(
                    row,
                    column,
                ).remaining.contains((r, c)) <==> self.remaining.contains((r, c))),
            self.chomped(row, column).rows == self.rows,
            self.chomped(row, column).columns == self.columns,
    {
    }

    /// An accepted move loses the game exactly when it is made at `(1, 1)`.
    pub proof fn lemma_loss_is_poison(self, row: int, column: int)
        requires
            self.verdict(row, column) is Ok,
        ensures
            self.verdict(row, column) == Ok::<bool, Seq<char>>(true) <==> row == 1 && column == 1,
    {
    }

    /// A refused move can be made again and again: the position stays the
    /// same and so does the answer.
    pub proof fn lemma_refusal_repeats(self, row: int, column: int)
        requires
            self.verdict(row, column) is Err,
        ensures
            self.chomped(row, column) == self,
            self.chomped(row, column).verdict(row, column) == self.verdict(row, column),
            self.chomped(row, column).chomped(row, column) == self,
    {
    }

    /// A move never adds a cell, and it leaves a position that play can
    /// reach as one.
    pub proof fn lemma_chomped_wf(self, row: int, column: int)
        requires
            self.wf(),
        ensures
            self.chomped(row, column).remaining.subset_of(self.remaining),
            self.chomped(row, column).wf(),
    {
        vstd::set_lib::lemma_set_subset_finite(
            self.remaining,
            self.chomped(row, column).remaining,
        );
    }

    /// Once the poison cell is gone, nothing is left of the board. So the
    /// move that loses the game takes every cell that was left.
    pub proof fn lemma_poison_goes_last(self, row: int, column: int)
        requires
            self.wf(),
        ensures
            !self.remaining.contains((1, 1)) ==> self.remaining == Set::<(int, int)>::empty(),
            self.verdict(row, column) == Ok::<bool, Seq<char>>(true) ==> self.chomped(
                row,
                column,
            ).remaining == Set::<(int, int)>::empty(),
    {
        if !self.remaining.contains((1, 1)) {
            assert forall|p: (int, int)| !self.remaining.contains(p) by {
                if self.remaining.contains(p) {
                    assert(full_grid(self.rows, self.columns).contains(p));
                    assert(self.remaining.contains((p.0, p.1)));
                }
            }
            assert(self.remaining =~= Set::<(int, int)>::empty());
        }
        if self.verdict(row, column) == Ok::<bool, Seq<char>>(true) {
            assert(self.chomped(row, column).remaining =~= Set::<(int, int)>::empty());
        }
    }
}

/// A Chomp board. The cells that are left are kept in a hash set, each under
/// the key `256 * row + column`.
pub struct Board {
    rows: u8,
    columns: u8,
    state: HashSet<u16>,
}

spec fn cell_key(row: int, column: int) -> u16 {
    (256 * row + column) as u16
}

/// The cells that a set of keys stands for.
spec fn cells_of(keys: Set<u16>) -> Set<(int, int)> {
    Set::new(
        |p: (int, int)| 0 <= p.0 < 256 && 0 <= p.1 < 256 && keys.contains(cell_key(p.0, p.1)),
    )
}

/// A cell within reach of the keys is found again in its key.
proof fn lemma_key_holds_cell(row: int, column: int)
    requires
        0 <= row < 256,
        0 <= column < 256,
    ensures
        cell_key(row, column) / 256 == row,
        cell_key(row, column) % 256 == column,
{
}

proof fn lemma_cells_of_finite(keys: Set<u16>)
    requires
        keys.finite(),
    ensures
        cells_of(keys).finite(),
{
    let decode = |k: u16| ((k / 256) as int, (k % 256) as int);
    keys.lemma_map_finite(decode);
    assert forall|p: (int, int)| cells_of(keys).contains(p) implies keys.map(decode).contains(
        p,
    ) by {
        let k = cell_key(p.0, p.1);
        lemma_key_holds_cell(p.0, p.1);
        assert(keys.contains(k) && decode(k) == p);
    }
    assert(cells_of(keys) =~= keys.map(decode));
}

fn key_of(row: u8, column: u8) -> (k: u16)
    ensures
        k == cell_key(row as int, column as int),
        k / 256 == row,
        k % 256 == column,
{
    256 * (row as u16) + (column as u16)
}

/// Removes from `state` the keys of the cells from `(row, column)` down and
/// to the right, as far as the board reaches.
fn clear_quadrant(state: &mut HashSet<u16>, rows: u8, columns: u8, row: u8, column: u8)
    requires
        row <= rows,
        column <= columns,
    ensures
        forall|k: u16|
            final(state)@.contains(k) <==> old(state)@.contains(k) && !(row <= k / 256 <= rows
                && column <= k % 256 <= columns),
{
    let mut c: u16 = column as u16;
    while c <= columns as u16
        invariant
            row <= rows,
            column <= c <= columns + 1,
            forall|k: u16|
                state@.contains(k) <==> old(state)@.contains(k) && !(row <= k / 256 <= rows
                    && column <= k % 256 < c),
        decreases columns + 1 - c,
    {
        let mut r: u16 = row as u16;
        while r <= rows as u16
            invariant
                column <= c <= columns,
                row <= r <= rows + 1,
                forall|k: u16|
                    state@.contains(k) <==> old(state)@.contains(k) && !(row <= k / 256 <= rows
                        && column <= k % 256 < c) && !(row <= k / 256 < r && k % 256 == c),
            decreases rows + 1 - r,
        {
            state.remove(&key_of(r as u8, c as u8));
            r += 1;
        }
        c += 1;
    }
}

/// `HashSet::clone`: the copy holds the same keys as the set it was made from.
#[verifier::external_body]
fn copy_keys(keys: &HashSet<u16>) -> (copy: HashSet<u16>)
    ensures
        copy@ == keys@,
{
    keys.clone()
}

impl View for Board {
    type V = Position;

    closed spec fn view(&self) -> Position {
        Position {
            rows: self.rows as int,
            columns: self.columns as int,
            remaining: cells_of(self.state@),
        }
    }
}

impl Board {
    /// A fresh board of `columns` by `rows` cells, none of them eaten.
    pub fn new(columns: u8, rows: u8) -> (board: Board)
        ensures
            board@ == Position::fresh(rows as int, columns as int),
            board@.wf(),
    {
        let mut state: HashSet<u16> = HashSet::new();
        let mut i: u8 = 0;
        while i < rows
            invariant
                i <= rows,
                state@.finite(),
                forall|k: u16|
                    state@.contains(k) <==> 1 <= k / 256 <= i && 1 <= k % 256 <= columns,
            decreases rows - i,
        {
            i += 1;
            let mut j: u8 = 0;
            while j < columns
                invariant
                    1 <= i <= rows,
                    j <= columns,
                    state@.finite(),
                    forall|k: u16|
                        state@.contains(k) <==> (1 <= k / 256 < i && 1 <= k % 256 <= columns) || (k
                            / 256 == i && 1 <= k % 256 <= j),
                decreases columns - j,
            {
                j += 1;
                state.insert(key_of(i, j));
            }
        }
        let board = Board { rows, columns, state };
        proof {
            lemma_cells_of_finite(state@);
            assert forall|p: (int, int)|
                board@.remaining.contains(p) <==> full_grid(
                    rows as int,
                    columns as int,
                ).contains(p) by {
                if 0 <= p.0 < 256 && 0 <= p.1 < 256 {
                    lemma_key_holds_cell(p.0, p.1);
                }
            }
            assert(board@.remaining =~= full_grid(rows as int, columns as int));
        }
        board
    }

    /// The number of rows the board was made with.
    pub fn rows(&self) -> (rows: u8)
        ensures
            rows == self@.rows,
    {
        self.rows
    }

    /// The number of columns the board was made with.
    pub fn columns(&self) -> (columns: u8)
        ensures
            columns == self@.columns,
    {
        self.columns
    }

    /// Takes the cell at `(row, column)` and with it every cell below and to
    /// the right. The flag that comes back says whether the move lost the
    /// game, which it does exactly when it took the poison cell `(1, 1)`.
    ///
    /// A cell outside the board is refused with [`OUT_OF_BOUNDS`], a cell
    /// that is no longer there with [`ALREADY_CHOMPED`]; a refused move
    /// leaves the board as it was.
    pub fn chomp(&mut self, row: u8, column: u8) -> (result: Result<bool, &'static str>)
        requires
            old(self)@.wf(),
        ensures
            final(self)@.wf(),
            final(self)@ == old(self)@.chomped(row as int, column as int),
            match result {
                Ok(lost) => old(self)@.verdict(row as int, column as int) == Ok::<
                    bool,
                    Seq<char>,
                >(lost),
                Err(reason) => old(self)@.verdict(row as int, column as int) == Err::<
                    bool,
                    Seq<char>,
                >(reason@),
            },
    {
        if row > self.rows || column > self.columns {
            return Err(OUT_OF_BOUNDS);
        }
        if !self.state.contains(&key_of(row, column)) {
            return Err(ALREADY_CHOMPED);
        }
        clear_quadrant(&mut self.state, self.rows, self.columns, row, column);
        proof {
            let cells = old(self)@.remaining;
            assert forall|p: (int, int)|
                self@.remaining.contains(p) <==> after_chomp(
                    cells,
                    row as int,
                    column as int,
                ).contains(p) by {
                if 0 <= p.0 < 256 && 0 <= p.1 < 256 {
                    lemma_key_holds_cell(p.0, p.1);
                    if cells.contains(p) {
                        assert(full_grid(self.rows as int, self.columns as int).contains(p));
                    }
                }
            }
            assert(self@.remaining =~= after_chomp(cells, row as int, column as int));
            vstd::set_lib::lemma_set_subset_finite(cells, self@.remaining);
            assert(self@ =~= old(self)@.chomped(row as int, column as int));
        }
        Ok(row == 1 && column == 1)
    }

    /// The move to make when no move wins: the last cell in reading order,
    /// that is the cell of the lowest row that has one left, and in that row
    /// the one furthest right. `None` means that no cell is left at all.
    /// The board is only read.
    pub fn find_smallest_chomp(&mut self) -> (result: Option<(u8, u8)>)
        requires
            old(self)@.wf(),
        ensures
            *final(self) == *old(self),
            match result {
                Some((row, column)) => is_last_cell(
                    old(self)@.remaining,
                    row as int,
                    column as int,
                ),
                None => old(self)@.remaining == Set::<(int, int)>::empty(),
            },
    {
        let mut r: u8 = self.rows;
        while r > 0
            invariant
                *self == *old(self),
                self@.wf(),
                r <= self.rows,
                forall|p: (int, int)| #[trigger] self@.remaining.contains(p) ==> p.0 <= r,
            decreases r,
        {
            let mut c: u8 = self.columns;
            while c > 0
                invariant
                    *self == *old(self),
                    self@.wf(),
                    1 <= r <= self.rows,
                    c <= self.columns,
                    forall|p: (int, int)| #[trigger]
                        self@.remaining.contains(p) ==> p.0 < r || (p.0 == r && p.1 <= c),
                decreases c,
            {
                if self.contains(r, c) {
                    return Some((r, c));
                }
                c -= 1;
            }
            r -= 1;
        }
        assert(self@.remaining =~= Set::<(int, int)>::empty());
        None
    }

    /// The board as text, one line for each row: `x` for a cell that is
    /// left, a blank for one that is gone.
    pub fn render(&self) -> (text: String)
        ensures
            text@ == self@.picture(self@.rows),
    {
        let mut text = String::new();
        let mut i: u8 = 0;
        while i < self.rows
            invariant
                i <= self.rows,
                text@ == self@.picture(i as int),
            decreases self.rows - i,
        {
            i += 1;
            let ghost above = text@;
            let mut j: u8 = 0;
            while j < self.columns
                invariant
                    j <= self.columns,
                    text@ == above + self@.row_text(i as int, j as int),
                decreases self.columns - j,
            {
                j += 1;
                proof {
                    reveal_strlit("x");
                    reveal_strlit(" ");
                }
                let ghost line = self@.row_text(i as int, j as int);
                if self.contains(i, j) {
                    text.append("x");
                    assert(line =~= self@.row_text(i as int, j - 1) + "x"@);
                } else {
                    text.append(" ");
                    assert(line =~= self@.row_text(i as int, j - 1) + " "@);
                }
                assert(text@ =~= above + line);
            }
            proof {
                reveal_strlit("\n");
            }
            text.append("\n");
            assert("\n"@ =~= seq!['\n']);
        }
        text
    }

    /// Whether the cell at `(row, column)` is still there.
    pub fn contains(&self, row: u8, column: u8) -> (present: bool)
        ensures
            present == self@.remaining.contains((row as int, column as int)),
    {
        self.state.contains(&key_of(row, column))
    }
}

impl Clone for Board {
    /// A board of its own with the same size and the same cells left.
    fn clone(&self) -> (copy: Board)
        ensures
            copy@ == self@,
    {
        Board { rows: self.rows, columns: self.columns, state: copy_keys(&self.state) }
    }
}

impl Default for Board {
    /// A fresh board of the greatest size the game offers.
    fn default() -> (board: Board)
        ensures
            board@ == Position::fresh(MAX_ROWS as int, MAX_COLUMNS as int),
            board@.wf(),
    {
        Board::new(MAX_COLUMNS, MAX_ROWS)
    }
}

} // verus!
