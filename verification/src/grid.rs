//! The square letter grid, and the rules for writing words onto it.

use vstd::prelude::*;

use crate::direction::Direction;
use crate::word::{is_upper_letter, Word};

verus! {

/// The row of the `i`-th cell of a path that starts in row `row`.
pub open spec fn path_row(row: int, direction: Direction, i: int) -> int {
    row + direction.row_step() * i
}

/// The column of the `i`-th cell of a path that starts in column `col`.
pub open spec fn path_col(col: int, direction: Direction, i: int) -> int {
    col + direction.col_step() * i
}

/// The only position at which a path from `(row, col)` can pass through
/// `(r, c)`: the distance along an axis on which the direction moves.
pub open spec fn path_index(row: int, col: int, direction: Direction, r: int, c: int) -> int {
    if direction.row_step() != 0 {
        (r - row) * direction.row_step()
    } else {
        (c - col) * direction.col_step()
    }
}

/// Whether the first `len` cells of the path from `(row, col)` include
/// `(r, c)`.
pub open spec fn path_covers(
    row: int,
    col: int,
    direction: Direction,
    len: int,
    r: int,
    c: int,
) -> bool {
    let i = path_index(row, col, direction, r, c);
    0 <= i < len && path_row(row, direction, i) == r && path_col(col, direction, i) == c
}

/// A step of -1, 0 or 1 taken `i` times moves by `-i`, `0` or `i`.
pub proof fn lemma_scaled_step(step: int, i: int)
    requires
        -1 <= step <= 1,
    ensures
        step * i == (if step == 0 {
            0
        } else if step == 1 {
            i
        } else {
            -i
        }),
        i * step == step * i,
{
    assert(step * i == (if step == 0 {
        0
    } else if step == 1 {
        i
    } else {
        -i
    }) && i * step == step * i) by (nonlinear_arith)
        requires
            -1 <= step <= 1,
    ;
}

/// The `i`-th cell of a path is found again at position `i`, and no other
/// position of the path lies on that cell.
pub proof fn lemma_path_cells_distinct(row: int, col: int, direction: Direction, i: int, j: int)
    ensures
        path_index(
            row,
            col,
            direction,
            path_row(row, direction, i),
            path_col(col, direction, i),
        ) == i,
        path_row(row, direction, i) == path_row(row, direction, j) && path_col(col, direction, i)
            == path_col(col, direction, j) ==> i == j,
{
    lemma_scaled_step(direction.row_step(), i);
    lemma_scaled_step(direction.col_step(), i);
    lemma_scaled_step(direction.row_step(), j);
    lemma_scaled_step(direction.col_step(), j);
    lemma_scaled_step(direction.row_step(), direction.row_step() * i);
    lemma_scaled_step(direction.col_step(), direction.col_step() * i);
}

/// How many cells of a row are empty.
pub open spec fn blanks_in(line: Seq<Option<char>>) -> nat
    decreases line.len(),
{
    if line.len() == 0 {
        0
    } else {
        blanks_in(line.drop_last()) + if line.last() is None {
            1nat
        } else {
            0nat
        }
    }
}

/// How many cells of the given rows are empty.
pub open spec fn blanks_in_rows(rows: Seq<Seq<Option<char>>>) -> nat
    decreases rows.len(),
{
    if rows.len() == 0 {
        0
    } else {
        blanks_in_rows(rows.drop_last()) + blanks_in(rows.last())
    }
}

/// The character shown for a cell: its letter, or `blank` if it is empty.
pub open spec fn shown(cell: Option<char>, blank: char) -> char {
    match cell {
        Some(c) => c,
        None => blank,
    }
}

/// The text of one row: each cell's character followed by a space.
pub open spec fn line_text(line: Seq<Option<char>>, blank: char) -> Seq<char>
    decreases line.len(),
{
    if line.len() == 0 {
        Seq::empty()
    } else {
        line_text(line.drop_last(), blank).push(shown(line.last(), blank)).push(' ')
    }
}

/// The text of the given rows: each row's text followed by a line feed.
pub open spec fn rows_text(rows: Seq<Seq<Option<char>>>, blank: char) -> Seq<char>
    decreases rows.len(),
{
    if rows.len() == 0 {
        Seq::empty()
    } else {
        rows_text(rows.drop_last(), blank) + line_text(rows.last(), blank).push('\n')
    }
}

/// Whether `letters` fit on rows of cells of the given size from
/// `(row, col)` along `direction`: each cell of the path lies within the
/// size and is empty or holds the letter that would be written there.
pub open spec fn cells_fit(
    cells: Seq<Seq<Option<char>>>,
    size: int,
    letters: Seq<char>,
    row: int,
    col: int,
    direction: Direction,
) -> bool {
    forall|i: int|
        0 <= i < letters.len() ==> {
            let r = #[trigger] path_row(row, direction, i);
            let c = path_col(col, direction, i);
            &&& 0 <= r < size
            &&& 0 <= c < size
            &&& (cells[r][c] is None || cells[r][c] == Some(letters[i]))
        }
}

/// The rows of cells with `letters` written from `(row, col)` along
/// `direction`: each cell on the path holds its letter, and every other
/// cell is as it was.
pub open spec fn cells_written(
    cells: Seq<Seq<Option<char>>>,
    letters: Seq<char>,
    row: int,
    col: int,
    direction: Direction,
) -> Seq<Seq<Option<char>>> {
    Seq::new(
        cells.len(),
        |r: int|
            Seq::new(
                cells[r].len(),
                |c: int|
                    if path_covers(row, col, direction, letters.len() as int, r, c) {
                        Some(letters[path_index(row, col, direction, r, c)])
                    } else {
                        cells[r][c]
                    },
            ),
    )
}

/// `size` rows of `size` empty cells.
pub open spec fn blank_rows(size: int) -> Seq<Seq<Option<char>>> {
    Seq::new(size as nat, |r: int| Seq::new(size as nat, |c: int| None::<char>))
}

/// A square grid of cells, each empty or holding one letter.
#[derive(Debug, Clone)]
pub struct Grid {
    pub cells: Vec<Vec<Option<char>>>,
    pub size: usize,
}

/// Where a word was placed: its first cell and the direction it runs in.
#[derive(Debug, Clone)]
pub struct PlacementResult {
    pub word: Word,
    pub row: usize,
    pub col: usize,
    pub direction: Direction,
}

impl View for Grid {
    type V = Seq<Seq<Option<char>>>;

    /// The rows of the grid, each the sequence of its cells.
    open spec fn view(&self) -> Seq<Seq<Option<char>>> {
        Seq::new(self.cells@.len(), |r: int| self.cells@[r]@)
    }
}

impl Grid {
    /// A grid is well formed when it has `size` rows of `size` cells.
    pub open spec fn wf(&self) -> bool {
        &&& self.cells@.len() == self.size
        &&& forall|r: int| 0 <= r < self.size ==> (#[trigger] self.cells@[r])@.len() == self.size
    }

    /// Whether `(row, col)` is a cell of the grid.
    pub open spec fn inside(&self, row: int, col: int) -> bool {
        0 <= row < self.size && 0 <= col < self.size
    }

    /// The letter in cell `(row, col)`; `None` where the cell is empty or
    /// outside the grid.
    pub open spec fn at(&self, row: int, col: int) -> Option<char> {
        if self.inside(row, col) {
            self.cells@[row]@[col]
        } else {
            None
        }
    }

    /// Whether every cell is empty.
    pub open spec fn is_blank(&self) -> bool {
        forall|r: int, c: int| self.inside(r, c) ==> #[trigger] self.at(r, c) is None
    }

    /// Whether no cell is empty.
    pub open spec fn is_full(&self) -> bool {
        forall|r: int, c: int| self.inside(r, c) ==> #[trigger] self.at(r, c) is Some
    }

    /// Whether every letter in the grid is one of `A` to `Z`.
    pub open spec fn holds_upper_letters(&self) -> bool {
        forall|r: int, c: int|
            self.inside(r, c) && (#[trigger] self.at(r, c)) is Some ==> is_upper_letter(
                self.at(r, c)->0,
            )
    }

    /// Whether the `i`-th cell of the path from `(row, col)` lies in the
    /// grid and is empty or already holds the `i`-th of `letters`.
    pub open spec fn accepts_at(
        &self,
        letters: Seq<char>,
        row: int,
        col: int,
        direction: Direction,
        i: int,
    ) -> bool {
        let r = path_row(row, direction, i);
        let c = path_col(col, direction, i);
        &&& self.inside(r, c)
        &&& (self.at(r, c) is None || self.at(r, c) == Some(letters[i]))
    }

    /// Whether the `i`-th cell of the path from `(row, col)` lies in the
    /// grid and holds the `i`-th of `letters`.
    pub open spec fn shows_at(
        &self,
        letters: Seq<char>,
        row: int,
        col: int,
        direction: Direction,
        i: int,
    ) -> bool {
        let r = path_row(row, direction, i);
        let c = path_col(col, direction, i);
        &&& self.inside(r, c)
        &&& self.at(r, c) == Some(letters[i])
    }

    /// Whether `letters` can be written from `(row, col)` along `direction`:
    /// each cell of the path lies in the grid and is empty or already holds
    /// the letter that would be written there.
    pub open spec fn fits(&self, letters: Seq<char>, row: int, col: int, direction: Direction) -> bool {
        forall|i: int|
            0 <= i < letters.len() ==> #[trigger] self.accepts_at(letters, row, col, direction, i)
    }

    /// Whether `letters` can be read in the grid from `(row, col)` along
    /// `direction`.
    pub open spec fn spells(&self, letters: Seq<char>, row: int, col: int, direction: Direction) -> bool {
        forall|i: int|
            0 <= i < letters.len() ==> #[trigger] self.shows_at(letters, row, col, direction, i)
    }

    /// Whether `self` is `before` with `letters` written from `(row, col)`
    /// along `direction`: each cell on the path holds its letter, and every
    /// other cell is as it was. Steps that leave the grid write nothing.
    pub open spec fn is_written(
        &self,
        before: &Grid,
        letters: Seq<char>,
        row: int,
        col: int,
        direction: Direction,
    ) -> bool {
        &&& self.wf()
        &&& self.size == before.size
        &&& forall|r: int, c: int|
            self.inside(r, c) ==> #[trigger] self.at(r, c) == if path_covers(
                row,
                col,
                direction,
                letters.len() as int,
                r,
                c,
            ) {
                Some(letters[path_index(row, col, direction, r, c)])
            } else {
                before.at(r, c)
            }
    }

    /// Creates an empty grid of `size` rows and `size` columns.
    pub fn new(size: usize) -> (grid: Self)
        ensures
            grid.wf(),
            grid.size == size,
            grid.is_blank(),
    {
        let mut cells: Vec<Vec<Option<char>>> = Vec::new();
        let mut r: usize = 0;
        while r < size
            invariant
                r <= size,
                cells@.len() == r,
                forall|k: int| 0 <= k < r ==> (#[trigger] cells@[k])@.len() == size,
                forall|k: int, c: int|
                    0 <= k < r && 0 <= c < size ==> (#[trigger] cells@[k]@[c]) is None,
            decreases size - r,
        {
            let mut line: Vec<Option<char>> = Vec::new();
            let mut c: usize = 0;
            while c < size
                invariant
                    c <= size,
                    line@.len() == c,
                    forall|k: int| 0 <= k < c ==> (#[trigger] line@[k]) is None,
                decreases size - c,
            {
                line.push(None);
                c += 1;
            }
            cells.push(line);
            r += 1;
        }
        Self { cells, size }
    }

    /// Gets the letter at a position, if the position is in the grid and
    /// holds one.
    pub fn get(&self, row: usize, col: usize) -> (cell: Option<char>)
        requires
            self.wf(),
        ensures
            cell == self.at(row as int, col as int),
    {
        if row < self.size && col < self.size {
            self.cells[row][col]
        } else {
            None
        }
    }

    /// Writes a letter at a position; does nothing if the position is not
    /// in the grid.
    pub fn set(&mut self, row: usize, col: usize, ch: char)
        requires
            old(self).wf(),
        ensures
            final(self).wf(),
            final(self).size == old(self).size,
            forall|r: int, c: int|
                #[trigger] final(self).at(r, c) == if r == row && c == col && old(self).inside(
                    r,
                    c,
                ) {
                    Some(ch)
                } else {
                    old(self).at(r, c)
                },
            final(self)@ == if old(self).inside(row as int, col as int) {
                old(self)@.update(row as int, old(self)@[row as int].update(col as int, Some(ch)))
            } else {
                old(self)@
            },
    {
        if row < self.size && col < self.size {
            self.cells[row][col] = Some(ch);
            assert(self@ =~= old(self)@.update(
                row as int,
                old(self)@[row as int].update(col as int, Some(ch)),
            ));
        }
    }

    /// Checks whether a signed position is within the grid.
    pub fn in_bounds(&self, row: i32, col: i32) -> (b: bool)
        ensures
            b == self.inside(row as int, col as int),
    {
        row >= 0 && col >= 0 && (row as usize) < self.size && (col as usize) < self.size
    }

    /// The coordinate reached from `start` by `i` steps of `delta`, if it
    /// lies in the grid.
    fn stepped(&self, start: usize, delta: i32, i: usize) -> (reached: Option<usize>)
        requires
            -1 <= delta <= 1,
        ensures
            reached == (if 0 <= start + delta * i < self.size {
                Some((start + delta * i) as usize)
            } else {
                None
            }),
    {
        proof {
            lemma_scaled_step(delta as int, i as int);
        }
        if delta == 0 {
            if start < self.size {
                Some(start)
            } else {
                None
            }
        } else if delta > 0 {
            if start < self.size && i < self.size - start {
                Some(start + i)
            } else {
                None
            }
        } else {
            if i <= start && start - i < self.size {
                Some(start - i)
            } else {
                None
            }
        }
    }

    /// Validates whether a word can be placed from the given position along
    /// the given direction: every cell of its path must lie in the grid and
    /// be empty or hold the letter the word would write there.
    pub fn can_place(&self, word: &Word, start_row: usize, start_col: usize, direction: Direction) -> (ok: bool)
        requires
            self.wf(),
        ensures
            ok == self.fits(word.letters(), start_row as int, start_col as int, direction),
            ok ==> word.letters().len() <= self.size,
    {
        proof {
            if self.fits(word.letters(), start_row as int, start_col as int, direction) {
                lemma_fitting_word_is_short(
                    self,
                    word.letters(),
                    start_row as int,
                    start_col as int,
                    direction,
                );
            }
        }
        let (dr, dc) = direction.deltas();
        let chars = word.chars();

        let mut i: usize = 0;
        while i < chars.len()
            invariant
                self.wf(),
                i <= chars@.len(),
                chars@ == word.letters(),
                dr == direction.row_step(),
                dc == direction.col_step(),
                self.fits(chars@.take(i as int), start_row as int, start_col as int, direction),
            decreases chars@.len() - i,
        {
            let ch = chars[i];
            let row = self.stepped(start_row, dr, i);
            let col = self.stepped(start_col, dc, i);
            let free = match (row, col) {
                (Some(r), Some(c)) => match self.get(r, c) {
                    Some(existing) => existing == ch,
                    None => true,
                },
                _ => false,
            };
            if !free {
                assert(!self.accepts_at(
                    chars@,
                    start_row as int,
                    start_col as int,
                    direction,
                    i as int,
                ));
                return false;
            }
            proof {
                let seen = chars@.take(i as int);
                let next = chars@.take(i + 1);
                assert forall|k: int| 0 <= k < next.len() implies #[trigger] self.accepts_at(
                    next,
                    start_row as int,
                    start_col as int,
                    direction,
                    k,
                ) by {
                    if k < i {
                        assert(self.accepts_at(seen, start_row as int, start_col as int, direction, k));
                        assert(seen[k] == next[k]);
                    }
                }
            }
            i += 1;
        }
        assert(chars@.take(chars@.len() as int) == chars@);
        true
    }

    /// Places a word from the given position along the given direction and
    /// returns the record of the placement. Letters whose cell would lie
    /// outside the grid are not written; callers check `can_place` first.
    pub fn place_word(
        &mut self,
        word: &Word,
        start_row: usize,
        start_col: usize,
        direction: Direction,
    ) -> (placement: PlacementResult)
        requires
            old(self).wf(),
        ensures
            final(self).is_written(
                old(self),
                word.letters(),
                start_row as int,
                start_col as int,
                direction,
            ),
            placement.word == *word,
            placement.row == start_row,
            placement.col == start_col,
            placement.direction == direction,
    {
        let (dr, dc) = direction.deltas();
        let chars = word.chars();

        let mut i: usize = 0;
        while i < chars.len()
            invariant
                i <= chars@.len(),
                chars@ == word.letters(),
                dr == direction.row_step(),
                dc == direction.col_step(),
                self.is_written(
                    old(self),
                    chars@.take(i as int),
                    start_row as int,
                    start_col as int,
                    direction,
                ),
            decreases chars@.len() - i,
        {
            let ch = chars[i];
            let row = self.stepped(start_row, dr, i);
            let col = self.stepped(start_col, dc, i);
            let ghost before = *self;
            match (row, col) {
                (Some(r), Some(c)) => {
                    self.set(r, c, ch);
                },
                _ => {},
            }
            proof {
                let done = chars@.take(i as int);
                let next = chars@.take(i + 1);
                assert(next == done.push(ch));
                assert forall|r: int, c: int| self.inside(r, c) implies #[trigger] self.at(r, c)
                    == if path_covers(
                    start_row as int,
                    start_col as int,
                    direction,
                    next.len() as int,
                    r,
                    c,
                ) {
                    Some(next[path_index(start_row as int, start_col as int, direction, r, c)])
                } else {
                    old(self).at(r, c)
                } by {
                    let k = path_index(start_row as int, start_col as int, direction, r, c);
                    lemma_path_cells_distinct(
                        start_row as int,
                        start_col as int,
                        direction,
                        i as int,
                        k,
                    );
                    assert(before.inside(r, c));
                }
            }
            i += 1;
        }
        assert(chars@.take(chars@.len() as int) == chars@);

        PlacementResult { word: word.clone(), row: start_row, col: start_col, direction }
    }

    /// Lists the cells to highlight for the given placements: for each
    /// placement in turn, the cells of its path that lie in the grid. With
    /// no placements given, no cell is listed.
    pub fn highlighted_cells(&self, highlights: Option<&[PlacementResult]>) -> (cells: Vec<
        (usize, usize),
    >)
        ensures
            highlights is None ==> cells@.len() == 0,
            highlights is Some ==> cells@ == cells_covered(self.size as int, highlights->0@),
    {
        let mut cells: Vec<(usize, usize)> = Vec::new();
        if let Some(placements) = highlights {
            let mut k: usize = 0;
            while k < placements.len()
                invariant
                    k <= placements@.len(),
                    cells@ == cells_covered(self.size as int, placements@.take(k as int)),
                decreases placements@.len() - k,
            {
                let placement = &placements[k];
                let (dr, dc) = placement.direction.deltas();
                let word_len = placement.word.len();
                let ghost above = cells@;
                let mut i: usize = 0;
                while i < word_len
                    invariant
                        i <= word_len,
                        dr == placement.direction.row_step(),
                        dc == placement.direction.col_step(),
                        cells@ == above + path_cells_within(
                            self.size as int,
                            placement.row as int,
                            placement.col as int,
                            placement.direction,
                            i as int,
                        ),
                    decreases word_len - i,
                {
                    let row = self.stepped(placement.row, dr, i);
                    let col = self.stepped(placement.col, dc, i);
                    match (row, col) {
                        (Some(r), Some(c)) => {
                            cells.push((r, c));
                        },
                        _ => {},
                    }
                    i += 1;
                }
                assert(placements@.take(k + 1).drop_last() == placements@.take(k as int));
                k += 1;
            }
            assert(placements@.take(placements@.len() as int) == placements@);
        }
        cells
    }

    /// How many cells are empty.
    pub open spec fn blank_cells(&self) -> nat {
        blanks_in_rows(self@)
    }

    /// The grid as text: one line per row, each cell followed by a space;
    /// an empty cell is shown as `.` or as a space.
    pub open spec fn rendered(&self, show_empty_as_dot: bool) -> Seq<char> {
        rows_text(
            self@,
            if show_empty_as_dot {
                '.'
            } else {
                ' '
            },
        )
    }

    /// Counts the number of empty cells.
    pub fn empty_count(&self) -> (count: usize)
        requires
            self.wf(),
            self.size * self.size <= usize::MAX,
        ensures
            count == self.blank_cells(),
    {
        let mut count: usize = 0;
        let mut r: usize = 0;
        while r < self.size
            invariant
                self.wf(),
                self.size * self.size <= usize::MAX,
                r <= self.size,
                count == blanks_in_rows(self@.take(r as int)),
                count <= r * self.size,
            decreases self.size - r,
        {
            let ghost line = self@[r as int];
            let mut c: usize = 0;
            let mut in_line: usize = 0;
            while c < self.size
                invariant
                    self.wf(),
                    r < self.size,
                    c <= self.size,
                    line == self@[r as int],
                    in_line == blanks_in(line.take(c as int)),
                    in_line <= c,
                decreases self.size - c,
            {
                assert(line.take(c + 1).drop_last() == line.take(c as int));
                if self.cells[r][c].is_none() {
                    in_line += 1;
                }
                c += 1;
            }
            proof {
                assert(line.take(self.size as int) == line);
                assert(self@.take(r + 1).drop_last() == self@.take(r as int));
                assert((r + 1) * self.size == r * self.size + self.size) by (nonlinear_arith);
                assert((r + 1) * self.size <= self.size * self.size) by (nonlinear_arith)
                    requires
                        r + 1 <= self.size,
                ;
            }
            count += in_line;
            r += 1;
        }
        assert(self@.take(self.size as int) == self@);
        count
    }

    /// Displays the grid as text, one line per row.
    pub fn display(&self, show_empty_as_dot: bool) -> (text: String)
        requires
            self.wf(),
        ensures
            text@ == self.rendered(show_empty_as_dot),
    {
        let blank = if show_empty_as_dot {
            '.'
        } else {
            ' '
        };
        let mut output = String::new();
        let mut r: usize = 0;
        while r < self.size
            invariant
                self.wf(),
                r <= self.size,
                output@ == rows_text(self@.take(r as int), blank),
            decreases self.size - r,
        {
            let ghost line = self@[r as int];
            let ghost above = output@;
            let mut c: usize = 0;
            while c < self.size
                invariant
                    self.wf(),
                    r < self.size,
                    c <= self.size,
                    line == self@[r as int],
                    output@ == above + line_text(line.take(c as int), blank),
                decreases self.size - c,
            {
                assert(line.take(c + 1).drop_last() == line.take(c as int));
                let ch = match self.cells[r][c] {
                    Some(letter) => letter,
                    None => blank,
                };
                output.push(ch);
                output.push(' ');
                c += 1;
            }
            output.push('\n');
            proof {
                assert(line.take(self.size as int) == line);
                assert(self@.take(r + 1).drop_last() == self@.take(r as int));
            }
            r += 1;
        }
        assert(self@.take(self.size as int) == self@);
        output
    }
}

impl PlacementResult {
    /// Whether the placed word can be read in `grid` at its recorded place.
    pub open spec fn spelled_in(&self, grid: &Grid) -> bool {
        grid.spells(self.word.letters(), self.row as int, self.col as int, self.direction)
    }

    /// The cell that holds the `i`-th letter of the placed word.
    pub open spec fn cell(&self, i: int) -> (int, int) {
        (path_row(self.row as int, self.direction, i), path_col(self.col as int, self.direction, i))
    }
}

/// The cells of the grid among the first `n` cells of a path, in the order
/// of the path. Cells of the path outside the grid are left out.
pub open spec fn path_cells_within(
    grid_size: int,
    row: int,
    col: int,
    direction: Direction,
    n: int,
) -> Seq<(usize, usize)>
    decreases n,
{
    if n <= 0 {
        Seq::empty()
    } else {
        let r = path_row(row, direction, n - 1);
        let c = path_col(col, direction, n - 1);
        let before = path_cells_within(grid_size, row, col, direction, n - 1);
        if 0 <= r < grid_size && 0 <= c < grid_size {
            before.push((r as usize, c as usize))
        } else {
            before
        }
    }
}

/// The cells that the given placements cover in a grid of the given size:
/// those of the first placement, then those of the second, and so on.
pub open spec fn cells_covered(grid_size: int, placements: Seq<PlacementResult>) -> Seq<
    (usize, usize),
>
    decreases placements.len(),
{
    if placements.len() == 0 {
        Seq::empty()
    } else {
        let p = placements.last();
        cells_covered(grid_size, placements.drop_last()) + path_cells_within(
            grid_size,
            p.row as int,
            p.col as int,
            p.direction,
            p.word.letters().len() as int,
        )
    }
}

/// A row has as many empty cells as it is long exactly if all its cells
/// are empty, and none exactly if all its cells hold a letter.
pub proof fn lemma_blanks_in_line(line: Seq<Option<char>>)
    ensures
        blanks_in(line) <= line.len(),
        blanks_in(line) == line.len() <==> forall|c: int|
            0 <= c < line.len() ==> (#[trigger] line[c]) is None,
        blanks_in(line) == 0 <==> forall|c: int| 0 <= c < line.len() ==> (#[trigger] line[c]) is Some,
    decreases line.len(),
{
    if line.len() > 0 {
        let front = line.drop_last();
        lemma_blanks_in_line(front);
        assert forall|c: int| 0 <= c < front.len() implies front[c] == line[c] by {}
        if forall|c: int| 0 <= c < line.len() ==> (#[trigger] line[c]) is None {
            assert forall|c: int| 0 <= c < front.len() implies (#[trigger] front[c]) is None by {
                assert(line[c] is None);
            }
        }
        if forall|c: int| 0 <= c < line.len() ==> (#[trigger] line[c]) is Some {
            assert forall|c: int| 0 <= c < front.len() implies (#[trigger] front[c]) is Some by {
                assert(line[c] is Some);
            }
        }
        if blanks_in(line) == line.len() {
            assert forall|c: int| 0 <= c < line.len() implies (#[trigger] line[c]) is None by {
                if c < front.len() {
                    assert(front[c] is None);
                }
            }
        }
        if blanks_in(line) == 0 {
            assert forall|c: int| 0 <= c < line.len() implies (#[trigger] line[c]) is Some by {
                if c < front.len() {
                    assert(front[c] is Some);
                }
            }
        }
    }
}

/// Rows of equal length `width` have at most `width` empty cells each; they
/// have that many exactly if every cell is empty, and none exactly if every
/// cell holds a letter.
pub proof fn lemma_blanks_in_rows(rows: Seq<Seq<Option<char>>>, width: nat)
    requires
        forall|r: int| 0 <= r < rows.len() ==> (#[trigger] rows[r]).len() == width,
    ensures
        blanks_in_rows(rows) <= rows.len() * width,
        blanks_in_rows(rows) == rows.len() * width <==> forall|r: int, c: int|
            0 <= r < rows.len() && 0 <= c < width ==> (#[trigger] rows[r][c]) is None,
        blanks_in_rows(rows) == 0 <==> forall|r: int, c: int|
            0 <= r < rows.len() && 0 <= c < width ==> (#[trigger] rows[r][c]) is Some,
    decreases rows.len(),
{
    if rows.len() == 0 {
        assert(rows.len() * width == 0) by (nonlinear_arith)
            requires
                rows.len() == 0,
        ;
    } else {
        let front = rows.drop_last();
        let last = rows.last();
        lemma_blanks_in_rows(front, width);
        lemma_blanks_in_line(last);
        assert(rows.len() * width == front.len() * width + width) by (nonlinear_arith)
            requires
                rows.len() == front.len() + 1,
        ;
        assert forall|r: int| 0 <= r < front.len() implies front[r] == rows[r] by {}
        let all_blank = forall|r: int, c: int|
            0 <= r < rows.len() && 0 <= c < width ==> (#[trigger] rows[r][c]) is None;
        let all_set = forall|r: int, c: int|
            0 <= r < rows.len() && 0 <= c < width ==> (#[trigger] rows[r][c]) is Some;
        if all_blank {
            assert forall|r: int, c: int| 0 <= r < front.len() && 0 <= c < width implies (
            #[trigger] front[r][c]) is None by {
                assert(rows[r][c] is None);
            }
            assert forall|c: int| 0 <= c < last.len() implies (#[trigger] last[c]) is None by {
                assert(rows[rows.len() - 1][c] is None);
            }
        }
        if all_set {
            assert forall|r: int, c: int| 0 <= r < front.len() && 0 <= c < width implies (
            #[trigger] front[r][c]) is Some by {
                assert(rows[r][c] is Some);
            }
            assert forall|c: int| 0 <= c < last.len() implies (#[trigger] last[c]) is Some by {
                assert(rows[rows.len() - 1][c] is Some);
            }
        }
        if blanks_in_rows(rows) == rows.len() * width {
            assert forall|r: int, c: int| 0 <= r < rows.len() && 0 <= c < width implies (
            #[trigger] rows[r][c]) is None by {
                if r < front.len() {
                    assert(front[r][c] is None);
                } else {
                    assert(last[c] is None);
                }
            }
        }
        if blanks_in_rows(rows) == 0 {
            assert forall|r: int, c: int| 0 <= r < rows.len() && 0 <= c < width implies (
            #[trigger] rows[r][c]) is Some by {
                if r < front.len() {
                    assert(front[r][c] is Some);
                } else {
                    assert(last[c] is Some);
                }
            }
        }
    }
}

/// A grid has no empty cell exactly if it is full, and as many empty cells
/// as it has cells exactly if it is blank.
pub proof fn lemma_blank_cells(grid: &Grid)
    requires
        grid.wf(),
    ensures
        grid.blank_cells() <= grid.size * grid.size,
        grid.blank_cells() == 0 <==> grid.is_full(),
        grid.blank_cells() == grid.size * grid.size <==> grid.is_blank(),
{
    let rows = grid@;
    assert forall|r: int| 0 <= r < rows.len() implies (#[trigger] rows[r]).len() == grid.size by {
        assert(grid.cells@[r]@.len() == grid.size);
    }
    lemma_blanks_in_rows(rows, grid.size as nat);
    assert forall|r: int, c: int| grid.inside(r, c) implies #[trigger] grid.at(r, c) == rows[r][c] by {}
    if grid.is_full() {
        assert forall|r: int, c: int| 0 <= r < rows.len() && 0 <= c < grid.size implies (
        #[trigger] rows[r][c]) is Some by {
            assert(grid.at(r, c) is Some);
        }
    }
    if grid.is_blank() {
        assert forall|r: int, c: int| 0 <= r < rows.len() && 0 <= c < grid.size implies (
        #[trigger] rows[r][c]) is None by {
            assert(grid.at(r, c) is None);
        }
    }
    if blanks_in_rows(rows) == 0 {
        assert forall|r: int, c: int| grid.inside(r, c) implies (#[trigger] grid.at(r, c)) is Some by {
            assert(rows[r][c] is Some);
        }
    }
    if blanks_in_rows(rows) == rows.len() * grid.size {
        assert forall|r: int, c: int| grid.inside(r, c) implies (#[trigger] grid.at(r, c)) is None by {
            assert(rows[r][c] is None);
        }
    }
}

/// Writing a word where it fits makes it readable there, leaves every
/// letter that was in the grid where it was, and empties no cell.
pub proof fn lemma_written_where_it_fits(
    before: &Grid,
    after: &Grid,
    letters: Seq<char>,
    row: int,
    col: int,
    direction: Direction,
)
    requires
        before.wf(),
        before.fits(letters, row, col, direction),
        after.is_written(before, letters, row, col, direction),
    ensures
        after.spells(letters, row, col, direction),
        forall|r: int, c: int| (#[trigger] before.at(r, c)) is Some ==> after.at(r, c) == before.at(r, c),
{
    assert forall|i: int| 0 <= i < letters.len() implies #[trigger] after.shows_at(
        letters,
        row,
        col,
        direction,
        i,
    ) by {
        assert(before.accepts_at(letters, row, col, direction, i));
        lemma_path_cells_distinct(row, col, direction, i, i);
        let r = path_row(row, direction, i);
        let c = path_col(col, direction, i);
        assert(after.at(r, c) == Some(letters[i]));
    }
    assert forall|r: int, c: int| (#[trigger] before.at(r, c)) is Some implies after.at(r, c)
        == before.at(r, c) by {
        let i = path_index(row, col, direction, r, c);
        if path_covers(row, col, direction, letters.len() as int, r, c) {
            assert(before.accepts_at(letters, row, col, direction, i));
        }
        assert(after.at(r, c) == before.at(r, c));
    }
}

/// The rules on a grid are the rules on its rows of cells: a word fits on
/// the grid exactly if it fits on the rows, a grid with a word written is
/// the rows with the word written, and a blank grid is blank rows.
pub proof fn lemma_grid_as_rows(grid: &Grid, letters: Seq<char>, row: int, col: int, direction: Direction)
    requires
        grid.wf(),
    ensures
        grid.fits(letters, row, col, direction) == cells_fit(
            grid@,
            grid.size as int,
            letters,
            row,
            col,
            direction,
        ),
        forall|after: &Grid| #[trigger]
            after.is_written(grid, letters, row, col, direction) ==> after@ == cells_written(
                grid@,
                letters,
                row,
                col,
                direction,
            ),
        grid.is_blank() ==> grid@ == blank_rows(grid.size as int),
{
    if grid.fits(letters, row, col, direction) {
        assert forall|i: int| 0 <= i < letters.len() implies {
            let r = #[trigger] path_row(row, direction, i);
            let c = path_col(col, direction, i);
            &&& 0 <= r < grid.size
            &&& 0 <= c < grid.size
            &&& (grid@[r][c] is None || grid@[r][c] == Some(letters[i]))
        } by {
            assert(grid.accepts_at(letters, row, col, direction, i));
        }
    }
    if cells_fit(grid@, grid.size as int, letters, row, col, direction) {
        assert forall|i: int| 0 <= i < letters.len() implies #[trigger] grid.accepts_at(
            letters,
            row,
            col,
            direction,
            i,
        ) by {
            let r = path_row(row, direction, i);
        }
    }
    assert forall|after: &Grid| #[trigger]
        after.is_written(grid, letters, row, col, direction) implies after@ == cells_written(
        grid@,
        letters,
        row,
        col,
        direction,
    ) by {
        let written = cells_written(grid@, letters, row, col, direction);
        assert(after@.len() == written.len());
        assert forall|r: int| 0 <= r < after@.len() implies after@[r] == written[r] by {
            assert(after.cells@[r]@.len() == after.size);
            assert(grid.cells@[r]@.len() == grid.size);
            assert forall|c: int| 0 <= c < after@[r].len() implies after@[r][c] == written[r][c] by {
                assert(after.at(r, c) == after@[r][c]);
                assert(grid.at(r, c) == grid@[r][c]);
            }
            assert(after@[r] =~= written[r]);
        }
        assert(after@ =~= written);
    }
    if grid.is_blank() {
        let blank = blank_rows(grid.size as int);
        assert forall|r: int| 0 <= r < grid@.len() implies grid@[r] == blank[r] by {
            assert(grid.cells@[r]@.len() == grid.size);
            assert forall|c: int| 0 <= c < grid@[r].len() implies grid@[r][c] == blank[r][c] by {
                assert(grid.at(r, c) is None);
            }
            assert(grid@[r] =~= blank[r]);
        }
        assert(grid@ =~= blank);
    }
}

/// A single letter fits on any cell of a blank grid, whatever the
/// direction.
pub proof fn lemma_single_letter_fits_blank(
    grid: &Grid,
    letters: Seq<char>,
    row: int,
    col: int,
    direction: Direction,
)
    requires
        grid.is_blank(),
        grid.inside(row, col),
        letters.len() == 1,
    ensures
        grid.fits(letters, row, col, direction),
{
    lemma_scaled_step(direction.row_step(), 0);
    lemma_scaled_step(direction.col_step(), 0);
    assert(grid.at(row, col) is None);
    assert(grid.accepts_at(letters, row, col, direction, 0));
}

/// A word that could be read before another is written where that one
/// fits can still be read afterwards.
pub proof fn lemma_written_keeps_spelled(
    before: &Grid,
    after: &Grid,
    letters: Seq<char>,
    row: int,
    col: int,
    direction: Direction,
    other: Seq<char>,
    other_row: int,
    other_col: int,
    other_direction: Direction,
)
    requires
        before.wf(),
        before.fits(letters, row, col, direction),
        after.is_written(before, letters, row, col, direction),
        before.spells(other, other_row, other_col, other_direction),
    ensures
        after.spells(other, other_row, other_col, other_direction),
{
    lemma_written_where_it_fits(before, after, letters, row, col, direction);
    assert forall|i: int| 0 <= i < other.len() implies #[trigger] after.shows_at(
        other,
        other_row,
        other_col,
        other_direction,
        i,
    ) by {
        assert(before.shows_at(other, other_row, other_col, other_direction, i));
        let r = path_row(other_row, other_direction, i);
        let c = path_col(other_col, other_direction, i);
        assert(before.at(r, c) is Some);
    }
}

/// Writing uppercase letters into a grid of uppercase letters leaves a
/// grid of uppercase letters.
pub proof fn lemma_written_keeps_upper_letters(
    before: &Grid,
    after: &Grid,
    letters: Seq<char>,
    row: int,
    col: int,
    direction: Direction,
)
    requires
        before.holds_upper_letters(),
        crate::word::is_upper_text(letters),
        after.is_written(before, letters, row, col, direction),
    ensures
        after.holds_upper_letters(),
{
    assert forall|r: int, c: int| after.inside(r, c) && (#[trigger] after.at(r, c)) is Some implies is_upper_letter(
        after.at(r, c)->0,
    ) by {
        if !path_covers(row, col, direction, letters.len() as int, r, c) {
            assert(before.at(r, c) is Some);
        }
    }
}

/// Where the paths of two words that can both be read in one grid cross,
/// the two words have the same letter.
pub proof fn lemma_crossing_letters_agree(
    grid: &Grid,
    first: &PlacementResult,
    second: &PlacementResult,
    i: int,
    j: int,
)
    requires
        first.spelled_in(grid),
        second.spelled_in(grid),
        0 <= i < first.word.letters().len(),
        0 <= j < second.word.letters().len(),
        first.cell(i) == second.cell(j),
    ensures
        first.word.letters()[i] == second.word.letters()[j],
{
    assert(grid.shows_at(first.word.letters(), first.row as int, first.col as int, first.direction, i));
    assert(grid.shows_at(
        second.word.letters(),
        second.row as int,
        second.col as int,
        second.direction,
        j,
    ));
}

/// A word that fits along a path is no longer than the grid is wide.
pub proof fn lemma_fitting_word_is_short(
    grid: &Grid,
    letters: Seq<char>,
    row: int,
    col: int,
    direction: Direction,
)
    requires
        grid.fits(letters, row, col, direction),
    ensures
        letters.len() <= grid.size,
{
    if letters.len() > 0 {
        let last = letters.len() - 1;
        assert(grid.accepts_at(letters, row, col, direction, 0));
        assert(grid.accepts_at(letters, row, col, direction, last));
        lemma_scaled_step(direction.row_step(), 0);
        lemma_scaled_step(direction.col_step(), 0);
        lemma_scaled_step(direction.row_step(), last);
        lemma_scaled_step(direction.col_step(), last);
    }
}

} // verus!
