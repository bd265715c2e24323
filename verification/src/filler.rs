//! Filling the cells that no word uses with frequency-weighted letters.

use rand::rngs::StdRng;
use vstd::prelude::*;

use crate::grid::Grid;
use crate::random::draw_weight;
use crate::word::is_upper_letter;

verus! {

/// The letters of the alphabet, from the most to the least frequent in
/// Portuguese text.
pub const PORTUGUESE_LETTERS: &'static str = "AEOSRIDMNTCUVLPGQBFHXJZYWK";

/// The sum of the weights of a table.
pub open spec fn weight_sum(weights: Seq<(char, u32)>) -> nat
    decreases weights.len(),
{
    if weights.len() == 0 {
        0
    } else {
        weight_sum(weights.drop_last()) + weights.last().1 as nat
    }
}

/// The letter that a roll picks from a table: the first letter whose weight,
/// added to the weights before it, exceeds the roll; `A` if there is none.
pub open spec fn bucket_letter(weights: Seq<(char, u32)>, roll: int) -> char
    decreases weights.len(),
{
    if weights.len() == 0 {
        'A'
    } else if roll < weights[0].1 {
        weights[0].0
    } else {
        bucket_letter(weights.drop_first(), roll - weights[0].1)
    }
}

/// The table of the Portuguese letters: the letter of rank `k` weighs
/// `26 - k`.
pub open spec fn portuguese_table() -> Seq<(char, u32)> {
    Seq::new(26, |k: int| (PORTUGUESE_LETTERS@[k], (26 - k) as u32))
}

/// One row filled from a stream of rolls: each empty cell, from the left,
/// takes the next roll, which must lie below `total`, and gets the letter
/// that the roll picks. The result is the row, the rolls left over, and
/// whether every roll taken was there and lay below `total`.
pub open spec fn fill_line(
    line: Seq<Option<char>>,
    weights: Seq<(char, u32)>,
    total: int,
    rolls: Seq<int>,
) -> (Seq<Option<char>>, Seq<int>, bool)
    decreases line.len(),
{
    if line.len() == 0 {
        (line, rolls, true)
    } else {
        let (front, left, valid) = fill_line(line.drop_last(), weights, total, rolls);
        if line.last() is Some {
            (front.push(line.last()), left, valid)
        } else if valid && left.len() > 0 && 0 <= left[0] < total {
            (front.push(Some(bucket_letter(weights, left[0]))), left.drop_first(), true)
        } else {
            (front.push(None), left, false)
        }
    }
}

/// Rows filled from a stream of rolls, one row after the other from the
/// top, each as `fill_line` fills it.
pub open spec fn fill_rows(
    rows: Seq<Seq<Option<char>>>,
    weights: Seq<(char, u32)>,
    total: int,
    rolls: Seq<int>,
) -> (Seq<Seq<Option<char>>>, Seq<int>, bool)
    decreases rows.len(),
{
    if rows.len() == 0 {
        (rows, rolls, true)
    } else {
        let (above, left, valid) = fill_rows(rows.drop_last(), weights, total, rolls);
        let (line, rest, line_valid) = fill_line(rows.last(), weights, total, left);
        (above.push(line), rest, valid && line_valid)
    }
}

/// Fills empty cells with letters drawn from a weighted table.
pub struct Filler {
    pub weights: Vec<(char, u32)>,
    pub total_weight: u32,
}

impl Filler {
    /// A filler is well formed when its total is the sum of its weights and
    /// is positive, and its letters are uppercase.
    pub open spec fn wf(&self) -> bool {
        &&& self.total_weight == weight_sum(self.weights@)
        &&& self.total_weight > 0
        &&& forall|k: int|
            0 <= k < self.weights@.len() ==> is_upper_letter((#[trigger] self.weights@[k]).0)
    }

    /// Whether `roll` falls into the bucket of entry `k`: the weights before
    /// it sum to at most `roll`, and with its own weight to more.
    pub open spec fn in_bucket(&self, k: int, roll: int) -> bool {
        &&& 0 <= k < self.weights@.len()
        &&& weight_sum(self.weights@.take(k)) <= roll < weight_sum(self.weights@.take(k + 1))
    }

    /// Whether filling `before` with this table and the rolls `rolls`, each
    /// below the total weight, takes exactly those rolls and gives `after`.
    pub open spec fn fills(
        &self,
        before: Seq<Seq<Option<char>>>,
        rolls: Seq<int>,
        after: Seq<Seq<Option<char>>>,
    ) -> bool {
        forall|rest: Seq<int>| #[trigger]
            fill_rows(before, self.weights@, self.total_weight as int, rolls + rest) == (
                after,
                rest,
                true,
            )
    }

    /// Whether filling the row `before` with this table and the rolls
    /// `rolls` takes exactly those rolls and gives `after`.
    pub open spec fn fills_line(
        &self,
        before: Seq<Option<char>>,
        rolls: Seq<int>,
        after: Seq<Option<char>>,
    ) -> bool {
        forall|rest: Seq<int>| #[trigger]
            fill_line(before, self.weights@, self.total_weight as int, rolls + rest) == (
                after,
                rest,
                true,
            )
    }

    /// Whether `letter` is a letter of the table.
    pub open spec fn has_letter(&self, letter: char) -> bool {
        exists|k: int| 0 <= k < self.weights@.len() && (#[trigger] self.weights@[k]).0 == letter
    }

    /// Creates a filler over the Portuguese letters: the weight of a letter
    /// is the size of the alphabet less its rank, so the most frequent
    /// letter weighs 26 and the least frequent 1.
    pub fn new() -> (filler: Self)
        ensures
            filler.wf(),
            filler.weights@.len() == PORTUGUESE_LETTERS@.len() == 26,
            forall|k: int|
                0 <= k < 26 ==> #[trigger] filler.weights@[k] == (
                    PORTUGUESE_LETTERS@[k],
                    (26 - k) as u32,
                ),
            filler.total_weight == 351,
            filler.weights@ == portuguese_table(),
    {
        proof {
            reveal_strlit("AEOSRIDMNTCUVLPGQBFHXJZYWK");
        }
        let mut weights: Vec<(char, u32)> = Vec::new();
        let mut total_weight: u32 = 0;
        let mut i: usize = 0;
        while i < 26
            invariant
                i <= 26,
                PORTUGUESE_LETTERS@.len() == 26,
                weights@.len() == i,
                forall|k: int|
                    0 <= k < i ==> #[trigger] weights@[k] == (
                        PORTUGUESE_LETTERS@[k],
                        (26 - k) as u32,
                    ),
                total_weight == weight_sum(weights@),
                2 * total_weight == i * (53 - i),
            decreases 26 - i,
        {
            let letter = PORTUGUESE_LETTERS.get_char(i);
            let weight: u32 = 26 - i as u32;
            assert((i + 1) * (53 - (i + 1)) == i * (53 - i) + 2 * (26 - i)) by (nonlinear_arith);
            assert(i * (53 - i) <= 26 * 53) by (nonlinear_arith)
                requires
                    0 <= i <= 26,
            ;
            let ghost before = weights@;
            weights.push((letter, weight));
            assert(weights@.drop_last() == before);
            total_weight += weight;
            i += 1;
        }
        assert(26 * (53 - 26) == 702) by (nonlinear_arith);
        proof {
            assert forall|k: int| 0 <= k < 26 implies is_upper_letter(
                (#[trigger] weights@[k]).0,
            ) by {
                lemma_portuguese_letters_are_upper(k);
            }
        }
        Self { weights, total_weight }
    }

    /// Picks a random letter: a uniform roll below the total weight, then
    /// the letter whose bucket holds the roll.
    pub fn pick_letter(&self, rng: &mut StdRng) -> (letter: char)
        requires
            self.wf(),
        ensures
            exists|roll: int|
                0 <= roll < self.total_weight && letter == #[trigger] bucket_letter(
                    self.weights@,
                    roll,
                ),
            self.has_letter(letter),
            is_upper_letter(letter),
    {
        let roll = draw_weight(rng, self.total_weight);
        let letter = self.letter_for_roll(roll);
        proof {
            let k = choose|k: int| #[trigger]
                self.in_bucket(k, roll as int) && letter == self.weights@[k].0;
            assert(self.weights@[k].0 == letter);
            assert(letter == bucket_letter(self.weights@, roll as int));
        }
        letter
    }

    /// Fills every empty cell of the grid with a picked letter, row by row
    /// from the top and each row from the left; cells that hold a letter
    /// are left as they are.
    pub fn fill_grid(&self, grid: &mut Grid, rng: &mut StdRng)
        requires
            self.wf(),
            old(grid).wf(),
        ensures
            final(grid).wf(),
            final(grid).size == old(grid).size,
            final(grid).is_full(),
            forall|r: int, c: int|
                (#[trigger] old(grid).at(r, c)) is Some ==> final(grid).at(r, c) == old(grid).at(
                    r,
                    c,
                ),
            forall|r: int, c: int|
                old(grid).inside(r, c) && old(grid).at(r, c) is None ==> (#[trigger] final(grid).at(
                    r,
                    c,
                )) is Some && self.has_letter(final(grid).at(r, c)->0),
            exists|rolls: Seq<int>| #[trigger] self.fills(old(grid)@, rolls, final(grid)@),
    {
        let size = grid.size;
        let ghost mut rolls: Seq<int> = Seq::empty();
        let mut row: usize = 0;
        proof {
            assert forall|rest: Seq<int>| #[trigger]
                fill_rows(
                    old(grid)@.take(0),
                    self.weights@,
                    self.total_weight as int,
                    rolls + rest,
                ) == (grid@.take(0), rest, true) by {
                assert(rolls + rest == rest);
                assert(old(grid)@.take(0) == grid@.take(0));
            }
        }
        while row < size
            invariant
                self.wf(),
                grid.wf(),
                grid.size == size == old(grid).size,
                old(grid).wf(),
                row <= size,
                forall|r: int, c: int|
                    (#[trigger] old(grid).at(r, c)) is Some ==> grid.at(r, c) == old(grid).at(r, c),
                forall|r: int, c: int|
                    old(grid).inside(r, c) && r >= row ==> #[trigger] grid.at(r, c) == old(grid).at(
                        r,
                        c,
                    ),
                forall|r: int, c: int|
                    old(grid).inside(r, c) && r < row && old(grid).at(r, c) is None ==> (
                    #[trigger] grid.at(r, c)) is Some && self.has_letter(grid.at(r, c)->0),
                grid@.skip(row as int) == old(grid)@.skip(row as int),
                self.fills(old(grid)@.take(row as int), rolls, grid@.take(row as int)),
            decreases size - row,
        {
            let ghost above = grid@;
            let ghost line = old(grid)@[row as int];
            let ghost mut line_rolls: Seq<int> = Seq::empty();
            let mut col: usize = 0;
            proof {
                assert(grid@[row as int] == grid@.skip(row as int)[0]);
                assert(line == old(grid)@.skip(row as int)[0]);
                assert(old(grid).cells@[row as int]@.len() == size);
                assert forall|rest: Seq<int>| #[trigger]
                    fill_line(
                        line.take(0),
                        self.weights@,
                        self.total_weight as int,
                        line_rolls + rest,
                    ) == (grid@[row as int].take(0), rest, true) by {
                    assert(line_rolls + rest == rest);
                    assert(line.take(0) == grid@[row as int].take(0));
                }
            }
            while col < size
                invariant
                    self.wf(),
                    grid.wf(),
                    grid.size == size == old(grid).size,
                    old(grid).wf(),
                    row < size,
                    col <= size,
                    line == old(grid)@[row as int],
                    line.len() == size,
                    above.len() == size,
                    forall|r: int, c: int|
                        (#[trigger] old(grid).at(r, c)) is Some ==> grid.at(r, c) == old(grid).at(
                            r,
                            c,
                        ),
                    forall|r: int, c: int|
                        old(grid).inside(r, c) && (r > row || (r == row && c >= col))
                            ==> #[trigger] grid.at(r, c) == old(grid).at(r, c),
                    forall|r: int, c: int|
                        old(grid).inside(r, c) && (r < row || (r == row && c < col)) && old(grid).at(
                            r,
                            c,
                        ) is None ==> (#[trigger] grid.at(r, c)) is Some && self.has_letter(
                            grid.at(r, c)->0,
                        ),
                    forall|r: int| 0 <= r < size && r != row ==> #[trigger] grid@[r] == above[r],
                    grid@[row as int].skip(col as int) == line.skip(col as int),
                    self.fills_line(line.take(col as int), line_rolls, grid@[row as int].take(col as int)),
                decreases size - col,
            {
                let ghost before = grid@;
                let ghost line_before = line_rolls;
                let ghost seen = line.take(col as int);
                let ghost done = before[row as int].take(col as int);
                assert(line.take(col + 1).drop_last() == seen);
                assert(line.take(col + 1).last() == line[col as int]);
                assert(before[row as int][col as int] == before[row as int].skip(col as int)[0]);
                assert(line[col as int] == line.skip(col as int)[0]);
                if grid.get(row, col).is_none() {
                    let letter = self.pick_letter(rng);
                    grid.set(row, col, letter);
                    proof {
                        let roll = choose|roll: int|
                            0 <= roll < self.total_weight && letter == #[trigger] bucket_letter(
                                self.weights@,
                                roll,
                            );
                        line_rolls = line_rolls.push(roll);
                        assert(grid@[row as int].take(col + 1) == done.push(Some(letter)));
                        assert forall|rest: Seq<int>| #[trigger]
                            fill_line(
                                line.take(col + 1),
                                self.weights@,
                                self.total_weight as int,
                                line_rolls + rest,
                            ) == (grid@[row as int].take(col + 1), rest, true) by {
                            let later = seq![roll] + rest;
                            assert(line_rolls + rest == line_before + later);
                            assert(fill_line(
                                seen,
                                self.weights@,
                                self.total_weight as int,
                                line_before + later,
                            ) == (done, later, true));
                            assert(later[0] == roll);
                            assert(later.drop_first() == rest);
                        }
                    }
                } else {
                    proof {
                        assert(grid@[row as int].take(col + 1) == done.push(line[col as int]));
                        assert forall|rest: Seq<int>| #[trigger]
                            fill_line(
                                line.take(col + 1),
                                self.weights@,
                                self.total_weight as int,
                                line_rolls + rest,
                            ) == (grid@[row as int].take(col + 1), rest, true) by {
                            assert(fill_line(
                                seen,
                                self.weights@,
                                self.total_weight as int,
                                line_rolls + rest,
                            ) == (done, rest, true));
                        }
                    }
                }
                proof {
                    assert(grid@[row as int].skip(col + 1) == line.skip(col + 1)) by {
                        assert(grid@[row as int].skip(col + 1) == before[row as int].skip(
                            col as int,
                        ).skip(1));
                        assert(line.skip(col + 1) == line.skip(col as int).skip(1));
                    }
                }
                col += 1;
            }
            proof {
                let ghost_rolls = rolls;
                rolls = rolls + line_rolls;
                assert(line.take(size as int) == line) by {
                    assert(old(grid).cells@[row as int]@.len() == size);
                }
                assert(grid@[row as int].take(size as int) == grid@[row as int]) by {
                    assert(grid.cells@[row as int]@.len() == size);
                }
                assert(old(grid)@.take(row + 1).drop_last() == old(grid)@.take(row as int));
                assert(old(grid)@.take(row + 1).last() == line);
                assert(grid@.take(row + 1) == above.take(row as int).push(grid@[row as int]));
                assert forall|rest: Seq<int>| #[trigger]
                    fill_rows(
                        old(grid)@.take(row + 1),
                        self.weights@,
                        self.total_weight as int,
                        rolls + rest,
                    ) == (grid@.take(row + 1), rest, true) by {
                    let later = line_rolls + rest;
                    assert(rolls + rest == ghost_rolls + later);
                    assert(fill_rows(
                        old(grid)@.take(row as int),
                        self.weights@,
                        self.total_weight as int,
                        ghost_rolls + later,
                    ) == (above.take(row as int), later, true));
                    assert(fill_line(
                        line,
                        self.weights@,
                        self.total_weight as int,
                        line_rolls + rest,
                    ) == (grid@[row as int], rest, true));
                }
                assert(grid@.skip(row + 1) == old(grid)@.skip(row + 1)) by {
                    let lower = grid@.skip(row + 1);
                    assert forall|k: int| 0 <= k < size - row - 1 implies #[trigger] lower[k]
                        == old(grid)@.skip(row + 1)[k] by {
                        assert(grid@[row + 1 + k] == above[row + 1 + k]);
                        assert(above[row + 1 + k] == above.skip(row as int)[k + 1]);
                        assert(old(grid)@[row + 1 + k] == old(grid)@.skip(row as int)[k + 1]);
                    }
                }
            }
            row += 1;
        }
        proof {
            assert(old(grid)@.take(size as int) == old(grid)@);
            assert(grid@.take(size as int) == grid@);
        }
    }

    /// Returns the letter whose bucket holds `roll`, or `A` if `roll` is
    /// beyond every bucket.
    pub fn letter_for_roll(&self, roll: u32) -> (letter: char)
        ensures
            letter == bucket_letter(self.weights@, roll as int),
            roll < weight_sum(self.weights@) ==> exists|k: int|
                #[trigger] self.in_bucket(k, roll as int) && letter == self.weights@[k].0,
            roll >= weight_sum(self.weights@) ==> letter == 'A',
    {
        let mut left = roll;
        let mut i: usize = 0;
        assert(self.weights@.skip(0) == self.weights@);
        while i < self.weights.len()
            invariant
                i <= self.weights@.len(),
                left == roll - weight_sum(self.weights@.take(i as int)),
                bucket_letter(self.weights@, roll as int) == bucket_letter(
                    self.weights@.skip(i as int),
                    left as int,
                ),
            decreases self.weights@.len() - i,
        {
            let (letter, weight) = self.weights[i];
            assert(self.weights@.take(i + 1).drop_last() == self.weights@.take(i as int));
            assert(self.weights@.skip(i as int).drop_first() == self.weights@.skip(i + 1));
            if left < weight {
                assert(self.in_bucket(i as int, roll as int));
                proof {
                    lemma_weight_sum_grows(self.weights@, i + 1);
                }
                return letter;
            }
            left -= weight;
            i += 1;
        }
        assert(self.weights@.take(self.weights@.len() as int) == self.weights@);
        'A'
    }
}

impl Default for Filler {
    fn default() -> (filler: Self)
        ensures
            filler.wf(),
            filler.weights@.len() == 26,
            filler.total_weight == 351,
    {
        Self::new()
    }
}

/// Every letter of the frequency table is one of `A` to `Z`.
pub proof fn lemma_portuguese_letters_are_upper(k: int)
    requires
        0 <= k < 26,
    ensures
        is_upper_letter(PORTUGUESE_LETTERS@[k]),
{
    reveal_strlit("AEOSRIDMNTCUVLPGQBFHXJZYWK");
}

/// The weights of the first `k` entries sum to no more than all of them.
pub proof fn lemma_weight_sum_grows(weights: Seq<(char, u32)>, k: int)
    requires
        0 <= k <= weights.len(),
    ensures
        weight_sum(weights.take(k)) <= weight_sum(weights),
    decreases weights.len() - k,
{
    if k < weights.len() {
        assert(weights.take(k + 1).drop_last() == weights.take(k));
        lemma_weight_sum_grows(weights, k + 1);
    } else {
        assert(weights.take(k) == weights);
    }
}

} // verus!
