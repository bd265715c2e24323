//! The placement engine: it queues the words, tries random placements for
//! each within a budget of attempts, and fills what is left of the grid.

use rand::rngs::StdRng;
use vstd::prelude::*;

use crate::difficulty::Difficulty;
use crate::direction::Direction;
use crate::filler::{fill_rows, portuguese_table, Filler};
use crate::grid::{
    blank_rows, cells_fit, cells_written, lemma_grid_as_rows, Grid, PlacementResult,
};
use crate::random::draw_index;
use crate::word::{longest_first, of_length, sort_by_length_desc, Word};

verus! {

/// Whether `candidates` are the words made of `texts`, one for each and
/// in the same order.
pub open spec fn are_words_of(candidates: Seq<Word>, texts: Seq<&str>) -> bool {
    &&& candidates.len() == texts.len()
    &&& forall|i: int|
        0 <= i < candidates.len() ==> (#[trigger] candidates[i]).wf() && candidates[i].original@
            == texts[i]@
}

/// The test that a word enters the queue of a grid of the given size: it
/// has a letter to place, and no more letters than the grid is wide.
pub open spec fn enters_queue(grid_size: usize) -> spec_fn(Word) -> bool {
    |w: Word| 0 < w.letters().len() <= grid_size
}

/// Whether `queue` holds the candidates that enter the queue, longest
/// first, those of equal length in the order of `candidates`.
pub open spec fn is_queue_of(queue: Seq<Word>, candidates: Seq<Word>, grid_size: usize) -> bool {
    &&& longest_first(queue)
    &&& forall|n: nat| #[trigger]
        of_length(queue, n) == of_length(candidates.filter(enters_queue(grid_size)), n)
}

/// Whether `placed` and `discarded` share out `queue`: each word of the
/// queue went to one of the two, and both keep the order of the queue.
pub open spec fn shares_out(queue: Seq<Word>, placed: Seq<Word>, discarded: Seq<Word>) -> bool
    decreases queue.len(),
{
    if queue.len() == 0 {
        placed.len() == 0 && discarded.len() == 0
    } else {
        ||| placed.len() > 0 && placed.last() == queue.last() && shares_out(
            queue.drop_last(),
            placed.drop_last(),
            discarded,
        )
        ||| discarded.len() > 0 && discarded.last() == queue.last() && shares_out(
            queue.drop_last(),
            placed,
            discarded.drop_last(),
        )
    }
}

/// Where nothing was placed, the discarded words are the queue.
pub proof fn lemma_nothing_placed_all_discarded(queue: Seq<Word>, discarded: Seq<Word>)
    requires
        shares_out(queue, Seq::empty(), discarded),
    ensures
        discarded == queue,
    decreases queue.len(),
{
    if queue.len() > 0 {
        lemma_nothing_placed_all_discarded(queue.drop_last(), discarded.drop_last());
        assert(discarded == discarded.drop_last().push(discarded.last()));
        assert(queue == queue.drop_last().push(queue.last()));
    }
}

/// The attempts made for one word, read off a stream of draws. Each
/// attempt takes three draws: a row and a column, both below `size`, and
/// the position of a direction in `directions`. The word goes where the
/// first attempt finds that it fits; later attempts are not made. With no
/// direction to take, no attempt is made and no draw is taken.
///
/// The result is the place found, if any, as row, column and direction;
/// the draws left over; and whether every draw taken was there and in its
/// range.
pub open spec fn try_word(
    cells: Seq<Seq<Option<char>>>,
    size: int,
    letters: Seq<char>,
    directions: Seq<Direction>,
    attempts: nat,
    draws: Seq<int>,
) -> (Option<(int, int, Direction)>, Seq<int>, bool)
    decreases attempts,
{
    if attempts == 0 || directions.len() == 0 {
        (None, draws, true)
    } else {
        let (spot, left, valid) = try_word(
            cells,
            size,
            letters,
            directions,
            (attempts - 1) as nat,
            draws,
        );
        if spot is Some || !valid {
            (spot, left, valid)
        } else if left.len() >= 3 && 0 <= left[0] < size && 0 <= left[1] < size && 0 <= left[2]
            < directions.len() {
            let direction = directions[left[2]];
            if cells_fit(cells, size, letters, left[0], left[1], direction) {
                (Some((left[0], left[1], direction)), left.skip(3), true)
            } else {
                (None, left.skip(3), true)
            }
        } else {
            (None, left, false)
        }
    }
}

/// Whether the attempts for one word, made with exactly the draws `draws`,
/// end with `spot`.
pub open spec fn tries(
    cells: Seq<Seq<Option<char>>>,
    size: int,
    letters: Seq<char>,
    directions: Seq<Direction>,
    attempts: nat,
    draws: Seq<int>,
    spot: Option<(int, int, Direction)>,
) -> bool {
    forall|rest: Seq<int>| #[trigger]
        try_word(cells, size, letters, directions, attempts, draws + rest) == (spot, rest, true)
}

/// The place of a placement, if there is one, as row, column and direction.
pub open spec fn spot_of(placed: Option<PlacementResult>) -> Option<(int, int, Direction)> {
    match placed {
        Some(p) => Some((p.row as int, p.col as int, p.direction)),
        None => None,
    }
}

/// Once an attempt has placed the word, a larger budget changes nothing.
pub proof fn lemma_placed_within_budget(
    cells: Seq<Seq<Option<char>>>,
    size: int,
    letters: Seq<char>,
    directions: Seq<Direction>,
    used: nat,
    attempts: nat,
    draws: Seq<int>,
)
    requires
        used <= attempts,
        try_word(cells, size, letters, directions, used, draws).0 is Some,
    ensures
        try_word(cells, size, letters, directions, attempts, draws) == try_word(
            cells,
            size,
            letters,
            directions,
            used,
            draws,
        ),
    decreases attempts,
{
    if used < attempts {
        lemma_placed_within_budget(
            cells,
            size,
            letters,
            directions,
            used,
            (attempts - 1) as nat,
            draws,
        );
    }
}

/// The state of a run: the rows of the grid, the placements and the
/// discarded words so far, the draws left over, and whether every draw
/// taken so far was there and in its range.
pub struct Run {
    pub cells: Seq<Seq<Option<char>>>,
    pub placed: Seq<PlacementResult>,
    pub discarded: Seq<Word>,
    pub left: Seq<int>,
    pub valid: bool,
}

/// The placing of a queue of words on a blank grid, read off a stream of
/// draws: the words are tried in the order of the queue, each on the grid
/// as the words before it left it; a word that finds a place is written
/// there and recorded, a word that finds none is discarded.
pub open spec fn place_all(
    size: int,
    directions: Seq<Direction>,
    attempts: nat,
    queue: Seq<Word>,
    draws: Seq<int>,
) -> Run
    decreases queue.len(),
{
    if queue.len() == 0 {
        Run {
            cells: blank_rows(size),
            placed: Seq::empty(),
            discarded: Seq::empty(),
            left: draws,
            valid: true,
        }
    } else {
        let before = place_all(size, directions, attempts, queue.drop_last(), draws);
        let word = queue.last();
        let (spot, left, valid) = try_word(
            before.cells,
            size,
            word.letters(),
            directions,
            attempts,
            before.left,
        );
        match spot {
            Some((row, col, direction)) => Run {
                cells: cells_written(before.cells, word.letters(), row, col, direction),
                placed: before.placed.push(
                    PlacementResult { word, row: row as usize, col: col as usize, direction },
                ),
                discarded: before.discarded,
                left,
                valid: before.valid && valid,
            },
            None => Run {
                cells: before.cells,
                placed: before.placed,
                discarded: before.discarded.push(word),
                left,
                valid: before.valid && valid,
            },
        }
    }
}

/// A whole run, read off a stream of draws: the queue is placed on a
/// blank grid, and the cells left empty are then filled from the table of
/// weights.
pub open spec fn run(
    size: int,
    directions: Seq<Direction>,
    attempts: nat,
    queue: Seq<Word>,
    weights: Seq<(char, u32)>,
    total: int,
    draws: Seq<int>,
) -> Run {
    let placing = place_all(size, directions, attempts, queue, draws);
    let (cells, left, valid) = fill_rows(placing.cells, weights, total, placing.left);
    Run {
        cells,
        placed: placing.placed,
        discarded: placing.discarded,
        left,
        valid: placing.valid && valid,
    }
}

/// A run is determined by its queue and its draws: two runs of one
/// generator on the same queue that take the same draws end with the same
/// grid, the same placements and the same discarded words.
pub proof fn lemma_same_draws_same_run(
    generator: &Generator,
    queue: Seq<Word>,
    draws: Seq<int>,
    one: Run,
    other: Run,
)
    requires
        generator.runs(queue, draws, one.cells, one.placed, one.discarded),
        generator.runs(queue, draws, other.cells, other.placed, other.discarded),
    ensures
        one.cells == other.cells,
        one.placed == other.placed,
        one.discarded == other.discarded,
{
    let rest = Seq::<int>::empty();
    let model = run(
        generator.config().grid_size as int,
        generator.config().difficulty.allowed(),
        generator.config().max_attempts_per_word as nat,
        queue,
        portuguese_table(),
        351,
        draws + rest,
    );
    assert(model.cells == one.cells);
    assert(model.cells == other.cells);
}

/// The queue is determined by the candidates: two queues of the same
/// candidates for the same grid size are the same queue.
pub proof fn lemma_queue_is_unique(
    one: Seq<Word>,
    other: Seq<Word>,
    candidates: Seq<Word>,
    grid_size: usize,
)
    requires
        is_queue_of(one, candidates, grid_size),
        is_queue_of(other, candidates, grid_size),
    ensures
        one == other,
{
    assert forall|n: nat| #[trigger] of_length(one, n) == of_length(other, n) by {
        assert(of_length(one, n) == of_length(candidates.filter(enters_queue(grid_size)), n));
        assert(of_length(other, n) == of_length(candidates.filter(enters_queue(grid_size)), n));
    }
    crate::word::lemma_sorted_classes_determine(one, other);
}

/// The words of a list of placements, in order.
pub open spec fn words_placed(placements: Seq<PlacementResult>) -> Seq<Word> {
    placements.map_values(|p: PlacementResult| p.word)
}

/// Configuration of a generation run.
#[derive(Debug, Clone)]
pub struct GeneratorConfig {
    pub grid_size: usize,
    pub difficulty: Difficulty,
    pub max_attempts_per_word: usize,
}

impl GeneratorConfig {
    /// A configuration with the default budget of 100 attempts per word.
    pub fn new(grid_size: usize, difficulty: Difficulty) -> (config: Self)
        ensures
            config.grid_size == grid_size,
            config.difficulty == difficulty,
            config.max_attempts_per_word == 100,
    {
        Self { grid_size, difficulty, max_attempts_per_word: 100 }
    }

    /// The same configuration with another budget of attempts per word.
    pub fn with_max_attempts(self, attempts: usize) -> (config: Self)
        ensures
            config.grid_size == self.grid_size,
            config.difficulty == self.difficulty,
            config.max_attempts_per_word == attempts,
    {
        let mut config = self;
        config.max_attempts_per_word = attempts;
        config
    }
}

/// What a generation run produced.
#[derive(Debug)]
pub struct GenerationResult {
    pub grid: Grid,
    pub placed_words: Vec<PlacementResult>,
    pub discarded_words: Vec<Word>,
}

/// The word-search generator.
pub struct Generator {
    config: GeneratorConfig,
}

impl Generator {
    /// The configuration this generator runs with.
    pub closed spec fn config(&self) -> GeneratorConfig {
        self.config
    }

    /// Creates a generator for the given configuration.
    pub fn new(config: GeneratorConfig) -> (generator: Self)
        ensures
            generator.config() == config,
    {
        Self { config }
    }

    /// Places `word` from `(row, col)` along `direction` if it fits there,
    /// and leaves the grid alone if it does not.
    pub fn attempt(grid: &mut Grid, word: &Word, row: usize, col: usize, direction: Direction) -> (placed: Option<PlacementResult>)
        requires
            old(grid).wf(),
        ensures
            placed is Some <==> old(grid).fits(word.letters(), row as int, col as int, direction),
            placed is None ==> *final(grid) == *old(grid),
            placed is Some ==> {
                &&& final(grid).is_written(
                    old(grid),
                    word.letters(),
                    row as int,
                    col as int,
                    direction,
                )
                &&& placed->0.word == *word
                &&& placed->0.row == row
                &&& placed->0.col == col
                &&& placed->0.direction == direction
            },
    {
        if grid.can_place(word, row, col, direction) {
            Some(grid.place_word(word, row, col, direction))
        } else {
            None
        }
    }

    /// Attempts to place a word: up to the budget of attempts, it draws a
    /// start cell and an allowed direction and places the word at the first
    /// draw where it fits. No attempt is made without an allowed direction.
    ///
    /// Which cells and directions are drawn is left to `rng`; the outcome
    /// is what `try_word` gives for the numbers drawn. The grid must be the
    /// one this generator was configured for, and must have a cell to draw.
    pub fn try_place_word(
        &self,
        grid: &mut Grid,
        word: &Word,
        allowed_directions: &[Direction],
        rng: &mut StdRng,
    ) -> (placed: Option<PlacementResult>)
        requires
            old(grid).wf(),
            old(grid).size == self.config().grid_size,
            old(grid).size > 0,
        ensures
            placed is None ==> *final(grid) == *old(grid),
            placed is Some ==> {
                let p = placed->0;
                &&& p.word == *word
                &&& p.row < old(grid).size
                &&& p.col < old(grid).size
                &&& allowed_directions@.contains(p.direction)
                &&& old(grid).fits(word.letters(), p.row as int, p.col as int, p.direction)
                &&& final(grid).is_written(
                    old(grid),
                    word.letters(),
                    p.row as int,
                    p.col as int,
                    p.direction,
                )
            },
            allowed_directions@.len() == 0 || self.config().max_attempts_per_word == 0
                ==> placed is None,
            placed is Some ==> Self::fits_somewhere(old(grid), word, allowed_directions@),
            placed is None && allowed_directions@.len() > 0 && self.config().max_attempts_per_word
                > 0 ==> !Self::fits_everywhere(old(grid), word, allowed_directions@),
            exists|draws: Seq<int>| #[trigger]
                tries(
                    old(grid)@,
                    old(grid).size as int,
                    word.letters(),
                    allowed_directions@,
                    self.config().max_attempts_per_word as nat,
                    draws,
                    spot_of(placed),
                ),
    {
        let ghost cells = grid@;
        let ghost size = grid.size as int;
        let ghost letters = word.letters();
        let ghost directions = allowed_directions@;
        let ghost budget = self.config.max_attempts_per_word as nat;
        let ghost mut draws: Seq<int> = Seq::empty();
        if allowed_directions.len() == 0 {
            proof {
                assert forall|rest: Seq<int>| #[trigger]
                    try_word(cells, size, letters, directions, budget, draws + rest) == (
                        None::<(int, int, Direction)>,
                        rest,
                        true,
                    ) by {
                    assert(draws + rest == rest);
                }
                assert(tries(cells, size, letters, directions, budget, draws, spot_of(None)));
            }
            return None;
        }
        proof {
            assert forall|rest: Seq<int>| #[trigger]
                try_word(cells, size, letters, directions, 0, draws + rest) == (
                    None::<(int, int, Direction)>,
                    rest,
                    true,
                ) by {
                assert(draws + rest == rest);
            }
        }
        let mut tried: usize = 0;
        while tried < self.config.max_attempts_per_word
            invariant
                grid.wf(),
                *grid == *old(grid),
                grid.size == self.config.grid_size,
                grid.size > 0,
                allowed_directions@.len() > 0,
                tried > 0 ==> !Self::fits_everywhere(old(grid), word, allowed_directions@),
                cells == grid@,
                size == grid.size,
                letters == word.letters(),
                directions == allowed_directions@,
                budget == self.config.max_attempts_per_word,
                tried <= budget,
                tries(cells, size, letters, directions, tried as nat, draws, None),
            decreases self.config.max_attempts_per_word - tried,
        {
            let start_row = draw_index(rng, self.config.grid_size);
            let start_col = draw_index(rng, self.config.grid_size);

            let direction = match Direction::random_from(allowed_directions, rng) {
                Some(d) => d,
                None => {
                    tried += 1;
                    continue ;
                },
            };
            let ghost earlier = draws;
            let ghost now = tried as nat + 1;
            let ghost taken = choose|k: int| 0 <= k < directions.len() && directions[k] == direction;
            let ghost three = seq![start_row as int, start_col as int, taken];
            proof {
                draws = draws + three;
                lemma_grid_as_rows(grid, letters, start_row as int, start_col as int, direction);
            }

            match Self::attempt(grid, word, start_row, start_col, direction) {
                Some(result) => {
                    proof {
                        let spot = Some((start_row as int, start_col as int, direction));
                        assert forall|rest: Seq<int>| #[trigger]
                            try_word(cells, size, letters, directions, budget, draws + rest) == (
                                spot,
                                rest,
                                true,
                            ) by {
                            let later = three + rest;
                            assert(draws + rest == earlier + later);
                            assert(try_word(
                                cells,
                                size,
                                letters,
                                directions,
                                tried as nat,
                                earlier + later,
                            ) == (None::<(int, int, Direction)>, later, true));
                            assert(later.skip(3) == rest);
                            assert(try_word(cells, size, letters, directions, now, draws + rest)
                                == (spot, rest, true));
                            lemma_placed_within_budget(
                                cells,
                                size,
                                letters,
                                directions,
                                now,
                                budget,
                                draws + rest,
                            );
                        }
                        assert(tries(
                            old(grid)@,
                            old(grid).size as int,
                            word.letters(),
                            allowed_directions@,
                            self.config().max_attempts_per_word as nat,
                            draws,
                            spot_of(Some(result)),
                        ));
                    }
                    return Some(result);
                },
                None => {},
            }
            proof {
                assert forall|rest: Seq<int>| #[trigger]
                    try_word(cells, size, letters, directions, now, draws + rest) == (
                        None::<(int, int, Direction)>,
                        rest,
                        true,
                    ) by {
                    let later = three + rest;
                    assert(draws + rest == earlier + later);
                    assert(try_word(
                        cells,
                        size,
                        letters,
                        directions,
                        tried as nat,
                        earlier + later,
                    ) == (None::<(int, int, Direction)>, later, true));
                    assert(later.skip(3) == rest);
                }
            }
            tried += 1;
        }
        proof {
            assert(tries(cells, size, letters, directions, budget, draws, spot_of(None)));
        }

        None
    }

    /// Whether the first word of `queue` is placed whatever is drawn: there
    /// is an attempt to make and a direction to take, and the word is a
    /// single letter, which fits anywhere on the blank grid.
    pub open spec fn places_first_for_sure(&self, queue: Seq<Word>) -> bool {
        &&& queue.len() > 0
        &&& queue[0].letters().len() == 1
        &&& self.config().max_attempts_per_word > 0
        &&& self.config().difficulty.allowed().len() > 0
    }

    /// Whether a run of this generator on `queue`, made with exactly the
    /// draws `draws`, ends with the given grid, placements and discarded
    /// words.
    pub open spec fn runs(
        &self,
        queue: Seq<Word>,
        draws: Seq<int>,
        cells: Seq<Seq<Option<char>>>,
        placed: Seq<PlacementResult>,
        discarded: Seq<Word>,
    ) -> bool {
        forall|rest: Seq<int>| #[trigger]
            run(
                self.config().grid_size as int,
                self.config().difficulty.allowed(),
                self.config().max_attempts_per_word as nat,
                queue,
                portuguese_table(),
                351,
                draws + rest,
            ) == (Run { cells, placed, discarded, left: rest, valid: true })
    }

    /// Whether the placing of `queue` by this generator, made with exactly
    /// the draws `draws`, ends with the given grid, placements and
    /// discarded words.
    pub open spec fn places(
        &self,
        queue: Seq<Word>,
        draws: Seq<int>,
        cells: Seq<Seq<Option<char>>>,
        placed: Seq<PlacementResult>,
        discarded: Seq<Word>,
    ) -> bool {
        forall|rest: Seq<int>| #[trigger]
            place_all(
                self.config().grid_size as int,
                self.config().difficulty.allowed(),
                self.config().max_attempts_per_word as nat,
                queue,
                draws + rest,
            ) == (Run { cells, placed, discarded, left: rest, valid: true })
    }

    /// Builds the queue of a run: the words made of `words` that have a
    /// letter to place and are no longer than the grid is wide, sorted
    /// longest first. Words that do not enter the queue are dropped; they
    /// are neither placed nor discarded.
    pub fn word_queue(&self, words: &[&str]) -> (queue: Vec<Word>)
        ensures
            exists|candidates: Seq<Word>|
                are_words_of(candidates, words@) && #[trigger] is_queue_of(
                    queue@,
                    candidates,
                    self.config().grid_size,
                ),
            forall|i: int|
                0 <= i < queue@.len() ==> (#[trigger] queue@[i]).wf() && 0
                    < queue@[i].letters().len() <= self.config().grid_size,
    {
        let mut queue: Vec<Word> = Vec::new();
        let ghost mut candidates: Seq<Word> = Seq::empty();
        let ghost enters = enters_queue(self.config.grid_size);
        let mut i: usize = 0;
        while i < words.len()
            invariant
                i <= words@.len(),
                enters == enters_queue(self.config.grid_size),
                are_words_of(candidates, words@.take(i as int)),
                queue@ == candidates.filter(enters),
                forall|k: int|
                    0 <= k < queue@.len() ==> (#[trigger] queue@[k]).wf() && enters(queue@[k]),
            decreases words@.len() - i,
        {
            let word = Word::new(words[i]);
            proof {
                candidates.lemma_filter_push(word, enters);
                candidates = candidates.push(word);
            }
            if !word.is_empty() && word.len() <= self.config.grid_size {
                queue.push(word);
            }
            i += 1;
        }
        assert(words@.take(words@.len() as int) == words@);
        let ghost unsorted = queue@;
        sort_by_length_desc(&mut queue);
        proof {
            assert forall|k: int| 0 <= k < queue@.len() implies (#[trigger] queue@[k]).wf()
                && enters(queue@[k]) by {
                let w = queue@[k];
                queue@.to_multiset_ensures();
                unsorted.to_multiset_ensures();
                assert(queue@.contains(w));
                assert(unsorted.to_multiset().count(w) > 0);
                assert(unsorted.contains(w));
            }
            assert(are_words_of(candidates, words@));
            assert(is_queue_of(queue@, candidates, self.config().grid_size));
        }
        queue
    }

    /// Generates a puzzle from the given words. The words that enter the
    /// queue (see `word_queue`) are tried longest first on a blank grid;
    /// each ends up placed or discarded. The cells left empty are then
    /// filled with letters of the Portuguese table.
    ///
    /// Which numbers are drawn is left to `rng`; the result is what `run`
    /// gives for the queue and the numbers drawn: rows, columns and
    /// positions of directions for the attempts, then rolls for the filling.
    /// Whatever is drawn, every placed word can be read in the grid at its
    /// recorded place, and the grid ends up full of uppercase letters.
    pub fn generate(&self, words: &[&str], rng: &mut StdRng) -> (result: GenerationResult)
        ensures
            result.grid.wf(),
            result.grid.size == self.config().grid_size,
            result.grid.is_full(),
            result.grid.holds_upper_letters(),
            exists|candidates: Seq<Word>, queue: Seq<Word>|
                are_words_of(candidates, words@) && #[trigger] is_queue_of(
                    queue,
                    candidates,
                    self.config().grid_size,
                ) && shares_out(
                    queue,
                    words_placed(result.placed_words@),
                    result.discarded_words@,
                ) && (self.places_first_for_sure(queue) ==> result.placed_words@.len() > 0
                    && result.placed_words@[0].word == queue[0]) && exists|draws: Seq<int>|
                    #[trigger] self.runs(
                        queue,
                        draws,
                        result.grid@,
                        result.placed_words@,
                        result.discarded_words@,
                    ),
            forall|i: int|
                0 <= i < result.placed_words@.len() ==> {
                    let p = #[trigger] result.placed_words@[i];
                    &&& p.spelled_in(&result.grid)
                    &&& p.word.wf()
                    &&& 0 < p.word.letters().len() <= self.config().grid_size
                    &&& self.config().difficulty.allows(p.direction)
                },
            forall|i: int|
                0 <= i < result.discarded_words@.len() ==> {
                    let w = #[trigger] result.discarded_words@[i];
                    w.wf() && 0 < w.letters().len() <= self.config().grid_size
                },
            self.config().difficulty.allowed().len() == 0 || self.config().max_attempts_per_word
                == 0 ==> result.placed_words@.len() == 0,
    {
        let mut grid = Grid::new(self.config.grid_size);
        let allowed_directions = self.config.difficulty.allowed_directions();
        let word_list = self.word_queue(words);

        let mut placed_words: Vec<PlacementResult> = Vec::new();
        let mut discarded_words: Vec<Word> = Vec::new();
        let ghost mut draws: Seq<int> = Seq::empty();
        proof {
            lemma_grid_as_rows(&grid, Seq::empty(), 0, 0, Direction::Horizontal);
            assert forall|rest: Seq<int>| #[trigger]
                place_all(
                    self.config().grid_size as int,
                    self.config().difficulty.allowed(),
                    self.config().max_attempts_per_word as nat,
                    word_list@.take(0),
                    draws + rest,
                ) == (Run {
                    cells: grid@,
                    placed: placed_words@,
                    discarded: discarded_words@,
                    left: rest,
                    valid: true,
                }) by {
                assert(draws + rest == rest);
            }
        }

        let mut i: usize = 0;
        while i < word_list.len()
            invariant
                i <= word_list@.len(),
                self.places(
                    word_list@.take(i as int),
                    draws,
                    grid@,
                    placed_words@,
                    discarded_words@,
                ),
                grid.wf(),
                grid.size == self.config.grid_size,
                grid.holds_upper_letters(),
                allowed_directions@ == self.config.difficulty.allowed(),
                forall|d: Direction|
                    allowed_directions@.contains(d) <==> self.config.difficulty.allows(d),
                forall|k: int|
                    0 <= k < word_list@.len() ==> (#[trigger] word_list@[k]).wf() && 0
                        < word_list@[k].letters().len() <= self.config.grid_size,
                shares_out(word_list@.take(i as int), words_placed(placed_words@), discarded_words@),
                forall|k: int|
                    0 <= k < placed_words@.len() ==> {
                        let p = #[trigger] placed_words@[k];
                        &&& p.spelled_in(&grid)
                        &&& p.word.wf()
                        &&& 0 < p.word.letters().len() <= self.config.grid_size
                        &&& self.config.difficulty.allows(p.direction)
                    },
                forall|k: int|
                    0 <= k < discarded_words@.len() ==> {
                        let w = #[trigger] discarded_words@[k];
                        w.wf() && 0 < w.letters().len() <= self.config.grid_size
                    },
                allowed_directions@.len() == 0 || self.config.max_attempts_per_word == 0
                    ==> placed_words@.len() == 0,
                i == 0 ==> grid.is_blank(),
                i > 0 && self.places_first_for_sure(word_list@) ==> placed_words@.len() > 0
                    && placed_words@[0].word == word_list@[0],
            decreases word_list@.len() - i,
        {
            let word = word_list[i].clone();
            let ghost before = grid;
            let ghost placed_before = placed_words@;
            let ghost discarded_before = discarded_words@;
            let ghost earlier = draws;
            assert(word_list@.take(i + 1).drop_last() == word_list@.take(i as int));
            let outcome = self.try_place_word(&mut grid, &word, allowed_directions.as_slice(), rng);
            proof {
                let size = self.config().grid_size as int;
                let directions = self.config().difficulty.allowed();
                let budget = self.config().max_attempts_per_word as nat;
                let taken = choose|taken: Seq<int>| #[trigger]
                    tries(before@, size, word.letters(), directions, budget, taken, spot_of(outcome));
                draws = draws + taken;
                let placed_after = if outcome is Some {
                    placed_before.push(outcome->0)
                } else {
                    placed_before
                };
                let discarded_after = if outcome is Some {
                    discarded_before
                } else {
                    discarded_before.push(word)
                };
                if outcome is Some {
                    let p = outcome->0;
                    lemma_grid_as_rows(&before, word.letters(), p.row as int, p.col as int, p.direction);
                    assert(p == (PlacementResult {
                        word,
                        row: (p.row as int) as usize,
                        col: (p.col as int) as usize,
                        direction: p.direction,
                    }));
                }
                assert forall|rest: Seq<int>| #[trigger]
                    place_all(size, directions, budget, word_list@.take(i + 1), draws + rest) == (Run {
                        cells: grid@,
                        placed: placed_after,
                        discarded: discarded_after,
                        left: rest,
                        valid: true,
                    }) by {
                    let later = taken + rest;
                    assert(draws + rest == earlier + later);
                    assert(place_all(size, directions, budget, word_list@.take(i as int), earlier + later)
                        == (Run {
                        cells: before@,
                        placed: placed_before,
                        discarded: discarded_before,
                        left: later,
                        valid: true,
                    }));
                    assert(try_word(before@, size, word.letters(), directions, budget, taken + rest)
                        == (spot_of(outcome), rest, true));
                }
            }
            match outcome {
                Some(result) => {
                    proof {
                        let letters = word.letters();
                        let row = result.row as int;
                        let col = result.col as int;
                        crate::grid::lemma_written_where_it_fits(
                            &before,
                            &grid,
                            letters,
                            row,
                            col,
                            result.direction,
                        );
                        crate::grid::lemma_written_keeps_upper_letters(
                            &before,
                            &grid,
                            letters,
                            row,
                            col,
                            result.direction,
                        );
                        assert forall|k: int| 0 <= k < placed_before.len() implies (
                        #[trigger] placed_before[k]).spelled_in(&grid) by {
                            let p = placed_before[k];
                            crate::grid::lemma_written_keeps_spelled(
                                &before,
                                &grid,
                                letters,
                                row,
                                col,
                                result.direction,
                                p.word.letters(),
                                p.row as int,
                                p.col as int,
                                p.direction,
                            );
                        }
                    }
                    placed_words.push(result);
                    proof {
                        assert(words_placed(placed_words@).drop_last() == words_placed(
                            placed_before,
                        ));
                        assert(words_placed(placed_words@).last() == word);
                    }
                },
                None => {
                    proof {
                        if i == 0 && self.places_first_for_sure(word_list@) {
                            assert forall|row: int, col: int, direction: Direction|
                                0 <= row < before.size && 0 <= col < before.size
                                    && allowed_directions@.contains(
                                    direction,
                                ) implies #[trigger] before.fits(
                                word.letters(),
                                row,
                                col,
                                direction,
                            ) by {
                                crate::grid::lemma_single_letter_fits_blank(
                                    &before,
                                    word.letters(),
                                    row,
                                    col,
                                    direction,
                                );
                            }
                            assert(Self::fits_everywhere(&before, &word, allowed_directions@));
                        }
                    }
                    discarded_words.push(word);
                    proof {
                        assert(discarded_words@.drop_last() == discarded_before);
                    }
                },
            }
            i += 1;
        }
        assert(word_list@.take(word_list@.len() as int) == word_list@);

        let filler = Filler::new();
        let ghost unfilled = grid;
        filler.fill_grid(&mut grid, rng);
        proof {
            let rolls = choose|rolls: Seq<int>| #[trigger] filler.fills(unfilled@, rolls, grid@);
            let all = draws + rolls;
            assert forall|rest: Seq<int>| #[trigger]
                run(
                    self.config().grid_size as int,
                    self.config().difficulty.allowed(),
                    self.config().max_attempts_per_word as nat,
                    word_list@,
                    portuguese_table(),
                    351,
                    all + rest,
                ) == (Run {
                    cells: grid@,
                    placed: placed_words@,
                    discarded: discarded_words@,
                    left: rest,
                    valid: true,
                }) by {
                let later = rolls + rest;
                assert(all + rest == draws + later);
                assert(place_all(
                    self.config().grid_size as int,
                    self.config().difficulty.allowed(),
                    self.config().max_attempts_per_word as nat,
                    word_list@,
                    draws + later,
                ) == (Run {
                    cells: unfilled@,
                    placed: placed_words@,
                    discarded: discarded_words@,
                    left: later,
                    valid: true,
                }));
                assert(fill_rows(
                    unfilled@,
                    filler.weights@,
                    filler.total_weight as int,
                    rolls + rest,
                ) == (grid@, rest, true));
            }
            assert(self.runs(word_list@, all, grid@, placed_words@, discarded_words@));
            let candidates = choose|candidates: Seq<Word>|
                are_words_of(candidates, words@) && #[trigger] is_queue_of(
                    word_list@,
                    candidates,
                    self.config().grid_size,
                );
            assert(are_words_of(candidates, words@) && is_queue_of(
                word_list@,
                candidates,
                self.config().grid_size,
            ) && shares_out(word_list@, words_placed(placed_words@), discarded_words@) && (
            self.places_first_for_sure(word_list@) ==> placed_words@.len() > 0
                && placed_words@[0].word == word_list@[0]) && exists|draws: Seq<int>|
                #[trigger] self.runs(word_list@, draws, grid@, placed_words@, discarded_words@));
            assert forall|k: int| 0 <= k < placed_words@.len() implies (
            #[trigger] placed_words@[k]).spelled_in(&grid) by {
                let p = placed_words@[k];
                let letters = p.word.letters();
                assert forall|j: int| 0 <= j < letters.len() implies #[trigger] grid.shows_at(
                    letters,
                    p.row as int,
                    p.col as int,
                    p.direction,
                    j,
                ) by {
                    assert(unfilled.shows_at(letters, p.row as int, p.col as int, p.direction, j));
                    let r = crate::grid::path_row(p.row as int, p.direction, j);
                    let c = crate::grid::path_col(p.col as int, p.direction, j);
                    assert(unfilled.at(r, c) is Some);
                }
            }
            assert forall|r: int, c: int|
                grid.inside(r, c) && (#[trigger] grid.at(r, c)) is Some implies crate::word::is_upper_letter(
                grid.at(r, c)->0,
            ) by {
                if unfilled.at(r, c) is Some {
                    assert(grid.at(r, c) == unfilled.at(r, c));
                } else {
                    let letter = grid.at(r, c)->0;
                    assert(filler.has_letter(letter));
                }
            }
        }

        GenerationResult { grid, placed_words, discarded_words }
    }

    /// Whether `word` fits at some cell of the grid along some allowed
    /// direction.
    pub open spec fn fits_somewhere(grid: &Grid, word: &Word, allowed: Seq<Direction>) -> bool {
        exists|row: int, col: int, direction: Direction|
            0 <= row < grid.size && 0 <= col < grid.size && allowed.contains(direction)
                && #[trigger] grid.fits(word.letters(), row, col, direction)
    }

    /// Whether `word` fits at every cell of the grid along every allowed
    /// direction.
    pub open spec fn fits_everywhere(grid: &Grid, word: &Word, allowed: Seq<Direction>) -> bool {
        forall|row: int, col: int, direction: Direction|
            0 <= row < grid.size && 0 <= col < grid.size && allowed.contains(direction)
                ==> #[trigger] grid.fits(word.letters(), row, col, direction)
    }
}

} // verus!
