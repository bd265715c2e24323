use rand::rngs::StdRng;
use rand::SeedableRng;
use word_search::difficulty::Difficulty;
use word_search::direction::Direction;
use word_search::filler::Filler;
use word_search::generator::{GenerationResult, Generator, GeneratorConfig};
use word_search::grid::{Grid, PlacementResult};
use word_search::word::{sort_by_length_desc, Word};

fn reads_in(grid: &Grid, placement: &PlacementResult) -> bool {
    let (dr, dc) = placement.direction.deltas();
    let letters = placement.word.chars();
    for (i, letter) in letters.iter().enumerate() {
        let row = placement.row as i64 + dr as i64 * i as i64;
        let col = placement.col as i64 + dc as i64 * i as i64;
        if row < 0 || col < 0 {
            return false;
        }
        if grid.get(row as usize, col as usize) != Some(*letter) {
            return false;
        }
    }
    true
}

fn every_cell_is_an_upper_letter(grid: &Grid) -> bool {
    (0..grid.size).all(|r| {
        (0..grid.size).all(|c| matches!(grid.get(r, c), Some(l) if l.is_ascii_uppercase()))
    })
}

fn generated(size: usize, difficulty: Difficulty, words: &[&str], seed: u64) -> GenerationResult {
    let generator = Generator::new(GeneratorConfig::new(size, difficulty));
    let mut rng = StdRng::seed_from_u64(seed);
    generator.generate(words, &mut rng)
}

#[test]
fn same_seed_gives_the_same_run() {
    let words = ["HELLO", "WORLD", "PIZZA", "QUEIJO", "a", "maçã"];
    let one = generated(10, Difficulty::hard(), &words, 7);
    let two = generated(10, Difficulty::hard(), &words, 7);
    assert_eq!(one.grid.cells, two.grid.cells);
    assert_eq!(one.placed_words.len(), two.placed_words.len());
    for (a, b) in one.placed_words.iter().zip(two.placed_words.iter()) {
        assert_eq!(a.word.original, b.word.original);
        assert_eq!(a.word.normalized, b.word.normalized);
        assert_eq!((a.row, a.col, a.direction), (b.row, b.col, b.direction));
    }
    let discarded_one: Vec<&String> = one.discarded_words.iter().map(|w| &w.original).collect();
    let discarded_two: Vec<&String> = two.discarded_words.iter().map(|w| &w.original).collect();
    assert_eq!(discarded_one, discarded_two);
}

#[test]
fn placed_words_read_in_the_grid_and_agree_where_they_cross() {
    let words = ["RUST", "TRUST", "CRUST", "STRUT", "TUTOR", "ROTOR", "SORT", "TORT"];
    for seed in 0..20 {
        let result = generated(6, Difficulty::hard(), &words, seed);
        for placement in &result.placed_words {
            assert!(reads_in(&result.grid, placement));
        }
        assert_eq!(result.placed_words.len() + result.discarded_words.len(), words.len());
    }
}

#[test]
fn every_cell_is_filled_after_generation() {
    for seed in 0..10 {
        let result = generated(8, Difficulty::medium(), &["GATO", "CACHORRO", "PATO"], seed);
        assert_eq!(result.grid.empty_count(), 0);
        assert!(every_cell_is_an_upper_letter(&result.grid));
    }
}

#[test]
fn medium_allows_four_directions() {
    assert_eq!(Difficulty::medium().allowed_directions().len(), 4);
}

#[test]
fn allowed_directions_come_in_the_fixed_order() {
    assert_eq!(
        Difficulty::hard().allowed_directions(),
        vec![
            Direction::Horizontal,
            Direction::HorizontalReverse,
            Direction::Vertical,
            Direction::VerticalReverse,
            Direction::DiagonalDown,
            Direction::DiagonalUp,
            Direction::DiagonalDownReverse,
            Direction::DiagonalUpReverse,
        ]
    );
    assert_eq!(
        Difficulty::easy().allowed_directions(),
        vec![Direction::Horizontal, Direction::Vertical]
    );
    assert_eq!(
        Difficulty::medium().allowed_directions(),
        vec![
            Direction::Horizontal,
            Direction::Vertical,
            Direction::DiagonalDown,
            Direction::DiagonalUp,
        ]
    );
    let only_reverse_diagonals = Difficulty {
        allow_horizontal: false,
        allow_vertical: false,
        allow_diagonal: true,
        allow_reverse: true,
    };
    assert_eq!(only_reverse_diagonals.allowed_directions().len(), 4);
}

#[test]
fn normalize_empty_and_letterless_texts() {
    assert_eq!(Word::normalize(""), "");
    assert_eq!(Word::normalize("123 -!?"), "");
    assert!(Word::new("").is_empty());
    assert_eq!(Word::new("").len(), 0);
}

#[test]
fn normalize_strips_and_uppercases() {
    assert_eq!(Word::normalize("café"), "CAFE");
    assert_eq!(Word::normalize("coração"), "CORACAO");
    assert_eq!(Word::normalize("pão-de-queijo 2"), "PAODEQUEIJO");
    assert_eq!(Word::normalize("Ñandú"), "NANDU");
    let word = Word::new("água");
    assert_eq!(word.original, "água");
    assert_eq!(word.chars(), vec!['A', 'G', 'U', 'A']);
    assert_eq!(word.len(), 4);
}

#[test]
fn normalize_is_idempotent() {
    for raw in ["café", "coração", "", "a1b2", "ÀÉÎÕÜ", "hello world"] {
        let once = Word::normalize(raw);
        assert_eq!(Word::normalize(&once), once);
    }
}

#[test]
fn too_long_words_are_left_out_of_the_queue() {
    let words = ["ABCDEFGH", "ABC", "", "12"];
    let result = generated(5, Difficulty::hard(), &words, 3);
    assert!(result.placed_words.iter().all(|p| p.word.original != "ABCDEFGH"));
    assert!(result.discarded_words.iter().all(|w| w.original != "ABCDEFGH"));
    assert!(result.discarded_words.iter().all(|w| !w.is_empty()));
    assert_eq!(result.placed_words.len() + result.discarded_words.len(), 1);
    let generator = Generator::new(GeneratorConfig::new(5, Difficulty::hard()));
    let queue = generator.word_queue(&words);
    assert_eq!(queue.len(), 1);
    assert_eq!(queue[0].normalized, "ABC");
}

#[test]
fn hello_world_on_a_medium_grid() {
    let result = generated(10, Difficulty::medium(), &["HELLO", "WORLD"], 12345);
    assert_eq!(result.placed_words.len(), 2);
    assert!(result.discarded_words.is_empty());
    let allowed = Difficulty::medium().allowed_directions();
    for placement in &result.placed_words {
        assert!(reads_in(&result.grid, placement));
        assert!(allowed.contains(&placement.direction));
    }
    assert_eq!(result.grid.empty_count(), 0);
}

#[test]
fn no_direction_allowed_discards_every_word() {
    let none = Difficulty {
        allow_horizontal: false,
        allow_vertical: false,
        allow_diagonal: false,
        allow_reverse: false,
    };
    assert!(none.allowed_directions().is_empty());
    let result = generated(6, none, &["UM", "DOIS", "TRES"], 1);
    assert!(result.placed_words.is_empty());
    let discarded: Vec<&str> = result.discarded_words.iter().map(|w| w.normalized.as_str()).collect();
    assert_eq!(discarded, vec!["DOIS", "TRES", "UM"]);
    assert_eq!(result.grid.empty_count(), 0);
    assert!(every_cell_is_an_upper_letter(&result.grid));
}

#[test]
fn no_direction_allowed_takes_no_draw_for_the_words() {
    let none = Difficulty {
        allow_horizontal: false,
        allow_vertical: false,
        allow_diagonal: false,
        allow_reverse: true,
    };
    let with_words = generated(4, none.clone(), &["UM", "DOIS"], 9);
    let mut grid = Grid::new(4);
    let mut rng = StdRng::seed_from_u64(9);
    Filler::new().fill_grid(&mut grid, &mut rng);
    assert_eq!(with_words.grid.cells, grid.cells);
}

#[test]
fn a_word_as_long_as_the_grid_fills_the_first_row() {
    let mut grid = Grid::new(5);
    let word = Word::new("PIZZA");
    assert!(grid.can_place(&word, 0, 0, Direction::Horizontal));
    assert!(!grid.can_place(&word, 0, 1, Direction::Horizontal));
    let placement = grid.place_word(&word, 0, 0, Direction::Horizontal);
    assert_eq!((placement.row, placement.col, placement.direction), (0, 0, Direction::Horizontal));
    assert_eq!(placement.word.normalized, "PIZZA");
    assert_eq!(grid.cells[0], vec![Some('P'), Some('I'), Some('Z'), Some('Z'), Some('A')]);
    for r in 1..5 {
        assert!(grid.cells[r].iter().all(|c| c.is_none()));
    }
    assert_eq!(grid.empty_count(), 20);
}

#[test]
fn zero_attempts_discard_every_word() {
    let generator =
        Generator::new(GeneratorConfig::new(8, Difficulty::hard()).with_max_attempts(0));
    let mut rng = StdRng::seed_from_u64(5);
    let result = generator.generate(&["SOL", "LUA"], &mut rng);
    assert!(result.placed_words.is_empty());
    assert_eq!(result.discarded_words.len(), 2);
    assert_eq!(result.grid.empty_count(), 0);
}

#[test]
fn a_single_letter_is_always_placed_first() {
    for seed in 0..10 {
        let generator =
            Generator::new(GeneratorConfig::new(3, Difficulty::easy()).with_max_attempts(1));
        let mut rng = StdRng::seed_from_u64(seed);
        let result = generator.generate(&["x", "y"], &mut rng);
        assert!(!result.placed_words.is_empty());
        assert_eq!(result.placed_words[0].word.normalized, "X");
    }
}

#[test]
fn words_are_tried_longest_first_and_ties_keep_their_order() {
    let mut words = vec![
        Word::new("bb"),
        Word::new("a"),
        Word::new("cc"),
        Word::new("dddd"),
        Word::new("e"),
        Word::new("ff"),
    ];
    sort_by_length_desc(&mut words);
    let order: Vec<&str> = words.iter().map(|w| w.normalized.as_str()).collect();
    assert_eq!(order, vec!["DDDD", "BB", "CC", "FF", "A", "E"]);
    let mut none: Vec<Word> = Vec::new();
    sort_by_length_desc(&mut none);
    assert!(none.is_empty());
}

#[test]
fn config_defaults_and_overrides() {
    let config = GeneratorConfig::new(12, Difficulty::easy());
    assert_eq!(config.grid_size, 12);
    assert_eq!(config.max_attempts_per_word, 100);
    assert!(config.difficulty.allow_horizontal && !config.difficulty.allow_diagonal);
    let config = config.with_max_attempts(200);
    assert_eq!(config.max_attempts_per_word, 200);
    assert_eq!(config.grid_size, 12);
}

#[test]
fn an_empty_grid_size_gives_an_empty_grid() {
    let result = generated(0, Difficulty::hard(), &["A", "B"], 2);
    assert_eq!(result.grid.size, 0);
    assert!(result.grid.cells.is_empty());
    assert!(result.placed_words.is_empty());
    assert!(result.discarded_words.is_empty());
}
