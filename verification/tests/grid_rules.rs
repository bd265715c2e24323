use rand::rngs::StdRng;
use rand::SeedableRng;
use word_search::direction::Direction;
use word_search::filler::Filler;
use word_search::generator::{Generator, GeneratorConfig};
use word_search::difficulty::Difficulty;
use word_search::grid::Grid;
use word_search::word::Word;

#[test]
fn get_and_set_respect_the_bounds() {
    let mut grid = Grid::new(3);
    assert_eq!(grid.get(0, 0), None);
    assert_eq!(grid.get(3, 0), None);
    assert_eq!(grid.get(0, 3), None);
    grid.set(2, 1, 'Q');
    assert_eq!(grid.get(2, 1), Some('Q'));
    grid.set(3, 1, 'Z');
    grid.set(1, 7, 'Z');
    assert_eq!(grid.empty_count(), 8);
    assert!(grid.in_bounds(0, 0));
    assert!(grid.in_bounds(2, 2));
    assert!(!grid.in_bounds(-1, 0));
    assert!(!grid.in_bounds(0, -1));
    assert!(!grid.in_bounds(3, 0));
    assert!(!grid.in_bounds(0, 3));
}

#[test]
fn words_may_cross_only_on_equal_letters() {
    let mut grid = Grid::new(5);
    grid.place_word(&Word::new("RUST"), 1, 0, Direction::Horizontal);
    assert!(grid.can_place(&Word::new("SUN"), 0, 1, Direction::Vertical));
    assert!(!grid.can_place(&Word::new("SAN"), 0, 1, Direction::Vertical));
    assert!(grid.can_place(&Word::new("RUST"), 1, 0, Direction::Horizontal));
    assert!(grid.can_place(&Word::new("TSUR"), 1, 3, Direction::HorizontalReverse));
    grid.place_word(&Word::new("SUN"), 0, 1, Direction::Vertical);
    assert_eq!(grid.get(0, 1), Some('S'));
    assert_eq!(grid.get(1, 1), Some('U'));
    assert_eq!(grid.get(2, 1), Some('N'));
    assert_eq!(grid.get(1, 0), Some('R'));
    assert_eq!(grid.empty_count(), 25 - 6);
}

#[test]
fn every_direction_steps_as_its_deltas_say() {
    let cases = [
        (Direction::Horizontal, (0, 1), [(2, 2), (2, 3), (2, 4)]),
        (Direction::HorizontalReverse, (0, -1), [(2, 2), (2, 1), (2, 0)]),
        (Direction::Vertical, (1, 0), [(2, 2), (3, 2), (4, 2)]),
        (Direction::VerticalReverse, (-1, 0), [(2, 2), (1, 2), (0, 2)]),
        (Direction::DiagonalDown, (1, 1), [(2, 2), (3, 3), (4, 4)]),
        (Direction::DiagonalDownReverse, (-1, -1), [(2, 2), (1, 1), (0, 0)]),
        (Direction::DiagonalUp, (-1, 1), [(2, 2), (1, 3), (0, 4)]),
        (Direction::DiagonalUpReverse, (1, -1), [(2, 2), (3, 1), (4, 0)]),
    ];
    for (direction, deltas, cells) in cases {
        assert_eq!(direction.deltas(), deltas);
        assert_eq!(direction.reversed().reversed(), direction);
        let (dr, dc) = direction.reversed().deltas();
        assert_eq!((-dr, -dc), deltas);
        assert_eq!(direction.is_diagonal(), deltas.0 != 0 && deltas.1 != 0);
        let mut grid = Grid::new(5);
        let word = Word::new("ABC");
        assert!(grid.can_place(&word, 2, 2, direction));
        assert!(!grid.can_place(&Word::new("ABCD"), 2, 2, direction));
        grid.place_word(&word, 2, 2, direction);
        for (i, (r, c)) in cells.iter().enumerate() {
            assert_eq!(grid.get(*r, *c), Some(['A', 'B', 'C'][i]));
        }
        assert_eq!(grid.empty_count(), 22);
        let placement = word_search::grid::PlacementResult { word, row: 2, col: 2, direction };
        let highlighted = grid.highlighted_cells(Some(std::slice::from_ref(&placement)));
        assert_eq!(highlighted, cells.to_vec());
    }
}

#[test]
fn a_single_letter_fits_on_any_cell() {
    let grid = Grid::new(2);
    let word = Word::new("x");
    for r in 0..2 {
        for c in 0..2 {
            assert!(grid.can_place(&word, r, c, Direction::DiagonalUpReverse));
        }
    }
    assert!(!grid.can_place(&word, 2, 0, Direction::Horizontal));
    assert!(grid.can_place(&Word::new(""), 9, 9, Direction::Horizontal));
}

#[test]
fn letters_outside_the_grid_are_not_written() {
    let mut grid = Grid::new(3);
    grid.place_word(&Word::new("ABCDE"), 0, 1, Direction::Horizontal);
    assert_eq!(grid.cells[0], vec![None, Some('A'), Some('B')]);
    assert_eq!(grid.empty_count(), 7);
    grid.place_word(&Word::new("XY"), 0, 0, Direction::VerticalReverse);
    assert_eq!(grid.get(0, 0), Some('X'));
    assert_eq!(grid.empty_count(), 6);
}

#[test]
fn display_shows_rows_with_dots_or_spaces() {
    let mut grid = Grid::new(2);
    grid.set(0, 1, 'A');
    grid.set(1, 0, 'B');
    assert_eq!(grid.display(true), ". A \nB . \n");
    assert_eq!(grid.display(false), "  A \nB   \n");
    assert_eq!(Grid::new(0).display(true), "");
}

#[test]
fn highlighted_cells_follow_the_placements() {
    let generator = Generator::new(GeneratorConfig::new(6, Difficulty::hard()));
    let mut rng = StdRng::seed_from_u64(11);
    let result = generator.generate(&["GATO", "RATO", "PATO"], &mut rng);
    assert!(result.grid.highlighted_cells(None).is_empty());
    let cells = result.grid.highlighted_cells(Some(&result.placed_words));
    let total: usize = result.placed_words.iter().map(|p| p.word.len()).sum();
    assert_eq!(cells.len(), total);
    let mut next = 0;
    for placement in &result.placed_words {
        for letter in placement.word.chars() {
            let (r, c) = cells[next];
            assert_eq!(result.grid.get(r, c), Some(letter));
            next += 1;
        }
    }
    let outside = word_search::grid::PlacementResult {
        word: Word::new("ABC"),
        row: 5,
        col: 4,
        direction: Direction::Horizontal,
    };
    assert_eq!(
        result.grid.highlighted_cells(Some(std::slice::from_ref(&outside))),
        vec![(5, 4), (5, 5)]
    );
}

#[test]
fn attempt_places_only_where_the_word_fits() {
    let mut grid = Grid::new(4);
    let word = Word::new("SOL");
    assert!(Generator::attempt(&mut grid, &word, 0, 2, Direction::Horizontal).is_none());
    assert_eq!(grid.empty_count(), 16);
    let placed = Generator::attempt(&mut grid, &word, 0, 1, Direction::Horizontal).unwrap();
    assert_eq!((placed.row, placed.col, placed.direction), (0, 1, Direction::Horizontal));
    assert_eq!(grid.cells[0], vec![None, Some('S'), Some('O'), Some('L')]);
    assert!(Generator::attempt(&mut grid, &Word::new("LUA"), 0, 1, Direction::Vertical).is_none());
    assert!(Generator::attempt(&mut grid, &Word::new("LUA"), 0, 3, Direction::Vertical).is_some());
}

#[test]
fn try_place_word_needs_a_direction_and_an_attempt() {
    let word = Word::new("SOL");
    let mut rng = StdRng::seed_from_u64(1);
    let mut grid = Grid::new(5);
    let generator = Generator::new(GeneratorConfig::new(5, Difficulty::hard()));
    assert!(generator.try_place_word(&mut grid, &word, &[], &mut rng).is_none());
    let none = Generator::new(GeneratorConfig::new(5, Difficulty::hard()).with_max_attempts(0));
    assert!(none.try_place_word(&mut grid, &word, &[Direction::Horizontal], &mut rng).is_none());
    assert_eq!(grid.empty_count(), 25);
    let placed = generator
        .try_place_word(&mut grid, &Word::new("LUZES"), &[Direction::Vertical], &mut rng)
        .unwrap();
    assert_eq!((placed.row, placed.direction), (0, Direction::Vertical));
    assert_eq!(grid.empty_count(), 20);
}

#[test]
fn filler_leaves_placed_letters_alone() {
    let mut grid = Grid::new(4);
    grid.place_word(&Word::new("LUA"), 3, 0, Direction::Horizontal);
    let mut rng = StdRng::seed_from_u64(8);
    Filler::new().fill_grid(&mut grid, &mut rng);
    assert_eq!(grid.get(3, 0), Some('L'));
    assert_eq!(grid.get(3, 1), Some('U'));
    assert_eq!(grid.get(3, 2), Some('A'));
    assert_eq!(grid.empty_count(), 0);
}
