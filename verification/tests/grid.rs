use word_search::direction::Direction;
use word_search::grid::Grid;
use word_search::word::Word;

#[test]
fn test_new_grid() {
    let grid = Grid::new(10);
    assert_eq!(grid.size, 10);
    assert_eq!(grid.empty_count(), 100);
}

#[test]
fn test_can_place_horizontal() {
    let grid = Grid::new(10);
    let word = Word::new("RUST");
    assert!(grid.can_place(&word, 0, 0, Direction::Horizontal));
    assert!(!grid.can_place(&word, 0, 7, Direction::Horizontal));
}

#[test]
fn test_place_word() {
    let mut grid = Grid::new(10);
    let word = Word::new("RUST");
    grid.place_word(&word, 0, 0, Direction::Horizontal);

    assert_eq!(grid.get(0, 0), Some('R'));
    assert_eq!(grid.get(0, 3), Some('T'));
}
