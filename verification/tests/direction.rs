use word_search::difficulty::Difficulty;
use word_search::direction::Direction;

#[test]
fn test_deltas() {
    assert_eq!(Direction::Horizontal.deltas(), (0, 1));
    assert_eq!(Direction::Vertical.deltas(), (1, 0));
    assert_eq!(Direction::DiagonalDown.deltas(), (1, 1));
}

#[test]
fn test_reversed() {
    assert_eq!(Direction::Horizontal.reversed(), Direction::HorizontalReverse);
}

#[test]
fn test_is_diagonal() {
    assert!(!Direction::Horizontal.is_diagonal());
    assert!(Direction::DiagonalDown.is_diagonal());
}

#[test]
fn test_easy_directions() {
    let easy = Difficulty::easy();
    let dirs = easy.allowed_directions();
    assert_eq!(dirs.len(), 2);
}

#[test]
fn test_hard_directions() {
    let hard = Difficulty::hard();
    let dirs = hard.allowed_directions();
    assert_eq!(dirs.len(), 8);
}
