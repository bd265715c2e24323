use word_search::difficulty::Difficulty;
use word_search::input::PuzzleInput;

#[test]
fn test_puzzle_input_struct() {
    let input = PuzzleInput {
        title: "Test".to_string(),
        difficulty: Difficulty::easy(),
        grid_size: 10,
        words: vec!["HELLO".to_string()],
    };
    assert_eq!(input.title, "Test");
    assert_eq!(input.grid_size, 10);
}
