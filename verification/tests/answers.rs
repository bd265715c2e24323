use word_search::difficulty::Difficulty;
use word_search::input::{InputError, PuzzleInput};
use word_search::text::{chars_of, text_between, trimmed, trimmed_bounds, without_line_end};

fn flags(d: &Difficulty) -> (bool, bool, bool, bool) {
    (d.allow_horizontal, d.allow_vertical, d.allow_diagonal, d.allow_reverse)
}

#[test]
fn difficulty_answers() {
    let (d, known) = PuzzleInput::difficulty_for("1");
    assert_eq!((flags(&d), known), ((true, true, false, false), true));
    let (d, known) = PuzzleInput::difficulty_for(" 2 ");
    assert_eq!((flags(&d), known), ((true, true, true, false), true));
    let (d, known) = PuzzleInput::difficulty_for("3\t");
    assert_eq!((flags(&d), known), ((true, true, true, true), true));
    for other in ["", "4", "11", "um", "1 2"] {
        let (d, known) = PuzzleInput::difficulty_for(other);
        assert_eq!((flags(&d), known), ((true, true, true, false), false));
    }
}

#[test]
fn grid_size_answers() {
    assert_eq!(PuzzleInput::grid_size_for("1"), (12, true));
    assert_eq!(PuzzleInput::grid_size_for("2"), (15, true));
    assert_eq!(PuzzleInput::grid_size_for("  3"), (20, true));
    assert_eq!(PuzzleInput::grid_size_for(""), (15, false));
    assert_eq!(PuzzleInput::grid_size_for("20"), (15, false));
}

#[test]
fn blank_lines_and_fim_end_the_words() {
    for line in ["", "   ", "FIM", "fim", " Fim ", "fIM\t"] {
        assert!(PuzzleInput::is_end_of_words(line));
    }
    for line in ["FIMM", "FI", "F I M", "fin", ",", "fim,"] {
        assert!(!PuzzleInput::is_end_of_words(line));
    }
}

#[test]
fn a_line_gives_one_word_or_its_pieces() {
    assert_eq!(PuzzleInput::words_in_line("  pizza  "), vec!["pizza"]);
    assert_eq!(PuzzleInput::words_in_line("pão de queijo"), vec!["pão de queijo"]);
    assert_eq!(
        PuzzleInput::words_in_line(" queijo, tomate ,,  massa fina , "),
        vec!["queijo", "tomate", "massa fina"]
    );
    assert_eq!(PuzzleInput::words_in_line(","), Vec::<String>::new());
    assert_eq!(PuzzleInput::words_in_line(",a"), vec!["a"]);
    assert_eq!(PuzzleInput::words_in_line(""), Vec::<String>::new());
}

#[test]
fn lines_are_accepted_until_the_end() {
    let mut words = vec!["um".to_string()];
    assert!(PuzzleInput::accept_line(&mut words, "dois, três"));
    assert!(PuzzleInput::accept_line(&mut words, "quatro"));
    assert_eq!(words, vec!["um", "dois", "três", "quatro"]);
    assert!(!PuzzleInput::accept_line(&mut words, "fim"));
    assert!(!PuzzleInput::accept_line(&mut words, ""));
    assert_eq!(words.len(), 4);
}

#[test]
fn a_puzzle_needs_a_word() {
    let none = PuzzleInput::assemble("T".to_string(), Difficulty::easy(), 12, vec![]);
    assert_eq!(none.err(), Some(InputError::NoWords));
    let some = PuzzleInput::assemble("T".to_string(), Difficulty::hard(), 20, vec!["a".to_string()])
        .unwrap();
    assert_eq!(some.title, "T");
    assert_eq!(some.grid_size, 20);
    assert_eq!(some.words, vec!["a"]);
    assert!(some.difficulty.allow_reverse);
}

#[test]
fn line_ends_are_taken_off() {
    assert_eq!(without_line_end("abc\n"), "abc");
    assert_eq!(without_line_end("abc\r\n"), "abc");
    assert_eq!(without_line_end("abc\r\r\n\n"), "abc");
    assert_eq!(without_line_end("abc\n\r"), "abc\n");
    assert_eq!(without_line_end(" abc "), " abc ");
    assert_eq!(without_line_end(""), "");
}

#[test]
fn trimming_takes_white_space_off_both_ends() {
    assert_eq!(trimmed("  a b \t\n"), "a b");
    assert_eq!(trimmed("\u{a0}é\u{2003}"), "é");
    assert_eq!(trimmed("   "), "");
    assert_eq!(trimmed(""), "");
    assert_eq!(trimmed("  a b \t"), "  a b \t".trim());
    let chars = chars_of(" ab  c ");
    assert_eq!(chars, vec![' ', 'a', 'b', ' ', ' ', 'c', ' ']);
    assert_eq!(trimmed_bounds(&chars, 0, 7), (1, 6));
    assert_eq!(trimmed_bounds(&chars, 3, 5), (5, 5));
    assert_eq!(text_between(&chars, 1, 3), "ab");
}
