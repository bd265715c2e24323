use rand::rngs::StdRng;
use rand::SeedableRng;
use word_search::direction::Direction;
use word_search::filler::{Filler, PORTUGUESE_LETTERS};

#[test]
fn weights_fall_by_one_with_each_rank() {
    let filler = Filler::new();
    assert_eq!(filler.weights.len(), 26);
    assert_eq!(filler.total_weight, 351);
    assert_eq!(filler.weights[0], ('A', 26));
    assert_eq!(filler.weights[1], ('E', 25));
    assert_eq!(filler.weights[25], ('K', 1));
    for (i, c) in PORTUGUESE_LETTERS.chars().enumerate() {
        assert_eq!(filler.weights[i], (c, 26 - i as u32));
    }
    let same = Filler::default();
    assert_eq!(same.weights, filler.weights);
    assert_eq!(same.total_weight, 351);
}

#[test]
fn a_roll_picks_the_letter_of_its_bucket() {
    let filler = Filler::new();
    assert_eq!(filler.letter_for_roll(0), 'A');
    assert_eq!(filler.letter_for_roll(25), 'A');
    assert_eq!(filler.letter_for_roll(26), 'E');
    assert_eq!(filler.letter_for_roll(50), 'E');
    assert_eq!(filler.letter_for_roll(51), 'O');
    assert_eq!(filler.letter_for_roll(349), 'W');
    assert_eq!(filler.letter_for_roll(350), 'K');
    assert_eq!(filler.letter_for_roll(351), 'A');
    assert_eq!(filler.letter_for_roll(u32::MAX), 'A');
    let small = Filler { weights: vec![('X', 2), ('Y', 0), ('Z', 1)], total_weight: 3 };
    assert_eq!(small.letter_for_roll(0), 'X');
    assert_eq!(small.letter_for_roll(1), 'X');
    assert_eq!(small.letter_for_roll(2), 'Z');
    let empty = Filler { weights: vec![], total_weight: 0 };
    assert_eq!(empty.letter_for_roll(0), 'A');
}

#[test]
fn picked_letters_come_from_the_table() {
    let filler = Filler::new();
    let mut rng = StdRng::seed_from_u64(3);
    let mut seen = std::collections::BTreeSet::new();
    for _ in 0..2000 {
        let letter = filler.pick_letter(&mut rng);
        assert!(letter.is_ascii_uppercase());
        seen.insert(letter);
    }
    assert!(seen.len() > 20);
    let only = Filler { weights: vec![('Q', 5)], total_weight: 5 };
    for _ in 0..20 {
        assert_eq!(only.pick_letter(&mut rng), 'Q');
    }
}

#[test]
fn random_from_picks_one_of_the_given_directions() {
    let mut rng = StdRng::seed_from_u64(4);
    assert_eq!(Direction::random_from(&[], &mut rng), None);
    assert_eq!(
        Direction::random_from(&[Direction::DiagonalUp], &mut rng),
        Some(Direction::DiagonalUp)
    );
    let some = [Direction::Vertical, Direction::DiagonalDown, Direction::HorizontalReverse];
    let mut seen = std::collections::BTreeSet::new();
    for _ in 0..200 {
        let picked = Direction::random_from(&some, &mut rng).unwrap();
        assert!(some.contains(&picked));
        seen.insert(some.iter().position(|d| *d == picked).unwrap());
    }
    assert_eq!(seen.len(), 3);
}
