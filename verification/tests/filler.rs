use rand::rngs::StdRng;
use rand::SeedableRng;
use word_search::filler::Filler;
use word_search::grid::Grid;

#[test]
fn test_filler_creation() {
    let filler = Filler::new();
    assert!(!filler.weights.is_empty());
    assert!(filler.total_weight > 0);
}

#[test]
fn test_pick_letter_deterministic() {
    let filler = Filler::new();
    let mut rng = StdRng::seed_from_u64(42);
    let letter1 = filler.pick_letter(&mut rng);
    let mut rng2 = StdRng::seed_from_u64(42);
    let letter2 = filler.pick_letter(&mut rng2);
    assert_eq!(letter1, letter2);
}

#[test]
fn test_fill_grid() {
    let filler = Filler::new();
    let mut grid = Grid::new(5);
    let mut rng = StdRng::seed_from_u64(42);

    assert_eq!(grid.empty_count(), 25);
    filler.fill_grid(&mut grid, &mut rng);
    assert_eq!(grid.empty_count(), 0);
}
