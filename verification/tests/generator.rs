use rand::rngs::StdRng;
use rand::SeedableRng;
use word_search::difficulty::Difficulty;
use word_search::generator::{Generator, GeneratorConfig};

#[test]
fn test_generator_basic() {
    let config = GeneratorConfig::new(15, Difficulty::easy());
    let generator = Generator::new(config);
    let mut rng = StdRng::seed_from_u64(42);

    let words = vec!["RUST", "CODE", "PIZZA"];
    let result = generator.generate(&words, &mut rng);

    assert_eq!(result.grid.size, 15);
    assert_eq!(result.grid.empty_count(), 0);
    assert!(!result.placed_words.is_empty());
}

#[test]
fn test_generator_deterministic() {
    let config = GeneratorConfig::new(10, Difficulty::medium());
    let generator = Generator::new(config.clone());

    let words = vec!["HELLO", "WORLD"];

    let mut rng1 = StdRng::seed_from_u64(12345);
    let result1 = generator.generate(&words, &mut rng1);

    let generator2 = Generator::new(config);
    let mut rng2 = StdRng::seed_from_u64(12345);
    let result2 = generator2.generate(&words, &mut rng2);

    assert_eq!(result1.grid.display(false), result2.grid.display(false));
}
