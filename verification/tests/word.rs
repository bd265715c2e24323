use word_search::word::{sort_by_length_desc, Word};

#[test]
fn test_normalize_accents() {
    let word = Word::new("café");
    assert_eq!(word.normalized, "CAFE");
}

#[test]
fn test_normalize_portuguese() {
    let word = Word::new("coração");
    assert_eq!(word.normalized, "CORACAO");
}

#[test]
fn test_sort_by_length() {
    let mut words = vec![Word::new("a"), Word::new("abc"), Word::new("ab")];
    sort_by_length_desc(&mut words);
    assert_eq!(words[0].normalized, "ABC");
}
