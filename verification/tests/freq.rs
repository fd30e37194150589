use pagerank::freq::{logic, logic_sentence, replace_punctuation_with_space};

#[test]
fn number_frequencies_in_first_seen_order() {
    let numbers = vec![1, 2, 3, 4, 5, 6, 7, 8, 9, 1, 3];
    let result = logic(numbers);
    assert_eq!(
        result,
        vec![
            (1, 2),
            (2, 1),
            (3, 2),
            (4, 1),
            (5, 1),
            (6, 1),
            (7, 1),
            (8, 1),
            (9, 1)
        ]
    );
}

#[test]
fn no_numbers_no_frequencies() {
    let result = logic(Vec::new());
    assert!(result.is_empty());
}

#[test]
fn negative_and_repeated_numbers_are_counted() {
    let result = logic(vec![-3, -3, 7, -3]);
    assert_eq!(result, vec![(-3, 3), (7, 1)]);
}

#[test]
fn punctuation_becomes_space_character_for_character() {
    assert_eq!(replace_punctuation_with_space("a,b c!"), "a b c ");
    assert_eq!(replace_punctuation_with_space(""), "");
    assert_eq!(replace_punctuation_with_space("no punctuation"), "no punctuation");
    assert_eq!(replace_punctuation_with_space("?!."), "   ");
}

#[test]
fn word_frequencies_sorted_by_falling_count() {
    let result = logic_sentence("The quick brown fox, the lazy dog!");
    assert_eq!(
        result,
        vec![
            ("the".to_string(), 2),
            ("quick".to_string(), 1),
            ("brown".to_string(), 1),
            ("fox".to_string(), 1),
            ("lazy".to_string(), 1),
            ("dog".to_string(), 1)
        ]
    );
}

#[test]
fn case_is_folded_before_counting() {
    let result = logic_sentence("Rust RUST rust");
    assert_eq!(result, vec![("rust".to_string(), 3)]);
}

#[test]
fn punctuation_splits_words() {
    let result = logic_sentence("one-two one");
    assert_eq!(
        result,
        vec![("one".to_string(), 2), ("two".to_string(), 1)]
    );
}

#[test]
fn empty_sentence_has_no_words() {
    assert!(logic_sentence("").is_empty());
    assert!(logic_sentence("   ").is_empty());
    assert!(logic_sentence("...").is_empty());
}
