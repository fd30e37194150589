use pagerank::weights::{calculate_weights, init_languages};

#[test]
fn language_table_holds_the_fourteen_languages() {
    let languages = init_languages();
    assert_eq!(languages.len(), 14);
    assert_eq!(languages[0], ("JavaScript".to_string(), 1995));
    assert_eq!(languages[3], ("SQL".to_string(), 1974));
    assert_eq!(languages[9], ("C".to_string(), 1972));
    assert_eq!(languages[13], ("Rust".to_string(), 2010));
}

#[test]
fn years_become_ages_in_place() {
    let mut languages = init_languages();
    calculate_weights(&mut languages);
    assert_eq!(languages[0], ("JavaScript".to_string(), 29));
    assert_eq!(languages[4], ("TypeScript".to_string(), 12));
    assert_eq!(languages[9], ("C".to_string(), 52));
}

#[test]
fn weights_span_one_to_hundred_by_age() {
    let mut languages = init_languages();
    let weights = calculate_weights(&mut languages);
    assert_eq!(weights.len(), 14);
    // the newest language weighs 1, the oldest 100
    assert_eq!(weights[4], ("TypeScript".to_string(), 1));
    assert_eq!(weights[9], ("C".to_string(), 100));
    // in-between languages in exact linear proportion
    assert_eq!(weights[0], ("JavaScript".to_string(), 43));
    assert_eq!(weights[13], ("Rust".to_string(), 5));
    assert_eq!(weights[3], ("SQL".to_string(), 95));
    for (_, w) in &weights {
        assert!(1 <= *w && *w <= 100);
    }
}

#[test]
fn equal_years_all_weigh_one() {
    let mut table = vec![("A".to_string(), 2000), ("B".to_string(), 2000)];
    let weights = calculate_weights(&mut table);
    assert_eq!(table, vec![("A".to_string(), 24), ("B".to_string(), 24)]);
    assert_eq!(weights, vec![("A".to_string(), 1), ("B".to_string(), 1)]);
}

#[test]
fn empty_table_weighs_nothing() {
    let mut table: Vec<(String, i32)> = Vec::new();
    let weights = calculate_weights(&mut table);
    assert!(weights.is_empty());
}
