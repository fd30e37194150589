use pagerank::salad::make_fruit_salad;

#[test]
fn salad_garnishes_both_ends() {
    let fruit = vec![
        "Arbutus".to_string(),
        "Loquat".to_string(),
        "Strawberry Tree Berry".to_string(),
    ];
    let salad = make_fruit_salad(fruit.clone());
    assert_eq!(salad.len(), 6);
    assert_eq!(salad[0], "Pomegranate");
    assert_eq!(salad[4], "Fig");
    assert_eq!(salad[5], "Cherry");
    // between the garnishes: exactly the fruit that went in, in some order
    let mut middle: Vec<String> = salad[1..4].to_vec();
    middle.sort();
    let mut expected = fruit;
    expected.sort();
    assert_eq!(middle, expected);
}

#[test]
fn empty_salad_is_all_garnish() {
    let salad = make_fruit_salad(Vec::new());
    assert_eq!(
        salad,
        vec![
            "Pomegranate".to_string(),
            "Fig".to_string(),
            "Cherry".to_string()
        ]
    );
}
