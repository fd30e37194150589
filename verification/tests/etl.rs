use pagerank::etl::{clean_total, extract_transform_load, CleanData, RawData};

#[test]
fn have_same_count_input_output() {
    let raw = vec![
        RawData { id: 1, value: 11 },
        RawData { id: 2, value: 22 },
        RawData { id: 3, value: 33 },
    ];

    let cleaned = extract_transform_load(raw);

    assert_eq!(cleaned.len(), 3);
    assert_eq!(cleaned[0].id, 1);
    assert_eq!(cleaned[0].value, 11);
    assert_eq!(cleaned[1].id, 2);
    assert_eq!(cleaned[1].value, 22);
    assert_eq!(cleaned[2].id, 3);
    assert_eq!(cleaned[2].value, 33);
}

#[test]
fn a_negative_number_set_to_zero() {
    let raw = vec![
        RawData { id: 1, value: -11 },
        RawData { id: 2, value: 22 },
        RawData { id: 3, value: -33 },
    ];

    let cleaned = extract_transform_load(raw);

    assert_eq!(cleaned.len(), 3);
    assert_eq!(cleaned[0].id, 1);
    assert_eq!(cleaned[0].value, 0);
    assert_eq!(cleaned[1].id, 2);
    assert_eq!(cleaned[1].value, 22);
    assert_eq!(cleaned[2].id, 3);
    assert_eq!(cleaned[2].value, 0);
}

#[test]
fn a_number_over_hundred_set_to_hundred() {
    let raw = vec![
        RawData { id: 1, value: 101 },
        RawData { id: 2, value: 22 },
        RawData { id: 3, value: 133 },
    ];

    let cleaned = extract_transform_load(raw);

    assert_eq!(cleaned.len(), 3);
    assert_eq!(cleaned[0].id, 1);
    assert_eq!(cleaned[0].value, 100);
    assert_eq!(cleaned[1].id, 2);
    assert_eq!(cleaned[1].value, 22);
    assert_eq!(cleaned[2].id, 3);
    assert_eq!(cleaned[2].value, 100);
}

#[test]
fn boundary_values_kept_as_they_are() {
    let raw = vec![
        RawData { id: 1, value: 0 },
        RawData { id: 2, value: 100 },
    ];

    let cleaned = extract_transform_load(raw);

    assert_eq!(cleaned.len(), 2);
    assert_eq!(cleaned[0].value, 0);
    assert_eq!(cleaned[1].value, 100);
}

#[test]
fn empty_batch_stays_empty() {
    let cleaned = extract_transform_load(Vec::new());
    assert_eq!(cleaned.len(), 0);
}

#[test]
fn total_of_cleaned_values() {
    let cleaned = vec![
        CleanData { id: 1, value: 10 },
        CleanData { id: 2, value: 20 },
        CleanData { id: 3, value: 30 },
    ];
    assert_eq!(clean_total(&cleaned), 60);
    assert_eq!(clean_total(&Vec::new()), 0);
}
