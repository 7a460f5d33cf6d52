use std::collections::HashMap;

use rust_playground::index_string::get_word_positions;
use rust_playground::word_index::PositionMap;

fn as_map(index: &PositionMap) -> HashMap<&str, Vec<usize>> {
    index
        .entries()
        .iter()
        .map(|(word, positions)| (word.as_str(), positions.clone()))
        .collect()
}

#[test]
fn test_word_positions_for_simple_string() {
    const NAIVE_TEXT: &str = "it will be great if it works";
    let mut expected_word_positions = HashMap::<&str, Vec<usize>>::new();
    expected_word_positions.insert("it", vec![0, 20]);
    expected_word_positions.insert("be", vec![8]);
    expected_word_positions.insert("great", vec![11]);
    expected_word_positions.insert("if", vec![17]);
    expected_word_positions.insert("will", vec![3]);
    expected_word_positions.insert("works", vec![23]);

    assert_eq!(as_map(&get_word_positions(NAIVE_TEXT)), expected_word_positions);
}

#[test]
fn test_word_positions_for_complex_string() {
    const COMPLEX_TEXT: &str = "    ,.,  it   will be great if,,, it works    ,.,.";
    let mut expected_word_positions = HashMap::<&str, Vec<usize>>::new();
    expected_word_positions.insert("it", vec![9, 34]);
    expected_word_positions.insert("be", vec![19]);
    expected_word_positions.insert("great", vec![22]);
    expected_word_positions.insert("if", vec![28]);
    expected_word_positions.insert("will", vec![14]);
    expected_word_positions.insert("works", vec![37]);

    assert_eq!(as_map(&get_word_positions(COMPLEX_TEXT)), expected_word_positions);
}

#[test]
fn test_word_positions_for_emtpy_string() {
    assert_eq!(as_map(&get_word_positions("")), HashMap::<&str, Vec<usize>>::new());
}

#[test]
fn test_word_positions_for_string_with_just_punctuation_symbols() {
    assert_eq!(
        as_map(&get_word_positions("     ,.       ,  . , , , ")),
        HashMap::<&str, Vec<usize>>::new()
    );
}
