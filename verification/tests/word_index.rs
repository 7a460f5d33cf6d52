use std::collections::HashMap;

use rust_playground::index_files_in_threads;
use rust_playground::index_files_with_async;
use rust_playground::index_string;
use rust_playground::index_string_in_threads;
use rust_playground::word_index::file_index::FileIndex;
use rust_playground::word_index::PositionMap;

fn as_owned_map(index: &PositionMap) -> HashMap<String, Vec<usize>> {
    index
        .entries()
        .iter()
        .map(|(word, positions)| (word.clone(), positions.clone()))
        .collect()
}

fn expected(pairs: &[(&str, &[usize])]) -> HashMap<String, Vec<usize>> {
    pairs
        .iter()
        .map(|(word, positions)| (word.to_string(), positions.to_vec()))
        .collect()
}

#[test]
fn byte_positions_of_ascii_text() {
    let text = "it will be great if it works";
    let want = expected(&[
        ("it", &[0, 20]),
        ("will", &[3]),
        ("be", &[8]),
        ("great", &[11]),
        ("if", &[17]),
        ("works", &[23]),
    ]);
    assert_eq!(as_owned_map(&index_string_in_threads::get_word_positions(text)), want);
    assert_eq!(as_owned_map(&index_files_in_threads::get_word_positions(text)), want);
    assert_eq!(as_owned_map(&index_files_with_async::get_word_positions(text)), want);
}

#[test]
fn byte_positions_of_multibyte_text() {
    // each of these letters takes two bytes in UTF-8
    let text = "\u{e9}, \u{436}\u{443}\u{43a} \u{e9}!";
    let want = expected(&[("\u{e9}", &[0, 11]), ("\u{436}\u{443}\u{43a}", &[4])]);
    assert_eq!(as_owned_map(&index_string_in_threads::get_word_positions(text)), want);
    assert_eq!(as_owned_map(&index_files_in_threads::get_word_positions(text)), want);
}

#[test]
fn character_positions_cut_by_character_index() {
    // After two two-byte characters, character indices lag byte positions
    // by two, so the words are cut out of the wrong bytes.
    let text = "\u{e9}\u{e9}  ab c";
    let index = index_string::get_word_positions(text);
    let map = as_owned_map(&index);
    assert_eq!(map.get("\u{e9}"), Some(&vec![0]));
    assert_eq!(map.get("  "), Some(&vec![4]));
    assert_eq!(map.get("b c"), Some(&vec![7]));
    assert_eq!(map.len(), 3);
}

#[test]
fn ascii_indexes_agree() {
    let text = "one, two; one... three two one";
    let by_chars = as_owned_map(&index_string::get_word_positions(text));
    let by_bytes = as_owned_map(&index_string_in_threads::get_word_positions(text));
    let by_pieces = as_owned_map(&index_files_in_threads::get_word_positions(text));
    assert_eq!(by_chars, by_bytes);
    assert_eq!(by_bytes, by_pieces);
    assert_eq!(by_bytes.get("one"), Some(&vec![0, 10, 27]));
}

#[test]
fn delimiters_are_ascii_punctuation_and_whitespace() {
    let text = "a\tb\nc\rd\x0Ce{f}g~h@i`j\x0Bk";
    let index = index_string_in_threads::get_word_positions(text);
    let map = as_owned_map(&index);
    for (word, position) in [("a", 0), ("b", 2), ("c", 4), ("d", 6), ("e", 8), ("f", 10), ("g", 12), ("h", 14), ("i", 16), ("j\x0Bk", 18)] {
        assert_eq!(map.get(word), Some(&vec![position]), "word {word:?}");
    }
    assert_eq!(index.len(), 10);
}

#[test]
fn position_map_get_and_add() {
    let mut map = PositionMap::new();
    map.add("x".to_string(), 3);
    map.add("y".to_string(), 1);
    map.add("x".to_string(), 7);
    map.append("y".to_string(), &vec![4, 5]);
    map.append("z".to_string(), &vec![9]);
    assert_eq!(map.get("x"), Some(&vec![3, 7]));
    assert_eq!(map.get("y"), Some(&vec![1, 4, 5]));
    assert_eq!(map.get("z"), Some(&vec![9]));
    assert_eq!(map.get("w"), None);
    assert_eq!(map.len(), 3);
}

#[test]
fn file_index_merges_files() {
    let mut index = FileIndex::new();
    let first = index_string_in_threads::get_word_positions("a b a");
    let second = index_string_in_threads::get_word_positions("b c");
    index.add_file(&"/one".to_string(), &first);
    index.add_file(&"/two".to_string(), &second);
    index.add_file(&"/one".to_string(), &second);

    let a = index.get("a").unwrap();
    assert_eq!(a.get("/one"), Some(&vec![0, 4]));
    assert_eq!(a.get("/two"), None);
    let b = index.get("b").unwrap();
    assert_eq!(b.get("/one"), Some(&vec![2, 0]));
    assert_eq!(b.get("/two"), Some(&vec![0]));
    let c = index.get("c").unwrap();
    assert_eq!(c.get("/one"), Some(&vec![2]));
    assert_eq!(c.get("/two"), Some(&vec![2]));
    assert!(index.get("d").is_none());
    assert_eq!(index.entries().len(), 3);
}

#[test]
fn file_index_merge_order_does_not_matter() {
    let first = index_string_in_threads::get_word_positions("x y");
    let second = index_string_in_threads::get_word_positions("y z x");
    let mut forward = FileIndex::new();
    forward.add_file(&"/f".to_string(), &first);
    forward.add_file(&"/g".to_string(), &second);
    let mut backward = FileIndex::new();
    backward.add_file(&"/g".to_string(), &second);
    backward.add_file(&"/f".to_string(), &first);
    for word in ["x", "y", "z"] {
        let f = forward.get(word).unwrap();
        let b = backward.get(word).unwrap();
        for file in ["/f", "/g"] {
            assert_eq!(f.get(file), b.get(file));
        }
    }
}
