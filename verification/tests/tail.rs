use rust_playground::tail::TailState;

/// Feeds `file` to the reading state the way a reader of the file would.
fn tail_of(file: &[u8], n: u64) -> String {
    let mut state = TailState::new(file.len() as u64, n);
    while let Some((offset, size)) = state.next_read() {
        let start = offset as usize;
        state.take_chunk(&file[start..start + size]);
    }
    state.into_output()
}

#[test]
fn last_line_keeps_the_line_end_before_it() {
    assert_eq!(tail_of(b"a\nb\nc\n", 1), "\nc\n");
}

#[test]
fn last_two_lines() {
    assert_eq!(tail_of(b"one\ntwo\nthree\nfour\n", 2), "\nthree\nfour\n");
}

#[test]
fn fewer_lines_than_wanted_gives_the_whole_file() {
    assert_eq!(tail_of(b"one\ntwo\n", 10), "one\ntwo\n");
    assert_eq!(tail_of(b"", 3), "");
}

#[test]
fn zero_lines_reads_nothing() {
    let mut state = TailState::new(100, 0);
    assert_eq!(state.next_read(), None);
    assert_eq!(state.into_output(), "");
}

#[test]
fn reads_backwards_in_chunks() {
    let mut state = TailState::new(10000, 5);
    assert_eq!(state.next_read(), Some((10000 - 4096, 4096)));
    state.take_chunk(&[b'x'; 4096]);
    assert_eq!(state.next_read(), Some((10000 - 8192, 4096)));
    state.take_chunk(&[b'x'; 4096]);
    assert_eq!(state.next_read(), Some((0, 10000 - 8192)));
}

#[test]
fn stops_at_the_chunk_where_enough_lines_were_counted() {
    // One line end in the last chunk is enough for one line: the whole
    // chunk is kept and nothing before it is read.
    let mut file = vec![b'a'; 5000];
    file.extend_from_slice(b"\nb");
    let out = tail_of(&file, 1);
    assert_eq!(out.len(), 4096);
    assert!(out.ends_with("a\nb"));
}

#[test]
fn a_chunk_that_is_not_utf8_is_left_out() {
    // The chunks meet in the middle of a two-byte character, so neither is
    // valid UTF-8 and neither makes it into the output.
    let mut file = Vec::new();
    file.extend_from_slice(b"a");
    for _ in 0..2048 {
        file.extend_from_slice("\u{e9}".as_bytes());
    }
    file.extend_from_slice(b"c");
    assert_eq!(file.len(), 4098);
    assert_eq!(tail_of(&file, 1), "");
    // Cut on a character boundary, both chunks are kept.
    let mut file = Vec::new();
    file.extend_from_slice(b"ab");
    for _ in 0..2048 {
        file.extend_from_slice("\u{e9}".as_bytes());
    }
    assert_eq!(tail_of(&file, 1), String::from_utf8(file.clone()).unwrap());
}
