use turbo_input::{ScanError, Scanner};

#[test]
fn exhausted_source_fails() {
    let mut scanner = Scanner::new("1".as_bytes());
    assert_eq!(scanner.try_token::<i32>(), Ok(1));
    assert_eq!(scanner.try_token::<i32>(), Err(ScanError::StreamExhausted));
    assert_eq!(scanner.try_token::<i32>(), Err(ScanError::StreamExhausted));
    assert_eq!(scanner.try_string(), Err(ScanError::StreamExhausted));
    assert_eq!(scanner.try_chars(), Err(ScanError::StreamExhausted));
}

#[test]
fn text_is_no_integer() {
    let mut scanner = Scanner::new("abc".as_bytes());
    assert_eq!(scanner.try_token::<i32>(), Err(ScanError::ParseMismatch));
}

#[test]
fn a_mismatch_consumes_the_token() {
    let mut scanner = Scanner::new("abc 5".as_bytes());
    assert_eq!(scanner.try_token::<i32>(), Err(ScanError::ParseMismatch));
    assert_eq!(scanner.try_token::<i32>(), Ok(5));
    assert_eq!(scanner.try_token::<i32>(), Err(ScanError::StreamExhausted));
}

#[test]
fn numbers_out_of_range_are_mismatches() {
    let mut scanner = Scanner::new("256 -1 128 -129 65536 3.5 0x10 1e3 1_000".as_bytes());
    assert_eq!(scanner.try_token::<u8>(), Err(ScanError::ParseMismatch));
    assert_eq!(scanner.try_token::<u32>(), Err(ScanError::ParseMismatch));
    assert_eq!(scanner.try_token::<i8>(), Err(ScanError::ParseMismatch));
    assert_eq!(scanner.try_token::<i8>(), Err(ScanError::ParseMismatch));
    assert_eq!(scanner.try_token::<u16>(), Err(ScanError::ParseMismatch));
    assert_eq!(scanner.try_token::<i64>(), Err(ScanError::ParseMismatch));
    assert_eq!(scanner.try_token::<i64>(), Err(ScanError::ParseMismatch));
    assert_eq!(scanner.try_token::<i64>(), Err(ScanError::ParseMismatch));
    assert_eq!(scanner.try_token::<i64>(), Err(ScanError::ParseMismatch));
    assert_eq!(scanner.try_token::<i64>(), Err(ScanError::StreamExhausted));
}

#[test]
fn a_line_that_is_not_utf8_is_a_read_failure() {
    let input: &[u8] = b"1 2\n\xff\xfe\n3\n";
    let mut scanner = Scanner::new(input);
    assert_eq!(scanner.try_token::<i32>(), Ok(1));
    assert_eq!(scanner.try_token::<i32>(), Ok(2));
    assert_eq!(scanner.try_token::<i32>(), Err(ScanError::IoFailure));
    assert_eq!(scanner.try_token::<i32>(), Err(ScanError::IoFailure));
    assert_eq!(scanner.try_string(), Err(ScanError::IoFailure));
}

#[test]
fn a_bad_byte_spoils_its_whole_line_and_no_other() {
    let input: &[u8] = b"good line\nbad \xc3 line\n";
    let mut scanner = Scanner::new(input);
    assert_eq!(scanner.try_string(), Ok(String::from("good")));
    assert_eq!(scanner.try_string(), Ok(String::from("line")));
    assert_eq!(scanner.try_string(), Err(ScanError::IoFailure));
}

#[test]
fn a_character_cut_by_the_end_of_input_is_a_read_failure() {
    let input: &[u8] = b"ok \xe6\x97";
    let mut scanner = Scanner::new(input);
    assert_eq!(scanner.try_string(), Err(ScanError::IoFailure));
}

#[test]
fn overlong_and_surrogate_encodings_are_read_failures() {
    let mut overlong = Scanner::new(b"\xc0\xaf");
    assert_eq!(overlong.try_string(), Err(ScanError::IoFailure));
    let mut surrogate = Scanner::new(b"\xed\xa0\x80");
    assert_eq!(surrogate.try_string(), Err(ScanError::IoFailure));
    let mut beyond = Scanner::new(b"\xf4\x90\x80\x80");
    assert_eq!(beyond.try_string(), Err(ScanError::IoFailure));
    let mut last = Scanner::new(b"\xf4\x8f\xbf\xbf");
    assert_eq!(last.try_string(), Ok(String::from("\u{10ffff}")));
}

#[test]
fn vec_stops_at_the_first_token_it_cannot_read() {
    let mut scanner = Scanner::new("1 2 x 4 5".as_bytes());
    assert_eq!(scanner.try_vec::<i32>(4), Err(ScanError::ParseMismatch));
    assert_eq!(scanner.try_token::<i32>(), Ok(4));
    assert_eq!(scanner.try_token::<i32>(), Ok(5));
}

#[test]
fn vec_fails_where_the_input_ends_early() {
    let mut scanner = Scanner::new("1 2\n".as_bytes());
    assert_eq!(scanner.try_vec::<i32>(3), Err(ScanError::StreamExhausted));
    assert_eq!(scanner.try_token::<i32>(), Err(ScanError::StreamExhausted));
}

#[test]
fn vec_succeeds_where_every_token_reads() {
    let mut scanner = Scanner::new("1 2 3".as_bytes());
    assert_eq!(scanner.try_vec::<i32>(3), Ok(vec![1, 2, 3]));
}

#[test]
fn matrix_fails_like_the_vector_of_its_cells() {
    let input = "1 2 3\n4 oops 6\n7 8 9";
    let mut by_rows = Scanner::new(input.as_bytes());
    let mut flat = Scanner::new(input.as_bytes());
    assert_eq!(by_rows.try_matrix::<i32>(3, 3), Err(ScanError::ParseMismatch));
    assert_eq!(flat.try_vec::<i32>(9), Err(ScanError::ParseMismatch));
    assert_eq!(by_rows.try_token::<i32>(), Ok(6));
    assert_eq!(flat.try_token::<i32>(), Ok(6));

    let mut short = Scanner::new("1 2 3 4 5".as_bytes());
    assert_eq!(short.try_matrix::<i32>(2, 3), Err(ScanError::StreamExhausted));
    let mut enough = Scanner::new("1 2 3 4 5 6".as_bytes());
    assert_eq!(enough.try_matrix::<i32>(2, 3), Ok(vec![vec![1, 2, 3], vec![4, 5, 6]]));
}

#[test]
fn an_edge_beyond_the_vertices_is_out_of_range() {
    let mut undirected = Scanner::new("1 2\n1 9\n3 3".as_bytes());
    assert_eq!(undirected.try_graph(3, 3, false), Err(ScanError::IndexOutOfRange));
    assert_eq!(undirected.try_token::<usize>(), Ok(3));

    let mut from_beyond = Scanner::new("9 1".as_bytes());
    assert_eq!(from_beyond.try_graph(3, 1, true), Err(ScanError::IndexOutOfRange));

    let mut to_beyond = Scanner::new("1 9".as_bytes());
    let lists = to_beyond.try_graph(3, 1, true).unwrap();
    assert_eq!(lists, vec![vec![], vec![9], vec![], vec![]]);
}

#[test]
fn a_graph_read_fails_on_the_first_failure_in_input_order() {
    let mut bad_edge_first = Scanner::new("1 9 x 2".as_bytes());
    assert_eq!(bad_edge_first.try_graph(3, 2, false), Err(ScanError::IndexOutOfRange));
    assert_eq!(bad_edge_first.try_string(), Ok(String::from("x")));

    let mut bad_token_first = Scanner::new("1 x 9 2".as_bytes());
    assert_eq!(bad_token_first.try_graph(3, 2, false), Err(ScanError::ParseMismatch));
    assert_eq!(bad_token_first.try_token::<usize>(), Ok(9));

    let mut half_an_edge = Scanner::new("1 2 3".as_bytes());
    assert_eq!(half_an_edge.try_graph(3, 2, false), Err(ScanError::StreamExhausted));

    let mut negative = Scanner::new("1 -2".as_bytes());
    assert_eq!(negative.try_graph(3, 1, true), Err(ScanError::ParseMismatch));
}
