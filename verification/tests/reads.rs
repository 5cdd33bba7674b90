use turbo_input::{ScanError, Scanner};

#[test]
fn tokens_span_lines() {
    let mut scanner = Scanner::new("1 2\n3".as_bytes());
    let a: i32 = scanner.token();
    let b: i32 = scanner.token();
    let c: i32 = scanner.token();
    assert_eq!((a, b, c), (1, 2, 3));
}

#[test]
fn tokens_come_in_input_order_until_the_end() {
    let input = "alpha  beta\tgamma\n\n  delta \n";
    let mut scanner = Scanner::new(input.as_bytes());
    let mut seen: Vec<String> = Vec::new();
    loop {
        match scanner.try_string() {
            Ok(token) => seen.push(token),
            Err(e) => {
                assert_eq!(e, ScanError::StreamExhausted);
                break;
            }
        }
    }
    assert_eq!(seen, vec!["alpha", "beta", "gamma", "delta"]);
    let expected: Vec<&str> = input.split_whitespace().collect();
    assert_eq!(seen, expected);
}

#[test]
fn each_token_is_read_as_the_type_asked_for() {
    let mut scanner = Scanner::new("-7 +8 255 word 18446744073709551615".as_bytes());
    let a: i8 = scanner.token();
    let b: u16 = scanner.token();
    let c: u8 = scanner.token();
    let d: String = scanner.token();
    let e: u64 = scanner.token();
    assert_eq!(a, -7);
    assert_eq!(b, 8);
    assert_eq!(c, 255);
    assert_eq!(d, "word");
    assert_eq!(e, u64::MAX);
}

#[test]
fn vec_is_the_same_as_single_reads() {
    let input = "10 20 30 40 50";
    let mut whole = Scanner::new(input.as_bytes());
    let mut single = Scanner::new(input.as_bytes());

    let read: Vec<i64> = whole.vec(3);
    let one_by_one: Vec<i64> = vec![single.token(), single.token(), single.token()];
    assert_eq!(read, vec![10, 20, 30]);
    assert_eq!(read, one_by_one);

    let next_whole: i64 = whole.token();
    let next_single: i64 = single.token();
    assert_eq!(next_whole, 40);
    assert_eq!(next_single, 40);
    assert_eq!(whole.token::<i64>(), 50);
    assert_eq!(whole.try_token::<i64>(), Err(ScanError::StreamExhausted));
}

#[test]
fn vec_of_nothing_reads_nothing() {
    let mut scanner = Scanner::new("7".as_bytes());
    let none: Vec<u32> = scanner.vec(0);
    assert!(none.is_empty());
    assert_eq!(scanner.token::<u32>(), 7);
}

#[test]
fn matrix_is_the_vector_cut_into_rows() {
    let input = "1 2 3 4\n5 6\n7 8 9 10 11 12 13";
    let mut by_rows = Scanner::new(input.as_bytes());
    let mut flat = Scanner::new(input.as_bytes());

    let matrix: Vec<Vec<i32>> = by_rows.matrix(3, 4);
    let vector: Vec<i32> = flat.vec(12);
    assert_eq!(matrix, vec![vec![1, 2, 3, 4], vec![5, 6, 7, 8], vec![9, 10, 11, 12]]);
    let flattened: Vec<i32> = matrix.into_iter().flatten().collect();
    assert_eq!(flattened, vector);
    assert_eq!(by_rows.token::<i32>(), 13);
    assert_eq!(flat.token::<i32>(), 13);
}

#[test]
fn matrix_without_columns_reads_nothing() {
    let mut scanner = Scanner::new("5 6".as_bytes());
    let matrix: Vec<Vec<i32>> = scanner.matrix(3, 0);
    assert_eq!(matrix, vec![Vec::<i32>::new(), Vec::new(), Vec::new()]);
    let none: Vec<Vec<i32>> = scanner.matrix(0, 4);
    assert!(none.is_empty());
    assert_eq!(scanner.token::<i32>(), 5);
}

#[test]
fn chars_keep_order_and_length() {
    let mut scanner = Scanner::new("hello héllo→x".as_bytes());
    let plain = scanner.chars();
    assert_eq!(plain.len(), 5);
    assert_eq!(plain, vec!['h', 'e', 'l', 'l', 'o']);
    let accented = scanner.chars();
    assert_eq!(accented, vec!['h', 'é', 'l', 'l', 'o', '→', 'x']);
    assert_eq!(accented.len(), "héllo→x".chars().count());
}

#[test]
fn chars_and_string_read_the_same_token() {
    let input = "first second";
    let mut a = Scanner::new(input.as_bytes());
    let mut b = Scanner::new(input.as_bytes());
    let text = a.string();
    let chars = b.chars();
    assert_eq!(text.chars().collect::<Vec<char>>(), chars);
    assert_eq!(a.string(), "second");
    assert_eq!(b.string(), "second");
}

#[test]
fn empty_and_blank_input_hold_no_token() {
    let mut empty = Scanner::new("".as_bytes());
    assert_eq!(empty.try_string(), Err(ScanError::StreamExhausted));
    let mut blank = Scanner::new(" \t \n\n \r\n   ".as_bytes());
    assert_eq!(blank.try_string(), Err(ScanError::StreamExhausted));
    assert_eq!(blank.try_token::<i32>(), Err(ScanError::StreamExhausted));
}

#[test]
fn carriage_returns_and_blank_lines_separate_tokens() {
    let mut scanner = Scanner::new("1\r\n\r\n2\r\n\n\n3".as_bytes());
    let all: Vec<u8> = scanner.vec(3);
    assert_eq!(all, vec![1, 2, 3]);
    assert_eq!(scanner.try_token::<u8>(), Err(ScanError::StreamExhausted));
}

#[test]
fn unicode_whitespace_separates_tokens() {
    let input = "a\u{a0}b\u{3000}c\u{2003}d\u{85}e\u{2028}f\u{1680}g";
    let mut scanner = Scanner::new(input.as_bytes());
    let all: Vec<String> = scanner.vec(7);
    assert_eq!(all, vec!["a", "b", "c", "d", "e", "f", "g"]);
    let expected: Vec<&str> = input.split_whitespace().collect();
    assert_eq!(all, expected);
}

#[test]
fn characters_of_several_bytes_stay_inside_their_token() {
    let input = "naïve 日本語 \u{1F600}x\n\u{200b}zero";
    let mut scanner = Scanner::new(input.as_bytes());
    assert_eq!(scanner.string(), "naïve");
    assert_eq!(scanner.string(), "日本語");
    assert_eq!(scanner.string(), "\u{1F600}x");
    assert_eq!(scanner.string(), "\u{200b}zero");
    assert_eq!(scanner.try_string(), Err(ScanError::StreamExhausted));
}

#[test]
fn widest_integers_are_read() {
    let input = "340282366920938463463374607431768211455\n\
                 -170141183460469231731687303715884105728\n\
                 170141183460469231731687303715884105727";
    let mut scanner = Scanner::new(input.as_bytes());
    assert_eq!(scanner.token::<u128>(), u128::MAX);
    assert_eq!(scanner.token::<i128>(), i128::MIN);
    assert_eq!(scanner.token::<i128>(), i128::MAX);
}

#[test]
fn a_scanner_reads_no_more_than_asked() {
    let input = "1 2 3\n4 5 6\n";
    let mut scanner = Scanner::new(input.as_bytes());
    let first: Vec<u8> = scanner.vec(2);
    assert_eq!(first, vec![1, 2]);
    let rest: Vec<u8> = scanner.vec(4);
    assert_eq!(rest, vec![3, 4, 5, 6]);
}

#[test]
fn typed_reads_can_follow_one_another() {
    let input = "42 3.14 hello\n1 2 3\n";
    let mut scanner = Scanner::new(input.as_bytes());

    let number: i32 = scanner.token();
    let float: f64 = scanner.string().parse().unwrap();
    let text: String = scanner.token();
    assert_eq!(number, 42);
    assert_eq!(float, 3.14);
    assert_eq!(text, "hello");

    let vec: Vec<i32> = scanner.vec(3);
    assert_eq!(vec, vec![1, 2, 3]);
    assert_eq!(scanner.try_token::<i32>(), Err(ScanError::StreamExhausted));
}

#[test]
fn a_count_can_be_read_before_what_it_counts() {
    let input = "2\n3\n5 1 4\n1\n-9\n";
    let mut scanner = Scanner::new(input.as_bytes());
    let cases: usize = scanner.token();
    let mut largest: Vec<i64> = Vec::new();
    for _ in 0..cases {
        let n: usize = scanner.token();
        let values: Vec<i64> = scanner.vec(n);
        largest.push(*values.iter().max().unwrap());
    }
    assert_eq!(largest, vec![5, -9]);
}

#[test]
fn long_lines_and_many_lines_are_read_alike() {
    let count: usize = 100_000;
    let mut one_line = String::new();
    let mut many_lines = String::new();
    for i in 0..count {
        one_line.push_str(&i.to_string());
        one_line.push(' ');
        many_lines.push_str(&i.to_string());
        many_lines.push('\n');
    }
    let expected: Vec<usize> = (0..count).collect();

    let mut wide = Scanner::new(one_line.as_bytes());
    assert_eq!(wide.vec::<usize>(count), expected);
    assert_eq!(wide.try_token::<usize>(), Err(ScanError::StreamExhausted));

    let mut tall = Scanner::new(many_lines.as_bytes());
    assert_eq!(tall.matrix::<usize>(count / 100, 100).concat(), expected);
    assert_eq!(tall.try_token::<usize>(), Err(ScanError::StreamExhausted));
}
