use aoc::text::{
    drop_empty, ends_with, fields_of, is_one_of, lines_of, parse_i64, parse_u32, parse_u64, slice_of, split_at,
    split_at_any, starts_with, words_of,
};

fn strs(parts: Vec<Vec<u8>>) -> Vec<String> {
    parts.into_iter().map(|p| String::from_utf8(p).unwrap()).collect()
}

#[test]
fn split_keeps_empty_pieces() {
    assert_eq!(strs(split_at(b"a,b,,c", b',')), vec!["a", "b", "", "c"]);
    assert_eq!(strs(split_at(b"", b',')), vec![""]);
    assert_eq!(strs(split_at(b"a,", b',')), vec!["a", ""]);
    assert_eq!(strs(split_at(b",a", b',')), vec!["", "a"]);
}

#[test]
fn split_matches_std_split() {
    for text in ["", "x", "a;b,c", ";;", "1 red, 2 green; 3 blue"] {
        let want: Vec<String> = text.split(|c| c == ';' || c == ',').map(String::from).collect();
        assert_eq!(strs(split_at_any(text.as_bytes(), b";,")), want);
    }
}

#[test]
fn fields_drop_empty_pieces() {
    assert_eq!(strs(fields_of(b"{a,b}", b"{,}")), vec!["a", "b"]);
    assert_eq!(strs(drop_empty(vec![vec![], b"x".to_vec(), vec![], b"yz".to_vec()])), vec!["x", "yz"]);
    assert!(fields_of(b",,,", b",").is_empty());
}

#[test]
fn words_match_std_split_whitespace() {
    for text in ["", "  ", "a", " a  b\tc\n", "12   34 56", "x\r\ny"] {
        let want: Vec<String> = text.split_whitespace().map(String::from).collect();
        assert_eq!(strs(words_of(text.as_bytes())), want);
    }
}

#[test]
fn lines_match_std_lines() {
    for text in ["", "\n", "a", "a\n", "a\nb", "a\n\nb\n", "a\r\nb\r\n", "a\rb", "a\r", "\r\n", "a\n\n"] {
        let want: Vec<String> = text.lines().map(String::from).collect();
        assert_eq!(strs(lines_of(text.as_bytes())), want, "{:?}", text);
    }
}

#[test]
fn numbers_are_read_like_std_parse() {
    for text in ["0", "7", "42", "+42", "007", "", "+", "-", "-1", "4x", " 4", "18446744073709551615", "18446744073709551616", "4294967295", "4294967296"] {
        assert_eq!(parse_u64(text.as_bytes()), text.parse::<u64>().ok(), "{:?}", text);
        assert_eq!(parse_u32(text.as_bytes()), text.parse::<u32>().ok(), "{:?}", text);
    }
}

#[test]
fn integers_are_read_like_std_parse() {
    for text in ["0", "-0", "-17", "+17", "17", "", "-", "+", "--1", "9223372036854775807", "9223372036854775808", "-9223372036854775808", "-9223372036854775809", "1-"] {
        assert_eq!(parse_i64(text.as_bytes()), text.parse::<i64>().ok(), "{:?}", text);
    }
}

#[test]
fn prefixes_suffixes_and_slices() {
    assert!(starts_with(b"hello", b"he"));
    assert!(starts_with(b"hello", b""));
    assert!(!starts_with(b"hello", b"el"));
    assert!(!starts_with(b"he", b"hello"));
    assert!(ends_with(b"hello", b"llo"));
    assert!(!ends_with(b"hello", b"hel"));
    assert!(!ends_with(b"lo", b"hello"));
    assert_eq!(slice_of(b"hello", 1, 3), b"el".to_vec());
    assert_eq!(slice_of(b"hello", 2, 2), Vec::<u8>::new());
    assert!(is_one_of(b',', b";,"));
    assert!(!is_one_of(b'.', b";,"));
}

#[test]
fn trimming_matches_std_trim_on_ascii() {
    for text in ["", " ", "a", "  a b \t\n", "\r\nx", "x\u{b}\u{c}", " \t "] {
        assert_eq!(aoc::text::trimmed(text.as_bytes()), text.trim().as_bytes().to_vec(), "{:?}", text);
    }
    assert!(aoc::text::is_space(b' '));
    assert!(aoc::text::is_space(b'\n'));
    assert!(!aoc::text::is_space(b'a'));
}

#[test]
fn joining_and_reading_lists() {
    let parts = vec![b"12".to_vec(), b"".to_vec(), b"345".to_vec()];
    assert_eq!(aoc::text::join(&parts), b"12345".to_vec());
    assert_eq!(aoc::text::join(&vec![]), Vec::<u8>::new());
    assert_eq!(aoc::text::read_u64s(&vec![b"1".to_vec(), b"22".to_vec()]), Some(vec![1, 22]));
    assert_eq!(aoc::text::read_u64s(&vec![b"1".to_vec(), b"x".to_vec()]), None);
    assert_eq!(aoc::text::read_u64s(&vec![]), Some(vec![]));
}

#[test]
fn finding_and_comparing_bytes() {
    assert_eq!(aoc::text::find_byte(b"a~b~c", b'~'), 1);
    assert_eq!(aoc::text::find_byte(b"abc", b'~'), 3);
    assert_eq!(aoc::text::find_byte(b"", b'~'), 0);
    assert!(aoc::text::same_bytes(b"abc", b"abc"));
    assert!(!aoc::text::same_bytes(b"abc", b"abd"));
    assert!(!aoc::text::same_bytes(b"abc", b"ab"));
    assert!(aoc::text::same_bytes(b"", b""));
}
