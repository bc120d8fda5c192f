use aoc::day09::{extrapolate, parse_input, part_one, part_two, predict};

const SAMPLE: &str = "0 3 6 9 12 15\n1 3 6 10 15 21\n10 13 16 21 30 45\n";

#[test]
fn day09_sample_answers() {
    let mut rows = parse_input(SAMPLE).unwrap();
    assert_eq!(part_one(&rows), Some(114));
    assert_eq!(part_two(&mut rows), Some(2));
    assert_eq!(rows[0], vec![15, 12, 9, 6, 3, 0]);
}

#[test]
fn day09_extrapolate_adds_last_differences() {
    assert_eq!(extrapolate(&vec![0, 3, 6, 9, 12, 15]), Some(3));
    assert_eq!(predict(&vec![0, 3, 6, 9, 12, 15]), Some(18));
    assert_eq!(predict(&vec![1, 3, 6, 10, 15, 21]), Some(28));
    assert_eq!(predict(&vec![10, 13, 16, 21, 30, 45]), Some(68));
    assert_eq!(predict(&vec![5, 3, 1, -1]), Some(-3));
    assert_eq!(extrapolate(&vec![0, 0, 0]), Some(0));
    assert_eq!(extrapolate(&vec![]), Some(0));
    assert_eq!(predict(&vec![]), None);
    assert_eq!(predict(&vec![0]), Some(0));
}

#[test]
fn day09_single_reading_cannot_be_continued() {
    assert_eq!(extrapolate(&vec![7]), None);
    assert_eq!(predict(&vec![7]), None);
    // 1 2 4 8 -> 1 2 4 -> 1 2 -> 1
    assert_eq!(predict(&vec![1, 2, 4, 8]), None);
}

#[test]
fn day09_values_out_of_range() {
    assert_eq!(extrapolate(&vec![i64::MIN, i64::MAX]), None);
    assert_eq!(predict(&vec![i64::MAX - 2, i64::MAX - 1, i64::MAX]), None);
    assert_eq!(predict(&vec![i64::MAX - 3, i64::MAX - 2, i64::MAX - 1]), Some(i64::MAX));
    assert_eq!(part_one(&vec![vec![i64::MAX, i64::MAX], vec![1, 1]]), None);
    assert_eq!(part_one(&vec![vec![i64::MAX, i64::MAX], vec![-1, -1]]), Some(i64::MAX - 1));
}

#[test]
fn day09_report_is_read() {
    assert_eq!(parse_input("1 -2 +3\n\n4\n"), Some(vec![vec![1, -2, 3], vec![], vec![4]]));
    assert_eq!(parse_input("1 2\n3 x\n"), None);
    assert_eq!(parse_input("9223372036854775808\n"), None);
    assert_eq!(parse_input(""), Some(vec![]));
    assert_eq!(part_one(&vec![]), Some(0));
}
