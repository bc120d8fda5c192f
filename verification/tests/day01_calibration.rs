use aoc::day01::{first_digit, last_digit, parse_str, part_one, part_two, sum_lines};

#[test]
fn day01_written_digits() {
    let input = "1abc2\npqr3stu8vwx\na1b2c3d4e5f\ntreb7uchet\n";
    assert_eq!(part_one(input), Some(142));
}

#[test]
fn day01_spelled_digits() {
    let input = "two1nine\neightwothree\nabcone2threexyz\nxtwone3four\n4nineeightseven2\nzoneight234\n7pqrstsixteen";
    assert_eq!(part_two(input), Some(281));
    assert_eq!(sum_lines(input, true), Some(281));
}

#[test]
fn day01_overlapping_names() {
    assert_eq!(part_two("oneight"), Some(18));
    assert_eq!(part_two("twone"), Some(21));
    assert_eq!(part_two("seven"), Some(77));
    assert_eq!(part_two("zero"), Some(0));
}

#[test]
fn day01_line_without_digit() {
    assert_eq!(part_one("12\nabc\n34"), None);
    assert_eq!(part_one("one"), None);
    assert_eq!(part_two("xyz"), None);
    assert_eq!(part_one(""), Some(0));
    assert_eq!(part_one("1\n\n2"), None);
}

#[test]
fn day01_sum_that_does_not_fit() {
    let many = "99\n".repeat(43_383_509);
    assert_eq!(part_one(&many), None);
    let fits = "99\n".repeat(1000);
    assert_eq!(part_one(&fits), Some(99_000));
}

#[test]
fn day01_digit_at_either_end() {
    assert_eq!(parse_str(b"7up", false), Some(7));
    assert_eq!(parse_str(b"up7", true), Some(7));
    assert_eq!(parse_str(b"nine lives", false), Some(9));
    assert_eq!(parse_str(b"cloud nine", true), Some(9));
    assert_eq!(parse_str(b"xnine", false), None);
    assert_eq!(parse_str(b"ninex", true), None);
    assert_eq!(parse_str(b"", false), None);
    assert_eq!(first_digit(b"abthree4", true), Some(3));
    assert_eq!(first_digit(b"abthree4", false), Some(4));
    assert_eq!(last_digit(b"5sixab", true), Some(6));
    assert_eq!(last_digit(b"5sixab", false), Some(5));
}
