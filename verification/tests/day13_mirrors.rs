use aoc::day13::{
    alt_cols_left_of_reflection, alt_rows_above_reflection, cols_left_of_reflection, parse_input, part_one, part_two,
    rows_above_reflection, Pattern,
};

const SAMPLE: &str = "#.##..##.
..#.##.#.
##......#
##......#
..#.##.#.
..##..##.
#.#.##.#.

#...##..#
#....#..#
..##..###
#####.##.
#####.##.
..##..###
#....#..#
";

#[test]
fn day13_sample_answers() {
    let patterns = parse_input(SAMPLE).unwrap();
    assert_eq!(patterns.len(), 2);
    assert_eq!(part_one(&patterns), Some(405));
    assert_eq!(part_two(&patterns), Some(400));
}

#[test]
fn day13_mirror_lines_of_the_sample() {
    let patterns = parse_input(SAMPLE).unwrap();
    assert_eq!(cols_left_of_reflection(&patterns[0]), vec![5]);
    assert_eq!(rows_above_reflection(&patterns[0]), Vec::<usize>::new());
    assert_eq!(cols_left_of_reflection(&patterns[1]), Vec::<usize>::new());
    assert_eq!(rows_above_reflection(&patterns[1]), vec![4]);
    assert_eq!(alt_cols_left_of_reflection(&patterns[0]), None);
    assert_eq!(alt_rows_above_reflection(&patterns[0]), Some(3));
    assert_eq!(alt_rows_above_reflection(&patterns[1]), Some(1));
}

fn pattern(rows: &[&str]) -> Pattern {
    Pattern { data: rows.iter().flat_map(|r| r.bytes().map(|b| b == b'#')).collect(), column_len: rows[0].len() }
}

#[test]
fn day13_several_mirror_lines() {
    let p = pattern(&["....", "...."]);
    assert_eq!(cols_left_of_reflection(&p), vec![1, 2, 3]);
    assert_eq!(rows_above_reflection(&p), vec![1]);
    assert_eq!(p.row(1), vec![false; 4]);
    assert_eq!(p.col(3), vec![false; 2]);
    assert_eq!(p.rows(), 2);
    let q = pattern(&["#.", ".#"]);
    assert_eq!(cols_left_of_reflection(&q), Vec::<usize>::new());
    assert_eq!(rows_above_reflection(&q), Vec::<usize>::new());
    assert_eq!(q.row(0), vec![true, false]);
    assert_eq!(q.col(1), vec![false, true]);
    assert!(q.get(1, 1));
    assert_eq!(part_one(&vec![q]), None);
}

#[test]
fn day13_single_line_patterns() {
    let p = pattern(&["#"]);
    assert_eq!(cols_left_of_reflection(&p), Vec::<usize>::new());
    assert_eq!(rows_above_reflection(&p), Vec::<usize>::new());
    assert_eq!(alt_cols_left_of_reflection(&p), None);
    assert_eq!(part_one(&vec![]), Some(0));
}

#[test]
fn day13_smudge_gives_a_new_line() {
    // turning the middle cell over moves the mirror line one column on
    let p = pattern(&["##."]);
    assert_eq!(cols_left_of_reflection(&p), vec![1]);
    assert_eq!(alt_cols_left_of_reflection(&p), Some(2));
    assert_eq!(alt_rows_above_reflection(&p), None);
    // one cell cannot mend two rows
    let q = pattern(&["##.", "##."]);
    assert_eq!(alt_cols_left_of_reflection(&q), None);
    assert_eq!(part_two(&vec![q]), None);
    assert_eq!(part_two(&vec![p]), Some(2));
}

#[test]
fn day13_text_is_read() {
    let patterns = parse_input("#.\n.#\n\n###\n").unwrap();
    assert_eq!(patterns.len(), 2);
    assert_eq!(patterns[0].data, vec![true, false, false, true]);
    assert_eq!(patterns[0].column_len, 2);
    assert_eq!(patterns[1].data, vec![true, true, true]);
    assert_eq!(patterns[1].column_len, 3);
    assert_eq!(parse_input("").unwrap().len(), 0);
    assert!(parse_input("#.\n#\n").is_none());
    assert!(parse_input("#.\n\n\n#\n").is_none());
    assert!(parse_input("\n#\n").is_none());
}
