use aoc::day03::{is_range_adjacent, parse_grid, part_one_and_two, Grid};

fn grid(rows: &[&str]) -> Grid {
    parse_grid(rows.iter().map(|r| r.as_bytes().to_vec()).collect()).unwrap()
}

fn sample() -> Grid {
    grid(&[
        "467..114..",
        "...*......",
        "..35..633.",
        "......#...",
        "617*......",
        ".....+.58.",
        "..592.....",
        "......755.",
        "...$.*....",
        ".664.598..",
    ])
}

#[test]
fn day03_sample_answers() {
    assert_eq!(part_one_and_two(&sample()), Some((4361, 467835)));
}

fn id(r: u128, c: u128) -> u128 {
    (r << 64) + c
}

#[test]
fn day03_cells_around_a_number() {
    let g = sample();
    // 467 in row 0: the star below and to the right
    assert_eq!(is_range_adjacent(&g, 0, 0, 3), (true, vec![id(1, 3)]));
    assert_eq!(is_range_adjacent(&g, 0, 5, 8), (false, vec![]));
    // 35: the star above
    assert_eq!(is_range_adjacent(&g, 2, 2, 4), (true, vec![id(1, 3)]));
    // 617: the star right behind it
    assert_eq!(is_range_adjacent(&g, 4, 0, 3), (true, vec![id(4, 3)]));
    assert_eq!(is_range_adjacent(&g, 5, 7, 9), (false, vec![]));
    assert_eq!(is_range_adjacent(&g, 9, 5, 8), (true, vec![id(8, 5)]));
}

#[test]
fn day03_digits_above_count_as_touching() {
    let g = grid(&["12", ".3"]);
    assert_eq!(is_range_adjacent(&g, 0, 0, 2), (true, vec![]));
    assert_eq!(part_one_and_two(&g), Some((15, 0)));
}

#[test]
fn day03_cell_behind_is_skipped_in_the_last_column() {
    // the symbol stands in the last column, right behind the number
    let g = grid(&["12#"]);
    assert_eq!(is_range_adjacent(&g, 0, 0, 2), (false, vec![]));
    assert_eq!(part_one_and_two(&g), Some((0, 0)));
    let g = grid(&["12#."]);
    assert_eq!(part_one_and_two(&g), Some((12, 0)));
    let g = grid(&["#12"]);
    assert_eq!(part_one_and_two(&g), Some((12, 0)));
}

#[test]
fn day03_gears_pair_numbers_as_they_come() {
    // three numbers at one gear: the first two make a ratio, the third waits
    let g = grid(&["2*3", ".4."]);
    assert_eq!(part_one_and_two(&g), Some((9, 6)));
    // four numbers: two ratios
    let g = grid(&["2.3", ".*.", "4.5"]);
    assert_eq!(part_one_and_two(&g), Some((14, 6 + 20)));
    // a number between stars in the row above meets each of them
    let g = grid(&["*.*", "17.", "..."]);
    assert_eq!(part_one_and_two(&g), Some((17, 0)));
}

#[test]
fn day03_numbers_and_sums_that_do_not_fit() {
    assert_eq!(part_one_and_two(&grid(&["4294967295#."])), Some((4294967295, 0)));
    assert_eq!(part_one_and_two(&grid(&["4294967296#."])), None);
    assert_eq!(part_one_and_two(&grid(&["4294967295#1."])), None);
    assert_eq!(part_one_and_two(&grid(&["65536*65536"])), None);
    assert_eq!(part_one_and_two(&grid(&["65535*65537"])), Some((131072, 4294967295)));
    assert_eq!(part_one_and_two(&grid(&["99999999999"])), None);
}

#[test]
fn day03_grids() {
    assert_eq!(part_one_and_two(&grid(&[])), Some((0, 0)));
    assert!(parse_grid(vec![b"ab".to_vec(), b"c".to_vec()]).is_none());
    assert_eq!(part_one_and_two(&Grid { cells: vec![vec![], vec![]] }), Some((0, 0)));
    assert_eq!(part_one_and_two(&grid(&["7"])), Some((0, 0)));
}
