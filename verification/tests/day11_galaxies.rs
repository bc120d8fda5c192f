use aoc::day11::{distance, distances, parse_input, Input};

const SAMPLE: &str = "...#......
.......#..
#.........
..........
......#...
.#........
.........#
..........
.......#..
#...#.....
";

#[test]
fn day11_sample_answers() {
    let sky = parse_input(SAMPLE);
    assert_eq!(distances(&sky, 2), Some(374));
    assert_eq!(distances(&sky, 10), Some(1030));
    assert_eq!(distances(&sky, 100), Some(8410));
    assert_eq!(distances(&sky, 1), Some(292));
}

#[test]
fn day11_sky_is_read() {
    let sky = parse_input("#..\n...\n..#\n");
    assert_eq!(sky.galaxies, vec![[0, 0], [2, 2]]);
    assert_eq!(sky.empty_rows[0], 1);
    assert_eq!(sky.empty_rows.len(), 138);
    assert_eq!(sky.empty_cols[0], 1);
    assert_eq!(sky.empty_cols[1], 3);
    assert_eq!(sky.empty_cols.len(), 138);
    assert_eq!(*sky.empty_rows.last().unwrap(), 139);
    let empty = parse_input("");
    assert!(empty.galaxies.is_empty());
    assert_eq!(empty.empty_rows, (0..140).collect::<Vec<usize>>());
    assert_eq!(distances(&empty, 5), Some(0));
}

#[test]
fn day11_steps_between_places() {
    assert_eq!(distance(&[0, 0], &[3, 4]), Some(7));
    assert_eq!(distance(&[3, 4], &[0, 0]), Some(7));
    assert_eq!(distance(&[5, 1], &[5, 1]), Some(0));
    assert_eq!(distance(&[0, 0], &[usize::MAX, 1]), None);
    assert_eq!(distance(&[0, 1], &[usize::MAX, 1]), Some(usize::MAX));
}

#[test]
fn day11_empty_lines_count_many_times() {
    let sky = Input { galaxies: vec![[0, 0], [0, 4]], empty_rows: vec![], empty_cols: vec![1, 3, 4, 9] };
    // columns 1 and 3 lie between the two; column 4 is where the higher one stands
    assert_eq!(distances(&sky, 1), Some(4));
    assert_eq!(distances(&sky, 2), Some(6));
    assert_eq!(distances(&sky, 1_000_000), Some(4 + 2 * 999_999));
    let sky = Input { galaxies: vec![[7, 0], [2, 0]], empty_rows: vec![2, 7, 5], empty_cols: vec![] };
    assert_eq!(distances(&sky, 3), Some(5 + 2 * 2));
}

#[test]
fn day11_sum_that_does_not_fit() {
    let sky = Input { galaxies: vec![[0, 0], [2, 0]], empty_rows: vec![1], empty_cols: vec![] };
    assert_eq!(distances(&sky, usize::MAX - 1), Some(usize::MAX));
    assert_eq!(distances(&sky, usize::MAX), None);
}
