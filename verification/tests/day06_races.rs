use aoc::day06::{margin_of, parse_input_part_one, parse_input_part_two, part_one, part_two, ways_to_win, RaceInfo};

const SAMPLE: &str = "Time:      7  15   30\nDistance:  9  40  200\n";

#[test]
fn day06_sample_answers() {
    assert_eq!(part_one(SAMPLE), Some(288));
    assert_eq!(part_two(SAMPLE), Some(71503));
}

#[test]
fn day06_ways_to_win_counts_hold_times() {
    assert_eq!(ways_to_win(&RaceInfo { time: 7, record: 9 }), 4);
    assert_eq!(ways_to_win(&RaceInfo { time: 15, record: 40 }), 8);
    assert_eq!(ways_to_win(&RaceInfo { time: 30, record: 200 }), 9);
    assert_eq!(ways_to_win(&RaceInfo { time: 0, record: 0 }), 0);
    assert_eq!(ways_to_win(&RaceInfo { time: 1, record: 0 }), 0);
    assert_eq!(ways_to_win(&RaceInfo { time: 2, record: 0 }), 1);
    assert_eq!(ways_to_win(&RaceInfo { time: 2, record: 1 }), 0);
}

#[test]
fn day06_columns_are_paired() {
    assert_eq!(
        parse_input_part_one(SAMPLE),
        Some(vec![
            RaceInfo { time: 7, record: 9 },
            RaceInfo { time: 15, record: 40 },
            RaceInfo { time: 30, record: 200 }
        ])
    );
    assert_eq!(
        parse_input_part_one("Time:      7  15\nDistance:  9\n"),
        Some(vec![RaceInfo { time: 7, record: 9 }, RaceInfo { time: 15, record: 0 }])
    );
    assert_eq!(parse_input_part_one("Time:      7  15\n"), None);
    assert_eq!(parse_input_part_one("Time:      7  x\nDistance:  9 1\n"), None);
    assert_eq!(parse_input_part_one("short\nlines\n"), Some(vec![]));
}

#[test]
fn day06_digits_are_joined() {
    assert_eq!(parse_input_part_two(SAMPLE), Some(RaceInfo { time: 71530, record: 940200 }));
    assert_eq!(parse_input_part_two("Time:      7  15\n"), None);
    assert_eq!(parse_input_part_two("Time:      \nDistance:  9\n"), None);
    assert_eq!(parse_input_part_two("Time:      99999999999 9999999999\nDistance:  9\n"), None);
}

#[test]
fn day06_margin_is_a_product() {
    assert_eq!(margin_of(&vec![]), None);
    assert_eq!(margin_of(&vec![RaceInfo { time: 7, record: 9 }]), Some(4));
    assert_eq!(margin_of(&vec![RaceInfo { time: 7, record: 9 }, RaceInfo { time: 1, record: 9 }]), Some(0));
    let big = RaceInfo { time: 70_001, record: 0 };
    assert_eq!(ways_to_win(&big), 70_000);
    assert_eq!(margin_of(&vec![big, big, big]), Some(343_000_000_000_000));
    assert_eq!(margin_of(&vec![big, big, big, big, big]), None);
    assert_eq!(margin_of(&vec![big, big, big, big, big, RaceInfo { time: 0, record: 0 }]), Some(0));
}
