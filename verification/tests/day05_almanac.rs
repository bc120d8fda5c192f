use aoc::day05::{find_location, parse_input, parse_mapping, part_one, part_two, Input, RangeMap};

const SAMPLE: &str = "seeds: 79 14 55 13

seed-to-soil map:
50 98 2
52 50 48


soil-to-fertilizer map:
0 15 37
37 52 2
39 0 15


fertilizer-to-water map:
49 53 8
0 11 42
42 0 7
57 7 4


water-to-light map:
88 18 7
18 25 70


light-to-temperature map:
45 77 23
81 45 19
68 64 13


temperature-to-humidity map:
0 69 1
1 0 69


humidity-to-location map:
60 56 37
56 93 4
";

#[test]
fn day05_sample_answers() {
    let input = parse_input(SAMPLE).unwrap();
    assert_eq!(input.seeds, vec![79, 14, 55, 13]);
    assert_eq!(input.range_mappings.len(), 7);
    assert_eq!(input.range_mappings[0], vec![RangeMap { dst: 50, src: 98, range: 2 }, RangeMap { dst: 52, src: 50, range: 48 }]);
    assert_eq!(input.range_mappings[6].len(), 2);
    assert_eq!(find_location(&input, 79), Some(82));
    assert_eq!(find_location(&input, 14), Some(43));
    assert_eq!(find_location(&input, 55), Some(86));
    assert_eq!(find_location(&input, 13), Some(35));
    assert_eq!(part_one(&input), Some(35));
    assert_eq!(part_two(&input), Some(46));
}

fn lines(text: &str) -> Vec<Vec<u8>> {
    text.lines().map(|l| l.as_bytes().to_vec()).collect()
}

#[test]
fn day05_mapping_skips_two_lines() {
    let ls = lines("seeds: 1\n\nname map:\n1 2 3\n4 5 6\n\nnext map:\n7 8 9\n10 11 12\n");
    let (first, next) = parse_mapping(&ls, 1).unwrap();
    assert_eq!(first, vec![RangeMap { dst: 1, src: 2, range: 3 }, RangeMap { dst: 4, src: 5, range: 6 }]);
    assert_eq!(next, 6);
    // the heading and the row behind it are passed over
    let (second, end) = parse_mapping(&ls, next).unwrap();
    assert_eq!(second, vec![RangeMap { dst: 10, src: 11, range: 12 }]);
    assert_eq!(end, 9);
    let (none, end) = parse_mapping(&ls, end).unwrap();
    assert!(none.is_empty());
    assert_eq!(end, 9);
    let (none, end) = parse_mapping(&ls, 8).unwrap();
    assert!(none.is_empty());
    assert_eq!(end, 9);
}

#[test]
fn day05_unreadable_text() {
    assert!(parse_input("").is_none());
    assert!(parse_input("seeds: a b\n").is_none());
    assert!(parse_input("seeds: 1\n\nmap:\n1 2\n").is_none());
    assert!(parse_mapping(&lines("a\nb\n1 2 x\n"), 0).is_none());
    let input = parse_input("seeds:\n").unwrap();
    assert!(input.seeds.is_empty());
    assert_eq!(input.range_mappings.len(), 7);
    assert_eq!(part_one(&input), None);
    assert_eq!(part_two(&input), None);
}

fn almanac(seeds: Vec<u64>, maps: Vec<Vec<RangeMap>>) -> Input {
    Input { seeds, range_mappings: maps }
}

#[test]
fn day05_first_covering_line_wins() {
    let input = almanac(
        vec![5],
        vec![vec![RangeMap { dst: 100, src: 0, range: 10 }, RangeMap { dst: 200, src: 5, range: 10 }]],
    );
    assert_eq!(find_location(&input, 5), Some(105));
    assert_eq!(find_location(&input, 10), Some(205));
    assert_eq!(find_location(&input, 15), Some(15));
    assert_eq!(find_location(&input, 9), Some(109));
}

#[test]
fn day05_values_out_of_range() {
    let input = almanac(vec![10, 3], vec![vec![RangeMap { dst: u64::MAX - 1, src: 10, range: 5 }]]);
    assert_eq!(find_location(&input, 10), Some(u64::MAX - 1));
    assert_eq!(find_location(&input, 11), Some(u64::MAX));
    assert_eq!(find_location(&input, 12), None);
    assert_eq!(part_one(&input), Some(3));
    assert_eq!(part_two(&input), None);
    let wide = almanac(vec![u64::MAX, u64::MAX], vec![]);
    assert_eq!(find_location(&wide, u64::MAX), Some(u64::MAX));
    assert_eq!(part_two(&almanac(vec![u64::MAX, 1], vec![])), Some(u64::MAX));
    assert_eq!(part_two(&almanac(vec![u64::MAX, 2], vec![])), None);
}

#[test]
fn day05_runs_of_seeds() {
    let maps = vec![vec![RangeMap { dst: 0, src: 100, range: 10 }]];
    assert_eq!(part_two(&almanac(vec![95, 10], maps.clone())), Some(0));
    assert_eq!(part_two(&almanac(vec![95, 5], maps.clone())), Some(95));
    assert_eq!(part_two(&almanac(vec![95, 0], maps.clone())), None);
    assert_eq!(part_two(&almanac(vec![95, 0, 50, 2], maps.clone())), Some(50));
    // a last number without a partner is ignored
    assert_eq!(part_two(&almanac(vec![95, 5, 3], maps)), Some(95));
}
