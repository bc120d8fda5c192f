use aoc::day04::{card_points, count_cards, count_hits, game_info, part_one, part_two};

const SAMPLE: &str = "Card   1: 41 48 83 86 17 | 83 86  6 31 17  9 48 53
Card   2: 13 32 20 16 61 | 61 30 68 82 17 32 24 19
Card   3:  1 21 53 59 44 | 69 82 63 72 16 21 14  1
Card   4: 41 92 73 84 69 | 59 84 76 51 58  5 54 83
Card   5: 87 83 26 28 32 | 88 30 70 12 93 22 82 36
Card   6: 31 18 13 56 72 | 74 77 10 23 35 67 36 11
";

#[test]
fn day04_sample_answers() {
    assert_eq!(part_one(SAMPLE), Some(13));
    assert_eq!(part_two(SAMPLE), Some(30));
}

#[test]
fn day04_line_is_taken_apart() {
    let (w, n) = game_info(b"Card   1: 41 48 | 83  6 41").unwrap();
    assert_eq!(w, vec![41, 48]);
    assert_eq!(n, vec![83, 6, 41]);
    assert_eq!(count_hits(&w, &n), 1);
    assert_eq!(game_info(b"Card 1"), None);
    assert_eq!(game_info(b"Card   1: 41 48"), None);
    assert_eq!(game_info(b"Card   1: 41 x | 3"), None);
    assert_eq!(game_info(b"Card   1: | "), Some((vec![], vec![])));
}

#[test]
fn day04_points_double() {
    assert_eq!(card_points(0), Some(0));
    assert_eq!(card_points(1), Some(1));
    assert_eq!(card_points(2), Some(2));
    assert_eq!(card_points(5), Some(16));
    assert_eq!(card_points(32), Some(1 << 31));
    assert_eq!(card_points(33), None);
}

#[test]
fn day04_repeated_numbers_count_each_time() {
    assert_eq!(count_hits(&vec![5, 7], &vec![5, 5, 7, 8]), 3);
    assert_eq!(count_hits(&vec![], &vec![1, 2]), 0);
}

#[test]
fn day04_copies_accumulate() {
    assert_eq!(count_cards(&vec![4, 2, 2, 1, 0, 0]), Some(30));
    assert_eq!(count_cards(&vec![]), Some(0));
    assert_eq!(count_cards(&vec![0, 0, 0]), Some(3));
    // 1 + 2 + 4 + 8
    assert_eq!(count_cards(&vec![3, 2, 1, 0]), Some(15));
}

#[test]
fn day04_copies_past_the_end_are_refused() {
    assert_eq!(count_cards(&vec![1]), None);
    assert_eq!(count_cards(&vec![0, 2, 0]), None);
    assert_eq!(part_two("Card   1: 1 | 1\n"), None);
}

#[test]
fn day04_too_many_copies_do_not_fit() {
    // card i wins every later card: card k is held 2^k times
    let n = 40;
    let counts: Vec<usize> = (0..n).map(|i| n - 1 - i).collect();
    assert_eq!(count_cards(&counts), None);
    let counts: Vec<usize> = (0..32).map(|i| 31 - i).collect();
    assert_eq!(count_cards(&counts), Some(u32::MAX));
}
