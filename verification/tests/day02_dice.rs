use aoc::day02::{dice_pairs, game_info, game_possible, game_power, part_one, part_two};

const SAMPLE: &str = "Game 1: 3 blue, 4 red; 1 red, 2 green, 6 blue; 2 green
Game 2: 1 blue, 2 green; 3 green, 4 blue, 1 red; 1 green, 1 blue
Game 3: 8 green, 6 blue, 20 red; 5 blue, 4 red, 13 green; 5 green, 1 red
Game 4: 1 green, 3 red, 6 blue; 3 green, 6 red; 3 green, 15 blue, 14 red
Game 5: 6 red, 1 blue, 3 green; 2 blue, 1 red, 2 green
";

#[test]
fn day02_sample_answers() {
    assert_eq!(part_one(SAMPLE), Some(8));
    assert_eq!(part_two(SAMPLE), Some(2286));
}

#[test]
fn day02_line_is_taken_apart() {
    let (n, game) = game_info(b"Game 12: 3 blue, 4 red").unwrap();
    assert_eq!(n, 12);
    assert_eq!(game, b" 3 blue, 4 red".to_vec());
    assert_eq!(game_info(b"Game : 3 blue"), None);
    assert_eq!(game_info(b"Game 3 blue"), None);
    assert_eq!(game_info(b"G 1: x"), None);
    assert_eq!(game_info(b"Game x: 1 red"), None);
}

#[test]
fn day02_pairs_in_order() {
    assert_eq!(dice_pairs(b" 3 blue, 4 red; 1 red, 2 green"), Some(vec![(3, 2), (4, 0), (1, 0), (2, 1)]));
    assert_eq!(dice_pairs(b"3 pink"), None);
    assert_eq!(dice_pairs(b"three red"), None);
    assert_eq!(dice_pairs(b"3 red,"), None);
    assert_eq!(dice_pairs(b""), None);
}

#[test]
fn day02_supply_limits() {
    assert_eq!(game_possible(b"12 red, 13 green, 14 blue"), Some(true));
    assert_eq!(game_possible(b"13 red"), Some(false));
    assert_eq!(game_possible(b"14 green"), Some(false));
    assert_eq!(game_possible(b"15 blue"), Some(false));
    assert_eq!(game_possible(b"red 3"), None);
}

#[test]
fn day02_power_is_product_of_largest() {
    assert_eq!(game_power(b"3 blue, 4 red; 1 red, 2 green, 6 blue; 2 green"), Some(48));
    assert_eq!(game_power(b"3 blue, 4 red"), Some(0));
    assert_eq!(game_power(b"65536 red, 65536 green, 1 blue"), None);
    assert_eq!(game_power(b"65535 red, 65537 green, 1 blue"), Some(4294967295));
}

#[test]
fn day02_unreadable_line_gives_nothing() {
    assert_eq!(part_one("Game 1: 3 blue\nnonsense\n"), None);
    assert_eq!(part_two("Game 1: 3 blue\nGame 2: 3 mauve\n"), None);
    assert_eq!(part_one(""), Some(0));
}
