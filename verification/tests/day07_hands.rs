use aoc::day07::rank::{parse_input, part_one, part_two, read_hand, sort_hands};
use aoc::day07::shape::sequence_lengths_slice;
use aoc::day07::{cmp_type, ranks_above, sequence_lengths_part_one, sequence_lengths_part_two, Hand};
use std::cmp::Ordering;

const SAMPLE: &str = "32T3K 765
T55J5 684
KK677 28
KTJJT 220
QQQJA 483
";

#[test]
fn day07_sample_answers() {
    let mut hands = parse_input(SAMPLE).unwrap();
    assert_eq!(part_one(&mut hands), Some(6440));
    let bids: Vec<u32> = hands.iter().map(|h| h.bid).collect();
    assert_eq!(bids, vec![765, 220, 28, 684, 483]);
    assert_eq!(part_two(&mut hands), Some(5905));
    let bids: Vec<u32> = hands.iter().map(|h| h.bid).collect();
    assert_eq!(bids, vec![765, 28, 684, 483, 220]);
}

#[test]
fn day07_hands_are_read() {
    let h = read_hand(b"32T3K 765").unwrap();
    assert_eq!(h.cards, [3, 2, 10, 3, 13]);
    assert_eq!(h.bid, 765);
    assert_eq!(read_hand(b"AQJ98   1").unwrap().cards, [14, 12, 11, 9, 8]);
    assert!(read_hand(b"32T3 765").is_none());
    assert!(read_hand(b"32T3KK 765").is_none());
    assert!(read_hand(b"32T3K").is_none());
    assert!(read_hand(b"32T3K x").is_none());
    assert!(read_hand(b"32T31 5").is_none());
    assert!(read_hand(b"32T3k 5").is_none());
    assert!(parse_input("32T3K 765\n\n").is_none());
    assert_eq!(parse_input("").unwrap().len(), 0);
}

#[test]
fn day07_shapes() {
    assert_eq!(sequence_lengths_part_one([3, 2, 10, 3, 13]), [2, 1, 1, 1, 0]);
    assert_eq!(sequence_lengths_part_one([5, 5, 5, 5, 5]), [5, 0, 0, 0, 0]);
    assert_eq!(sequence_lengths_part_one([13, 10, 11, 11, 10]), [2, 2, 1, 0, 0]);
    assert_eq!(sequence_lengths_part_one([2, 3, 2, 3, 2]), [3, 2, 0, 0, 0]);
    assert_eq!(sequence_lengths_part_one([2, 3, 4, 5, 6]), [1, 1, 1, 1, 1]);
    assert_eq!(sequence_lengths_part_two([13, 10, 11, 11, 10]), [4, 1, 0, 0, 0]);
    assert_eq!(sequence_lengths_part_two([11, 11, 11, 11, 11]), [5, 0, 0, 0, 0]);
    assert_eq!(sequence_lengths_part_two([10, 5, 5, 11, 5]), [4, 1, 0, 0, 0]);
    assert_eq!(sequence_lengths_part_two([2, 3, 4, 5, 11]), [2, 1, 1, 1, 0]);
    assert_eq!(sequence_lengths_part_two([2, 3, 4, 5, 6]), [1, 1, 1, 1, 1]);
    assert_eq!(sequence_lengths_slice(&[2, 2, 3, 3, 3]), [3, 2, 0, 0, 0]);
    assert_eq!(sequence_lengths_slice(&[7, 7]), [2, 0, 0, 0, 0]);
    assert_eq!(sequence_lengths_slice(&[]), [0, 0, 0, 0, 0]);
    // neighbours only: the slice is not put in order first
    assert_eq!(sequence_lengths_slice(&[2, 3, 2]), [1, 1, 1, 0, 0]);
}

#[test]
fn day07_kinds_compare() {
    let five = [5, 0, 0, 0, 0];
    let four = [4, 1, 0, 0, 0];
    let house = [3, 2, 0, 0, 0];
    let three = [3, 1, 1, 0, 0];
    let pairs = [2, 2, 1, 0, 0];
    let pair = [2, 1, 1, 1, 0];
    let high = [1, 1, 1, 1, 1];
    let kinds = [high, pair, pairs, three, house, four, five];
    for i in 0..kinds.len() {
        for j in 0..kinds.len() {
            let want = if i == j { None } else { Some(i.cmp(&j)) };
            assert_eq!(cmp_type(kinds[i], kinds[j]), want);
        }
    }
}

fn hand(cards: [u8; 5]) -> Hand {
    Hand { cards, bid: 1 }
}

#[test]
fn day07_hands_compare() {
    let a = hand([13, 13, 6, 7, 7]);
    let b = hand([13, 10, 11, 11, 10]);
    assert_eq!(a.cmp_part_one(&b), Ordering::Greater);
    assert_eq!(b.cmp_part_one(&a), Ordering::Less);
    assert_eq!(a.cmp_part_one(&a), Ordering::Equal);
    assert_eq!(a.cmp_part_two(&b), Ordering::Less);
    assert!(ranks_above(&a, &b, false));
    assert!(!ranks_above(&a, &b, true));
    assert!(!ranks_above(&a, &a, false));
    // jokers are the lowest card when they decide
    let x = hand([11, 13, 13, 13, 2]);
    let y = hand([12, 12, 12, 12, 2]);
    assert_eq!(x.cmp_part_two(&y), Ordering::Less);
    assert_eq!(x.cmp_part_one(&y), Ordering::Less);
    let z = hand([2, 2, 2, 2, 11]);
    let w = hand([2, 2, 2, 2, 2]);
    // both are five of a kind with jokers; the joker is the lower last card
    assert_eq!(z.cmp_part_two(&w), Ordering::Less);
    assert_eq!(z.cmp_part_one(&w), Ordering::Less);
    assert_eq!(w.cmp_part_two(&z), Ordering::Greater);
}

#[test]
fn day07_sort_keeps_the_hands() {
    let mut hands: Vec<Hand> = vec![
        Hand { cards: [14, 14, 14, 14, 14], bid: 1 },
        Hand { cards: [2, 3, 4, 5, 6], bid: 2 },
        Hand { cards: [2, 2, 4, 5, 6], bid: 3 },
        Hand { cards: [2, 3, 4, 5, 7], bid: 4 },
    ];
    sort_hands(&mut hands, false);
    let bids: Vec<u32> = hands.iter().map(|h| h.bid).collect();
    assert_eq!(bids, vec![2, 4, 3, 1]);
    assert_eq!(part_one(&mut hands), Some(2 + 8 + 9 + 4));
    let mut none: Vec<Hand> = vec![];
    assert_eq!(part_one(&mut none), Some(0));
}

#[test]
fn day07_winnings_that_do_not_fit() {
    let mut hands = vec![Hand { cards: [2, 3, 4, 5, 6], bid: u32::MAX }, Hand { cards: [2, 3, 4, 5, 7], bid: 1 }];
    assert_eq!(part_one(&mut hands), None);
    let mut one = vec![Hand { cards: [2, 3, 4, 5, 6], bid: u32::MAX }];
    assert_eq!(part_one(&mut one), Some(u32::MAX));
}
