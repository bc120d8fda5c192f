//! Ranking hands and adding up their winnings, and reading hands from
//! text.

use vstd::prelude::*;
use vstd::string::StringSliceAdditionalSpecFns;
use crate::day07::{lemma_outranks_one_way, outranks, ranks_above, Hand};
use crate::fold::{as_u32, lemma_total_grows, lemma_total_step, total};
use crate::order::lemma_swap_keeps_items;
use crate::text::{lines, lines_of, number, parse_u32, views, words, words_of};

verus! {

/// The hand at place `j` does not rank above the one behind it.
pub open spec fn in_order(hands: Seq<Hand>, jokers: bool, j: int) -> bool {
    !outranks(hands[j], hands[j + 1], jokers)
}

/// No hand ranks above the one behind it.
pub open spec fn ranked(hands: Seq<Hand>, jokers: bool) -> bool {
    forall|j: int| 0 <= j < hands.len() - 1 ==> #[trigger] in_order(hands, jokers, j)
}

/// Puts the hands in rising rank.
pub fn sort_hands(hands: &mut Vec<Hand>, jokers: bool)
    ensures
        ranked(final(hands)@, jokers),
        final(hands)@.to_multiset() == old(hands)@.to_multiset(),
        final(hands)@.len() == old(hands)@.len(),
{
    let n: usize = hands.len();
    let mut i: usize = 1;
    while i < n
        invariant
            n == hands@.len(),
            1 <= i,
            hands@.to_multiset() == old(hands)@.to_multiset(),
            forall|j: int| 0 <= j && j + 1 < i && j + 1 < n ==> #[trigger] in_order(hands@, jokers, j),
        decreases n - i,
    {
        let mut k: usize = i;
        while k > 0 && ranks_above(&hands[k - 1], &hands[k], jokers)
            invariant
                k <= i < n,
                n == hands@.len(),
                hands@.to_multiset() == old(hands)@.to_multiset(),
                forall|j: int| 0 <= j < i && j != k && j + 1 != k ==> #[trigger] in_order(hands@, jokers, j),
                k < i ==> in_order(hands@, jokers, k as int),
                0 < k < i ==> !outranks(hands@[k - 1], hands@[k + 1], jokers),
            decreases k,
        {
            let ghost before = hands@;
            let x: Hand = hands[k - 1];
            let y: Hand = hands[k];
            proof {
                lemma_outranks_one_way(x, y, jokers);
                lemma_swap_keeps_items(before, k - 1, k as int);
                if k >= 2 {
                    assert(in_order(before, jokers, k - 2));
                }
            }
            hands.set(k - 1, y);
            hands.set(k, x);
            proof {
                assert forall|j: int| 0 <= j < i && j != k - 1 && j + 1 != k - 1 implies #[trigger] in_order(
                    hands@,
                    jokers,
                    j,
                ) by {
                    if j != k {
                        assert(in_order(before, jokers, j));
                    }
                }
            }
            k -= 1;
        }
        i += 1;
    }
}

/// What each hand wins: its bid times its place in the list, counted from
/// one.
pub open spec fn winnings(hands: Seq<Hand>) -> Seq<Option<nat>> {
    Seq::new(hands.len(), |i: int| Some(((i + 1) * hands[i].bid) as nat))
}

/// Ranks the hands and adds up what they win.
fn rank_and_sum(hands: &mut Vec<Hand>, jokers: bool) -> (r: Option<u32>)
    ensures
        ranked(final(hands)@, jokers),
        final(hands)@.to_multiset() == old(hands)@.to_multiset(),
        r == as_u32(total(winnings(final(hands)@))),
{
    sort_hands(hands, jokers);
    let ghost vals = winnings(hands@);
    let mut acc: u32 = 0;
    let mut i: usize = 0;
    assert(vals.take(0) =~= Seq::<Option<nat>>::empty());
    while i < hands.len()
        invariant
            i <= hands@.len(),
            vals == winnings(hands@),
            ranked(hands@, jokers),
            hands@.to_multiset() == old(hands)@.to_multiset(),
            total(vals.take(i as int)) == Some(acc as nat),
        decreases hands@.len() - i,
    {
        proof {
            lemma_total_step(vals, i as int);
        }
        let place: u128 = i as u128 + 1;
        let bid: u128 = hands[i].bid as u128;
        assert(place * bid <= 0x1_0000_0000_0000_0000 * 0xffff_ffff && place * bid == (i + 1) * hands@[i as int].bid)
            by (nonlinear_arith)
            requires
                place == i + 1,
                bid == hands@[i as int].bid,
                0 <= i < 0x1_0000_0000_0000_0000,
                0 <= bid <= 0xffff_ffff,
        ;
        let won: u128 = place * bid;
        if won > (0xffff_ffff - acc) as u128 {
            proof {
                lemma_total_grows(vals, i + 1);
            }
            return None;
        }
        acc = acc + won as u32;
        i += 1;
    }
    assert(vals.take(i as int) =~= vals);
    Some(acc)
}

/// Puts the hands in rising rank under the plain rules and returns the sum
/// of what they win: for each hand its bid times its rank. `None` when the
/// sum does not fit in a `u32`.
pub fn part_one(hand: &mut Vec<Hand>) -> (r: Option<u32>)
    ensures
        ranked(final(hand)@, false),
        final(hand)@.to_multiset() == old(hand)@.to_multiset(),
        r == as_u32(total(winnings(final(hand)@))),
{
    rank_and_sum(hand, false)
}

/// The same when J stands for a joker.
pub fn part_two(hand: &mut Vec<Hand>) -> (r: Option<u32>)
    ensures
        ranked(final(hand)@, true),
        final(hand)@.to_multiset() == old(hand)@.to_multiset(),
        r == as_u32(total(winnings(final(hand)@))),
{
    rank_and_sum(hand, true)
}

/// The strength of the card that a byte names.
pub open spec fn card_of(b: u8) -> Option<u8> {
    if 50 <= b <= 57 {
        Some((b - 48) as u8)
    } else if b == 84 {
        Some(10u8)
    } else if b == 74 {
        Some(11u8)
    } else if b == 81 {
        Some(12u8)
    } else if b == 75 {
        Some(13u8)
    } else if b == 65 {
        Some(14u8)
    } else {
        None
    }
}

/// The line states a hand: a first word of five card names and a second
/// that is a bid fitting in a `u32`.
pub open spec fn is_hand(line: Seq<u8>) -> bool {
    let ws = words(line);
    &&& ws.len() >= 2
    &&& ws[0].len() == 5
    &&& forall|i: int| 0 <= i < 5 ==> (#[trigger] card_of(ws[0][i])) is Some
    &&& number(ws[1]) matches Some(n) && n <= u32::MAX
}

/// `hand` is the hand that the line states.
pub open spec fn states(line: Seq<u8>, hand: Hand) -> bool {
    let ws = words(line);
    &&& forall|i: int| 0 <= i < 5 ==> Some(#[trigger] hand.cards@[i]) == card_of(ws[0][i])
    &&& Some(hand.bid as nat) == number(ws[1])
}

/// The strength of the card that a byte names.
fn read_card(b: u8) -> (r: Option<u8>)
    ensures
        r == card_of(b),
{
    if 50 <= b && b <= 57 {
        Some(b - 48)
    } else if b == 84 {
        Some(10)
    } else if b == 74 {
        Some(11)
    } else if b == 81 {
        Some(12)
    } else if b == 75 {
        Some(13)
    } else if b == 65 {
        Some(14)
    } else {
        None
    }
}

/// Reads one hand.
pub fn read_hand(line: &[u8]) -> (r: Option<Hand>)
    ensures
        r is Some <==> is_hand(line@),
        r matches Some(hand) ==> states(line@, hand),
{
    let ws = words_of(line);
    if ws.len() < 2 {
        return None;
    }
    assert(views(ws@)[0] == ws@[0]@ && views(ws@)[1] == ws@[1]@);
    let names = &ws[0];
    if names.len() != 5 {
        return None;
    }
    let mut cards: [u8; 5] = [0, 0, 0, 0, 0];
    let mut i: usize = 0;
    while i < 5
        invariant
            i <= 5,
            names@.len() == 5,
            names@ == words(line@)[0],
            words(line@).len() >= 2,
            forall|k: int| 0 <= k < i ==> Some(#[trigger] cards@[k]) == card_of(names@[k]),
        decreases 5 - i,
    {
        match read_card(names[i]) {
            Some(c) => {
                cards[i] = c;
            },
            None => {
                assert(card_of(names@[i as int]) is None);
                return None;
            },
        }
        i += 1;
    }
    proof {
        assert forall|k: int| 0 <= k < 5 implies (#[trigger] card_of(words(line@)[0][k])) is Some by {
            assert(Some(cards@[k]) == card_of(names@[k]));
        }
    }
    match parse_u32(ws[1].as_slice()) {
        Some(bid) => Some(Hand { cards, bid }),
        None => None,
    }
}

/// Every line states a hand.
pub open spec fn all_hands(ls: Seq<Seq<u8>>) -> bool {
    forall|i: int| 0 <= i < ls.len() ==> #[trigger] is_hand(ls[i])
}

/// Reads one hand per line. `None` when a line states no hand.
pub fn parse_input(input: &str) -> (r: Option<Vec<Hand>>)
    ensures
        r is Some <==> all_hands(lines(input.spec_bytes())),
        r matches Some(hands) ==> {
            let ls = lines(input.spec_bytes());
            hands@.len() == ls.len() && forall|i: int| 0 <= i < ls.len() ==> states(ls[i], #[trigger] hands@[i])
        },
{
    let all = lines_of(input.as_bytes());
    let ghost ls = lines(input.spec_bytes());
    let mut hands: Vec<Hand> = Vec::new();
    let mut i: usize = 0;
    while i < all.len()
        invariant
            i <= all@.len(),
            ls == views(all@),
            ls == lines(input.spec_bytes()),
            hands@.len() == i,
            forall|k: int| 0 <= k < i ==> #[trigger] is_hand(ls[k]),
            forall|k: int| 0 <= k < i ==> states(ls[k], #[trigger] hands@[k]),
        decreases all@.len() - i,
    {
        assert(ls[i as int] == all@[i as int]@);
        match read_hand(all[i].as_slice()) {
            Some(h) => {
                hands.push(h);
            },
            None => {
                return None;
            },
        }
        i += 1;
    }
    Some(hands)
}

} // verus!
