//! Hands of five cards: their kinds, their order, and the winnings of a
//! ranked list of hands.

pub mod rank;
pub mod shape;

use std::cmp::Ordering;
use vstd::prelude::*;
use crate::day07::shape::{shape_one, shape_two, shape_with_jokers, shape_without_jokers};

verus! {

/// The five cards of a hand, each by its strength: 2 to 10 for the number
/// cards, 11 for J, 12 for Q, 13 for K, 14 for A.
pub type Cards = [u8; 5];

/// A hand and the bid placed on it.
#[derive(Clone, Copy, Debug)]
pub struct Hand {
    pub cards: Cards,
    pub bid: u32,
}

/// How the kinds of two hands compare, by the sizes of their groups of
/// equal cards, largest first: the larger first group wins; with first
/// groups of three or of two, a second group of two wins. `None` when the
/// hands are of one kind.
pub open spec fn kind_order(a: Seq<usize>, b: Seq<usize>) -> Option<Ordering> {
    if a[0] != b[0] {
        Some(
            if a[0] < b[0] {
                Ordering::Less
            } else {
                Ordering::Greater
            },
        )
    } else if (a[0] == 3 || a[0] == 2) && a[1] == 2 && b[1] != 2 {
        Some(Ordering::Greater)
    } else if (a[0] == 3 || a[0] == 2) && a[1] != 2 && b[1] == 2 {
        Some(Ordering::Less)
    } else {
        None
    }
}

/// How two rows of cards compare from place `i` on, the first place where
/// they differ deciding.
pub open spec fn row_order(a: Seq<u8>, b: Seq<u8>, i: int) -> Ordering
    decreases 5 - i,
{
    if i >= 5 || i < 0 {
        Ordering::Equal
    } else if a[i] < b[i] {
        Ordering::Less
    } else if a[i] > b[i] {
        Ordering::Greater
    } else {
        row_order(a, b, i + 1)
    }
}

/// The strength of a card when J stands for a joker: one, below all
/// others.
pub open spec fn demoted(c: u8) -> u8 {
    if c == 11 {
        1
    } else {
        c
    }
}

/// The cards with every J demoted to a joker.
pub open spec fn demoted_row(cards: Seq<u8>) -> Seq<u8> {
    Seq::new(cards.len(), |i: int| demoted(cards[i]))
}

/// How two hands compare under the plain rules: by kind, and within a kind
/// card by card.
pub open spec fn plain_order(a: Hand, b: Hand) -> Ordering {
    match kind_order(shape_one(a.cards@), shape_one(b.cards@)) {
        Some(o) => o,
        None => row_order(a.cards@, b.cards@, 0),
    }
}

/// How two hands compare when J stands for a joker: by the best kind the
/// jokers can make, and within a kind card by card with jokers lowest.
pub open spec fn joker_order(a: Hand, b: Hand) -> Ordering {
    match kind_order(shape_two(a.cards@), shape_two(b.cards@)) {
        Some(o) => o,
        None => row_order(demoted_row(a.cards@), demoted_row(b.cards@), 0),
    }
}

/// Compares the kinds of two hands by the sizes of their groups.
pub fn cmp_type(a_seq_lens: [usize; 5], b_seq_lens: [usize; 5]) -> (r: Option<Ordering>)
    ensures
        r == kind_order(a_seq_lens@, b_seq_lens@),
{
    if a_seq_lens[0] != b_seq_lens[0] {
        if a_seq_lens[0] < b_seq_lens[0] {
            Some(Ordering::Less)
        } else {
            Some(Ordering::Greater)
        }
    } else if a_seq_lens[0] == 3 && a_seq_lens[1] == 2 && b_seq_lens[1] != 2 {
        Some(Ordering::Greater)
    } else if a_seq_lens[0] == 3 && a_seq_lens[1] != 2 && b_seq_lens[1] == 2 {
        Some(Ordering::Less)
    } else if a_seq_lens[0] == 2 && a_seq_lens[1] == 2 && b_seq_lens[1] != 2 {
        Some(Ordering::Greater)
    } else if a_seq_lens[0] == 2 && a_seq_lens[1] != 2 && b_seq_lens[1] == 2 {
        Some(Ordering::Less)
    } else {
        None
    }
}

/// Compares two rows of cards, the first place where they differ deciding.
fn compare_rows(a: &Cards, b: &Cards, jokers: bool) -> (r: Ordering)
    ensures
        r == if jokers {
            row_order(demoted_row(a@), demoted_row(b@), 0)
        } else {
            row_order(a@, b@, 0)
        },
{
    let mut i: usize = 0;
    let ghost mut at: int = 0;
    while i < 5
        invariant
            i <= 5,
            at == i,
            !jokers ==> row_order(a@, b@, 0) == row_order(a@, b@, at),
            jokers ==> row_order(demoted_row(a@), demoted_row(b@), 0) == row_order(
                demoted_row(a@),
                demoted_row(b@),
                at,
            ),
        decreases 5 - i,
    {
        let x: u8 = if jokers && a[i] == 11 {
            1
        } else {
            a[i]
        };
        let y: u8 = if jokers && b[i] == 11 {
            1
        } else {
            b[i]
        };
        if x < y {
            return Ordering::Less;
        }
        if x > y {
            return Ordering::Greater;
        }
        i += 1;
        proof {
            at = at + 1;
        }
    }
    Ordering::Equal
}

impl Hand {
    /// Compares two hands under the plain rules.
    pub fn cmp_part_one(&self, other: &Hand) -> (r: Ordering)
        ensures
            r == plain_order(*self, *other),
    {
        let a_seq_lens = sequence_lengths_part_one(self.cards);
        let b_seq_lens = sequence_lengths_part_one(other.cards);
        match cmp_type(a_seq_lens, b_seq_lens) {
            Some(o) => o,
            None => compare_rows(&self.cards, &other.cards, false),
        }
    }

    /// Compares two hands when J stands for a joker.
    pub fn cmp_part_two(&self, other: &Hand) -> (r: Ordering)
        ensures
            r == joker_order(*self, *other),
    {
        let a_seq_lens = sequence_lengths_part_two(self.cards);
        let b_seq_lens = sequence_lengths_part_two(other.cards);
        match cmp_type(a_seq_lens, b_seq_lens) {
            Some(o) => o,
            None => compare_rows(&self.cards, &other.cards, true),
        }
    }
}

/// The sizes of the groups of equal cards of a hand, largest first, with
/// zeros behind.
pub fn sequence_lengths_part_one(cards: Cards) -> (r: [usize; 5])
    ensures
        r@ == shape_one(cards@),
{
    shape_without_jokers(cards)
}

/// The sizes of the groups of equal cards of a hand when J stands for a
/// joker: the groups of the other cards, largest first, the jokers joining
/// the largest.
pub fn sequence_lengths_part_two(cards: Cards) -> (r: [usize; 5])
    ensures
        r@ == shape_two(cards@),
{
    shape_with_jokers(cards)
}

} // verus!

verus! {

/// `a` ranks above `b`: it compares as greater, under the plain rules or,
/// with `jokers`, when J stands for a joker.
pub open spec fn outranks(a: Hand, b: Hand, jokers: bool) -> bool {
    (if jokers {
        joker_order(a, b)
    } else {
        plain_order(a, b)
    }) == Ordering::Greater
}

/// `a` ranks above `b`.
pub fn ranks_above(a: &Hand, b: &Hand, jokers: bool) -> (r: bool)
    ensures
        r == outranks(*a, *b, jokers),
{
    let o = if jokers {
        a.cmp_part_two(b)
    } else {
        a.cmp_part_one(b)
    };
    match o {
        Ordering::Greater => true,
        _ => false,
    }
}

/// Rows of cards compare the other way round when exchanged.
pub proof fn lemma_row_order_flips(a: Seq<u8>, b: Seq<u8>, i: int)
    ensures
        row_order(a, b, i) == Ordering::Greater ==> row_order(b, a, i) == Ordering::Less,
    decreases 5 - i,
{
    if 0 <= i < 5 {
        lemma_row_order_flips(a, b, i + 1);
    }
}

/// Of two hands at most one ranks above the other.
pub proof fn lemma_outranks_one_way(a: Hand, b: Hand, jokers: bool)
    ensures
        outranks(a, b, jokers) ==> !outranks(b, a, jokers),
{
    lemma_row_order_flips(a.cards@, b.cards@, 0);
    lemma_row_order_flips(demoted_row(a.cards@), demoted_row(b.cards@), 0);
}

} // verus!
