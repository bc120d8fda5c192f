//! The shape of a hand: the sizes of its groups of equal cards, largest
//! first.

use vstd::prelude::*;
use vstd::relations::{sorted_by, total_ordering};
use vstd::seq_lib::lemma_sorted_unique;
use crate::order::{falling, rising, sort_falling, sort_rising};

verus! {

/// The lengths of the runs of equal neighbours of `s`, in order.
pub open spec fn runs(s: Seq<u8>) -> Seq<usize>
    decreases s.len(),
{
    if s.len() == 0 {
        Seq::empty()
    } else {
        let before = runs(s.drop_last());
        if s.len() >= 2 && s[s.len() - 2] == s.last() {
            before.update(before.len() - 1, (before.last() + 1) as usize)
        } else {
            before.push(1)
        }
    }
}

/// `r` with zeros behind it to make five numbers.
pub open spec fn padded(r: Seq<usize>) -> Seq<usize> {
    r + Seq::new((5 - r.len()) as nat, |i: int| 0usize)
}

/// `lens` holds the runs of `s` and zeros, five numbers in all, largest
/// first.
pub open spec fn groups_of(s: Seq<u8>, lens: Seq<usize>) -> bool {
    falling(lens) && lens.to_multiset() == padded(runs(s)).to_multiset()
}

/// `lens` holds the sizes of the groups of equal cards among `cards`,
/// largest first, with zeros behind: the runs of the cards once they are
/// put in rising order.
pub open spec fn is_shape(cards: Seq<u8>, lens: Seq<usize>) -> bool {
    exists|s: Seq<u8>| rising(s) && s.to_multiset() == cards.to_multiset() && #[trigger] groups_of(s, lens)
}

/// The sizes of the groups of equal cards among `cards`, largest first,
/// with zeros behind.
#[verifier::opaque]
pub open spec fn shape(cards: Seq<u8>) -> Seq<usize> {
    choose|lens: Seq<usize>| is_shape(cards, lens)
}

/// The shape of a hand under the plain rules.
pub open spec fn shape_one(cards: Seq<u8>) -> Seq<usize> {
    shape(cards)
}

/// The cards other than J, in order.
pub open spec fn plain_cards(cards: Seq<u8>) -> Seq<u8>
    decreases cards.len(),
{
    if cards.len() == 0 {
        cards
    } else if cards.last() == 11 {
        plain_cards(cards.drop_last())
    } else {
        plain_cards(cards.drop_last()).push(cards.last())
    }
}

/// The shape of a hand when J stands for a joker: the shape of the other
/// cards, with the jokers added to the largest group.
pub open spec fn shape_two(cards: Seq<u8>) -> Seq<usize> {
    let base = shape(plain_cards(cards));
    base.update(0, (base[0] + (cards.len() - plain_cards(cards).len())) as usize)
}

/// There are no more runs than items, and no run is longer than the
/// sequence.
pub proof fn lemma_runs_bound(s: Seq<u8>)
    requires
        s.len() <= usize::MAX,
    ensures
        runs(s).len() <= s.len(),
        s.len() > 0 ==> runs(s).len() > 0,
        forall|i: int| 0 <= i < runs(s).len() ==> 1 <= #[trigger] runs(s)[i] <= s.len(),
    decreases s.len(),
{
    if s.len() > 0 {
        lemma_runs_bound(s.drop_last());
    }
}

/// A hand has one shape only.
pub proof fn lemma_shape_unique(cards: Seq<u8>, lens: Seq<usize>)
    requires
        is_shape(cards, lens),
    ensures
        shape(cards) == lens,
{
    reveal(shape);
    let other = shape(cards);
    assert(is_shape(cards, other));
    let s1 = choose|s: Seq<u8>| rising(s) && s.to_multiset() == cards.to_multiset() && #[trigger] groups_of(s, lens);
    let s2 = choose|s: Seq<u8>| rising(s) && s.to_multiset() == cards.to_multiset() && #[trigger] groups_of(s, other);
    let leq = |a: u8, b: u8| a <= b;
    assert(sorted_by(s1, leq));
    assert(sorted_by(s2, leq));
    assert(total_ordering(leq));
    lemma_sorted_unique(s1, s2, leq);
    let geq = |a: usize, b: usize| a >= b;
    assert(sorted_by(lens, geq));
    assert(sorted_by(other, geq));
    assert(total_ordering(geq));
    lemma_sorted_unique(lens, other, geq);
}

/// The sizes of the runs of equal neighbours of at most five cards,
/// largest first, with zeros behind.
pub fn sequence_lengths_slice(cards: &[u8]) -> (r: [usize; 5])
    requires
        cards@.len() <= 5,
    ensures
        groups_of(cards@, r@),
        forall|k: int| 0 <= k < 5 ==> #[trigger] r@[k] <= cards@.len(),
{
    let mut lengths: Vec<usize> = Vec::new();
    let mut i: usize = 0;
    assert(cards@.take(0) =~= Seq::<u8>::empty());
    while i < cards.len()
        invariant
            i <= cards@.len() <= 5,
            lengths@ == runs(cards@.take(i as int)),
        decreases cards@.len() - i,
    {
        proof {
            assert(cards@.take(i + 1).drop_last() =~= cards@.take(i as int));
            assert(cards@.take(i + 1).last() == cards@[i as int]);
            lemma_runs_bound(cards@.take(i as int));
        }
        if i > 0 && cards[i - 1] == cards[i] {
            assert(cards@.take(i + 1)[i - 1] == cards@[i - 1]);
            let last: usize = lengths.len() - 1;
            let grown: usize = lengths[last] + 1;
            lengths.set(last, grown);
        } else {
            if i > 0 {
                assert(cards@.take(i + 1)[i - 1] == cards@[i - 1]);
            }
            lengths.push(1);
        }
        i += 1;
    }
    proof {
        assert(cards@.take(i as int) =~= cards@);
        lemma_runs_bound(cards@);
    }
    let ghost found = lengths@;
    while lengths.len() < 5
        invariant
            found.len() <= lengths@.len() <= 5,
            lengths@ == found + Seq::new((lengths@.len() - found.len()) as nat, |k: int| 0usize),
        decreases 5 - lengths@.len(),
    {
        let ghost before = lengths@;
        lengths.push(0);
        assert(lengths@ =~= found + Seq::new((lengths@.len() - found.len()) as nat, |k: int| 0usize));
    }
    assert(lengths@ == padded(runs(cards@)));
    let ghost unsorted = lengths@;
    sort_falling(&mut lengths);
    let r: [usize; 5] = [lengths[0], lengths[1], lengths[2], lengths[3], lengths[4]];
    proof {
        assert(r@ =~= lengths@);
        assert forall|k: int| 0 <= k < 5 implies #[trigger] r@[k] <= cards@.len() by {
            broadcast use vstd::seq_lib::to_multiset_contains;

            assert(lengths@.contains(r@[k]));
            assert(unsorted.to_multiset().count(r@[k]) > 0);
            assert(unsorted.contains(r@[k]));
            let j = choose|j: int| 0 <= j < unsorted.len() && unsorted[j] == r@[k];
            if j < found.len() {
                assert(unsorted[j] == found[j]);
            } else {
                assert(unsorted[j] == 0);
            }
        }
    }
    r
}

/// The cards of a hand as a vector.
fn to_vec(cards: &[u8; 5]) -> (v: Vec<u8>)
    ensures
        v@ == cards@,
{
    let mut v: Vec<u8> = Vec::new();
    let mut i: usize = 0;
    while i < 5
        invariant
            i <= 5,
            v@.len() == i,
            forall|k: int| 0 <= k < i ==> v@[k] == cards@[k],
        decreases 5 - i,
    {
        v.push(cards[i]);
        i += 1;
    }
    assert(v@ =~= cards@);
    v
}

/// The shape of a hand under the plain rules.
pub fn shape_without_jokers(cards: [u8; 5]) -> (r: [usize; 5])
    ensures
        r@ == shape_one(cards@),
{
    let mut sorted = to_vec(&cards);
    sort_rising(&mut sorted);
    let r = sequence_lengths_slice(sorted.as_slice());
    proof {
        assert(groups_of(sorted@, r@));
        assert(is_shape(cards@, r@));
        lemma_shape_unique(cards@, r@);
    }
    r
}

/// The shape of a hand when J stands for a joker.
pub fn shape_with_jokers(cards: [u8; 5]) -> (r: [usize; 5])
    ensures
        r@ == shape_two(cards@),
{
    let mut plain: Vec<u8> = Vec::new();
    let mut i: usize = 0;
    assert(cards@.take(0) =~= Seq::<u8>::empty());
    while i < 5
        invariant
            i <= 5,
            plain@ == plain_cards(cards@.take(i as int)),
            plain@.len() <= i,
        decreases 5 - i,
    {
        proof {
            assert(cards@.take(i + 1).drop_last() =~= cards@.take(i as int));
            assert(cards@.take(i + 1).last() == cards@[i as int]);
        }
        if cards[i] != 11 {
            plain.push(cards[i]);
        }
        i += 1;
    }
    assert(cards@.take(5) =~= cards@);
    let jokers: usize = 5 - plain.len();
    let ghost kept = plain@;
    sort_rising(&mut plain);
    let base = sequence_lengths_slice(plain.as_slice());
    proof {
        assert(groups_of(plain@, base@));
        assert(is_shape(kept, base@));
        lemma_shape_unique(kept, base@);
    }
    let mut r = base;
    r[0] = base[0] + jokers;
    assert(r@ =~= shape_two(cards@));
    r
}

} // verus!
