//! Scratch cards: points for winning numbers, and the number of cards held
//! once every card has won copies of the cards after it.

use vstd::prelude::*;
use vstd::string::StringSliceAdditionalSpecFns;
use crate::fold::{as_u32, lemma_total_grows, lemma_total_none, lemma_total_step, total};
use crate::text::{lines, lines_of, number, parse_u32, slice_of, split, split_at, views, words, words_of};

verus! {

/// The numbers that the words spell, `None` when one of them is no number
/// that fits in a `u32`.
pub open spec fn numbers_of(ws: Seq<Seq<u8>>) -> Option<Seq<u32>>
    decreases ws.len(),
{
    if ws.len() == 0 {
        Some(Seq::empty())
    } else {
        match (numbers_of(ws.drop_last()), number(ws.last())) {
            (Some(ns), Some(n)) => if n <= u32::MAX {
                Some(ns.push(n as u32))
            } else {
                None
            },
            _ => None,
        }
    }
}

/// The winning numbers and the numbers held that a card's line states: what
/// follows its first nine bytes, divided by a bar.
pub open spec fn card_info(line: Seq<u8>) -> Option<(Seq<u32>, Seq<u32>)> {
    if line.len() < 9 {
        None
    } else {
        let halves = split(line.skip(9), 124u8);
        if halves.len() < 2 {
            None
        } else {
            match (numbers_of(words(halves[0])), numbers_of(words(halves[1]))) {
                (Some(w), Some(n)) => Some((w, n)),
                _ => None,
            }
        }
    }
}

/// How many of `numbers` are among `winning`.
pub open spec fn hits(winning: Seq<u32>, numbers: Seq<u32>) -> nat
    decreases numbers.len(),
{
    if numbers.len() == 0 {
        0
    } else {
        hits(winning, numbers.drop_last()) + if winning.contains(numbers.last()) {
            1nat
        } else {
            0nat
        }
    }
}

/// Two to the power `n`.
pub open spec fn doubled(n: nat) -> nat
    decreases n,
{
    if n == 0 {
        1
    } else {
        2 * doubled((n - 1) as nat)
    }
}

/// The points of a card with `h` hits: none without a hit, one for the
/// first hit, doubled for each further one.
pub open spec fn points(h: nat) -> nat {
    if h == 0 {
        0
    } else {
        doubled((h - 1) as nat)
    }
}

/// Powers of two grow.
pub proof fn lemma_doubled_grows(a: nat, b: nat)
    requires
        a <= b,
    ensures
        1 <= doubled(a) <= doubled(b),
    decreases b,
{
    if a < b {
        lemma_doubled_grows(a, (b - 1) as nat);
    } else if a > 0 {
        lemma_doubled_grows((a - 1) as nat, (a - 1) as nat);
    }
}

/// Reads the numbers that the words spell.
fn read_numbers(ws: &Vec<Vec<u8>>) -> (r: Option<Vec<u32>>)
    ensures
        match r {
            Some(ns) => numbers_of(views(ws@)) == Some(ns@),
            None => numbers_of(views(ws@)) is None,
        },
{
    let ghost all = views(ws@);
    let mut out: Vec<u32> = Vec::new();
    let mut i: usize = 0;
    assert(all.take(0) =~= Seq::<Seq<u8>>::empty());
    while i < ws.len()
        invariant
            i <= ws@.len(),
            all == views(ws@),
            numbers_of(all.take(i as int)) == Some(out@),
        decreases ws@.len() - i,
    {
        proof {
            assert(all.take(i + 1).drop_last() =~= all.take(i as int));
            assert(all.take(i + 1).last() == ws@[i as int]@);
        }
        match parse_u32(ws[i].as_slice()) {
            Some(n) => {
                out.push(n);
            },
            None => {
                proof {
                    lemma_numbers_none(all, i + 1);
                }
                return None;
            },
        }
        i += 1;
    }
    assert(all.take(i as int) =~= all);
    Some(out)
}

/// Once the words up to `i` spell no numbers, all words spell none.
pub proof fn lemma_numbers_none(ws: Seq<Seq<u8>>, i: int)
    requires
        0 <= i <= ws.len(),
        numbers_of(ws.take(i)) is None,
    ensures
        numbers_of(ws) is None,
    decreases ws.len() - i,
{
    if i < ws.len() {
        assert(ws.take(i + 1).drop_last() =~= ws.take(i));
        lemma_numbers_none(ws, i + 1);
    } else {
        assert(ws.take(i) =~= ws);
    }
}

/// Returns the winning numbers and the numbers held of one card. `None`
/// when the line is too short, has no bar, or holds a word that is no
/// number.
pub fn game_info(line: &[u8]) -> (r: Option<(Vec<u32>, Vec<u32>)>)
    ensures
        match r {
            Some((w, n)) => card_info(line@) == Some((w@, n@)),
            None => card_info(line@) is None,
        },
{
    if line.len() < 9 {
        return None;
    }
    let body = slice_of(line, 9, line.len());
    assert(body@ =~= line@.skip(9));
    let halves = split_at(body.as_slice(), 124);
    if halves.len() < 2 {
        return None;
    }
    assert(views(halves@)[0] == halves@[0]@ && views(halves@)[1] == halves@[1]@);
    let left = words_of(halves[0].as_slice());
    let right = words_of(halves[1].as_slice());
    match (read_numbers(&left), read_numbers(&right)) {
        (Some(w), Some(n)) => Some((w, n)),
        _ => None,
    }
}

/// `x` is among `winning`.
fn is_winning(winning: &Vec<u32>, x: u32) -> (r: bool)
    ensures
        r == winning@.contains(x),
{
    let mut i: usize = 0;
    while i < winning.len()
        invariant
            i <= winning@.len(),
            forall|k: int| 0 <= k < i ==> winning@[k] != x,
        decreases winning@.len() - i,
    {
        if winning[i] == x {
            return true;
        }
        i += 1;
    }
    false
}

/// How many of `numbers` are among `winning`.
pub fn count_hits(winning: &Vec<u32>, numbers: &Vec<u32>) -> (r: usize)
    ensures
        r == hits(winning@, numbers@),
        r <= numbers@.len(),
{
    let mut count: usize = 0;
    let mut i: usize = 0;
    assert(numbers@.take(0) =~= Seq::<u32>::empty());
    while i < numbers.len()
        invariant
            i <= numbers@.len(),
            count <= i,
            count == hits(winning@, numbers@.take(i as int)),
        decreases numbers@.len() - i,
    {
        proof {
            assert(numbers@.take(i + 1).drop_last() =~= numbers@.take(i as int));
            assert(numbers@.take(i + 1).last() == numbers@[i as int]);
        }
        if is_winning(winning, numbers[i]) {
            count += 1;
        }
        i += 1;
    }
    assert(numbers@.take(i as int) =~= numbers@);
    count
}

/// The points of a card with `h` hits, `None` when they do not fit.
pub fn card_points(h: usize) -> (r: Option<u32>)
    ensures
        r == as_u32(Some(points(h as nat))),
{
    if h == 0 {
        return Some(0);
    }
    let mut p: u32 = 1;
    let mut k: usize = 0;
    while k < h - 1
        invariant
            k <= h - 1,
            p == doubled(k as nat),
        decreases h - 1 - k,
    {
        match p.checked_mul(2) {
            Some(v) => {
                p = v;
            },
            None => {
                proof {
                    lemma_doubled_grows((k + 1) as nat, (h - 1) as nat);
                }
                return None;
            },
        }
        k += 1;
    }
    Some(p)
}

/// The number of hits of the card on `line`.
pub open spec fn line_hits(line: Seq<u8>) -> Option<nat> {
    match card_info(line) {
        Some((w, n)) => Some(hits(w, n)),
        None => None,
    }
}

/// The points of the card on `line`, `None` when the line cannot be read or
/// the points do not fit in a `u32`.
pub open spec fn line_points(line: Seq<u8>) -> Option<nat> {
    match line_hits(line) {
        Some(h) => if points(h) <= u32::MAX {
            Some(points(h))
        } else {
            None
        },
        None => None,
    }
}

/// The points of every line.
pub open spec fn all_points(ls: Seq<Seq<u8>>) -> Seq<Option<nat>> {
    Seq::new(ls.len(), |i: int| line_points(ls[i]))
}

/// The sum of the points of all cards. `None` when a line cannot be read or
/// the points or their sum do not fit in a `u32`.
pub fn part_one(input: &str) -> (r: Option<u32>)
    ensures
        r == as_u32(total(all_points(lines(input.spec_bytes())))),
{
    let ls = lines_of(input.as_bytes());
    let ghost vals = all_points(lines(input.spec_bytes()));
    let mut acc: u32 = 0;
    let mut i: usize = 0;
    assert(vals.take(0) =~= Seq::<Option<nat>>::empty());
    while i < ls.len()
        invariant
            i <= ls@.len(),
            views(ls@) == lines(input.spec_bytes()),
            vals == all_points(lines(input.spec_bytes())),
            total(vals.take(i as int)) == Some(acc as nat),
        decreases ls@.len() - i,
    {
        proof {
            lemma_total_step(vals, i as int);
            assert(views(ls@)[i as int] == ls@[i as int]@);
        }
        let value: Option<u32> = match game_info(ls[i].as_slice()) {
            Some((w, n)) => card_points(count_hits(&w, &n)),
            None => None,
        };
        let next: Option<u32> = match value {
            Some(v) => acc.checked_add(v),
            None => None,
        };
        match next {
            Some(v) => {
                acc = v;
            },
            None => {
                proof {
                    if value is None {
                        lemma_total_none(vals, i + 1);
                    } else {
                        lemma_total_grows(vals, i + 1);
                    }
                }
                return None;
            },
        }
        i += 1;
    }
    assert(vals.take(i as int) =~= vals);
    Some(acc)
}

/// The copies of card `k` counted once the cards before `i` have handed out
/// what they won: the card itself, and one for each copy of an earlier card
/// `j < i` whose hits reach from `j` to `k`.
pub open spec fn copies_upto(counts: Seq<nat>, k: int, i: int) -> nat
    decreases i,
{
    if i <= 0 {
        1
    } else {
        copies_upto(counts, k, i - 1) + if i - 1 < k <= i - 1 + counts[i - 1] {
            copies_upto(counts, i - 1, i - 1)
        } else {
            0
        }
    }
}

/// The copies of card `k` in the end.
pub open spec fn copies(counts: Seq<nat>, k: int) -> nat {
    copies_upto(counts, k, k)
}

/// The copies of the first `n` cards together.
pub open spec fn copies_sum(counts: Seq<nat>, n: int) -> nat
    decreases n,
{
    if n <= 0 {
        0
    } else {
        copies_sum(counts, n - 1) + copies(counts, n - 1)
    }
}

/// No card wins copies of a card past the last one.
pub open spec fn stays_inside(counts: Seq<nat>) -> bool {
    forall|i: int| 0 <= i < counts.len() ==> i + #[trigger] counts[i] < counts.len()
}

/// The copies of a card only grow as more cards hand out what they won.
pub proof fn lemma_copies_grow(counts: Seq<nat>, k: int, i: int, j: int)
    requires
        i <= j,
    ensures
        copies_upto(counts, k, i) <= copies_upto(counts, k, j),
    decreases j - i,
{
    if i < j {
        lemma_copies_grow(counts, k, i, j - 1);
    }
}

/// The copies of all cards together are at least those of any one card.
pub proof fn lemma_copies_sum_bounds(counts: Seq<nat>, n: int, k: int)
    requires
        0 <= k < n,
    ensures
        copies(counts, k) <= copies_sum(counts, n),
        copies_sum(counts, k + 1) <= copies_sum(counts, n),
    decreases n,
{
    if k < n - 1 {
        lemma_copies_sum_bounds(counts, n - 1, k);
    }
}

/// The number of hits of every line, `None` when a line cannot be read.
pub open spec fn all_hits(ls: Seq<Seq<u8>>) -> Option<Seq<nat>>
    decreases ls.len(),
{
    if ls.len() == 0 {
        Some(Seq::empty())
    } else {
        match (all_hits(ls.drop_last()), line_hits(ls.last())) {
            (Some(hs), Some(h)) => Some(hs.push(h)),
            _ => None,
        }
    }
}

/// Once the lines up to `i` cannot be read, all lines cannot.
pub proof fn lemma_hits_none(ls: Seq<Seq<u8>>, i: int)
    requires
        0 <= i <= ls.len(),
        all_hits(ls.take(i)) is None,
    ensures
        all_hits(ls) is None,
    decreases ls.len() - i,
{
    if i < ls.len() {
        assert(ls.take(i + 1).drop_last() =~= ls.take(i));
        lemma_hits_none(ls, i + 1);
    } else {
        assert(ls.take(i) =~= ls);
    }
}

/// The number of cards held in the end, given the hits of each card:
/// `None` when a card wins copies past the last card or the number does not
/// fit in a `u32`.
pub open spec fn cards_held(counts: Seq<nat>) -> Option<u32> {
    if stays_inside(counts) && copies_sum(counts, counts.len() as int) <= u32::MAX {
        Some(copies_sum(counts, counts.len() as int) as u32)
    } else {
        None
    }
}

/// Counts the cards held in the end, given the hits of each card.
pub fn count_cards(counts: &Vec<usize>) -> (r: Option<u32>)
    ensures
        r == cards_held(counts@.map_values(|c: usize| c as nat)),
{
    let ghost cs = counts@.map_values(|c: usize| c as nat);
    let n: usize = counts.len();
    let mut held: Vec<u32> = Vec::new();
    let mut k: usize = 0;
    while k < n
        invariant
            k <= n,
            held@.len() == k,
            forall|j: int| 0 <= j < k ==> held@[j] == 1,
        decreases n - k,
    {
        held.push(1);
        k += 1;
    }
    let mut sum: u32 = 0;
    let mut i: usize = 0;
    while i < n
        invariant
            i <= n,
            n == counts@.len(),
            cs == counts@.map_values(|c: usize| c as nat),
            held@.len() == n,
            forall|j: int| 0 <= j < n ==> (#[trigger] held@[j]) == copies_upto(cs, j, i as int),
            forall|j: int| 0 <= j < i ==> j + #[trigger] cs[j] < n,
            sum == copies_sum(cs, i as int),
        decreases n - i,
    {
        let own: u32 = held[i];
        let won: usize = counts[i];
        assert(cs[i as int] == won);
        assert(own == copies(cs, i as int));
        if won >= n - i {
            assert(!(i + cs[i as int] < cs.len()));
            return None;
        }
        sum = match sum.checked_add(own) {
            Some(v) => v,
            None => {
                proof {
                    lemma_copies_sum_bounds(cs, n as int, i as int);
                }
                return None;
            },
        };
        let mut j: usize = i + 1;
        while j <= i + won
            invariant
                i < j <= i + won + 1,
                i + won < n,
                n == counts@.len(),
                cs == counts@.map_values(|c: usize| c as nat),
                cs[i as int] == won,
                own == copies(cs, i as int),
                held@.len() == n,
                forall|m: int|
                    0 <= m < n ==> (#[trigger] held@[m]) == copies_upto(cs, m, i as int) + if i < m < j {
                        own as nat
                    } else {
                        0
                    },
            decreases i + won + 1 - j,
        {
            let next: u32 = match held[j].checked_add(own) {
                Some(v) => v,
                None => {
                    proof {
                        lemma_copies_grow(cs, j as int, i + 1, j as int);
                        lemma_copies_sum_bounds(cs, n as int, j as int);
                    }
                    return None;
                },
            };
            held.set(j, next);
            j += 1;
        }
        i += 1;
    }
    proof {
        assert forall|j: int| 0 <= j < cs.len() implies j + #[trigger] cs[j] < cs.len() by {
        }
    }
    Some(sum)
}

/// The number of cards held in the end, when every hit of a card wins one
/// copy of one of the cards after it. `None` when a line cannot be read, a
/// card wins copies past the last card, or the number does not fit in a
/// `u32`.
pub fn part_two(input: &str) -> (r: Option<u32>)
    ensures
        r == match all_hits(lines(input.spec_bytes())) {
            Some(counts) => cards_held(counts),
            None => None,
        },
{
    let ls = lines_of(input.as_bytes());
    let ghost all = lines(input.spec_bytes());
    let mut counts: Vec<usize> = Vec::new();
    let mut i: usize = 0;
    assert(all.take(0) =~= Seq::<Seq<u8>>::empty());
    assert(counts@.map_values(|c: usize| c as nat) =~= Seq::<nat>::empty());
    while i < ls.len()
        invariant
            i <= ls@.len(),
            views(ls@) == all,
            all == lines(input.spec_bytes()),
            all_hits(all.take(i as int)) == Some(counts@.map_values(|c: usize| c as nat)),
        decreases ls@.len() - i,
    {
        proof {
            assert(all.take(i + 1).drop_last() =~= all.take(i as int));
            assert(all.take(i + 1).last() == ls@[i as int]@);
        }
        match game_info(ls[i].as_slice()) {
            Some((w, n)) => {
                let h: usize = count_hits(&w, &n);
                proof {
                    assert(counts@.push(h).map_values(|c: usize| c as nat) =~= counts@.map_values(
                        |c: usize| c as nat,
                    ).push(h as nat));
                }
                counts.push(h);
            },
            None => {
                proof {
                    lemma_hits_none(all, i + 1);
                }
                return None;
            },
        }
        i += 1;
    }
    assert(all.take(i as int) =~= all);
    count_cards(&counts)
}

} // verus!
