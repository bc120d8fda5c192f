//! Games of coloured dice: which games fit a fixed supply, and the least
//! supply each game needs.

use vstd::prelude::*;
use vstd::string::StringSliceAdditionalSpecFns;
use crate::fold::{as_u32, lemma_total_grows, lemma_total_none, lemma_total_step, total};
use crate::text::{lines, lines_of, number, parse_u32, slice_of, split_any, split_at_any, views, words, words_of};

verus! {

/// The index of a colour name: red 0, green 1, blue 2.
pub open spec fn color_index(name: Seq<u8>) -> Option<usize> {
    if name == seq![114u8, 101u8, 100u8] {
        Some(0usize)
    } else if name == seq![103u8, 114u8, 101u8, 101u8, 110u8] {
        Some(1usize)
    } else if name == seq![98u8, 108u8, 117u8, 101u8] {
        Some(2usize)
    } else {
        None
    }
}

/// The quantity and colour index that `piece` states: its first word is a
/// number that fits in a `u32`, its second a colour name.
pub open spec fn pair_of(piece: Seq<u8>) -> Option<(u32, usize)> {
    let ws = words(piece);
    if ws.len() >= 2 {
        match (number(ws[0]), color_index(ws[1])) {
            (Some(q), Some(c)) => if q <= u32::MAX {
                Some((q as u32, c))
            } else {
                None
            },
            _ => None,
        }
    } else {
        None
    }
}

/// The pairs that the pieces state, `None` when one piece states none.
pub open spec fn pairs_of(pieces: Seq<Seq<u8>>) -> Option<Seq<(u32, usize)>>
    decreases pieces.len(),
{
    if pieces.len() == 0 {
        Some(Seq::empty())
    } else {
        match (pairs_of(pieces.drop_last()), pair_of(pieces.last())) {
            (Some(ps), Some(p)) => Some(ps.push(p)),
            _ => None,
        }
    }
}

/// All pairs `(quantity, colour index)` of a game, over all its sets: the
/// pieces between semicolons and commas.
pub open spec fn game_pairs(game: Seq<u8>) -> Option<Seq<(u32, usize)>> {
    pairs_of(split_any(game, seq![59u8, 44u8]))
}

/// The supply of each colour: 12 red, 13 green, 14 blue.
pub open spec fn supply(color: usize) -> u32 {
    if color == 0 {
        12
    } else if color == 1 {
        13
    } else {
        14
    }
}

/// No pair asks for more dice of a colour than the supply holds.
pub open spec fn within_supply(pairs: Seq<(u32, usize)>) -> bool {
    forall|i: int| 0 <= i < pairs.len() ==> (#[trigger] pairs[i]).0 <= supply(pairs[i].1)
}

/// The largest quantity asked of `color`, zero when none is.
pub open spec fn most(pairs: Seq<(u32, usize)>, color: usize) -> nat
    decreases pairs.len(),
{
    if pairs.len() == 0 {
        0
    } else {
        let before = most(pairs.drop_last(), color);
        if pairs.last().1 == color && pairs.last().0 > before {
            pairs.last().0 as nat
        } else {
            before
        }
    }
}

/// The product of the largest quantities of the three colours.
pub open spec fn power(pairs: Seq<(u32, usize)>) -> nat {
    most(pairs, 0) * most(pairs, 1) * most(pairs, 2)
}

/// Index of the first colon of `line`, or its length when it has none.
pub open spec fn colon_at(line: Seq<u8>) -> int
    decreases line.len(),
{
    if line.len() == 0 {
        0
    } else if line[0] == 58u8 {
        0
    } else {
        1 + colon_at(line.drop_first())
    }
}

/// The game number and the game text of a line: the number stands between
/// the fifth byte and the first colon, the game follows the colon.
pub open spec fn line_info(line: Seq<u8>) -> Option<(u32, Seq<u8>)> {
    let i = colon_at(line);
    if 5 <= i < line.len() {
        match number(line.subrange(5, i)) {
            Some(n) => if n <= u32::MAX {
                Some((n as u32, line.subrange(i + 1, line.len() as int)))
            } else {
                None
            },
            None => None,
        }
    } else {
        None
    }
}

/// What a line adds to the first answer: its game number when the game fits
/// the supply, nothing when it does not.
pub open spec fn possible_value(line: Seq<u8>) -> Option<nat> {
    match line_info(line) {
        Some((n, game)) => match game_pairs(game) {
            Some(pairs) => Some(
                if within_supply(pairs) {
                    n as nat
                } else {
                    0
                },
            ),
            None => None,
        },
        None => None,
    }
}

/// What a line adds to the second answer: the power of its game.
pub open spec fn power_value(line: Seq<u8>) -> Option<nat> {
    match line_info(line) {
        Some((n, game)) => match game_pairs(game) {
            Some(pairs) => if power(pairs) <= u32::MAX {
                Some(power(pairs))
            } else {
                None
            },
            None => None,
        },
        None => None,
    }
}

/// The colon index lies within the line, and no colon comes before it.
pub proof fn lemma_colon_at(line: Seq<u8>, k: int)
    requires
        0 <= k <= line.len(),
        forall|j: int| 0 <= j < k ==> line[j] != 58u8,
        k < line.len() ==> line[k] == 58u8,
    ensures
        colon_at(line) == k,
    decreases line.len(),
{
    if line.len() > 0 && k > 0 {
        let rest = line.drop_first();
        assert forall|j: int| 0 <= j < k - 1 implies rest[j] != 58u8 by {
            assert(rest[j] == line[j + 1]);
        }
        lemma_colon_at(rest, k - 1);
    }
}

/// Returns the game number of a line and the text of its game.
pub fn game_info(line: &[u8]) -> (r: Option<(u32, Vec<u8>)>)
    ensures
        match r {
            Some((n, game)) => line_info(line@) == Some((n, game@)),
            None => line_info(line@) is None,
        },
{
    let mut i: usize = 0;
    while i < line.len() && line[i] != 58
        invariant
            i <= line@.len(),
            forall|j: int| 0 <= j < i ==> line@[j] != 58u8,
        decreases line@.len() - i,
    {
        i += 1;
    }
    proof {
        lemma_colon_at(line@, i as int);
    }
    if i < 5 || i >= line.len() {
        return None;
    }
    let digits = slice_of(line, 5, i);
    match parse_u32(digits.as_slice()) {
        Some(n) => {
            let game = slice_of(line, i + 1, line.len());
            Some((n, game))
        },
        None => None,
    }
}

/// The index of a colour name.
fn color_of(name: &[u8]) -> (r: Option<usize>)
    ensures
        r == color_index(name@),
{
    if name.len() == 3 && name[0] == 114 && name[1] == 101 && name[2] == 100 {
        assert(name@ =~= seq![114u8, 101u8, 100u8]);
        Some(0)
    } else if name.len() == 5 && name[0] == 103 && name[1] == 114 && name[2] == 101 && name[3] == 101 && name[4]
        == 110 {
        assert(name@ =~= seq![103u8, 114u8, 101u8, 101u8, 110u8]);
        Some(1)
    } else if name.len() == 4 && name[0] == 98 && name[1] == 108 && name[2] == 117 && name[3] == 101 {
        assert(name@ =~= seq![98u8, 108u8, 117u8, 101u8]);
        Some(2)
    } else {
        proof {
            let red = seq![114u8, 101u8, 100u8];
            let green = seq![103u8, 114u8, 101u8, 101u8, 110u8];
            let blue = seq![98u8, 108u8, 117u8, 101u8];
            if name@ == red {
                assert(red.len() == 3 && red[0] == 114 && red[1] == 101 && red[2] == 100);
            }
            if name@ == green {
                assert(green.len() == 5 && green[0] == 103 && green[1] == 114 && green[2] == 101 && green[3] == 101
                    && green[4] == 110);
            }
            if name@ == blue {
                assert(blue.len() == 4 && blue[0] == 98 && blue[1] == 108 && blue[2] == 117 && blue[3] == 101);
            }
        }
        None
    }
}

/// All pairs `(quantity, colour index)` of a game, over all its sets.
/// `None` when a piece of the game does not state a quantity and a colour.
pub fn dice_pairs(game: &[u8]) -> (r: Option<Vec<(u32, usize)>>)
    ensures
        match r {
            Some(pairs) => game_pairs(game@) == Some(pairs@),
            None => game_pairs(game@) is None,
        },
        r matches Some(pairs) ==> forall|i: int| 0 <= i < pairs@.len() ==> (#[trigger] pairs@[i]).1 < 3,
{
    let mut seps: Vec<u8> = Vec::new();
    seps.push(59);
    seps.push(44);
    assert(seps@ =~= seq![59u8, 44u8]);
    let pieces = split_at_any(game, seps.as_slice());
    let ghost all = views(pieces@);
    let mut pairs: Vec<(u32, usize)> = Vec::new();
    let mut i: usize = 0;
    assert(all.take(0) =~= Seq::<Seq<u8>>::empty());
    while i < pieces.len()
        invariant
            i <= pieces@.len(),
            all == views(pieces@),
            all == split_any(game@, seq![59u8, 44u8]),
            pairs_of(all.take(i as int)) == Some(pairs@),
            forall|k: int| 0 <= k < pairs@.len() ==> (#[trigger] pairs@[k]).1 < 3,
        decreases pieces@.len() - i,
    {
        let ws = words_of(pieces[i].as_slice());
        proof {
            assert(all.take(i + 1).drop_last() =~= all.take(i as int));
            assert(all.take(i + 1).last() == pieces@[i as int]@);
        }
        let pair: Option<(u32, usize)> = if ws.len() >= 2 {
            assert(views(ws@)[0] == ws@[0]@ && views(ws@)[1] == ws@[1]@);
            match (parse_u32(ws[0].as_slice()), color_of(ws[1].as_slice())) {
                (Some(q), Some(c)) => Some((q, c)),
                _ => None,
            }
        } else {
            None
        };
        assert(pair == pair_of(all[i as int]));
        match pair {
            Some(p) => {
                pairs.push(p);
            },
            None => {
                proof {
                    lemma_pairs_none(all, i + 1);
                }
                return None;
            },
        }
        i += 1;
    }
    assert(all.take(i as int) =~= all);
    Some(pairs)
}

/// Once the pieces up to `i` state no pairs, all pieces state none.
pub proof fn lemma_pairs_none(pieces: Seq<Seq<u8>>, i: int)
    requires
        0 <= i <= pieces.len(),
        pairs_of(pieces.take(i)) is None,
    ensures
        pairs_of(pieces) is None,
    decreases pieces.len() - i,
{
    if i < pieces.len() {
        assert(pieces.take(i + 1).drop_last() =~= pieces.take(i));
        lemma_pairs_none(pieces, i + 1);
    } else {
        assert(pieces.take(i) =~= pieces);
    }
}

/// Whether the game fits the supply of 12 red, 13 green and 14 blue dice.
/// `None` when the game cannot be read.
pub fn game_possible(game: &[u8]) -> (r: Option<bool>)
    ensures
        r == match game_pairs(game@) {
            Some(pairs) => Some(within_supply(pairs)),
            None => None,
        },
{
    match dice_pairs(game) {
        None => None,
        Some(pairs) => {
            let mut i: usize = 0;
            while i < pairs.len()
                invariant
                    i <= pairs@.len(),
                    game_pairs(game@) == Some(pairs@),
                    forall|k: int| 0 <= k < i ==> (#[trigger] pairs@[k]).0 <= supply(pairs@[k].1),
                decreases pairs@.len() - i,
            {
                let (quantity, color) = pairs[i];
                let limit: u32 = if color == 0 {
                    12
                } else if color == 1 {
                    13
                } else {
                    14
                };
                if quantity > limit {
                    assert(!(pairs@[i as int].0 <= supply(pairs@[i as int].1)));
                    return Some(false);
                }
                i += 1;
            }
            Some(true)
        },
    }
}

/// The product of the largest quantity of each colour that the game shows.
/// `None` when the game cannot be read or the product does not fit.
pub fn game_power(game: &[u8]) -> (r: Option<u32>)
    ensures
        r == match game_pairs(game@) {
            Some(pairs) => if power(pairs) <= u32::MAX {
                Some(power(pairs) as u32)
            } else {
                None
            },
            None => None,
        },
{
    match dice_pairs(game) {
        None => None,
        Some(pairs) => {
            let mut red: u32 = 0;
            let mut green: u32 = 0;
            let mut blue: u32 = 0;
            let mut i: usize = 0;
            assert(pairs@.take(0) =~= Seq::<(u32, usize)>::empty());
            while i < pairs.len()
                invariant
                    i <= pairs@.len(),
                    forall|k: int| 0 <= k < pairs@.len() ==> (#[trigger] pairs@[k]).1 < 3,
                    red == most(pairs@.take(i as int), 0),
                    green == most(pairs@.take(i as int), 1),
                    blue == most(pairs@.take(i as int), 2),
                decreases pairs@.len() - i,
            {
                let (quantity, color) = pairs[i];
                proof {
                    assert(pairs@.take(i + 1).drop_last() =~= pairs@.take(i as int));
                    assert(pairs@.take(i + 1).last() == pairs@[i as int]);
                }
                if color == 0 {
                    if quantity > red {
                        red = quantity;
                    }
                } else if color == 1 {
                    if quantity > green {
                        green = quantity;
                    }
                } else {
                    if quantity > blue {
                        blue = quantity;
                    }
                }
                i += 1;
            }
            assert(pairs@.take(i as int) =~= pairs@);
            let (r, g, b): (u128, u128, u128) = (red as u128, green as u128, blue as u128);
            assert(r * g <= 0xffff_ffff * 0xffff_ffff && r * g * b <= 0xffff_ffff * 0xffff_ffff * 0xffff_ffff)
                by (nonlinear_arith)
                requires
                    r <= 0xffff_ffff,
                    g <= 0xffff_ffff,
                    b <= 0xffff_ffff,
            ;
            let product: u128 = r * g * b;
            assert(product == power(pairs@)) by (nonlinear_arith)
                requires
                    product == r * g * b,
                    r == red,
                    g == green,
                    b == blue,
                    red == most(pairs@, 0),
                    green == most(pairs@, 1),
                    blue == most(pairs@, 2),
                    power(pairs@) == most(pairs@, 0) * most(pairs@, 1) * most(pairs@, 2),
            ;
            if product <= 0xffff_ffff {
                Some(product as u32)
            } else {
                None
            }
        },
    }
}

/// The value of every line for the first answer.
pub open spec fn possible_values(ls: Seq<Seq<u8>>) -> Seq<Option<nat>> {
    Seq::new(ls.len(), |i: int| possible_value(ls[i]))
}

/// The value of every line for the second answer.
pub open spec fn power_values(ls: Seq<Seq<u8>>) -> Seq<Option<nat>> {
    Seq::new(ls.len(), |i: int| power_value(ls[i]))
}

/// The sum of the numbers of the games that fit the supply. `None` when a
/// line cannot be read or the sum does not fit in a `u32`.
pub fn part_one(input: &str) -> (r: Option<u32>)
    ensures
        r == as_u32(total(possible_values(lines(input.spec_bytes())))),
{
    let ls = lines_of(input.as_bytes());
    let ghost vals = possible_values(lines(input.spec_bytes()));
    let mut acc: u32 = 0;
    let mut i: usize = 0;
    assert(vals.take(0) =~= Seq::<Option<nat>>::empty());
    while i < ls.len()
        invariant
            i <= ls@.len(),
            views(ls@) == lines(input.spec_bytes()),
            vals == possible_values(lines(input.spec_bytes())),
            total(vals.take(i as int)) == Some(acc as nat),
        decreases ls@.len() - i,
    {
        proof {
            lemma_total_step(vals, i as int);
            assert(views(ls@)[i as int] == ls@[i as int]@);
        }
        let value: Option<u32> = match game_info(ls[i].as_slice()) {
            Some((n, game)) => match game_possible(game.as_slice()) {
                Some(ok) => Some(
                    if ok {
                        n
                    } else {
                        0
                    },
                ),
                None => None,
            },
            None => None,
        };
        let next: Option<u32> = match value {
            Some(v) => acc.checked_add(v),
            None => None,
        };
        match next {
            Some(v) => {
                acc = v;
            },
            None => {
                proof {
                    if value is None {
                        lemma_total_none(vals, i + 1);
                    } else {
                        lemma_total_grows(vals, i + 1);
                    }
                }
                return None;
            },
        }
        i += 1;
    }
    assert(vals.take(i as int) =~= vals);
    Some(acc)
}

/// The sum of the powers of all games. `None` when a line cannot be read,
/// or a power or the sum does not fit in a `u32`.
pub fn part_two(input: &str) -> (r: Option<u32>)
    ensures
        r == as_u32(total(power_values(lines(input.spec_bytes())))),
{
    let ls = lines_of(input.as_bytes());
    let ghost vals = power_values(lines(input.spec_bytes()));
    let mut acc: u32 = 0;
    let mut i: usize = 0;
    assert(vals.take(0) =~= Seq::<Option<nat>>::empty());
    while i < ls.len()
        invariant
            i <= ls@.len(),
            views(ls@) == lines(input.spec_bytes()),
            vals == power_values(lines(input.spec_bytes())),
            total(vals.take(i as int)) == Some(acc as nat),
        decreases ls@.len() - i,
    {
        proof {
            lemma_total_step(vals, i as int);
            assert(views(ls@)[i as int] == ls@[i as int]@);
        }
        let value: Option<u32> = match game_info(ls[i].as_slice()) {
            Some((n, game)) => game_power(game.as_slice()),
            None => None,
        };
        let next: Option<u32> = match value {
            Some(v) => acc.checked_add(v),
            None => None,
        };
        match next {
            Some(v) => {
                acc = v;
            },
            None => {
                proof {
                    if value is None {
                        lemma_total_none(vals, i + 1);
                    } else {
                        lemma_total_grows(vals, i + 1);
                    }
                }
                return None;
            },
        }
        i += 1;
    }
    assert(vals.take(i as int) =~= vals);
    Some(acc)
}

} // verus!
