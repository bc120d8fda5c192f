//! Calibration values: the first and the last digit of each line, read as a
//! two-digit number, summed over all lines.

use vstd::prelude::*;
use vstd::string::StringSliceAdditionalSpecFns;
use crate::text::{ends_with, is_digit, lines, lines_of, slice_of, starts_with, views};

verus! {

/// The English name of the digit `i`, as bytes.
pub open spec fn word(i: int) -> Seq<u8> {
    if i == 0 {
        seq![122u8, 101u8, 114u8, 111u8]
    } else if i == 1 {
        seq![111u8, 110u8, 101u8]
    } else if i == 2 {
        seq![116u8, 119u8, 111u8]
    } else if i == 3 {
        seq![116u8, 104u8, 114u8, 101u8, 101u8]
    } else if i == 4 {
        seq![102u8, 111u8, 117u8, 114u8]
    } else if i == 5 {
        seq![102u8, 105u8, 118u8, 101u8]
    } else if i == 6 {
        seq![115u8, 105u8, 120u8]
    } else if i == 7 {
        seq![115u8, 101u8, 118u8, 101u8, 110u8]
    } else if i == 8 {
        seq![101u8, 105u8, 103u8, 104u8, 116u8]
    } else {
        seq![110u8, 105u8, 110u8, 101u8]
    }
}

/// The least digit from `i` on whose name `s` begins with (`at_end` false)
/// or ends with (`at_end` true).
pub open spec fn named_from(s: Seq<u8>, at_end: bool, i: int) -> Option<u32>
    decreases 10 - i,
{
    if i >= 10 || i < 0 {
        None
    } else if (!at_end && word(i).is_prefix_of(s)) || (at_end && word(i).is_suffix_of(s)) {
        Some(i as u32)
    } else {
        named_from(s, at_end, i + 1)
    }
}

/// The digit that `s` begins with (or ends with, for `at_end`): its value
/// when it is written as a decimal digit, else the digit that is spelled out
/// there.
pub open spec fn digit_here(s: Seq<u8>, at_end: bool) -> Option<u32> {
    let edge = if at_end {
        s.last()
    } else {
        s[0]
    };
    if s.len() > 0 && is_digit(edge) {
        Some((edge - 48) as u32)
    } else {
        named_from(s, at_end, 0)
    }
}

/// The first decimal digit of `line`.
pub open spec fn first_plain(line: Seq<u8>) -> Option<u32>
    decreases line.len(),
{
    if line.len() == 0 {
        None
    } else if is_digit(line[0]) {
        Some((line[0] - 48) as u32)
    } else {
        first_plain(line.drop_first())
    }
}

/// The last decimal digit of `line`.
pub open spec fn last_plain(line: Seq<u8>) -> Option<u32>
    decreases line.len(),
{
    if line.len() == 0 {
        None
    } else if is_digit(line.last()) {
        Some((line.last() - 48) as u32)
    } else {
        last_plain(line.drop_last())
    }
}

/// The first digit of `line`, written or spelled out.
pub open spec fn first_spelled(line: Seq<u8>) -> Option<u32>
    decreases line.len(),
{
    if digit_here(line, false) is Some {
        digit_here(line, false)
    } else if line.len() == 0 {
        None
    } else {
        first_spelled(line.drop_first())
    }
}

/// The last digit of `line`, written or spelled out.
pub open spec fn last_spelled(line: Seq<u8>) -> Option<u32>
    decreases line.len(),
{
    if digit_here(line, true) is Some {
        digit_here(line, true)
    } else if line.len() == 0 {
        None
    } else {
        last_spelled(line.drop_last())
    }
}

/// The calibration value of `line`: ten times its first digit plus its last
/// digit. With `spelled`, digits that are spelled out count too. `None` when
/// the line holds no digit.
pub open spec fn calibration(line: Seq<u8>, spelled: bool) -> Option<nat> {
    let first = if spelled {
        first_spelled(line)
    } else {
        first_plain(line)
    };
    let last = if spelled {
        last_spelled(line)
    } else {
        last_plain(line)
    };
    match (first, last) {
        (Some(a), Some(b)) => Some((a * 10 + b) as nat),
        _ => None,
    }
}

/// The sum of the calibration values of all lines, `None` when one line has
/// none.
pub open spec fn calibration_sum(ls: Seq<Seq<u8>>, spelled: bool) -> Option<nat>
    decreases ls.len(),
{
    if ls.len() == 0 {
        Some(0)
    } else {
        match (calibration_sum(ls.drop_last(), spelled), calibration(ls.last(), spelled)) {
            (Some(a), Some(b)) => Some(a + b),
            _ => None,
        }
    }
}

/// The English name of the digit `i`.
fn word_of(i: usize) -> (w: Vec<u8>)
    requires
        i < 10,
    ensures
        w@ == word(i as int),
{
    let w: Vec<u8> = if i == 0 {
        vec![122u8, 101u8, 114u8, 111u8]
    } else if i == 1 {
        vec![111u8, 110u8, 101u8]
    } else if i == 2 {
        vec![116u8, 119u8, 111u8]
    } else if i == 3 {
        vec![116u8, 104u8, 114u8, 101u8, 101u8]
    } else if i == 4 {
        vec![102u8, 111u8, 117u8, 114u8]
    } else if i == 5 {
        vec![102u8, 105u8, 118u8, 101u8]
    } else if i == 6 {
        vec![115u8, 105u8, 120u8]
    } else if i == 7 {
        vec![115u8, 101u8, 118u8, 101u8, 110u8]
    } else if i == 8 {
        vec![101u8, 105u8, 103u8, 104u8, 116u8]
    } else {
        vec![110u8, 105u8, 110u8, 101u8]
    };
    assert(w@ =~= word(i as int));
    w
}

/// The digit that `s` begins with, or ends with for `at_end`, written as a
/// decimal digit or spelled out in English.
pub fn parse_str(s: &[u8], at_end: bool) -> (r: Option<u32>)
    ensures
        r == digit_here(s@, at_end),
{
    if s.len() > 0 {
        let edge: u8 = if at_end {
            s[s.len() - 1]
        } else {
            s[0]
        };
        if 48 <= edge && edge <= 57 {
            return Some((edge - 48) as u32);
        }
    }
    let mut i: usize = 0;
    while i < 10
        invariant
            i <= 10,
            named_from(s@, at_end, 0) == named_from(s@, at_end, i as int),
        decreases 10 - i,
    {
        let w = word_of(i);
        let hit: bool = if at_end {
            ends_with(s, w.as_slice())
        } else {
            starts_with(s, w.as_slice())
        };
        if hit {
            return Some(i as u32);
        }
        i += 1;
    }
    None
}

/// The first digit of `line`; spelled-out digits count with `spelled`.
pub fn first_digit(line: &[u8], spelled: bool) -> (r: Option<u32>)
    ensures
        r == if spelled {
            first_spelled(line@)
        } else {
            first_plain(line@)
        },
        r matches Some(d) ==> d <= 9,
{
    let mut k: usize = 0;
    assert(line@.skip(0) =~= line@);
    loop
        invariant
            k <= line@.len(),
            spelled ==> first_spelled(line@) == first_spelled(line@.skip(k as int)),
            !spelled ==> first_plain(line@) == first_plain(line@.skip(k as int)),
        decreases line@.len() - k,
    {
        let rest = slice_of(line, k, line.len());
        assert(rest@ =~= line@.skip(k as int));
        if spelled {
            let here = parse_str(rest.as_slice(), false);
            if here.is_some() {
                proof {
                    lemma_digit_here_small(rest@, false);
                }
                return here;
            }
        } else if k < line.len() && 48 <= line[k] && line[k] <= 57 {
            return Some((line[k] - 48) as u32);
        }
        if k == line.len() {
            return None;
        }
        assert(line@.skip(k as int).drop_first() =~= line@.skip(k + 1));
        k += 1;
    }
}

/// The last digit of `line`; spelled-out digits count with `spelled`.
pub fn last_digit(line: &[u8], spelled: bool) -> (r: Option<u32>)
    ensures
        r == if spelled {
            last_spelled(line@)
        } else {
            last_plain(line@)
        },
        r matches Some(d) ==> d <= 9,
{
    let mut k: usize = line.len();
    assert(line@.take(k as int) =~= line@);
    loop
        invariant
            k <= line@.len(),
            spelled ==> last_spelled(line@) == last_spelled(line@.take(k as int)),
            !spelled ==> last_plain(line@) == last_plain(line@.take(k as int)),
        decreases k,
    {
        let rest = slice_of(line, 0, k);
        assert(rest@ =~= line@.take(k as int));
        if spelled {
            let here = parse_str(rest.as_slice(), true);
            if here.is_some() {
                proof {
                    lemma_digit_here_small(rest@, true);
                }
                return here;
            }
        } else if k > 0 && 48 <= line[k - 1] && line[k - 1] <= 57 {
            return Some((line[k - 1] - 48) as u32);
        }
        if k == 0 {
            return None;
        }
        assert(line@.take(k as int).drop_last() =~= line@.take(k - 1));
        k -= 1;
    }
}

/// A digit found by name is at most nine.
pub proof fn lemma_named_small(s: Seq<u8>, at_end: bool, i: int)
    requires
        0 <= i,
    ensures
        named_from(s, at_end, i) matches Some(d) ==> d <= 9,
    decreases 10 - i,
{
    if i < 10 {
        lemma_named_small(s, at_end, i + 1);
    }
}

/// A digit, written or spelled out, is at most nine.
pub proof fn lemma_digit_here_small(s: Seq<u8>, at_end: bool)
    ensures
        digit_here(s, at_end) matches Some(d) ==> d <= 9,
{
    lemma_named_small(s, at_end, 0);
}

/// The sum of the calibration values of the lines of `input`; digits that
/// are spelled out count with `spelled`. `None` when a line holds no digit
/// or the sum does not fit in a `u32`.
pub fn sum_lines(input: &str, spelled: bool) -> (r: Option<u32>)
    ensures
        r == match calibration_sum(lines(input.spec_bytes()), spelled) {
            Some(t) => if t <= u32::MAX {
                Some(t as u32)
            } else {
                None
            },
            None => None,
        },
{
    let ls = lines_of(input.as_bytes());
    let ghost all = lines(input.spec_bytes());
    let mut acc: u128 = 0;
    let mut i: usize = 0;
    assert(all.take(0) =~= Seq::<Seq<u8>>::empty());
    while i < ls.len()
        invariant
            i <= ls@.len(),
            views(ls@) == all,
            all == lines(input.spec_bytes()),
            calibration_sum(all.take(i as int), spelled) == Some(acc as nat),
            acc <= 99 * i,
        decreases ls@.len() - i,
    {
        let line = ls[i].as_slice();
        assert(line@ == all[i as int]);
        let first = first_digit(line, spelled);
        let last = last_digit(line, spelled);
        proof {
            assert(all.take(i + 1).drop_last() =~= all.take(i as int));
            assert(all.take(i + 1).last() == all[i as int]);
        }
        match (first, last) {
            (Some(a), Some(b)) => {
                acc = acc + (a * 10 + b) as u128;
            },
            _ => {
                proof {
                    lemma_sum_none_stays(all, i + 1, spelled);
                }
                return None;
            },
        }
        i += 1;
    }
    assert(all.take(i as int) =~= all);
    if acc <= 0xffff_ffff {
        Some(acc as u32)
    } else {
        None
    }
}

/// Once the lines up to `i` have no sum, all lines have none.
pub proof fn lemma_sum_none_stays(ls: Seq<Seq<u8>>, i: int, spelled: bool)
    requires
        0 <= i <= ls.len(),
        calibration_sum(ls.take(i), spelled) is None,
    ensures
        calibration_sum(ls, spelled) is None,
    decreases ls.len() - i,
{
    if i < ls.len() {
        assert(ls.take(i + 1).drop_last() =~= ls.take(i));
        lemma_sum_none_stays(ls, i + 1, spelled);
    } else {
        assert(ls.take(i) =~= ls);
    }
}

/// The sum of the calibration values, counting written digits only.
pub fn part_one(input: &str) -> (r: Option<u32>)
    ensures
        r == match calibration_sum(lines(input.spec_bytes()), false) {
            Some(t) => if t <= u32::MAX {
                Some(t as u32)
            } else {
                None
            },
            None => None,
        },
{
    sum_lines(input, false)
}

/// The sum of the calibration values, counting spelled-out digits too.
pub fn part_two(input: &str) -> (r: Option<u32>)
    ensures
        r == match calibration_sum(lines(input.spec_bytes()), true) {
            Some(t) => if t <= u32::MAX {
                Some(t as u32)
            } else {
                None
            },
            None => None,
        },
{
    sum_lines(input, true)
}

} // verus!
