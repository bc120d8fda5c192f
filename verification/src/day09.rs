//! Extrapolating a history of readings from the differences between
//! neighbouring readings.

use vstd::prelude::*;
use vstd::string::StringSliceAdditionalSpecFns;
use crate::fold::{as_i64, fits_i64, lemma_running_none, lemma_running_step, running_i64};
use crate::text::{integer, lines, lines_of, parse_i64, views, words, words_of};

verus! {

/// The readings as mathematical integers.
pub open spec fn ints(row: Seq<i64>) -> Seq<int> {
    row.map_values(|x: i64| x as int)
}

/// Every reading is zero.
pub open spec fn all_zero(row: Seq<int>) -> bool {
    forall|i: int| 0 <= i < row.len() ==> #[trigger] row[i] == 0
}

/// The differences between neighbouring readings.
pub open spec fn diffs(row: Seq<int>) -> Seq<int> {
    Seq::new((row.len() - 1) as nat, |i: int| row[i + 1] - row[i])
}

/// Every difference between neighbouring readings fits in an `i64`.
pub open spec fn diffs_fit(row: Seq<int>) -> bool {
    forall|i: int| 0 <= i < row.len() - 1 ==> fits_i64(#[trigger] diffs(row)[i])
}

/// What has to be added to the last reading of `row` to continue it: zero
/// when all readings are zero, else the last difference plus what continues
/// the differences. `None` when a single reading that is not zero is left,
/// or a value on the way does not fit in an `i64`.
pub open spec fn step_after(row: Seq<int>) -> Option<int>
    decreases row.len(),
{
    if all_zero(row) {
        Some(0)
    } else if row.len() <= 1 || !diffs_fit(row) {
        None
    } else {
        match step_after(diffs(row)) {
            Some(v) => if fits_i64(diffs(row).last() + v) {
                Some(diffs(row).last() + v)
            } else {
                None
            },
            None => None,
        }
    }
}

/// The reading that follows `row`: its last reading plus `step_after`.
pub open spec fn next_reading(row: Seq<int>) -> Option<int> {
    if row.len() == 0 {
        None
    } else {
        match step_after(row) {
            Some(v) => if fits_i64(row.last() + v) {
                Some(row.last() + v)
            } else {
                None
            },
            None => None,
        }
    }
}

/// Every reading is zero.
fn is_all_zero(row: &Vec<i64>) -> (r: bool)
    ensures
        r == all_zero(ints(row@)),
{
    let mut i: usize = 0;
    while i < row.len()
        invariant
            i <= row@.len(),
            forall|k: int| 0 <= k < i ==> #[trigger] ints(row@)[k] == 0,
        decreases row@.len() - i,
    {
        if row[i] != 0 {
            assert(ints(row@)[i as int] != 0);
            return false;
        }
        i += 1;
    }
    true
}

/// What has to be added to the last reading of `row` to continue it.
pub fn extrapolate(row: &Vec<i64>) -> (r: Option<i64>)
    ensures
        r == as_i64(step_after(ints(row@))),
        step_after(ints(row@)) matches Some(v) ==> fits_i64(v),
    decreases row@.len(),
{
    if is_all_zero(row) {
        return Some(0);
    }
    if row.len() <= 1 {
        return None;
    }
    let ghost full = ints(row@);
    let mut next: Vec<i64> = Vec::new();
    let mut i: usize = 0;
    let last: usize = row.len() - 1;
    while i < last
        invariant
            i <= last,
            last == row@.len() - 1,
            full == ints(row@),
            next@.len() == i,
            forall|k: int| 0 <= k < i ==> #[trigger] next@[k] == diffs(full)[k],
            forall|k: int| 0 <= k < i ==> fits_i64(#[trigger] diffs(full)[k]),
        decreases last - i,
    {
        assert(full[i as int] == row@[i as int] && full[i + 1] == row@[i + 1]);
        match row[i + 1].checked_sub(row[i]) {
            Some(d) => {
                next.push(d);
            },
            None => {
                assert(!fits_i64(diffs(full)[i as int]));
                return None;
            },
        }
        i += 1;
    }
    assert(ints(next@) =~= diffs(full));
    match extrapolate(&next) {
        Some(v) => next[next.len() - 1].checked_add(v),
        None => None,
    }
}

/// The reading that follows `row`.
pub fn predict(row: &Vec<i64>) -> (r: Option<i64>)
    ensures
        r == as_i64(next_reading(ints(row@))),
{
    if row.len() == 0 {
        return None;
    }
    match extrapolate(row) {
        Some(v) => {
            assert(ints(row@).last() == row@[row@.len() - 1]);
            row[row.len() - 1].checked_add(v)
        },
        None => None,
    }
}

/// The reading that follows each history.
pub open spec fn predictions(rows: Seq<Vec<i64>>) -> Seq<Option<int>> {
    Seq::new(rows.len(), |i: int| next_reading(ints(rows[i]@)))
}

/// The sum of the readings that follow each history. `None` when a history
/// cannot be continued or a sum on the way does not fit in an `i64`.
pub fn part_one(input: &Vec<Vec<i64>>) -> (r: Option<i64>)
    ensures
        r == as_i64(running_i64(predictions(input@))),
{
    let ghost vals = predictions(input@);
    let mut acc: i64 = 0;
    let mut i: usize = 0;
    assert(vals.take(0) =~= Seq::<Option<int>>::empty());
    while i < input.len()
        invariant
            i <= input@.len(),
            vals == predictions(input@),
            running_i64(vals.take(i as int)) == Some(acc as int),
        decreases input@.len() - i,
    {
        proof {
            lemma_running_step(vals, i as int);
        }
        let next: Option<i64> = match predict(&input[i]) {
            Some(v) => acc.checked_add(v),
            None => None,
        };
        match next {
            Some(v) => {
                acc = v;
            },
            None => {
                proof {
                    lemma_running_none(vals, i + 1);
                }
                return None;
            },
        }
        i += 1;
    }
    assert(vals.take(i as int) =~= vals);
    Some(acc)
}

/// Every history of `after` is the history of `before` at the same place,
/// read backwards.
pub open spec fn reversed_rows(before: Seq<Vec<i64>>, after: Seq<Vec<i64>>) -> bool {
    &&& after.len() == before.len()
    &&& forall|i: int| 0 <= i < before.len() ==> (#[trigger] after[i])@ == before[i]@.reverse()
}

/// `row` read backwards.
fn reverse_row(row: &Vec<i64>) -> (out: Vec<i64>)
    ensures
        out@ == row@.reverse(),
{
    let mut out: Vec<i64> = Vec::new();
    let n: usize = row.len();
    let mut i: usize = 0;
    while i < n
        invariant
            i <= n,
            n == row@.len(),
            out@.len() == i,
            forall|k: int| 0 <= k < i ==> #[trigger] out@[k] == row@[n - 1 - k],
        decreases n - i,
    {
        out.push(row[n - 1 - i]);
        i += 1;
    }
    assert(out@ =~= row@.reverse());
    out
}

/// Turns every history around and returns the sum of the readings that
/// follow the reversed histories: the readings that came before the
/// histories as they were.
pub fn part_two(input: &mut Vec<Vec<i64>>) -> (r: Option<i64>)
    ensures
        reversed_rows(old(input)@, final(input)@),
        r == as_i64(running_i64(predictions(final(input)@))),
{
    let n: usize = input.len();
    let mut i: usize = 0;
    while i < n
        invariant
            i <= n,
            n == input@.len(),
            n == old(input)@.len(),
            forall|k: int| 0 <= k < i ==> (#[trigger] input@[k])@ == old(input)@[k]@.reverse(),
            forall|k: int| i <= k < n ==> #[trigger] input@[k] == old(input)@[k],
        decreases n - i,
    {
        let turned = reverse_row(&input[i]);
        input.set(i, turned);
        i += 1;
    }
    part_one(input)
}

/// The integers that the words spell.
pub open spec fn all_i64(ws: Seq<Seq<u8>>) -> bool {
    forall|i: int| 0 <= i < ws.len() ==> ((#[trigger] integer(ws[i])) matches Some(v) && fits_i64(v))
}

/// Every line consists of words that spell integers fitting in an `i64`.
pub open spec fn is_report(ls: Seq<Seq<u8>>) -> bool {
    forall|r: int| 0 <= r < ls.len() ==> all_i64(#[trigger] words(ls[r]))
}

/// The integer that word `c` of line `r` spells.
pub open spec fn reading(ls: Seq<Seq<u8>>, r: int, c: int) -> i64 {
    integer(words(ls[r])[c]).unwrap() as i64
}

/// Reads one history per line, one reading per word. `None` when a word is
/// no integer that fits in an `i64`.
pub fn parse_input(input: &str) -> (r: Option<Vec<Vec<i64>>>)
    ensures
        r is Some <==> is_report(lines(input.spec_bytes())),
        r matches Some(rows) ==> {
            let ls = lines(input.spec_bytes());
            &&& rows@.len() == ls.len()
            &&& forall|i: int| 0 <= i < ls.len() ==> (#[trigger] rows@[i])@.len() == words(ls[i]).len()
            &&& forall|i: int, j: int|
                0 <= i < ls.len() && 0 <= j < words(ls[i]).len() ==> #[trigger] rows@[i]@[j] == reading(ls, i, j)
        },
{
    let ls = lines_of(input.as_bytes());
    let ghost all = lines(input.spec_bytes());
    let mut rows: Vec<Vec<i64>> = Vec::new();
    let mut i: usize = 0;
    while i < ls.len()
        invariant
            i <= ls@.len(),
            views(ls@) == all,
            all == lines(input.spec_bytes()),
            rows@.len() == i,
            forall|r: int| 0 <= r < i ==> all_i64(#[trigger] words(all[r])),
            forall|r: int| 0 <= r < i ==> (#[trigger] rows@[r])@.len() == words(all[r]).len(),
            forall|r: int, c: int|
                0 <= r < i && 0 <= c < words(all[r]).len() ==> #[trigger] rows@[r]@[c] == reading(all, r, c),
        decreases ls@.len() - i,
    {
        assert(all[i as int] == ls@[i as int]@);
        let ws = words_of(ls[i].as_slice());
        let ghost want = words(all[i as int]);
        let mut row: Vec<i64> = Vec::new();
        let mut j: usize = 0;
        while j < ws.len()
            invariant
                j <= ws@.len(),
                i < all.len(),
                all == lines(input.spec_bytes()),
                views(ws@) == want,
                want == words(all[i as int]),
                row@.len() == j,
                forall|c: int| 0 <= c < j ==> ((#[trigger] integer(want[c])) matches Some(v) && fits_i64(v)),
                forall|c: int| 0 <= c < j ==> #[trigger] row@[c] == reading(all, i as int, c),
            decreases ws@.len() - j,
        {
            assert(want[j as int] == ws@[j as int]@);
            match parse_i64(ws[j].as_slice()) {
                Some(v) => {
                    row.push(v);
                },
                None => {
                    assert(!(integer(want[j as int]) matches Some(v) && fits_i64(v)));
                    assert(!all_i64(words(all[i as int])));
                    return None;
                },
            }
            j += 1;
        }
        rows.push(row);
        i += 1;
    }
    Some(rows)
}

} // verus!
