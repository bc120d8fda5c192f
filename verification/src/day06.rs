//! Boat races: in how many ways a race of a given time beats the record
//! distance.

use vstd::prelude::*;
use vstd::string::StringSliceAdditionalSpecFns;
use crate::text::{all_u64, join, joined, lines, lines_of, number, parse_u64, read_u64s, slice_of, u64s, views, words, words_of};

verus! {

/// A race: the time it lasts and the distance to beat.
#[derive(Clone, Copy, Debug, PartialEq, Eq, Structural)]
pub struct RaceInfo {
    pub time: u64,
    pub record: u64,
}

/// Holding the button for `hold` of `time` beats `record`.
pub open spec fn beats(time: nat, record: nat, hold: nat) -> bool {
    (time - hold) * hold > record
}

/// The number of hold times from one up to, not including, `upto` that beat
/// the record.
pub open spec fn wins_below(time: nat, record: nat, upto: nat) -> nat
    decreases upto,
{
    if upto <= 1 {
        0
    } else {
        wins_below(time, record, (upto - 1) as nat) + if beats(time, record, (upto - 1) as nat) {
            1nat
        } else {
            0nat
        }
    }
}

/// The number of whole hold times, longer than nothing and shorter than the
/// race, that beat the record.
pub open spec fn wins(race: RaceInfo) -> nat {
    wins_below(race.time as nat, race.record as nat, race.time as nat)
}

/// Counts the hold times that beat the record.
pub fn ways_to_win(race_info: &RaceInfo) -> (r: u64)
    ensures
        r == wins(*race_info),
{
    let time: u64 = race_info.time;
    let record: u64 = race_info.record;
    let mut count: u64 = 0;
    let mut hold: u64 = 1;
    while hold < time
        invariant
            1 <= hold,
            hold <= time || hold == 1,
            count == wins_below(time as nat, record as nat, hold as nat),
            count <= hold,
        decreases time - hold,
    {
        let rest: u128 = (time - hold) as u128;
        let h: u128 = hold as u128;
        assert(rest * h <= 0xffff_ffff_ffff_ffff * 0xffff_ffff_ffff_ffff) by (nonlinear_arith)
            requires
                rest <= 0xffff_ffff_ffff_ffff,
                h <= 0xffff_ffff_ffff_ffff,
        ;
        if rest * h > record as u128 {
            count += 1;
        }
        hold += 1;
    }
    proof {
        if time == 0 {
            assert(wins_below(0, record as nat, 1) == wins_below(0, record as nat, 0));
        }
    }
    count
}

/// What follows the first ten bytes of a line, divided into words; no words
/// when the line is shorter.
pub open spec fn columns(line: Seq<u8>) -> Seq<Seq<u8>> {
    if line.len() < 10 {
        Seq::empty()
    } else {
        words(line.skip(10))
    }
}

/// The races that two rows of numbers state: the times, each with the
/// record below it, or with no record to beat where the second row is
/// shorter.
pub open spec fn races(times: Seq<u64>, records: Seq<u64>) -> Seq<RaceInfo> {
    Seq::new(
        times.len(),
        |i: int|
            RaceInfo {
                time: times[i],
                record: if i < records.len() {
                    records[i]
                } else {
                    0
                },
            },
    )
}

/// The words of a line after its first ten bytes.
fn columns_of(line: &[u8]) -> (ws: Vec<Vec<u8>>)
    ensures
        views(ws@) == columns(line@),
{
    if line.len() < 10 {
        let ws: Vec<Vec<u8>> = Vec::new();
        assert(views(ws@) =~= Seq::<Seq<u8>>::empty());
        return ws;
    }
    let body = slice_of(line, 10, line.len());
    assert(body@ =~= line@.skip(10));
    words_of(body.as_slice())
}

/// Reads one race per column: the first line holds the times, the second
/// the records, each after a label of ten bytes. `None` when there are
/// fewer than two lines or a word is no number that fits in a `u64`.
pub fn parse_input_part_one(input: &str) -> (r: Option<Vec<RaceInfo>>)
    ensures
        r is Some <==> {
            let ls = lines(input.spec_bytes());
            ls.len() >= 2 && all_u64(columns(ls[0])) && all_u64(columns(ls[1]))
        },
        r matches Some(v) ==> {
            let ls = lines(input.spec_bytes());
            v@ == races(u64s(columns(ls[0])), u64s(columns(ls[1])))
        },
{
    let ls = lines_of(input.as_bytes());
    if ls.len() < 2 {
        return None;
    }
    assert(views(ls@)[0] == ls@[0]@ && views(ls@)[1] == ls@[1]@);
    let top = columns_of(ls[0].as_slice());
    let bottom = columns_of(ls[1].as_slice());
    let times = match read_u64s(&top) {
        Some(v) => v,
        None => {
            return None;
        },
    };
    let records = match read_u64s(&bottom) {
        Some(v) => v,
        None => {
            return None;
        },
    };
    let mut out: Vec<RaceInfo> = Vec::new();
    let mut i: usize = 0;
    while i < times.len()
        invariant
            i <= times@.len(),
            out@.len() == i,
            forall|k: int| 0 <= k < i ==> #[trigger] out@[k] == races(times@, records@)[k],
        decreases times@.len() - i,
    {
        let record: u64 = if i < records.len() {
            records[i]
        } else {
            0
        };
        out.push(RaceInfo { time: times[i], record });
        i += 1;
    }
    assert(out@ =~= races(times@, records@));
    Some(out)
}

/// The number that the words of a line spell when written without the
/// spaces between them.
pub open spec fn kerned(line: Seq<u8>) -> Option<nat> {
    number(joined(columns(line)))
}

/// Reads a single race: the words of each line, after a label of ten bytes,
/// taken as the digits of one number. `None` when there are fewer than two
/// lines or the digits spell no number that fits in a `u64`.
pub fn parse_input_part_two(input: &str) -> (r: Option<RaceInfo>)
    ensures
        r is Some <==> {
            let ls = lines(input.spec_bytes());
            &&& ls.len() >= 2
            &&& kerned(ls[0]) matches Some(t) && t <= u64::MAX
            &&& kerned(ls[1]) matches Some(d) && d <= u64::MAX
        },
        r matches Some(race) ==> {
            let ls = lines(input.spec_bytes());
            kerned(ls[0]) == Some(race.time as nat) && kerned(ls[1]) == Some(race.record as nat)
        },
{
    let ls = lines_of(input.as_bytes());
    if ls.len() < 2 {
        return None;
    }
    assert(views(ls@)[0] == ls@[0]@ && views(ls@)[1] == ls@[1]@);
    let top = join(&columns_of(ls[0].as_slice()));
    let bottom = join(&columns_of(ls[1].as_slice()));
    match (parse_u64(top.as_slice()), parse_u64(bottom.as_slice())) {
        (Some(time), Some(record)) => Some(RaceInfo { time, record }),
        _ => None,
    }
}

/// The product of the numbers of ways to win the first `n` races.
pub open spec fn wins_product(rs: Seq<RaceInfo>, n: int) -> nat
    decreases n,
{
    if n <= 0 {
        1
    } else {
        wins_product(rs, n - 1) * wins(rs[n - 1])
    }
}

/// The product of the numbers of ways to win each race. `None` when there
/// is no race or the product does not fit in a `u64`.
pub open spec fn margin(rs: Seq<RaceInfo>) -> Option<u64> {
    if rs.len() > 0 && wins_product(rs, rs.len() as int) <= u64::MAX {
        Some(wins_product(rs, rs.len() as int) as u64)
    } else {
        None
    }
}

/// Once a race cannot be won, no product of ways to win is positive.
pub proof fn lemma_product_zero(rs: Seq<RaceInfo>, i: int, n: int)
    requires
        0 <= i <= n,
        wins_product(rs, i) == 0,
    ensures
        wins_product(rs, n) == 0,
    decreases n - i,
{
    if i < n {
        lemma_product_zero(rs, i, n - 1);
        assert(0 * wins(rs[n - 1]) == 0);
    }
}

/// A product of ways to win that is positive does not shrink with more
/// races.
pub proof fn lemma_product_grows(rs: Seq<RaceInfo>, i: int, n: int)
    requires
        0 <= i <= n,
        wins_product(rs, n) > 0,
    ensures
        wins_product(rs, i) <= wins_product(rs, n),
    decreases n - i,
{
    if i < n {
        let a = wins_product(rs, n - 1);
        let b = wins(rs[n - 1]);
        assert(a > 0 && b > 0 && a <= a * b) by (nonlinear_arith)
            requires
                a * b > 0,
                a >= 0,
                b >= 0,
        ;
        lemma_product_grows(rs, i, n - 1);
    }
}

/// The product of the numbers of ways to win each of the races.
pub fn margin_of(races: &Vec<RaceInfo>) -> (r: Option<u64>)
    ensures
        r == margin(races@),
{
    if races.len() == 0 {
        return None;
    }
    let mut acc: u64 = 1;
    let mut i: usize = 0;
    while i < races.len()
        invariant
            i <= races@.len(),
            acc == wins_product(races@, i as int),
        decreases races@.len() - i,
    {
        let w: u64 = ways_to_win(&races[i]);
        match acc.checked_mul(w) {
            Some(v) => {
                acc = v;
            },
            None => {
                proof {
                    let n = races@.len() as int;
                    if wins_product(races@, n) > 0 {
                        lemma_product_grows(races@, i + 1, n);
                    } else {
                        assert(acc * w > 0) by (nonlinear_arith)
                            requires
                                acc * w > u64::MAX,
                        ;
                    }
                }
                if i + 1 == races.len() {
                    return None;
                }
                // a later race that cannot be won brings the product back to zero
                let mut k: usize = i + 1;
                while k < races.len()
                    invariant
                        i < k <= races@.len(),
                        wins_product(races@, k as int) > u64::MAX,
                    decreases races@.len() - k,
                {
                    if ways_to_win(&races[k]) == 0 {
                        proof {
                            assert(wins_product(races@, k + 1) == 0) by (nonlinear_arith)
                                requires
                                    wins_product(races@, k + 1) == wins_product(races@, k as int) * wins(races@[k as int]),
                                    wins(races@[k as int]) == 0,
                            ;
                            lemma_product_zero(races@, k + 1, races@.len() as int);
                        }
                        return Some(0);
                    }
                    proof {
                        let a = wins_product(races@, k as int);
                        let b = wins(races@[k as int]);
                        assert(a * b >= a) by (nonlinear_arith)
                            requires
                                a > 0,
                                b > 0,
                        ;
                    }
                    k += 1;
                }
                return None;
            },
        }
        i += 1;
    }
    Some(acc)
}

/// The product of the numbers of ways to win each race of the input, read
/// column by column.
pub fn part_one(input: &str) -> (r: Option<u64>)
    ensures
        r == {
            let ls = lines(input.spec_bytes());
            if ls.len() >= 2 && all_u64(columns(ls[0])) && all_u64(columns(ls[1])) {
                margin(races(u64s(columns(ls[0])), u64s(columns(ls[1]))))
            } else {
                None
            }
        },
{
    match parse_input_part_one(input) {
        Some(races) => margin_of(&races),
        None => None,
    }
}

/// The number of ways to win the one race that the input spells when the
/// spaces between its digits are ignored.
pub fn part_two(input: &str) -> (r: Option<u64>)
    ensures
        r is Some <==> {
            let ls = lines(input.spec_bytes());
            &&& ls.len() >= 2
            &&& kerned(ls[0]) matches Some(t) && t <= u64::MAX
            &&& kerned(ls[1]) matches Some(d) && d <= u64::MAX
        },
        r matches Some(w) ==> {
            let ls = lines(input.spec_bytes());
            w == wins(RaceInfo { time: kerned(ls[0]).unwrap() as u64, record: kerned(ls[1]).unwrap() as u64 })
        },
{
    match parse_input_part_two(input) {
        Some(race) => Some(ways_to_win(&race)),
        None => None,
    }
}

} // verus!
