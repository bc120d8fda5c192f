//! Reading a grid from text: one row per line, one decimal digit per cell.

use vstd::prelude::*;
use vstd::string::StringSliceAdditionalSpecFns;
use crate::day17::model::Grid;
use crate::text::{all_digits, is_digit, lines, lines_of, views};

verus! {

/// The lines form a grid of digits: at least one line, at least one digit
/// per line, the same number in each, and nothing but digits.
pub open spec fn is_digit_grid(ls: Seq<Seq<u8>>) -> bool {
    &&& ls.len() >= 1
    &&& ls[0].len() >= 1
    &&& forall|r: int| 0 <= r < ls.len() ==> (#[trigger] ls[r]).len() == ls[0].len()
    &&& forall|r: int| 0 <= r < ls.len() ==> all_digits(#[trigger] ls[r])
}

/// The values of the digits of one line.
pub open spec fn digit_row(line: Seq<u8>) -> Seq<u8> {
    Seq::new(line.len(), |c: int| (line[c] - 48) as u8)
}

/// The values of the digits of all lines.
pub open spec fn digit_rows(ls: Seq<Seq<u8>>) -> Seq<Seq<u8>> {
    Seq::new(ls.len(), |r: int| digit_row(ls[r]))
}

/// Reads a grid whose rows are the lines of `input` and whose weights are
/// the values of the digits. `None` unless the lines form a grid of digits.
pub fn parse_input(input: &str) -> (r: Option<Grid>)
    ensures
        r is Some <==> is_digit_grid(lines(input.spec_bytes())),
        r matches Some(g) ==> g.wf() && g@ == digit_rows(lines(input.spec_bytes())),
{
    let ls = lines_of(input.as_bytes());
    let ghost want = lines(input.spec_bytes());
    let mut cells: Vec<Vec<u8>> = Vec::new();
    let mut r: usize = 0;
    while r < ls.len()
        invariant
            r <= ls@.len(),
            views(ls@) == want,
            want == lines(input.spec_bytes()),
            cells@.len() == r,
            forall|k: int| 0 <= k < r ==> all_digits(#[trigger] want[k]),
            forall|k: int| 0 <= k < r ==> (#[trigger] cells@[k])@ == digit_row(want[k]),
        decreases ls@.len() - r,
    {
        let line = &ls[r];
        assert(line@ == want[r as int]);
        let mut row: Vec<u8> = Vec::new();
        let mut c: usize = 0;
        while c < line.len()
            invariant
                c <= line@.len(),
                r < want.len(),
                want == lines(input.spec_bytes()),
                line@ == want[r as int],
                row@.len() == c,
                forall|k: int| 0 <= k < c ==> 48 <= #[trigger] line@[k] <= 57,
                forall|k: int| 0 <= k < c ==> #[trigger] row@[k] == (line@[k] - 48) as u8,
            decreases line@.len() - c,
        {
            let b: u8 = line[c];
            if b < 48 || b > 57 {
                assert(!is_digit(want[r as int][c as int]));
                return None;
            }
            row.push(b - 48);
            c += 1;
        }
        assert(row@ =~= digit_row(want[r as int]));
        cells.push(row);
        r += 1;
    }
    proof {
        assert forall|k: int| 0 <= k < cells@.len() implies (#[trigger] cells@[k])@.len() == want[k].len() by {
        }
    }
    match Grid::new(cells) {
        Some(g) => {
            assert(g@ =~= digit_rows(want));
            assert(is_digit_grid(want)) by {
                assert forall|k: int| 0 <= k < want.len() implies (#[trigger] want[k]).len() == want[0].len() by {
                    assert(cells@[k]@.len() == want[k].len());
                }
            }
            Some(g)
        },
        None => {
            assert(!is_digit_grid(want)) by {
                if is_digit_grid(want) {
                    assert forall|k: int| 0 <= k < cells@.len() implies (#[trigger] cells@[k])@.len()
                        == cells@[0]@.len() by {
                        assert(want[k].len() == want[0].len());
                    }
                }
            }
            None
        },
    }
}

} // verus!
