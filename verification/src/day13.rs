//! Patterns of ash and rock and the lines along which they mirror
//! themselves.

use vstd::prelude::*;
use vstd::string::StringSliceAdditionalSpecFns;
use crate::day17::table::lemma_radix_bound;
use crate::fold::{as_u32, lemma_total_grows, lemma_total_none, lemma_total_step, total};
use crate::text::{block_end, lemma_block_end, lines, lines_of, views};

verus! {

/// A rectangular pattern, stored row by row. `column_len` is the number of
/// cells in one row.
#[derive(Clone)]
pub struct Pattern {
    pub data: Vec<bool>,
    pub column_len: usize,
}

/// A rectangular sheet of cells, row by row, with the number of cells in
/// one row.
pub ghost struct Sheet {
    pub cells: Seq<bool>,
    pub width: int,
}

impl Sheet {
    /// Number of rows.
    pub open spec fn height(&self) -> int {
        self.cells.len() as int / self.width
    }

    /// The rows are not empty and fill the data exactly.
    pub open spec fn wf(&self) -> bool {
        self.width > 0 && self.cells.len() == self.height() * self.width
    }

    /// The cell in row `r` and column `c`.
    pub open spec fn cell(&self, r: int, c: int) -> bool {
        self.cells[r * self.width + c]
    }

    /// The number of lines across the direction of the mirror: columns for
    /// an upright mirror, rows for a level one.
    pub open spec fn span(&self, upright: bool) -> int {
        if upright {
            self.width
        } else {
            self.height()
        }
    }

    /// The number of cells in one line across the mirror.
    pub open spec fn depth(&self, upright: bool) -> int {
        if upright {
            self.height()
        } else {
            self.width
        }
    }

    /// Cell `k` of line `a`: of column `a` for an upright mirror, of row `a`
    /// for a level one.
    pub open spec fn at(&self, upright: bool, a: int, k: int) -> bool {
        if upright {
            self.cell(k, a)
        } else {
            self.cell(a, k)
        }
    }

    /// Lines `a` and `b` hold the same cells.
    pub open spec fn same_line(&self, upright: bool, a: int, b: int) -> bool {
        forall|k: int| 0 <= k < self.depth(upright) ==> #[trigger] self.at(upright, a, k) == self.at(upright, b, k)
    }

    /// The pattern mirrors itself along the line in front of line `i`:
    /// every line before it equals the line as far behind it, as far as the
    /// pattern reaches on both sides.
    pub open spec fn mirrors(&self, upright: bool, i: int) -> bool {
        forall|d: int|
            0 <= d && 0 <= i - 1 - d && i + d < self.span(upright) ==> #[trigger] self.same_line(
                upright,
                i - 1 - d,
                i + d,
            )
    }

    /// The least mirror line from `from` on that is not `skip`.
    pub open spec fn least_mirror(&self, upright: bool, skip: Option<usize>, from: int) -> Option<usize>
        decreases self.span(upright) - from,
    {
        if from >= self.span(upright) || from < 1 {
            None
        } else if self.mirrors(upright, from) && skip != Some(from as usize) {
            Some(from as usize)
        } else {
            self.least_mirror(upright, skip, from + 1)
        }
    }

    /// The cells lie within the data.
    pub proof fn lemma_cell_index(&self, r: int, c: int)
        requires
            self.wf(),
            0 <= r < self.height(),
            0 <= c < self.width,
        ensures
            0 <= r * self.width + c < self.cells.len(),
            r * self.width >= 0,
    {
        lemma_radix_bound(r, c, self.height(), self.width);
    }
}

impl Pattern {
    /// The pattern as a sheet of cells.
    pub open spec fn view(&self) -> Sheet {
        Sheet { cells: self.data@, width: self.column_len as int }
    }

    /// Number of rows.
    pub fn rows(&self) -> (n: usize)
        requires
            self.column_len > 0,
        ensures
            n == self@.height(),
    {
        self.data.len() / self.column_len
    }

    /// The cell in row `r` and column `c`.
    pub fn get(&self, r: usize, c: usize) -> (b: bool)
        requires
            self@.wf(),
            r < self@.height(),
            c < self@.width,
        ensures
            b == self@.cell(r as int, c as int),
    {
        let n: usize = self.data.len();
        proof {
            self@.lemma_cell_index(r as int, c as int);
        }
        self.data[r * self.column_len + c]
    }

    /// The cells of row `index`.
    pub fn row(&self, index: usize) -> (cells: Vec<bool>)
        requires
            self@.wf(),
            index < self@.height(),
        ensures
            cells@.len() == self@.width,
            forall|c: int| 0 <= c < self@.width ==> #[trigger] cells@[c] == self@.cell(index as int, c),
    {
        let mut cells: Vec<bool> = Vec::new();
        let mut c: usize = 0;
        while c < self.column_len
            invariant
                c <= self.column_len,
                self@.wf(),
                index < self@.height(),
                cells@.len() == c,
                forall|k: int| 0 <= k < c ==> #[trigger] cells@[k] == self@.cell(index as int, k),
            decreases self.column_len - c,
        {
            cells.push(self.get(index, c));
            c += 1;
        }
        cells
    }

    /// The cells of column `index`.
    pub fn col(&self, index: usize) -> (cells: Vec<bool>)
        requires
            self@.wf(),
            index < self@.width,
        ensures
            cells@.len() == self@.height(),
            forall|r: int| 0 <= r < self@.height() ==> #[trigger] cells@[r] == self@.cell(r, index as int),
    {
        let n: usize = self.rows();
        let mut cells: Vec<bool> = Vec::new();
        let mut r: usize = 0;
        while r < n
            invariant
                r <= n,
                n == self@.height(),
                self@.wf(),
                index < self@.width,
                cells@.len() == r,
                forall|k: int| 0 <= k < r ==> #[trigger] cells@[k] == self@.cell(k, index as int),
            decreases n - r,
        {
            cells.push(self.get(r, index));
            r += 1;
        }
        cells
    }

    /// Lines `a` and `b` hold the same cells.
    fn lines_equal(&self, upright: bool, a: usize, b: usize) -> (r: bool)
        requires
            self@.wf(),
            a < self@.span(upright),
            b < self@.span(upright),
        ensures
            r == self@.same_line(upright, a as int, b as int),
    {
        let n: usize = if upright {
            self.rows()
        } else {
            self.column_len
        };
        let mut k: usize = 0;
        while k < n
            invariant
                k <= n,
                n == self@.depth(upright),
                self@.wf(),
                a < self@.span(upright),
                b < self@.span(upright),
                forall|j: int| 0 <= j < k ==> #[trigger] self@.at(upright, a as int, j) == self@.at(upright, b as int, j),
            decreases n - k,
        {
            let (x, y): (bool, bool) = if upright {
                (self.get(k, a), self.get(k, b))
            } else {
                (self.get(a, k), self.get(b, k))
            };
            if x != y {
                assert(self@.at(upright, a as int, k as int) != self@.at(upright, b as int, k as int));
                return false;
            }
            k += 1;
        }
        true
    }

    /// The pattern mirrors itself along the line in front of line `i`.
    pub fn is_mirror(&self, upright: bool, i: usize) -> (r: bool)
        requires
            self@.wf(),
            1 <= i < self@.span(upright),
        ensures
            r == self@.mirrors(upright, i as int),
    {
        let n: usize = if upright {
            self.column_len
        } else {
            self.rows()
        };
        let mut d: usize = 0;
        while d < i && d < n - i
            invariant
                d <= i,
                d <= n - i,
                n == self@.span(upright),
                1 <= i < n,
                self@.wf(),
                forall|e: int| 0 <= e < d ==> #[trigger] self@.same_line(upright, i - 1 - e, i + e),
            decreases i - d,
        {
            if !self.lines_equal(upright, i - 1 - d, i + d) {
                return false;
            }
            d += 1;
        }
        true
    }

    /// The least mirror line from `from` on that is not `skip`.
    pub fn find_mirror(&self, upright: bool, skip: Option<usize>, from: usize) -> (r: Option<usize>)
        requires
            self@.wf(),
            1 <= from,
        ensures
            r == self@.least_mirror(upright, skip, from as int),
            r matches Some(i) ==> from <= i < self@.span(upright) && self@.mirrors(upright, i as int),
    {
        let n: usize = if upright {
            self.column_len
        } else {
            self.rows()
        };
        let mut i: usize = from;
        while i < n
            invariant
                1 <= from <= i,
                n == self@.span(upright),
                self@.wf(),
                self@.least_mirror(upright, skip, from as int) == self@.least_mirror(upright, skip, i as int),
            decreases n - i,
        {
            if self.is_mirror(upright, i) {
                let skipped: bool = match skip {
                    Some(s) => s == i,
                    None => false,
                };
                if !skipped {
                    return Some(i);
                }
            }
            i += 1;
        }
        None
    }

    /// All mirror lines, in rising order.
    pub fn all_mirrors(&self, upright: bool) -> (r: Vec<usize>)
        requires
            self@.wf(),
        ensures
            forall|k: int| 0 <= k < r@.len() ==> 1 <= #[trigger] r@[k] < self@.span(upright) && self@.mirrors(
                upright,
                r@[k] as int,
            ),
            forall|j: int, k: int| 0 <= j < k < r@.len() ==> r@[j] < r@[k],
            forall|i: int| 1 <= i < self@.span(upright) && self@.mirrors(upright, i) ==> r@.contains(i as usize),
    {
        let n: usize = if upright {
            self.column_len
        } else {
            self.rows()
        };
        let mut out: Vec<usize> = Vec::new();
        let mut i: usize = 1;
        while i < n
            invariant
                1 <= i,
                n == self@.span(upright),
                self@.wf(),
                forall|k: int| 0 <= k < out@.len() ==> 1 <= #[trigger] out@[k] < i && out@[k] < n && self@.mirrors(
                    upright,
                    out@[k] as int,
                ),
                forall|j: int, k: int| 0 <= j < k < out@.len() ==> out@[j] < out@[k],
                forall|m: int| 1 <= m < i && self@.mirrors(upright, m) ==> out@.contains(m as usize),
            decreases n - i,
        {
            if self.is_mirror(upright, i) {
                let ghost before = out@;
                out.push(i);
                proof {
                    assert forall|m: int| 1 <= m < i + 1 && self@.mirrors(upright, m) implies out@.contains(
                        m as usize,
                    ) by {
                        if m < i {
                            let k = choose|k: int| 0 <= k < before.len() && before[k] == m as usize;
                            assert(out@[k] == m as usize);
                        } else {
                            assert(out@[before.len() as int] == i);
                        }
                    }
                }
            }
            i += 1;
        }
        out
    }
}

/// The columns in front of which the pattern mirrors itself left to right,
/// in rising order.
pub fn cols_left_of_reflection(pattern: &Pattern) -> (r: Vec<usize>)
    requires
        pattern@.wf(),
    ensures
        forall|k: int| 0 <= k < r@.len() ==> 1 <= #[trigger] r@[k] < pattern@.width && pattern@.mirrors(
            true,
            r@[k] as int,
        ),
        forall|j: int, k: int| 0 <= j < k < r@.len() ==> r@[j] < r@[k],
        forall|i: int| 1 <= i < pattern@.width && pattern@.mirrors(true, i) ==> r@.contains(i as usize),
{
    pattern.all_mirrors(true)
}

/// The rows above which the pattern mirrors itself top to bottom, in rising
/// order.
pub fn rows_above_reflection(pattern: &Pattern) -> (r: Vec<usize>)
    requires
        pattern@.wf(),
    ensures
        forall|k: int| 0 <= k < r@.len() ==> 1 <= #[trigger] r@[k] < pattern@.height() && pattern@.mirrors(
            false,
            r@[k] as int,
        ),
        forall|j: int, k: int| 0 <= j < k < r@.len() ==> r@[j] < r@[k],
        forall|i: int| 1 <= i < pattern@.height() && pattern@.mirrors(false, i) ==> r@.contains(i as usize),
{
    pattern.all_mirrors(false)
}

} // verus!

verus! {

impl Sheet {
    /// The sheet with cell number `i` turned over.
    pub open spec fn smudged(&self, i: int) -> Sheet {
        Sheet { cells: self.cells.update(i, !self.cells[i]), width: self.width }
    }

    /// The first mirror line.
    pub open spec fn first_mirror(&self, upright: bool) -> Option<usize> {
        self.least_mirror(upright, None, 1)
    }

    /// The first mirror line that the sheet has once cell number `i` is
    /// turned over, other than the first mirror line it has as it is.
    pub open spec fn other_mirror(&self, upright: bool, i: int) -> Option<usize> {
        self.smudged(i).least_mirror(upright, self.first_mirror(upright), 1)
    }

    /// The other mirror line for the first cell from `i` on whose turning
    /// over gives one.
    pub open spec fn alt_mirror(&self, upright: bool, i: int) -> Option<usize>
        decreases self.cells.len() - i,
    {
        if i >= self.cells.len() || i < 0 {
            None
        } else {
            match self.other_mirror(upright, i) {
                Some(m) => Some(m),
                None => self.alt_mirror(upright, i + 1),
            }
        }
    }

    /// What the sheet adds to a summary: the number of columns left of its
    /// first upright mirror line, or else a hundred times the number of rows
    /// above its first level one. `None` when it has neither.
    pub open spec fn summary(&self) -> Option<nat> {
        match self.first_mirror(true) {
            Some(c) => Some(c as nat),
            None => match self.first_mirror(false) {
                Some(r) => Some(100 * r as nat),
                None => None,
            },
        }
    }

    /// The same for the mirror lines that appear once one cell is turned
    /// over.
    pub open spec fn alt_summary(&self) -> Option<nat> {
        match self.alt_mirror(true, 0) {
            Some(c) => Some(c as nat),
            None => match self.alt_mirror(false, 0) {
                Some(r) => Some(100 * r as nat),
                None => None,
            },
        }
    }
}

/// The pattern with cell number `i` turned over.
fn smudge(pattern: &Pattern, i: usize) -> (out: Pattern)
    requires
        i < pattern.data@.len(),
    ensures
        out@ == pattern@.smudged(i as int),
{
    let mut data: Vec<bool> = Vec::new();
    let mut k: usize = 0;
    while k < pattern.data.len()
        invariant
            k <= pattern.data@.len(),
            i < pattern.data@.len(),
            data@.len() == k,
            forall|j: int| 0 <= j < k ==> #[trigger] data@[j] == pattern@.smudged(i as int).cells[j],
        decreases pattern.data@.len() - k,
    {
        data.push(
            if k == i {
                !pattern.data[k]
            } else {
                pattern.data[k]
            },
        );
        k += 1;
    }
    assert(data@ =~= pattern@.smudged(i as int).cells);
    Pattern { data, column_len: pattern.column_len }
}

/// The mirror line that appears when one cell is turned over: for the
/// first cell, in reading order, that gives a mirror line other than the
/// first one the pattern has as it is, the least such line.
pub fn alt_mirror_of(pattern: &Pattern, upright: bool) -> (r: Option<usize>)
    requires
        pattern@.wf(),
    ensures
        r == pattern@.alt_mirror(upright, 0),
{
    let unchanged = pattern.find_mirror(upright, None, 1);
    let mut i: usize = 0;
    while i < pattern.data.len()
        invariant
            i <= pattern.data@.len(),
            pattern@.wf(),
            unchanged == pattern@.first_mirror(upright),
            pattern@.alt_mirror(upright, 0) == pattern@.alt_mirror(upright, i as int),
        decreases pattern.data@.len() - i,
    {
        let changed = smudge(pattern, i);
        assert(changed@.height() == pattern@.height());
        match changed.find_mirror(upright, unchanged, 1) {
            Some(m) => {
                return Some(m);
            },
            None => {},
        }
        i += 1;
    }
    None
}

/// The upright mirror line that appears when one cell is turned over.
pub fn alt_cols_left_of_reflection(pattern: &Pattern) -> (r: Option<usize>)
    requires
        pattern@.wf(),
    ensures
        r == pattern@.alt_mirror(true, 0),
{
    alt_mirror_of(pattern, true)
}

/// The level mirror line that appears when one cell is turned over.
pub fn alt_rows_above_reflection(pattern: &Pattern) -> (r: Option<usize>)
    requires
        pattern@.wf(),
    ensures
        r == pattern@.alt_mirror(false, 0),
{
    alt_mirror_of(pattern, false)
}

/// What each pattern adds to the summary.
pub open spec fn summaries(patterns: Seq<Pattern>) -> Seq<Option<nat>> {
    Seq::new(patterns.len(), |i: int| patterns[i]@.summary())
}

/// What each pattern adds to the summary once one cell is turned over.
pub open spec fn alt_summaries(patterns: Seq<Pattern>) -> Seq<Option<nat>> {
    Seq::new(patterns.len(), |i: int| patterns[i]@.alt_summary())
}

/// Every pattern is well formed.
pub open spec fn all_wf(patterns: Seq<Pattern>) -> bool {
    forall|i: int| 0 <= i < patterns.len() ==> (#[trigger] patterns[i])@.wf()
}

/// A column count, or a hundred times a row count, as a summary value.
fn weigh(cols: Option<usize>, rows: Option<usize>) -> (r: Option<u128>)
    ensures
        r == match cols {
            Some(c) => Some(c as u128),
            None => match rows {
                Some(r) => Some((100 * r) as u128),
                None => None,
            },
        },
{
    match cols {
        Some(c) => Some(c as u128),
        None => match rows {
            Some(r) => Some(100 * (r as u128)),
            None => None,
        },
    }
}

/// Adds up the summary values of all patterns.
fn sum_up(patterns: &Vec<Pattern>, alt: bool) -> (r: Option<u32>)
    requires
        all_wf(patterns@),
    ensures
        r == as_u32(
            total(
                if alt {
                    alt_summaries(patterns@)
                } else {
                    summaries(patterns@)
                },
            ),
        ),
{
    let ghost vals = if alt {
        alt_summaries(patterns@)
    } else {
        summaries(patterns@)
    };
    let mut acc: u32 = 0;
    let mut i: usize = 0;
    assert(vals.take(0) =~= Seq::<Option<nat>>::empty());
    while i < patterns.len()
        invariant
            i <= patterns@.len(),
            all_wf(patterns@),
            vals == if alt {
                alt_summaries(patterns@)
            } else {
                summaries(patterns@)
            },
            total(vals.take(i as int)) == Some(acc as nat),
        decreases patterns@.len() - i,
    {
        proof {
            lemma_total_step(vals, i as int);
        }
        let p = &patterns[i];
        assert(p@.wf());
        let value: Option<u128> = if alt {
            let cols = alt_cols_left_of_reflection(p);
            let rows = if cols.is_none() {
                alt_rows_above_reflection(p)
            } else {
                None
            };
            weigh(cols, rows)
        } else {
            let cols = p.find_mirror(true, None, 1);
            let rows = if cols.is_none() {
                p.find_mirror(false, None, 1)
            } else {
                None
            };
            weigh(cols, rows)
        };
        assert(value is Some <==> vals[i as int] is Some);
        assert(value matches Some(v) ==> vals[i as int] == Some(v as nat));
        let next: Option<u32> = match value {
            Some(v) => if v <= (0xffff_ffff - acc) as u128 {
                Some(acc + v as u32)
            } else {
                None
            },
            None => None,
        };
        match next {
            Some(v) => {
                acc = v;
            },
            None => {
                proof {
                    if value is None {
                        lemma_total_none(vals, i + 1);
                    } else {
                        lemma_total_grows(vals, i + 1);
                    }
                }
                return None;
            },
        }
        i += 1;
    }
    assert(vals.take(i as int) =~= vals);
    Some(acc)
}

/// The summary of all patterns: for each, the number of columns left of
/// its first upright mirror line, or else a hundred times the number of
/// rows above its first level one. `None` when a pattern has no mirror line
/// or the sum does not fit in a `u32`.
pub fn part_one(patterns: &Vec<Pattern>) -> (r: Option<u32>)
    requires
        all_wf(patterns@),
    ensures
        r == as_u32(total(summaries(patterns@))),
{
    sum_up(patterns, false)
}

/// The summary of all patterns for the mirror lines that appear once one
/// cell of each is turned over.
pub fn part_two(patterns: &Vec<Pattern>) -> (r: Option<u32>)
    requires
        all_wf(patterns@),
    ensures
        r == as_u32(total(alt_summaries(patterns@))),
{
    sum_up(patterns, true)
}

} // verus!

verus! {

/// The cells that a line of text states: rock for `#`, ash for any other
/// byte.
pub open spec fn marks(line: Seq<u8>) -> Seq<bool> {
    Seq::new(line.len(), |c: int| line[c] == 35u8)
}

/// The cells of the lines from `s` up to `r`, row by row.
pub open spec fn cells_upto(ls: Seq<Seq<u8>>, s: int, r: int) -> Seq<bool>
    decreases r - s,
{
    if r <= s {
        Seq::empty()
    } else {
        cells_upto(ls, s, r - 1) + marks(ls[r - 1])
    }
}

/// Where the pattern that begins at line `s` ends: at the first empty line
/// behind `s`, or at the end of the text.
pub open spec fn pattern_end(ls: Seq<Seq<u8>>, s: int) -> int {
    block_end(ls, s + 1)
}

/// Where the pattern behind the one at `s` begins: behind the empty line
/// that ends it, or at the end of the text.
pub open spec fn pattern_next(ls: Seq<Seq<u8>>, s: int) -> int {
    if pattern_end(ls, s) < ls.len() {
        pattern_end(ls, s) + 1
    } else {
        ls.len() as int
    }
}

/// The lines of the pattern that begins at `s` are not empty and equally
/// long.
pub open spec fn block_ok(ls: Seq<Seq<u8>>, s: int) -> bool {
    &&& ls[s].len() > 0
    &&& forall|r: int| s <= r < pattern_end(ls, s) ==> (#[trigger] ls[r]).len() == ls[s].len()
}

/// The sheet of the pattern that begins at line `s`.
pub open spec fn sheet_at(ls: Seq<Seq<u8>>, s: int) -> Sheet {
    Sheet { cells: cells_upto(ls, s, pattern_end(ls, s)), width: ls[s].len() as int }
}

/// The lines from `s` on form patterns, each ended by an empty line or the
/// end of the text.
pub open spec fn patterns_ok(ls: Seq<Seq<u8>>, s: int) -> bool
    decreases ls.len() - s,
{
    if s >= ls.len() || s < 0 {
        true
    } else if pattern_end(ls, s) <= s {
        false
    } else {
        block_ok(ls, s) && patterns_ok(ls, pattern_next(ls, s))
    }
}

/// The sheets of the patterns from line `s` on.
pub open spec fn sheets(ls: Seq<Seq<u8>>, s: int) -> Seq<Sheet>
    decreases ls.len() - s,
{
    if s >= ls.len() || s < 0 || pattern_end(ls, s) <= s {
        Seq::empty()
    } else {
        seq![sheet_at(ls, s)] + sheets(ls, pattern_next(ls, s))
    }
}

/// The sheets of the patterns of a vector.
pub open spec fn sheets_of(patterns: Seq<Pattern>) -> Seq<Sheet> {
    Seq::new(patterns.len(), |i: int| patterns[i]@)
}

/// Equally long lines give a number of cells that is the number of lines
/// times their length.
pub proof fn lemma_cells_len(ls: Seq<Seq<u8>>, s: int, r: int, w: int)
    requires
        0 <= s <= r <= ls.len(),
        forall|k: int| s <= k < r ==> (#[trigger] ls[k]).len() == w,
    ensures
        cells_upto(ls, s, r).len() == (r - s) * w,
    decreases r - s,
{
    if r > s {
        lemma_cells_len(ls, s, r - 1, w);
        assert((r - s) * w == (r - 1 - s) * w + w) by (nonlinear_arith);
    } else {
        assert((r - s) * w == 0) by (nonlinear_arith)
            requires
                r == s,
        ;
    }
}

/// Reads the patterns of a text: each pattern is a run of lines up to the
/// next empty line, a `#` standing for rock. `None` when the lines of a
/// pattern are empty or differ in length.
pub fn parse_input(input: &str) -> (r: Option<Vec<Pattern>>)
    ensures
        r is Some <==> patterns_ok(lines(input.spec_bytes()), 0),
        r matches Some(patterns) ==> sheets_of(patterns@) == sheets(lines(input.spec_bytes()), 0) && all_wf(
            patterns@,
        ),
{
    let all = lines_of(input.as_bytes());
    let ghost ls = lines(input.spec_bytes());
    let n: usize = all.len();
    let mut patterns: Vec<Pattern> = Vec::new();
    let mut s: usize = 0;
    assert(sheets_of(patterns@) =~= Seq::<Sheet>::empty());
    while s < n
        invariant
            n == all@.len(),
            ls == views(all@),
            ls == lines(input.spec_bytes()),
            patterns_ok(ls, 0) == patterns_ok(ls, s as int),
            sheets_of(patterns@) + sheets(ls, s as int) == sheets(ls, 0),
            all_wf(patterns@),
        decreases n - s,
    {
        let width: usize = all[s].len();
        assert(ls[s as int] == all@[s as int]@);
        proof {
            lemma_block_end(ls, s + 1, s + 1);
        }
        if width == 0 {
            return None;
        }
        let mut data: Vec<bool> = Vec::new();
        let mut r: usize = s;
        while r < n && all[r].len() > 0
            invariant
                s <= r <= n,
                s < n,
                n == all@.len(),
                ls == views(all@),
                ls == lines(input.spec_bytes()),
                width == ls[s as int].len(),
                width > 0,
                patterns_ok(ls, 0) == patterns_ok(ls, s as int),
                s < pattern_end(ls, s as int),
                forall|k: int| s <= k < r ==> (#[trigger] ls[k]).len() == width,
                data@ == cells_upto(ls, s as int, r as int),
            decreases n - r,
        {
            let line = &all[r];
            assert(ls[r as int] == line@);
            if line.len() != width {
                proof {
                    lemma_block_end(ls, s + 1, r as int);
                    lemma_block_end(ls, r + 1, r + 1);
                    if r > s {
                        assert(block_end(ls, r as int) == block_end(ls, r + 1));
                    }
                    assert(pattern_end(ls, s as int) > r);
                }
                return None;
            }
            let ghost before = data@;
            let mut c: usize = 0;
            while c < width
                invariant
                    c <= width,
                    width == line@.len(),
                    data@ == before + marks(line@).take(c as int),
                decreases width - c,
            {
                data.push(line[c] == 35);
                assert(before + marks(line@).take(c + 1) =~= (before + marks(line@).take(c as int)).push(
                    line@[c as int] == 35u8,
                ));
                c += 1;
            }
            assert(marks(line@).take(c as int) =~= marks(line@));
            r += 1;
        }
        let pattern = Pattern { data, column_len: width };
        proof {
            if r < n {
                assert(ls[r as int] == all@[r as int]@);
            }
            assert(r > s);
            lemma_block_end(ls, s + 1, r as int);
            assert(pattern_end(ls, s as int) == r);
            lemma_cells_len(ls, s as int, r as int, width as int);
            vstd::arithmetic::div_mod::lemma_div_by_multiple(r - s, width as int);
            assert(pattern@ == sheet_at(ls, s as int));
            assert(pattern@.wf());
            let old_sheets = sheets_of(patterns@);
            assert(sheets_of(patterns@.push(pattern)) =~= old_sheets.push(pattern@));
            let next = pattern_next(ls, s as int);
            assert(old_sheets.push(pattern@) + sheets(ls, next) =~= old_sheets + (seq![sheet_at(ls, s as int)]
                + sheets(ls, next)));
            assert(block_ok(ls, s as int));
        }
        patterns.push(pattern);
        s = if r < n {
            r + 1
        } else {
            r
        };
    }
    proof {
        assert(sheets(ls, s as int) =~= Seq::<Sheet>::empty());
        assert(sheets_of(patterns@) + Seq::<Sheet>::empty() =~= sheets_of(patterns@));
    }
    Some(patterns)
}

} // verus!
