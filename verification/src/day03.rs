//! An engine schematic: numbers next to symbols, and gears between two
//! numbers.

use std::collections::HashMap;
use vstd::prelude::*;
use crate::text::{digits_value, is_digit};

verus! {

broadcast use vstd::std_specs::hash::group_hash_axioms;

/// A rectangle of bytes, row by row.
pub struct Grid {
    pub cells: Vec<Vec<u8>>,
}

/// A cell by its row and column.
pub type Cell = (int, int);

impl Grid {
    /// Number of rows.
    pub open spec fn height(&self) -> int {
        self.cells@.len() as int
    }

    /// Number of columns.
    pub open spec fn width(&self) -> int {
        if self.cells@.len() == 0 {
            0
        } else {
            self.cells@[0]@.len() as int
        }
    }

    /// All rows are equally long.
    pub open spec fn wf(&self) -> bool {
        forall|r: int| 0 <= r < self.height() ==> (#[trigger] self.cells@[r])@.len() == self.width()
    }

    /// The byte in row `r` and column `c`.
    pub open spec fn at(&self, r: int, c: int) -> u8 {
        self.cells@[r]@[c]
    }

    /// The bytes of row `r`.
    pub open spec fn line(&self, r: int) -> Seq<u8> {
        self.cells@[r]@
    }
}

/// The cells of row `r` from column `lo` up to, not including, `hi`.
pub open spec fn stretch(r: int, lo: int, hi: int) -> Seq<Cell> {
    Seq::new(
        if hi >= lo {
            (hi - lo) as nat
        } else {
            0
        },
        |k: int| (r, lo + k),
    )
}

/// The cells looked at around the columns from `start` up to `end` of row
/// `r`, in the order they are looked at: the row above from one column
/// before to one behind, the row below likewise, the cell before, and the
/// cell behind unless that is the last of its row.
pub open spec fn around(height: int, width: int, r: int, start: int, end: int) -> Seq<Cell> {
    let lo = if start > 0 {
        start - 1
    } else {
        0
    };
    let hi = if end + 1 < width {
        end + 1
    } else {
        width
    };
    (if r > 0 {
        stretch(r - 1, lo, hi)
    } else {
        Seq::empty()
    }) + (if r < height - 1 {
        stretch(r + 1, lo, hi)
    } else {
        Seq::empty()
    }) + (if start > 0 {
        seq![(r, lo)]
    } else {
        Seq::empty()
    }) + (if end < width - 1 {
        seq![(r, end)]
    } else {
        Seq::empty()
    })
}

/// The number that stands for a cell in the table of gears.
pub open spec fn gear_id(cell: Cell) -> u128 {
    (cell.0 * 0x1_0000_0000_0000_0000 + cell.1) as u128
}

/// One of the first `n` cells holds something other than a dot.
pub open spec fn touches(grid: &Grid, cells: Seq<Cell>, n: int) -> bool {
    exists|k: int| 0 <= k < n && grid.at((#[trigger] cells[k]).0, cells[k].1) != 46u8
}

/// The gears among the first `n` cells, in order: the cells that hold a
/// star.
pub open spec fn stars(grid: &Grid, cells: Seq<Cell>, n: int) -> Seq<u128>
    decreases n,
{
    if n <= 0 {
        Seq::empty()
    } else if grid.at(cells[n - 1].0, cells[n - 1].1) == 42u8 {
        stars(grid, cells, n - 1).push(gear_id(cells[n - 1]))
    } else {
        stars(grid, cells, n - 1)
    }
}

/// Looks at the cells `(r, lo)` to `(r, hi - 1)`, which come next in
/// `cells` from place `from` on.
fn look_along(
    grid: &Grid,
    r: usize,
    lo: usize,
    hi: usize,
    adjacent: &mut bool,
    gears: &mut Vec<u128>,
    Ghost(cells): Ghost<Seq<Cell>>,
    Ghost(from): Ghost<int>,
)
    requires
        grid.wf(),
        r < grid.height(),
        lo <= hi <= grid.width(),
        0 <= from,
        from + (hi - lo) <= cells.len(),
        forall|k: int| 0 <= k < hi - lo ==> #[trigger] cells[from + k] == (r as int, lo + k),
        *old(adjacent) == touches(grid, cells, from),
        old(gears)@ == stars(grid, cells, from),
    ensures
        *final(adjacent) == touches(grid, cells, from + (hi - lo)),
        final(gears)@ == stars(grid, cells, from + (hi - lo)),
{
    assert(grid.cells@[r as int]@.len() == grid.width());
    let row = &grid.cells[r];
    let mut c: usize = lo;
    while c < hi
        invariant
            lo <= c <= hi <= grid.width(),
            row@ == grid.cells@[r as int]@,
            row@.len() == grid.width(),
            0 <= from,
            from + (hi - lo) <= cells.len(),
            forall|k: int| 0 <= k < hi - lo ==> #[trigger] cells[from + k] == (r as int, lo + k),
            *adjacent == touches(grid, cells, from + (c - lo)),
            gears@ == stars(grid, cells, from + (c - lo)),
        decreases hi - c,
    {
        let b: u8 = row[c];
        proof {
            assert(cells[from + (c - lo)] == (r as int, c as int));
            assert(grid.at(r as int, c as int) == b);
            if touches(grid, cells, from + (c - lo) + 1) && !touches(grid, cells, from + (c - lo)) {
                let k = choose|k: int|
                    0 <= k < from + (c - lo) + 1 && grid.at((#[trigger] cells[k]).0, cells[k].1) != 46u8;
                assert(k == from + (c - lo));
            }
        }
        if b != 46 {
            *adjacent = true;
        }
        if b == 42 {
            gears.push((r as u128) * 0x1_0000_0000_0000_0000 + c as u128);
        }
        c += 1;
    }
}

/// Looks at the cells around the columns `col_start` up to `col_end` of
/// row `row_index`. Returns whether one of them holds something other than
/// a dot, and the gears among them in the order they were met.
#[verifier::rlimit(60)]
pub fn is_range_adjacent(grid: &Grid, row_index: usize, col_start: usize, col_end: usize) -> (r: (bool, Vec<u128>))
    requires
        grid.wf(),
        row_index < grid.height(),
        col_start < col_end <= grid.width(),
    ensures
        ({
            let cells = around(grid.height(), grid.width(), row_index as int, col_start as int, col_end as int);
            r.0 == touches(grid, cells, cells.len() as int) && r.1@ == stars(grid, cells, cells.len() as int)
        }),
{
    let height: usize = grid.cells.len();
    let width: usize = grid.cells[0].len();
    let lo: usize = if col_start > 0 {
        col_start - 1
    } else {
        0
    };
    let hi: usize = if col_end < width {
        col_end + 1
    } else {
        width
    };
    let ghost cells = around(height as int, width as int, row_index as int, col_start as int, col_end as int);
    let ghost above = if row_index > 0 {
        stretch(row_index - 1, lo as int, hi as int)
    } else {
        Seq::<Cell>::empty()
    };
    let ghost below = if row_index < height - 1 {
        stretch(row_index + 1, lo as int, hi as int)
    } else {
        Seq::<Cell>::empty()
    };
    let ghost left = if col_start > 0 {
        seq![(row_index as int, lo as int)]
    } else {
        Seq::<Cell>::empty()
    };
    let ghost right = if col_end < width - 1 {
        seq![(row_index as int, col_end as int)]
    } else {
        Seq::<Cell>::empty()
    };
    assert(cells =~= above + below + left + right);
    let mut adjacent: bool = false;
    let mut gears: Vec<u128> = Vec::new();
    let ghost mut from: int = 0;
    if row_index > 0 {
        look_along(grid, row_index - 1, lo, hi, &mut adjacent, &mut gears, Ghost(cells), Ghost(from));
    }
    proof {
        from = from + above.len();
    }
    if row_index < height - 1 {
        look_along(grid, row_index + 1, lo, hi, &mut adjacent, &mut gears, Ghost(cells), Ghost(from));
    }
    proof {
        from = from + below.len();
    }
    if col_start > 0 {
        look_along(grid, row_index, lo, lo + 1, &mut adjacent, &mut gears, Ghost(cells), Ghost(from));
    }
    proof {
        from = from + left.len();
    }
    if col_end < width - 1 {
        look_along(grid, row_index, col_end, col_end + 1, &mut adjacent, &mut gears, Ghost(cells), Ghost(from));
    }
    (adjacent, gears)
}

} // verus!

verus! {

/// What the scan has found so far: the sum of the part numbers, the sum of
/// the gear ratios, and for every gear met an odd number of times the
/// number it was last met by.
pub ghost struct Tally {
    pub parts: nat,
    pub ratios: nat,
    pub waiting: Map<u128, u32>,
}

/// The tally after the number `value` has met the first `n` of `gears`: a
/// gear that waits with a number adds the product of the two numbers to the
/// ratios and waits no longer; any other gear waits with `value`.
pub open spec fn meet(tally: Tally, value: u32, gears: Seq<u128>, n: int) -> Tally
    decreases n,
{
    if n <= 0 {
        tally
    } else {
        let before = meet(tally, value, gears, n - 1);
        let g = gears[n - 1];
        if before.waiting.contains_key(g) {
            Tally {
                parts: before.parts,
                ratios: before.ratios + (value * before.waiting[g]) as nat,
                waiting: before.waiting.remove(g),
            }
        } else {
            Tally { parts: before.parts, ratios: before.ratios, waiting: before.waiting.insert(g, value) }
        }
    }
}

/// The column behind the digits that start at column `i` of a line.
pub open spec fn digits_end(line: Seq<u8>, i: int) -> int
    decreases line.len() - i,
{
    if i >= line.len() || !is_digit(line[i]) {
        i
    } else {
        digits_end(line, i + 1)
    }
}

/// The column behind the number that starts at column `i` of row `r`.
pub open spec fn number_end(grid: &Grid, r: int, i: int) -> int {
    let e = digits_end(grid.line(r), i);
    if e <= i {
        i + 1
    } else if e > grid.width() {
        grid.width()
    } else {
        e
    }
}

/// The tally after the number in columns `start` up to `end` of row `r`:
/// it meets the gears around it, and counts as a part number when it
/// touches anything but dots. `None` when the number does not fit in a
/// `u32`.
pub open spec fn note(grid: &Grid, r: int, start: int, end: int, tally: Tally) -> Option<Tally> {
    let value = digits_value(grid.line(r).subrange(start, end));
    if value > u32::MAX {
        None
    } else {
        let cells = around(grid.height(), grid.width(), r, start, end);
        let gears = stars(grid, cells, cells.len() as int);
        let met = meet(tally, value as u32, gears, gears.len() as int);
        Some(
            Tally {
                parts: if touches(grid, cells, cells.len() as int) {
                    met.parts + value
                } else {
                    met.parts
                },
                ratios: met.ratios,
                waiting: met.waiting,
            },
        )
    }
}

/// The tally after row `r` has been read from column `i` on.
pub open spec fn read_row(grid: &Grid, r: int, i: int, tally: Tally) -> Option<Tally>
    decreases grid.width() - i,
{
    if i >= grid.width() || i < 0 {
        Some(tally)
    } else if !is_digit(grid.at(r, i)) {
        read_row(grid, r, i + 1, tally)
    } else {
        let end = number_end(grid, r, i);
        match note(grid, r, i, end, tally) {
            Some(next) => read_row(grid, r, end, next),
            None => None,
        }
    }
}

/// The tally after the rows from `r` on have been read.
pub open spec fn read_rows(grid: &Grid, r: int, tally: Tally) -> Option<Tally>
    decreases grid.height() - r,
{
    if r >= grid.height() || r < 0 {
        Some(tally)
    } else {
        match read_row(grid, r, 0, tally) {
            Some(next) => read_rows(grid, r + 1, next),
            None => None,
        }
    }
}

/// The tally after the whole schematic has been read.
pub open spec fn read_all(grid: &Grid) -> Option<Tally> {
    read_rows(grid, 0, Tally { parts: 0, ratios: 0, waiting: Map::empty() })
}

/// The digits from `i` on end where the first byte that is no digit
/// stands.
pub proof fn lemma_digits_end(line: Seq<u8>, i: int, e: int)
    requires
        0 <= i <= e <= line.len(),
        forall|k: int| i <= k < e ==> is_digit(#[trigger] line[k]),
        e < line.len() ==> !is_digit(line[e]),
    ensures
        digits_end(line, i) == e,
    decreases e - i,
{
    if i < e {
        lemma_digits_end(line, i + 1, e);
    }
}

/// The sums of a tally only grow as a number meets gears.
pub proof fn lemma_meet_grows(tally: Tally, value: u32, gears: Seq<u128>, m: int, n: int)
    requires
        0 <= m <= n,
    ensures
        meet(tally, value, gears, m).ratios <= meet(tally, value, gears, n).ratios,
        meet(tally, value, gears, n).parts == tally.parts,
    decreases n,
{
    if n > 0 {
        if m < n {
            lemma_meet_grows(tally, value, gears, m, n - 1);
            let before = meet(tally, value, gears, n - 1);
            assert(value * before.waiting[gears[n - 1]] >= 0) by (nonlinear_arith);
        } else {
            lemma_meet_grows(tally, value, gears, n - 1, n - 1);
        }
    }
}

/// The sums of a tally only grow as a row is read.
pub proof fn lemma_read_row_grows(grid: &Grid, r: int, i: int, tally: Tally)
    ensures
        read_row(grid, r, i, tally) matches Some(t) ==> tally.parts <= t.parts && tally.ratios <= t.ratios,
    decreases grid.width() - i,
{
    if 0 <= i < grid.width() {
        if !is_digit(grid.at(r, i)) {
            lemma_read_row_grows(grid, r, i + 1, tally);
        } else {
            let e = number_end(grid, r, i);
            if let Some(next) = note(grid, r, i, e, tally) {
                let value = digits_value(grid.line(r).subrange(i, e));
                let cells = around(grid.height(), grid.width(), r, i, e);
                let gears = stars(grid, cells, cells.len() as int);
                lemma_meet_grows(tally, value as u32, gears, 0, gears.len() as int);
                lemma_read_row_grows(grid, r, e, next);
            }
        }
    }
}

/// The sums of a tally only grow as rows are read.
pub proof fn lemma_read_rows_grows(grid: &Grid, r: int, tally: Tally)
    ensures
        read_rows(grid, r, tally) matches Some(t) ==> tally.parts <= t.parts && tally.ratios <= t.ratios,
    decreases grid.height() - r,
{
    if 0 <= r < grid.height() {
        lemma_read_row_grows(grid, r, 0, tally);
        if let Some(next) = read_row(grid, r, 0, tally) {
            lemma_read_rows_grows(grid, r + 1, next);
        }
    }
}

/// What is left to read once row `r` has been read up to column `i`.
pub open spec fn rest(grid: &Grid, r: int, i: int, tally: Tally) -> Option<Tally> {
    match read_row(grid, r, i, tally) {
        Some(next) => read_rows(grid, r + 1, next),
        None => None,
    }
}

/// The sums grow over what is left to read.
pub proof fn lemma_rest_grows(grid: &Grid, r: int, i: int, tally: Tally)
    ensures
        rest(grid, r, i, tally) matches Some(t) ==> tally.parts <= t.parts && tally.ratios <= t.ratios,
{
    lemma_read_row_grows(grid, r, i, tally);
    if let Some(next) = read_row(grid, r, i, tally) {
        lemma_read_rows_grows(grid, r + 1, next);
    }
}

/// The sums of a schematic, each as a `u32`; `None` when a number or a sum
/// does not fit.
pub open spec fn sums(grid: &Grid) -> Option<(u32, u32)> {
    match read_all(grid) {
        Some(t) => if t.parts <= u32::MAX && t.ratios <= u32::MAX {
            Some((t.parts as u32, t.ratios as u32))
        } else {
            None
        },
        None => None,
    }
}

/// Lets the number `value` meet the gears, one after the other.
fn meet_gears(
    gears: &Vec<u128>,
    value: u32,
    ratio_sum: &mut u32,
    waiting: &mut HashMap<u128, u32>,
    Ghost(parts): Ghost<nat>,
) -> (ok: bool)
    ensures
        ({
            let before = Tally { parts, ratios: *old(ratio_sum) as nat, waiting: old(waiting)@ };
            let after = meet(before, value, gears@, gears@.len() as int);
            if ok {
                after.ratios == *final(ratio_sum) && after.waiting == final(waiting)@
            } else {
                after.ratios > u32::MAX
            }
        }),
{
    let ghost before = Tally { parts, ratios: *ratio_sum as nat, waiting: waiting@ };
    let mut k: usize = 0;
    while k < gears.len()
        invariant
            k <= gears@.len(),
            before == (Tally { parts, ratios: *old(ratio_sum) as nat, waiting: old(waiting)@ }),
            meet(before, value, gears@, k as int) == (Tally {
                parts,
                ratios: *ratio_sum as nat,
                waiting: waiting@,
            }),
        decreases gears@.len() - k,
    {
        let g: u128 = gears[k];
        let ghost had = waiting@;
        match waiting.remove(&g) {
            Some(other) => {
                assert(had.contains_key(g) && had[g] == other);
                assert(value * other <= 0xffff_ffff * 0xffff_ffff) by (nonlinear_arith)
                    requires
                        0 <= value <= 0xffff_ffff,
                        0 <= other <= 0xffff_ffff,
                ;
                let product: u64 = value as u64 * other as u64;
                if product > (0xffff_ffff - *ratio_sum) as u64 {
                    proof {
                        let so_far = meet(before, value, gears@, k as int);
                        assert(so_far.waiting == had);
                        assert(meet(before, value, gears@, k + 1).ratios == so_far.ratios + product);
                        lemma_meet_grows(before, value, gears@, k + 1, gears@.len() as int);
                    }
                    return false;
                }
                *ratio_sum = *ratio_sum + product as u32;
            },
            None => {
                assert(!had.contains_key(g));
                assert(waiting@ == had);
                waiting.insert(g, value);
            },
        }
        k += 1;
    }
    true
}

/// Reads the schematic: every run of digits is a number; a number that
/// touches anything but dots is a part number; a gear met by a number
/// waits for the next number that meets it, and the product of the two is
/// a gear ratio. Returns the sum of the part numbers and the sum of the
/// gear ratios, `None` when a number or a sum does not fit in a `u32`.
pub fn part_one_and_two(grid: &Grid) -> (r: Option<(u32, u32)>)
    requires
        grid.wf(),
    ensures
        r == sums(grid),
{
    let height: usize = grid.cells.len();
    let width: usize = if height == 0 {
        0
    } else {
        grid.cells[0].len()
    };
    let mut part_number_sum: u32 = 0;
    let mut ratio_sum: u32 = 0;
    let mut waiting: HashMap<u128, u32> = HashMap::new();
    let ghost whole = read_all(grid);
    let mut row_index: usize = 0;
    while row_index < height
        invariant
            row_index <= height,
            height == grid.height(),
            width == grid.width(),
            grid.wf(),
            whole == read_all(grid),
            whole == read_rows(
                grid,
                row_index as int,
                Tally { parts: part_number_sum as nat, ratios: ratio_sum as nat, waiting: waiting@ },
            ),
        decreases height - row_index,
    {
        assert(grid.cells@[row_index as int]@.len() == width);
        let line = &grid.cells[row_index];
        let mut col_index_start: usize = 0;
        while col_index_start < width
            invariant
                col_index_start <= width,
                row_index < height,
                height == grid.height(),
                width == grid.width(),
                grid.wf(),
                line@ == grid.line(row_index as int),
                line@.len() == width,
                whole == read_all(grid),
                whole == rest(
                    grid,
                    row_index as int,
                    col_index_start as int,
                    Tally { parts: part_number_sum as nat, ratios: ratio_sum as nat, waiting: waiting@ },
                ),
            decreases width - col_index_start,
        {
            let ghost here = Tally { parts: part_number_sum as nat, ratios: ratio_sum as nat, waiting: waiting@ };
            assert(grid.at(row_index as int, col_index_start as int) == line@[col_index_start as int]);
            if line[col_index_start] >= 48 && line[col_index_start] <= 57 {
                let mut col_index_end: usize = col_index_start + 1;
                let mut value: u64 = (line[col_index_start] - 48) as u64;
                let ghost digits = line@.subrange(col_index_start as int, col_index_start + 1);
                proof {
                    assert(digits.drop_last() =~= Seq::<u8>::empty());
                    assert(digits_value(digits) == value) by {
                        reveal_with_fuel(digits_value, 2);
                    }
                }
                while col_index_end < width && line[col_index_end] >= 48 && line[col_index_end] <= 57
                    invariant
                        col_index_start < col_index_end <= width,
                        line@.len() == width,
                        forall|k: int| col_index_start <= k < col_index_end ==> is_digit(#[trigger] line@[k]),
                        value <= u32::MAX ==> value == digits_value(
                            line@.subrange(col_index_start as int, col_index_end as int),
                        ),
                        value > u32::MAX ==> digits_value(line@.subrange(col_index_start as int, col_index_end as int))
                            > u32::MAX,
                    decreases width - col_index_end,
                {
                    proof {
                        let longer = line@.subrange(col_index_start as int, col_index_end + 1);
                        assert(longer.drop_last() =~= line@.subrange(col_index_start as int, col_index_end as int));
                        assert(longer.last() == line@[col_index_end as int]);
                    }
                    if value <= 0xffff_ffff {
                        value = value * 10 + (line[col_index_end] - 48) as u64;
                    }
                    col_index_end += 1;
                }
                proof {
                    lemma_digits_end(line@, col_index_start as int, col_index_end as int);
                    assert(number_end(grid, row_index as int, col_index_start as int) == col_index_end);
                }
                if value > 0xffff_ffff {
                    return None;
                }
                let part_number: u32 = value as u32;
                let (adjacent, gears) = is_range_adjacent(grid, row_index, col_index_start, col_index_end);
                let ghost cells = around(
                    height as int,
                    width as int,
                    row_index as int,
                    col_index_start as int,
                    col_index_end as int,
                );
                let ghost next = note(grid, row_index as int, col_index_start as int, col_index_end as int, here);
                assert(gears@ == stars(grid, cells, cells.len() as int));
                assert(next is Some);
                assert(whole == rest(grid, row_index as int, col_index_end as int, next.unwrap()));
                if !meet_gears(&gears, part_number, &mut ratio_sum, &mut waiting, Ghost(here.parts)) {
                    proof {
                        lemma_rest_grows(grid, row_index as int, col_index_end as int, next.unwrap());
                    }
                    return None;
                }
                if adjacent {
                    if part_number > 0xffff_ffff - part_number_sum {
                        proof {
                            lemma_meet_grows(here, part_number, gears@, 0, gears@.len() as int);
                            lemma_rest_grows(grid, row_index as int, col_index_end as int, next.unwrap());
                        }
                        return None;
                    }
                    part_number_sum = part_number_sum + part_number;
                }
                proof {
                    lemma_meet_grows(here, part_number, gears@, 0, gears@.len() as int);
                }
                col_index_start = col_index_end;
            } else {
                col_index_start += 1;
            }
        }
        row_index += 1;
    }
    Some((part_number_sum, ratio_sum))
}

/// Reads a schematic from text, one row per line. `None` when the lines
/// differ in length.
pub fn parse_grid(lines: Vec<Vec<u8>>) -> (r: Option<Grid>)
    ensures
        r is Some <==> forall|i: int| 0 <= i < lines@.len() ==> (#[trigger] lines@[i])@.len() == lines@[0]@.len(),
        r matches Some(grid) ==> grid.wf() && grid.cells@ == lines@,
{
    let mut i: usize = 0;
    while i < lines.len()
        invariant
            i <= lines@.len(),
            forall|k: int| 0 <= k < i ==> (#[trigger] lines@[k])@.len() == lines@[0]@.len(),
        decreases lines@.len() - i,
    {
        if lines[i].len() != lines[0].len() {
            return None;
        }
        i += 1;
    }
    Some(Grid { cells: lines })
}

} // verus!
