//! Distances between galaxies in a sky whose empty rows and columns count
//! many times over.

use vstd::prelude::*;
use vstd::string::StringSliceAdditionalSpecFns;
use crate::text::{lines, lines_of, views};

verus! {

/// A place in the sky: a row and a column.
pub type Coord = [usize; 2];

/// The galaxies, and the rows and columns that hold none.
pub struct Input {
    pub galaxies: Vec<Coord>,
    pub empty_rows: Vec<usize>,
    pub empty_cols: Vec<usize>,
}

/// The side of the square of sky whose rows and columns are looked at when
/// the empty ones are listed.
pub const SIDE: usize = 140;

/// The distance between two numbers.
pub open spec fn apart(a: usize, b: usize) -> nat {
    if a <= b {
        (b - a) as nat
    } else {
        (a - b) as nat
    }
}

/// How many of the numbers from `lo` up to, not including, `hi` are among
/// `empties`.
pub open spec fn count_in(empties: Seq<usize>, lo: int, hi: int) -> nat
    decreases hi - lo,
{
    if hi <= lo {
        0
    } else {
        count_in(empties, lo, hi - 1) + if empties.contains((hi - 1) as usize) {
            1nat
        } else {
            0nat
        }
    }
}

/// How many empty lines lie between `a` and `b`, counting the lower of the
/// two and not the higher.
pub open spec fn gap(empties: Seq<usize>, a: usize, b: usize) -> nat {
    if a <= b {
        count_in(empties, a as int, b as int)
    } else {
        count_in(empties, b as int, a as int)
    }
}

impl Input {
    /// The distance between galaxies `i` and `j`, when every empty row and
    /// column stands for `multiplier` of them: the steps along rows and
    /// columns, and for every empty row or column between the two
    /// `multiplier - 1` steps more.
    pub open spec fn pair(&self, multiplier: usize, i: int, j: int) -> nat {
        let a = self.galaxies@[i];
        let b = self.galaxies@[j];
        apart(a[0], b[0]) + apart(a[1], b[1]) + (gap(self.empty_rows@, a[0], b[0]) + gap(
            self.empty_cols@,
            a[1],
            b[1],
        )) * (multiplier - 1) as nat
    }

    /// The sum of the distances from galaxy `i` to the galaxies from `i` up
    /// to, not including, `m`.
    pub open spec fn from_one(&self, multiplier: usize, i: int, m: int) -> nat
        decreases m - i,
    {
        if m <= i {
            0
        } else {
            self.from_one(multiplier, i, m - 1) + self.pair(multiplier, i, m - 1)
        }
    }

    /// The sum of the distances of all pairs of galaxies whose first is
    /// among the first `n`.
    pub open spec fn all_pairs(&self, multiplier: usize, n: int) -> nat
        decreases n,
    {
        if n <= 0 {
            0
        } else {
            self.all_pairs(multiplier, n - 1) + self.from_one(multiplier, n - 1, self.galaxies@.len() as int)
        }
    }

    /// Sums over more galaxies are larger.
    pub proof fn lemma_from_one_grows(&self, multiplier: usize, i: int, m: int, n: int)
        requires
            m <= n,
        ensures
            self.from_one(multiplier, i, m) <= self.from_one(multiplier, i, n),
        decreases n - m,
    {
        if m < n {
            self.lemma_from_one_grows(multiplier, i, m, n - 1);
        }
    }

    /// Sums over more pairs are larger.
    pub proof fn lemma_all_pairs_grows(&self, multiplier: usize, m: int, n: int)
        requires
            m <= n,
        ensures
            self.all_pairs(multiplier, m) <= self.all_pairs(multiplier, n),
        decreases n - m,
    {
        if m < n {
            self.lemma_all_pairs_grows(multiplier, m, n - 1);
        }
    }
}

/// The steps along rows and columns between two places. `None` when their
/// number does not fit in a `usize`.
pub fn distance(a: &Coord, b: &Coord) -> (r: Option<usize>)
    ensures
        r == if apart(a[0], b[0]) + apart(a[1], b[1]) <= usize::MAX {
            Some((apart(a[0], b[0]) + apart(a[1], b[1])) as usize)
        } else {
            None
        },
{
    let rows: usize = if a[0] <= b[0] {
        b[0] - a[0]
    } else {
        a[0] - b[0]
    };
    let cols: usize = if a[1] <= b[1] {
        b[1] - a[1]
    } else {
        a[1] - b[1]
    };
    rows.checked_add(cols)
}

/// `x` is among `list`.
fn holds(list: &Vec<usize>, x: usize) -> (r: bool)
    ensures
        r == list@.contains(x),
{
    let mut i: usize = 0;
    while i < list.len()
        invariant
            i <= list@.len(),
            forall|k: int| 0 <= k < i ==> list@[k] != x,
        decreases list@.len() - i,
    {
        if list[i] == x {
            return true;
        }
        i += 1;
    }
    false
}

/// How many empty lines lie between `a` and `b`.
fn gap_of(empties: &Vec<usize>, a: usize, b: usize) -> (r: usize)
    ensures
        r == gap(empties@, a, b),
{
    let (lo, hi): (usize, usize) = if a <= b {
        (a, b)
    } else {
        (b, a)
    };
    let mut count: usize = 0;
    let mut k: usize = lo;
    while k < hi
        invariant
            lo <= k <= hi,
            count == count_in(empties@, lo as int, k as int),
            count <= k - lo,
        decreases hi - k,
    {
        if holds(empties, k) {
            count += 1;
        }
        k += 1;
    }
    count
}

/// The distance between galaxies `i` and `j`. `None` when it does not fit
/// in a `usize`.
fn pair_of(input: &Input, multiplier: usize, i: usize, j: usize) -> (r: Option<usize>)
    requires
        multiplier >= 1,
        i < input.galaxies@.len(),
        j < input.galaxies@.len(),
    ensures
        r == if input.pair(multiplier, i as int, j as int) <= usize::MAX {
            Some(input.pair(multiplier, i as int, j as int) as usize)
        } else {
            None
        },
{
    let a: Coord = input.galaxies[i];
    let b: Coord = input.galaxies[j];
    let extra_rows: usize = gap_of(&input.empty_rows, a[0], b[0]);
    let extra_cols: usize = gap_of(&input.empty_cols, a[1], b[1]);
    let ghost plain = apart(a[0], b[0]) + apart(a[1], b[1]);
    let ghost extra = (extra_rows + extra_cols) * (multiplier - 1);
    assert(extra >= 0) by (nonlinear_arith)
        requires
            extra == (extra_rows + extra_cols) * (multiplier - 1),
            multiplier >= 1,
    ;
    assert(input.pair(multiplier, i as int, j as int) == plain + extra);
    let steps: usize = match distance(&a, &b) {
        Some(v) => v,
        None => {
            return None;
        },
    };
    let gaps: usize = match extra_rows.checked_add(extra_cols) {
        Some(v) => v,
        None => {
            // more gaps than fit: each counts at least once unless the multiplier is one
            if multiplier == 1 {
                assert(extra == 0) by (nonlinear_arith)
                    requires
                        extra == (extra_rows + extra_cols) * (multiplier - 1),
                        multiplier == 1,
                ;
                return Some(steps);
            }
            assert(extra > usize::MAX) by (nonlinear_arith)
                requires
                    extra == (extra_rows + extra_cols) * (multiplier - 1),
                    multiplier >= 2,
                    extra_rows + extra_cols > usize::MAX,
            ;
            return None;
        },
    };
    match gaps.checked_mul(multiplier - 1) {
        Some(more) => steps.checked_add(more),
        None => None,
    }
}

/// The sum of the distances between every two galaxies, when every empty
/// row and column stands for `multiplier` of them. `None` when the sum does
/// not fit in a `usize`.
pub fn distances(input: &Input, multiplier: usize) -> (r: Option<usize>)
    requires
        multiplier >= 1,
    ensures
        r == if input.all_pairs(multiplier, input.galaxies@.len() as int) <= usize::MAX {
            Some(input.all_pairs(multiplier, input.galaxies@.len() as int) as usize)
        } else {
            None
        },
{
    let n: usize = input.galaxies.len();
    let mut sum: usize = 0;
    let mut i: usize = 0;
    while i < n
        invariant
            i <= n,
            n == input.galaxies@.len(),
            multiplier >= 1,
            sum == input.all_pairs(multiplier, i as int),
        decreases n - i,
    {
        let mut row: usize = 0;
        let mut j: usize = i;
        while j < n
            invariant
                i <= j <= n,
                i < n,
                n == input.galaxies@.len(),
                multiplier >= 1,
                row == input.from_one(multiplier, i as int, j as int),
            decreases n - j,
        {
            let next: Option<usize> = match pair_of(input, multiplier, i, j) {
                Some(v) => row.checked_add(v),
                None => None,
            };
            match next {
                Some(v) => {
                    row = v;
                },
                None => {
                    proof {
                        input.lemma_from_one_grows(multiplier, i as int, j + 1, n as int);
                        input.lemma_all_pairs_grows(multiplier, i + 1, n as int);
                    }
                    return None;
                },
            }
            j += 1;
        }
        match sum.checked_add(row) {
            Some(v) => {
                sum = v;
            },
            None => {
                proof {
                    input.lemma_all_pairs_grows(multiplier, i + 1, n as int);
                }
                return None;
            },
        }
        i += 1;
    }
    Some(sum)
}

/// The galaxies among the first `c` bytes of line number `r`, a `#`
/// standing for a galaxy.
pub open spec fn galaxies_in(line: Seq<u8>, r: usize, c: int) -> Seq<Coord>
    decreases c,
{
    if c <= 0 {
        Seq::empty()
    } else if line[c - 1] == 35u8 {
        galaxies_in(line, r, c - 1).push([r, (c - 1) as usize])
    } else {
        galaxies_in(line, r, c - 1)
    }
}

/// The galaxies of the first `r` lines, in reading order.
pub open spec fn galaxies_upto(ls: Seq<Seq<u8>>, r: int) -> Seq<Coord>
    decreases r,
{
    if r <= 0 {
        Seq::empty()
    } else {
        galaxies_upto(ls, r - 1) + galaxies_in(ls[r - 1], (r - 1) as usize, ls[r - 1].len() as int)
    }
}

/// No galaxy lies on line `x` along axis `axis`: in row `x` for axis 0, in
/// column `x` for axis 1.
pub open spec fn is_empty_line(galaxies: Seq<Coord>, axis: int, x: usize) -> bool {
    forall|k: int| 0 <= k < galaxies.len() ==> (#[trigger] galaxies[k])[axis] != x
}

/// `list` holds, in rising order, the lines below `SIDE` that are empty.
pub open spec fn lists_empty(galaxies: Seq<Coord>, axis: int, list: Seq<usize>) -> bool {
    &&& forall|k: int| 0 <= k < list.len() ==> #[trigger] list[k] < SIDE && is_empty_line(galaxies, axis, list[k])
    &&& forall|j: int, k: int| 0 <= j < k < list.len() ==> list[j] < list[k]
    &&& forall|x: usize| x < SIDE && #[trigger] is_empty_line(galaxies, axis, x) ==> list.contains(x)
}

/// The lines below `SIDE` along `axis` that hold no galaxy.
fn empty_lines(galaxies: &Vec<Coord>, axis: usize) -> (list: Vec<usize>)
    requires
        axis < 2,
    ensures
        lists_empty(galaxies@, axis as int, list@),
{
    let mut list: Vec<usize> = Vec::new();
    let mut x: usize = 0;
    while x < SIDE
        invariant
            x <= SIDE,
            axis < 2,
            forall|k: int|
                0 <= k < list@.len() ==> #[trigger] list@[k] < x && is_empty_line(galaxies@, axis as int, list@[k]),
            forall|j: int, k: int| 0 <= j < k < list@.len() ==> list@[j] < list@[k],
            forall|y: usize| y < x && #[trigger] is_empty_line(galaxies@, axis as int, y) ==> list@.contains(y),
        decreases SIDE - x,
    {
        let mut free: bool = true;
        let mut k: usize = 0;
        while k < galaxies.len()
            invariant
                k <= galaxies@.len(),
                axis < 2,
                free ==> forall|m: int| 0 <= m < k ==> (#[trigger] galaxies@[m])[axis as int] != x,
                !free ==> !is_empty_line(galaxies@, axis as int, x),
            decreases galaxies@.len() - k,
        {
            let g: Coord = galaxies[k];
            if g[axis] == x {
                free = false;
            }
            k += 1;
        }
        if free {
            let ghost before = list@;
            list.push(x);
            proof {
                assert forall|y: usize| y < x + 1 && #[trigger] is_empty_line(
                    galaxies@,
                    axis as int,
                    y,
                ) implies list@.contains(y) by {
                    if y < x {
                        let m = choose|m: int| 0 <= m < before.len() && before[m] == y;
                        assert(list@[m] == y);
                    } else {
                        assert(list@[before.len() as int] == x);
                    }
                }
            }
        }
        x += 1;
    }
    list
}

/// Reads the sky: a galaxy for every `#`, with its line as row and its
/// place in the line as column, and the rows and columns below `SIDE` that
/// hold no galaxy.
pub fn parse_input(input: &str) -> (sky: Input)
    ensures
        sky.galaxies@ == galaxies_upto(lines(input.spec_bytes()), lines(input.spec_bytes()).len() as int),
        lists_empty(sky.galaxies@, 0, sky.empty_rows@),
        lists_empty(sky.galaxies@, 1, sky.empty_cols@),
{
    let all = lines_of(input.as_bytes());
    let ghost ls = lines(input.spec_bytes());
    let mut galaxies: Vec<Coord> = Vec::new();
    let mut r: usize = 0;
    while r < all.len()
        invariant
            r <= all@.len(),
            ls == views(all@),
            galaxies@ == galaxies_upto(ls, r as int),
        decreases all@.len() - r,
    {
        let line = &all[r];
        assert(ls[r as int] == line@);
        let ghost before = galaxies@;
        let mut c: usize = 0;
        while c < line.len()
            invariant
                c <= line@.len(),
                galaxies@ == before + galaxies_in(line@, r, c as int),
            decreases line@.len() - c,
        {
            if line[c] == 35 {
                galaxies.push([r, c]);
                assert(before + galaxies_in(line@, r, c + 1) =~= (before + galaxies_in(line@, r, c as int)).push(
                    [r, c],
                ));
            }
            c += 1;
        }
        r += 1;
    }
    let empty_rows = empty_lines(&galaxies, 0);
    let empty_cols = empty_lines(&galaxies, 1);
    Input { galaxies, empty_rows, empty_cols }
}

} // verus!
