//! A rectangle of marks, one bit per cell.

use vstd::prelude::*;

verus! {

/// A cell by its row and column.
pub type Cell = (int, int);

/// A rectangle of cells, each marked or not.
pub struct Marks {
    pub cells: Vec<Vec<bool>>,
}

impl Marks {
    /// Number of rows.
    pub open spec fn height(&self) -> int {
        self.cells@.len() as int
    }

    /// Number of columns.
    pub open spec fn width(&self) -> int {
        if self.cells@.len() == 0 {
            0
        } else {
            self.cells@[0]@.len() as int
        }
    }

    /// All rows are equally long.
    pub open spec fn wf(&self) -> bool {
        forall|r: int| 0 <= r < self.height() ==> (#[trigger] self.cells@[r])@.len() == self.width()
    }

    /// The cell lies in the rectangle.
    pub open spec fn holds(&self, cell: Cell) -> bool {
        0 <= cell.0 < self.height() && 0 <= cell.1 < self.width()
    }

    /// The cell is marked.
    pub open spec fn marked(&self, cell: Cell) -> bool {
        self.cells@[cell.0]@[cell.1]
    }

    /// The number of cells without a mark among the first `m` of row `r`.
    pub open spec fn row_blank(&self, r: int, m: int) -> nat
        decreases m,
    {
        if m <= 0 {
            0
        } else {
            self.row_blank(r, m - 1) + if self.marked((r, m - 1)) {
                0nat
            } else {
                1nat
            }
        }
    }

    /// The number of cells without a mark in the first `n` rows.
    pub open spec fn rows_blank(&self, n: int) -> nat
        decreases n,
    {
        if n <= 0 {
            0
        } else {
            self.rows_blank(n - 1) + self.row_blank(n - 1, self.width())
        }
    }

    /// The number of cells without a mark.
    pub open spec fn blank(&self) -> nat {
        self.rows_blank(self.height())
    }

    /// A rectangle of the given size without a mark.
    pub fn new(rows: usize, cols: usize) -> (m: Marks)
        ensures
            m.wf(),
            m.height() == rows,
            rows > 0 ==> m.width() == cols,
            forall|cell: Cell| m.holds(cell) ==> !#[trigger] m.marked(cell),
    {
        let mut cells: Vec<Vec<bool>> = Vec::new();
        let mut r: usize = 0;
        while r < rows
            invariant
                r <= rows,
                cells@.len() == r,
                forall|i: int| 0 <= i < r ==> (#[trigger] cells@[i])@.len() == cols,
                forall|i: int, j: int| 0 <= i < r && 0 <= j < cols ==> !#[trigger] cells@[i]@[j],
            decreases rows - r,
        {
            let mut row: Vec<bool> = Vec::new();
            let mut c: usize = 0;
            while c < cols
                invariant
                    c <= cols,
                    row@.len() == c,
                    forall|j: int| 0 <= j < c ==> !row@[j],
                decreases cols - c,
            {
                row.push(false);
                c += 1;
            }
            cells.push(row);
            r += 1;
        }
        let m = Marks { cells };
        proof {
            assert forall|cell: Cell| m.holds(cell) implies !#[trigger] m.marked(cell) by {
                assert(!m.cells@[cell.0]@[cell.1]);
            }
        }
        m
    }

    /// The cell is marked.
    pub fn get(&self, r: usize, c: usize) -> (b: bool)
        requires
            self.wf(),
            self.holds((r as int, c as int)),
        ensures
            b == self.marked((r as int, c as int)),
    {
        assert(self.cells@[r as int]@.len() == self.width());
        self.cells[r][c]
    }

    /// Marks the cell.
    pub fn set(&mut self, r: usize, c: usize)
        requires
            old(self).wf(),
            old(self).holds((r as int, c as int)),
        ensures
            final(self).wf(),
            final(self).height() == old(self).height(),
            final(self).width() == old(self).width(),
            forall|cell: Cell|
                old(self).holds(cell) ==> #[trigger] final(self).marked(cell) == (old(self).marked(cell) || cell == (
                    r as int,
                    c as int,
                )),
            final(self).blank() + (if old(self).marked((r as int, c as int)) {
                0nat
            } else {
                1nat
            }) == old(self).blank(),
    {
        assert(self.cells@[r as int]@.len() == self.width());
        let mut row: Vec<bool> = Vec::new();
        core::mem::swap(&mut self.cells[r], &mut row);
        row.set(c, true);
        core::mem::swap(&mut self.cells[r], &mut row);
        proof {
            assert(self.cells@[0]@.len() == old(self).cells@[0]@.len());
            assert forall|i: int| 0 <= i < self.height() implies (#[trigger] self.cells@[i])@.len() == self.width() by {
                assert(old(self).cells@[i]@.len() == old(self).width());
            }
            assert forall|cell: Cell| old(self).holds(cell) implies #[trigger] self.marked(cell) == (old(self).marked(
                cell,
            ) || cell == (r as int, c as int)) by {
                assert(old(self).cells@[cell.0]@.len() == old(self).width());
            }
            lemma_rows_blank_change(self, old(self), r as int, c as int, self.height());
        }
    }
}

/// Two rectangles that differ in one cell of row `r` at most differ in the
/// number of blank cells of that row by what that cell makes up.
pub proof fn lemma_row_blank_change(a: &Marks, b: &Marks, r: int, c: int, m: int)
    requires
        0 <= m,
        forall|j: int| 0 <= j < m && j != c ==> #[trigger] a.marked((r, j)) == b.marked((r, j)),
    ensures
        a.row_blank(r, m) + (if 0 <= c < m && !b.marked((r, c)) {
            1nat
        } else {
            0nat
        }) == b.row_blank(r, m) + (if 0 <= c < m && !a.marked((r, c)) {
            1nat
        } else {
            0nat
        }),
    decreases m,
{
    if m > 0 {
        lemma_row_blank_change(a, b, r, c, m - 1);
        if m - 1 != c {
            assert(a.marked((r, m - 1)) == b.marked((r, m - 1)));
        }
    }
}

/// The same over all rows.
pub proof fn lemma_rows_blank_change(a: &Marks, b: &Marks, r: int, c: int, n: int)
    requires
        0 <= n,
        a.width() == b.width(),
        0 <= c < a.width(),
        forall|i: int, j: int|
            0 <= i < n && 0 <= j < a.width() && !(i == r && j == c) ==> #[trigger] a.marked((i, j)) == b.marked((i, j)),
    ensures
        a.rows_blank(n) + (if 0 <= r < n && !b.marked((r, c)) {
            1nat
        } else {
            0nat
        }) == b.rows_blank(n) + (if 0 <= r < n && !a.marked((r, c)) {
            1nat
        } else {
            0nat
        }),
    decreases n,
{
    if n > 0 {
        lemma_rows_blank_change(a, b, r, c, n - 1);
        if n - 1 == r {
            lemma_row_blank_change(a, b, r, c, a.width());
        } else {
            lemma_row_blank_change(a, b, n - 1, -1, a.width());
        }
    }
}

} // verus!
