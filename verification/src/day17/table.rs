//! The best-cost table: one slot per search state, addressed by a
//! mixed-radix index over row, column, heading and run length.

use vstd::prelude::*;
use crate::day17::model::{Grid, SearchState};

verus! {

/// The value a slot stands for when sizing the work left: its cost, or one
/// more than any cost while the state has not been reached.
pub open spec fn slot_value(e: Option<u64>) -> nat {
    match e {
        Some(d) => d as nat,
        None => u64::MAX as nat + 1,
    }
}

/// Sum of the slot values of a table.
pub open spec fn total(t: Seq<Option<u64>>) -> nat
    decreases t.len(),
{
    if t.len() == 0 {
        0
    } else {
        total(t.drop_last()) + slot_value(t.last())
    }
}

/// Lowering one slot lowers the total by the same amount.
pub proof fn lemma_total_update(t: Seq<Option<u64>>, i: int, d: u64)
    requires
        0 <= i < t.len(),
    ensures
        total(t.update(i, Some(d))) + slot_value(t[i]) == total(t) + d,
    decreases t.len(),
{
    let u = t.update(i, Some(d));
    if i == t.len() - 1 {
        assert(u.drop_last() =~= t.drop_last());
    } else {
        lemma_total_update(t.drop_last(), i, d);
        assert(u.drop_last() =~= t.drop_last().update(i, Some(d)));
    }
}

/// Two numbers written as `a * r + b` with `0 <= b < r` are equal only if
/// their parts are.
pub proof fn lemma_radix_unique(a1: int, b1: int, a2: int, b2: int, r: int)
    requires
        0 <= b1 < r,
        0 <= b2 < r,
        a1 * r + b1 == a2 * r + b2,
    ensures
        a1 == a2,
        b1 == b2,
{
    assert(a1 == a2) by (nonlinear_arith)
        requires
            0 <= b1 < r,
            0 <= b2 < r,
            a1 * r + b1 == a2 * r + b2,
    {
        if a1 < a2 {
            assert((a2 - a1) * r >= r);
            assert(a2 * r - a1 * r == (a2 - a1) * r);
        } else if a2 < a1 {
            assert((a1 - a2) * r >= r);
            assert(a1 * r - a2 * r == (a1 - a2) * r);
        }
    }
}

/// `a * r + b` with `0 <= a < n` and `0 <= b < r` lies below `n * r`.
pub proof fn lemma_radix_bound(a: int, b: int, n: int, r: int)
    requires
        0 <= a < n,
        0 <= b < r,
    ensures
        0 <= a * r + b < n * r,
        a * r >= 0,
{
    assert(0 <= a * r + b < n * r && a * r >= 0) by (nonlinear_arith)
        requires
            0 <= a < n,
            0 <= b < r,
    {
        assert((a + 1) * r <= n * r);
        assert((a + 1) * r == a * r + r);
    }
}

impl Grid {
    /// Number of search states with a run length of at most `max_run`.
    pub open spec fn state_count(&self, max_run: usize) -> int {
        self.height() * self.width() * 4 * max_run
    }

    /// Index of the cell of `s`, row by row.
    pub open spec fn cell_slot(&self, s: SearchState) -> int {
        s.row * self.width() + s.col
    }

    /// Index of `s` among the search states.
    pub open spec fn slot(&self, max_run: usize, s: SearchState) -> int {
        (self.cell_slot(s) * 4 + s.dir.ordinal()) * max_run + (s.run - 1)
    }

    /// The index of a valid state lies below the number of states.
    pub proof fn lemma_slot_bound(&self, max_run: usize, s: SearchState)
        requires
            self.wf(),
            self.valid(max_run, s),
        ensures
            0 <= self.cell_slot(s) < self.height() * self.width(),
            0 <= self.cell_slot(s) * 4 + s.dir.ordinal() < self.height() * self.width() * 4,
            0 <= (self.cell_slot(s) * 4 + s.dir.ordinal()) * max_run,
            0 <= self.slot(max_run, s) < self.state_count(max_run),
            self.height() * self.width() <= self.state_count(max_run),
            self.height() * self.width() * 4 <= self.state_count(max_run),
    {
        lemma_radix_bound(s.row as int, s.col as int, self.height(), self.width());
        let cells = self.height() * self.width();
        lemma_radix_bound(self.cell_slot(s) * 4 + s.dir.ordinal(), s.run - 1, cells * 4, max_run as int);
        assert(cells * 4 <= cells * 4 * max_run) by (nonlinear_arith)
            requires
                cells >= 0,
                max_run >= 1,
        ;
    }

    /// Distinct valid states have distinct indices.
    pub proof fn lemma_slot_unique(&self, max_run: usize, s: SearchState, t: SearchState)
        requires
            self.wf(),
            self.valid(max_run, s),
            self.valid(max_run, t),
            self.slot(max_run, s) == self.slot(max_run, t),
        ensures
            s == t,
    {
        lemma_radix_unique(
            self.cell_slot(s) * 4 + s.dir.ordinal(),
            s.run - 1,
            self.cell_slot(t) * 4 + t.dir.ordinal(),
            t.run - 1,
            max_run as int,
        );
        lemma_radix_unique(self.cell_slot(s), s.dir.ordinal(), self.cell_slot(t), t.dir.ordinal(), 4);
        lemma_radix_unique(s.row as int, s.col as int, t.row as int, t.col as int, self.width());
    }

    /// Index of `s` among the search states.
    pub fn slot_of(&self, max_run: usize, s: SearchState) -> (i: usize)
        requires
            self.wf(),
            self.valid(max_run, s),
            self.state_count(max_run) <= usize::MAX,
        ensures
            i == self.slot(max_run, s),
            i < self.state_count(max_run),
    {
        proof {
            self.lemma_slot_bound(max_run, s);
        }
        let cell: usize = s.row * self.cols() + s.col;
        let with_dir: usize = cell * 4 + s.dir.to_ordinal();
        with_dir * max_run + (s.run - 1)
    }
}

} // verus!
