//! What the search knows while it runs, stated over the best-cost table and
//! the frontier, and the single relaxation step that keeps it true.

use vstd::prelude::*;
use vstd::multiset::Multiset;
use crate::day17::frontier::Frontier;
use crate::day17::model::{Grid, Heading, Node, SearchState};
use crate::day17::table::{lemma_total_update, total};

verus! {

/// Every slot that held a cost in `before` holds a cost in `after` that is
/// no larger.
pub open spec fn improves(before: Seq<Option<u64>>, after: Seq<Option<u64>>) -> bool {
    &&& before.len() == after.len()
    &&& forall|i: int|
        0 <= i < before.len() ==> ((#[trigger] before[i]) matches Some(e) ==> after[i] matches Some(e2) && e2 <= e)
}

impl Grid {
    /// The table's entry for `s`.
    pub open spec fn best(&self, max_run: usize, table: Seq<Option<u64>>, s: SearchState) -> Option<u64> {
        table[self.slot(max_run, s)]
    }

    /// Some path ends in `s` and costs `d`.
    pub open spec fn reaches(&self, min_run: usize, max_run: usize, s: SearchState, d: nat) -> bool {
        exists|p: Seq<SearchState>| #[trigger]
            self.is_path(min_run, max_run, p) && p.last() == s && self.path_cost(p) == d
    }

    /// The step from `s` in heading `h`, if allowed and of a cost that fits,
    /// leads to a state that the table already knows at no higher a cost.
    pub open spec fn relaxed_dir(
        &self,
        min_run: usize,
        max_run: usize,
        table: Seq<Option<u64>>,
        s: SearchState,
        d: nat,
        h: Heading,
    ) -> bool {
        self.can_move(min_run, max_run, s, h) ==> {
            let t = s.moved(h);
            let c = d + self.weight(t.row as int, t.col as int);
            c > u64::MAX || (self.best(max_run, table, t) matches Some(e) && e <= c)
        }
    }

    /// The steps from `s` in the first `k` headings are relaxed.
    pub open spec fn relaxed_upto(
        &self,
        min_run: usize,
        max_run: usize,
        table: Seq<Option<u64>>,
        s: SearchState,
        d: nat,
        k: int,
    ) -> bool {
        &&& (k > 0 ==> self.relaxed_dir(min_run, max_run, table, s, d, Heading::Down))
        &&& (k > 1 ==> self.relaxed_dir(min_run, max_run, table, s, d, Heading::Right))
        &&& (k > 2 ==> self.relaxed_dir(min_run, max_run, table, s, d, Heading::Up))
        &&& (k > 3 ==> self.relaxed_dir(min_run, max_run, table, s, d, Heading::Left))
    }

    /// The table has one slot per state, every cost in it is the cost of a
    /// path to that state, and the seeds are known at cost zero.
    pub open spec fn sound(&self, min_run: usize, max_run: usize, table: Seq<Option<u64>>) -> bool {
        &&& table.len() == self.state_count(max_run)
        &&& forall|s: SearchState|
            self.valid(max_run, s) ==> ((#[trigger] self.best(max_run, table, s)) matches Some(d) ==> self.reaches(
                min_run,
                max_run,
                s,
                d as nat,
            ))
        &&& forall|s: SearchState| #[trigger] s.is_seed() ==> self.best(max_run, table, s) == Some(0u64)
    }

    /// Every frontier entry is a valid state with the cost of a path to it,
    /// and the table knows that state at no higher a cost.
    pub open spec fn front_ok(
        &self,
        min_run: usize,
        max_run: usize,
        table: Seq<Option<u64>>,
        front: Multiset<Node>,
    ) -> bool {
        forall|node: Node| #[trigger]
            front.contains(node) ==> {
                &&& self.valid(max_run, node.state)
                &&& self.reaches(min_run, max_run, node.state, node.dist as nat)
                &&& self.best(max_run, table, node.state) matches Some(e) && e <= node.dist
            }
    }

    /// Every state the table knows is either waiting in the frontier at its
    /// best cost, or fully relaxed, or is the state `cur` under expansion
    /// with its first `k` headings relaxed.
    pub open spec fn pending(
        &self,
        min_run: usize,
        max_run: usize,
        table: Seq<Option<u64>>,
        front: Multiset<Node>,
        cur: Node,
        k: int,
    ) -> bool {
        forall|s: SearchState|
            self.valid(max_run, s) ==> ((#[trigger] self.best(max_run, table, s)) matches Some(d) ==> {
                ||| front.contains(Node { state: s, dist: d })
                ||| self.relaxed_upto(min_run, max_run, table, s, d as nat, 4)
                ||| (s == cur.state && d == cur.dist && self.relaxed_upto(min_run, max_run, table, s, d as nat, k))
            })
    }

    /// A seed is reached at cost zero.
    pub proof fn lemma_reaches_seed(&self, min_run: usize, max_run: usize, s: SearchState)
        requires
            s.is_seed(),
        ensures
            self.reaches(min_run, max_run, s, 0),
    {
        let p = seq![s];
        assert(self.is_path(min_run, max_run, p));
        assert(p.last() == s);
    }

    /// A path extended by one allowed step is a path, and costs the weight
    /// of the entered cell more.
    pub proof fn lemma_extend_path(&self, min_run: usize, max_run: usize, p: Seq<SearchState>, h: Heading)
        requires
            self.is_path(min_run, max_run, p),
            self.can_move(min_run, max_run, p.last(), h),
        ensures
            self.is_path(min_run, max_run, p.push(p.last().moved(h))),
            self.path_cost(p.push(p.last().moved(h))) == self.path_cost(p) + self.weight(
                p.last().moved(h).row as int,
                p.last().moved(h).col as int,
            ),
    {
        let t = p.last().moved(h);
        let q = p.push(t);
        assert forall|i: int| 0 <= i < q.len() - 1 implies #[trigger] self.step_at(min_run, max_run, q, i) by {
            if i < p.len() - 1 {
                assert(self.step_at(min_run, max_run, p, i));
            }
        }
        assert(q.drop_last() =~= p);
    }

    /// A state reached at cost `d` reaches its successor at `d` plus the
    /// weight of the cell entered.
    pub proof fn lemma_reaches_step(&self, min_run: usize, max_run: usize, s: SearchState, d: nat, h: Heading)
        requires
            self.reaches(min_run, max_run, s, d),
            self.can_move(min_run, max_run, s, h),
        ensures
            self.reaches(
                min_run,
                max_run,
                s.moved(h),
                d + self.weight(s.moved(h).row as int, s.moved(h).col as int),
            ),
    {
        let p = choose|p: Seq<SearchState>| #[trigger]
            self.is_path(min_run, max_run, p) && p.last() == s && self.path_cost(p) == d;
        self.lemma_extend_path(min_run, max_run, p, h);
        let q = p.push(s.moved(h));
        assert(q.last() == s.moved(h));
    }

    /// An allowed step from a valid state ends in a valid state.
    pub proof fn lemma_moved_valid(&self, min_run: usize, max_run: usize, s: SearchState, h: Heading)
        requires
            self.wf(),
            self.valid(max_run, s),
            self.can_move(min_run, max_run, s, h),
        ensures
            self.valid(max_run, s.moved(h)),
            s.moved(h) != s,
    {
    }

    /// A relaxed step stays relaxed when the table improves.
    pub proof fn lemma_relaxed_dir_mono(
        &self,
        min_run: usize,
        max_run: usize,
        before: Seq<Option<u64>>,
        after: Seq<Option<u64>>,
        s: SearchState,
        d: nat,
        h: Heading,
    )
        requires
            self.wf(),
            self.valid(max_run, s),
            before.len() == self.state_count(max_run),
            improves(before, after),
            self.relaxed_dir(min_run, max_run, before, s, d, h),
        ensures
            self.relaxed_dir(min_run, max_run, after, s, d, h),
    {
        if self.can_move(min_run, max_run, s, h) {
            let t = s.moved(h);
            self.lemma_moved_valid(min_run, max_run, s, h);
            self.lemma_slot_bound(max_run, t);
            let i = self.slot(max_run, t);
            if before[i] is Some {
                assert(after[i] is Some);
            }
        }
    }

    /// Relaxed steps stay relaxed when the table improves.
    pub proof fn lemma_relaxed_upto_mono(
        &self,
        min_run: usize,
        max_run: usize,
        before: Seq<Option<u64>>,
        after: Seq<Option<u64>>,
        s: SearchState,
        d: nat,
        k: int,
    )
        requires
            self.wf(),
            self.valid(max_run, s),
            before.len() == self.state_count(max_run),
            improves(before, after),
            self.relaxed_upto(min_run, max_run, before, s, d, k),
        ensures
            self.relaxed_upto(min_run, max_run, after, s, d, k),
    {
        if k > 0 {
            self.lemma_relaxed_dir_mono(min_run, max_run, before, after, s, d, Heading::Down);
        }
        if k > 1 {
            self.lemma_relaxed_dir_mono(min_run, max_run, before, after, s, d, Heading::Right);
        }
        if k > 2 {
            self.lemma_relaxed_dir_mono(min_run, max_run, before, after, s, d, Heading::Up);
        }
        if k > 3 {
            self.lemma_relaxed_dir_mono(min_run, max_run, before, after, s, d, Heading::Left);
        }
    }

    /// Relaxing one more heading extends the relaxed prefix by one.
    pub proof fn lemma_relaxed_upto_next(
        &self,
        min_run: usize,
        max_run: usize,
        table: Seq<Option<u64>>,
        s: SearchState,
        d: nat,
        h: Heading,
    )
        requires
            self.relaxed_upto(min_run, max_run, table, s, d, h.ordinal()),
            self.relaxed_dir(min_run, max_run, table, s, d, h),
        ensures
            self.relaxed_upto(min_run, max_run, table, s, d, h.ordinal() + 1),
    {
    }
}

/// Tries the step from `cur` in heading `dir`. When it is allowed and leads
/// to a state at a cost below the one the table holds, the table takes the
/// new cost and the state joins the frontier.
pub fn relax(
    grid: &Grid,
    min_run: usize,
    max_run: usize,
    table: &mut Vec<Option<u64>>,
    frontier: &mut Frontier,
    cur: Node,
    dir: Heading,
)
    requires
        grid.wf(),
        1 <= max_run,
        grid.state_count(max_run) <= usize::MAX,
        old(frontier).wf(),
        grid.sound(min_run, max_run, old(table)@),
        grid.front_ok(min_run, max_run, old(table)@, old(frontier)@),
        grid.pending(min_run, max_run, old(table)@, old(frontier)@, cur, dir.ordinal()),
        grid.valid(max_run, cur.state),
        grid.reaches(min_run, max_run, cur.state, cur.dist as nat),
    ensures
        final(frontier).wf(),
        grid.sound(min_run, max_run, final(table)@),
        grid.front_ok(min_run, max_run, final(table)@, final(frontier)@),
        grid.pending(min_run, max_run, final(table)@, final(frontier)@, cur, dir.ordinal() + 1),
        improves(old(table)@, final(table)@),
        total(final(table)@) <= total(old(table)@),
        total(final(table)@) == total(old(table)@) ==> final(frontier).spec_len() == old(frontier).spec_len(),
        total(final(table)@) < total(old(table)@) ==> final(frontier).spec_len() == old(frontier).spec_len() + 1,
{
    let ghost table0 = table@;
    let ghost front0 = frontier@;
    match cur.next(dir, min_run, max_run, grid) {
        None => {
            proof {
                assert forall|s: SearchState| grid.valid(max_run, s) implies ((#[trigger] grid.best(max_run, table0, s)) matches Some(
                    d,
                ) ==> {
                    ||| front0.contains(Node { state: s, dist: d })
                    ||| grid.relaxed_upto(min_run, max_run, table0, s, d as nat, 4)
                    ||| (s == cur.state && d == cur.dist && grid.relaxed_upto(
                        min_run,
                        max_run,
                        table0,
                        s,
                        d as nat,
                        dir.ordinal() + 1,
                    ))
                }) by {
                    if let Some(d) = grid.best(max_run, table0, s) {
                        if s == cur.state && d == cur.dist && grid.relaxed_upto(min_run, max_run, table0, s, d as nat, dir.ordinal()) {
                            grid.lemma_relaxed_upto_next(min_run, max_run, table0, s, d as nat, dir);
                        }
                    }
                }
            }
        },
        Some(nx) => {
            proof {
                grid.lemma_moved_valid(min_run, max_run, cur.state, dir);
                grid.lemma_reaches_step(min_run, max_run, cur.state, cur.dist as nat, dir);
                grid.lemma_slot_bound(max_run, nx.state);
            }
            let j: usize = grid.slot_of(max_run, nx.state);
            let better: bool = match table[j] {
                None => true,
                Some(e) => nx.dist < e,
            };
            if better {
                table.set(j, Some(nx.dist));
                frontier.push(nx);
                proof {
                    let table1 = table@;
                    let front1 = frontier@;
                    lemma_total_update(table0, j as int, nx.dist);
                    assert(improves(table0, table1));
                    // every entry other than the one written is unchanged
                    assert forall|s: SearchState| grid.valid(max_run, s) && s != nx.state implies grid.best(max_run, table1, s)
                        == grid.best(max_run, table0, s) by {
                        grid.lemma_slot_bound(max_run, s);
                        if grid.slot(max_run, s) == grid.slot(max_run, nx.state) {
                            grid.lemma_slot_unique(max_run, s, nx.state);
                        }
                    }
                    assert(grid.best(max_run, table1, nx.state) == Some(nx.dist));
                    assert forall|s: SearchState| grid.valid(max_run, s) implies ((#[trigger] grid.best(max_run, table1, s)) matches Some(
                        d,
                    ) ==> grid.reaches(min_run, max_run, s, d as nat)) by {
                        if s != nx.state {
                            assert(grid.best(max_run, table1, s) == grid.best(max_run, table0, s));
                        }
                    }
                    assert forall|s: SearchState| #[trigger] s.is_seed() implies grid.best(max_run, table1, s) == Some(
                        0u64,
                    ) by {
                        assert(grid.best(max_run, table0, s) == Some(0u64));
                        assert(grid.valid(max_run, s));
                        if s != nx.state {
                            assert(grid.best(max_run, table1, s) == grid.best(max_run, table0, s));
                        }
                    }
                    assert forall|node: Node| #[trigger] front1.contains(node) implies {
                        &&& grid.valid(max_run, node.state)
                        &&& grid.reaches(min_run, max_run, node.state, node.dist as nat)
                        &&& grid.best(max_run, table1, node.state) matches Some(e) && e <= node.dist
                    } by {
                        if node != nx {
                            assert(front0.contains(node));
                            if node.state != nx.state {
                                assert(grid.best(max_run, table1, node.state) == grid.best(max_run, table0, node.state));
                            }
                        }
                    }
                    assert forall|s: SearchState| grid.valid(max_run, s) implies ((#[trigger] grid.best(max_run, table1, s)) matches Some(
                        d,
                    ) ==> {
                        ||| front1.contains(Node { state: s, dist: d })
                        ||| grid.relaxed_upto(min_run, max_run, table1, s, d as nat, 4)
                        ||| (s == cur.state && d == cur.dist && grid.relaxed_upto(
                            min_run,
                            max_run,
                            table1,
                            s,
                            d as nat,
                            dir.ordinal() + 1,
                        ))
                    }) by {
                        if let Some(d) = grid.best(max_run, table1, s) {
                            if s == nx.state {
                                assert(front1.contains(nx));
                            } else {
                                assert(grid.best(max_run, table0, s) == Some(d));
                                if front0.contains(Node { state: s, dist: d }) {
                                    assert(front1.contains(Node { state: s, dist: d }));
                                } else if grid.relaxed_upto(min_run, max_run, table0, s, d as nat, 4) {
                                    grid.lemma_relaxed_upto_mono(min_run, max_run, table0, table1, s, d as nat, 4);
                                } else {
                                    grid.lemma_relaxed_upto_mono(min_run, max_run, table0, table1, s, d as nat, dir.ordinal());
                                    assert(grid.relaxed_dir(min_run, max_run, table1, s, d as nat, dir));
                                    grid.lemma_relaxed_upto_next(min_run, max_run, table1, s, d as nat, dir);
                                }
                            }
                        }
                    }
                }
            } else {
                proof {
                    assert forall|s: SearchState| grid.valid(max_run, s) implies ((#[trigger] grid.best(max_run, table0, s)) matches Some(
                        d,
                    ) ==> {
                        ||| front0.contains(Node { state: s, dist: d })
                        ||| grid.relaxed_upto(min_run, max_run, table0, s, d as nat, 4)
                        ||| (s == cur.state && d == cur.dist && grid.relaxed_upto(
                            min_run,
                            max_run,
                            table0,
                            s,
                            d as nat,
                            dir.ordinal() + 1,
                        ))
                    }) by {
                        if let Some(d) = grid.best(max_run, table0, s) {
                            if s == cur.state && d == cur.dist && grid.relaxed_upto(
                                min_run,
                                max_run,
                                table0,
                                s,
                                d as nat,
                                dir.ordinal(),
                            ) {
                                assert(grid.relaxed_dir(min_run, max_run, table0, s, d as nat, dir));
                                grid.lemma_relaxed_upto_next(min_run, max_run, table0, s, d as nat, dir);
                            }
                        }
                    }
                }
            }
        },
    }
}

} // verus!
