//! The search itself: seeding, relaxation until the frontier is empty, and
//! the scan of the goal cell's states.

use vstd::prelude::*;
use vstd::multiset::Multiset;
use crate::day17::frontier::Frontier;
use crate::day17::model::{Grid, Heading, Node, SearchState};
use crate::day17::search::relax;
use crate::day17::table::total;

verus! {

/// An entry other than the one removed from a multiset is still in it, and
/// whatever is in it afterwards was in it before.
pub proof fn lemma_remove_other(m: Multiset<Node>, x: Node, y: Node)
    requires
        m.contains(x),
    ensures
        m.remove(x).contains(y) ==> m.contains(y),
        y != x && m.contains(y) ==> m.remove(x).contains(y),
{
    broadcast use vstd::multiset::group_multiset_axioms;

}

impl Grid {
    /// Every state the table knows is waiting in the frontier at its best
    /// cost or fully relaxed.
    pub open spec fn settled(
        &self,
        min_run: usize,
        max_run: usize,
        table: Seq<Option<u64>>,
        front: Multiset<Node>,
    ) -> bool {
        forall|s: SearchState|
            self.valid(max_run, s) ==> ((#[trigger] self.best(max_run, table, s)) matches Some(d) ==> {
                ||| front.contains(Node { state: s, dist: d })
                ||| self.relaxed_upto(min_run, max_run, table, s, d as nat, 4)
            })
    }

    /// `s` stands on the bottom-right cell.
    pub open spec fn at_goal(&self, s: SearchState) -> bool {
        s.row == self.height() - 1 && s.col == self.width() - 1
    }

    /// `acc` is the least cost the table holds among the goal states that
    /// come before heading number `k`, run length `run` in the scan order.
    pub open spec fn scanned(
        &self,
        max_run: usize,
        table: Seq<Option<u64>>,
        acc: Option<u64>,
        k: int,
        run: int,
    ) -> bool {
        &&& forall|g: SearchState|
            self.valid(max_run, g) && self.at_goal(g) && (g.dir.ordinal() < k || (g.dir.ordinal() == k && g.run < run))
                ==> ((#[trigger] self.best(max_run, table, g)) matches Some(d) ==> acc matches Some(m) && m <= d)
        &&& acc matches Some(m) ==> exists|g: SearchState|
            self.valid(max_run, g) && self.at_goal(g) && #[trigger] self.best(max_run, table, g) == Some(m)
    }
}

/// A computed cost as the mathematical cost it stands for.
pub open spec fn as_cost(r: Option<u64>) -> Option<nat> {
    match r {
        Some(c) => Some(c as nat),
        None => None,
    }
}

/// A table of `n` empty slots.
fn empty_table(n: usize) -> (table: Vec<Option<u64>>)
    ensures
        table@.len() == n,
        forall|i: int| 0 <= i < n ==> (#[trigger] table@[i]) is None,
{
    let mut table: Vec<Option<u64>> = Vec::new();
    let mut i: usize = 0;
    while i < n
        invariant
            i <= n,
            table@.len() == i,
            forall|k: int| 0 <= k < i ==> (#[trigger] table@[k]) is None,
        decreases n - i,
    {
        table.push(None);
        i += 1;
    }
    table
}

/// Fills the table and the frontier with the four seeds.
fn seed(grid: &Grid, min_run: usize, max_run: usize, table: &mut Vec<Option<u64>>, frontier: &mut Frontier)
    requires
        grid.wf(),
        1 <= max_run,
        grid.state_count(max_run) <= usize::MAX,
        old(table)@.len() == grid.state_count(max_run),
        forall|i: int| 0 <= i < old(table)@.len() ==> (#[trigger] old(table)@[i]) is None,
        old(frontier).wf(),
        old(frontier)@ == Multiset::<Node>::empty(),
    ensures
        final(frontier).wf(),
        grid.sound(min_run, max_run, final(table)@),
        grid.front_ok(min_run, max_run, final(table)@, final(frontier)@),
        grid.settled(min_run, max_run, final(table)@, final(frontier)@),
{
    let seeds = Node::start();
    let mut k: usize = 0;
    proof {
        broadcast use vstd::multiset::group_multiset_axioms;

        assert forall|s: SearchState| grid.valid(max_run, s) implies (#[trigger] grid.best(max_run, table@, s)) is None by {
            grid.lemma_slot_bound(max_run, s);
        }
        assert forall|node: Node| !(#[trigger] frontier@.contains(node)) by {
        }
    }
    while k < 4
        invariant
            k <= 4,
            grid.wf(),
            1 <= max_run,
            grid.state_count(max_run) <= usize::MAX,
            table@.len() == grid.state_count(max_run),
            frontier.wf(),
            forall|i: int|
                0 <= i < 4 ==> {
                    &&& (#[trigger] seeds[i]).state.is_seed()
                    &&& seeds[i].state.dir.ordinal() == i
                    &&& seeds[i].dist == 0
                },
            forall|s: SearchState|
                grid.valid(max_run, s) ==> ((#[trigger] grid.best(max_run, table@, s)) matches Some(d) ==> s.is_seed()
                    && d == 0 && frontier@.contains(Node { state: s, dist: 0 })),
            forall|s: SearchState|
                s.is_seed() && s.dir.ordinal() < k ==> #[trigger] grid.best(max_run, table@, s) == Some(0u64),
            forall|node: Node| #[trigger] frontier@.contains(node) ==> node.state.is_seed() && node.dist == 0,
        decreases 4 - k,
    {
        let node: Node = seeds[k];
        assert(seeds[k as int].state.is_seed());
        proof {
            grid.lemma_slot_bound(max_run, node.state);
        }
        let j: usize = grid.slot_of(max_run, node.state);
        let ghost table0 = table@;
        let ghost front0 = frontier@;
        table.set(j, Some(0));
        frontier.push(node);
        proof {
            broadcast use vstd::multiset::group_multiset_axioms;

            assert forall|s: SearchState| grid.valid(max_run, s) && s != node.state implies grid.best(
                max_run,
                table@,
                s,
            ) == grid.best(max_run, table0, s) by {
                grid.lemma_slot_bound(max_run, s);
                if grid.slot(max_run, s) == grid.slot(max_run, node.state) {
                    grid.lemma_slot_unique(max_run, s, node.state);
                }
            }
            assert forall|s: SearchState| grid.valid(max_run, s) implies ((#[trigger] grid.best(max_run, table@, s)) matches Some(
                d,
            ) ==> s.is_seed() && d == 0 && frontier@.contains(Node { state: s, dist: 0 })) by {
                if s != node.state {
                    assert(grid.best(max_run, table@, s) == grid.best(max_run, table0, s));
                    if grid.best(max_run, table0, s) is Some {
                        assert(front0.contains(Node { state: s, dist: 0 }));
                    }
                } else {
                    assert(frontier@.contains(node));
                }
            }
            assert forall|nd: Node| #[trigger] frontier@.contains(nd) implies nd.state.is_seed() && nd.dist == 0 by {
                if nd != node {
                    assert(front0.contains(nd));
                }
            }
            assert forall|s: SearchState| s.is_seed() && s.dir.ordinal() < k + 1 implies #[trigger] grid.best(
                max_run,
                table@,
                s,
            ) == Some(0u64) by {
                assert(grid.valid(max_run, s));
                if s != node.state {
                    assert(grid.best(max_run, table@, s) == grid.best(max_run, table0, s));
                    assert(s.dir.ordinal() != k);
                }
            }
        }
        k += 1;
    }
    proof {
        assert forall|s: SearchState| grid.valid(max_run, s) implies ((#[trigger] grid.best(max_run, table@, s)) matches Some(
            d,
        ) ==> grid.reaches(min_run, max_run, s, d as nat)) by {
            if grid.best(max_run, table@, s) is Some {
                grid.lemma_reaches_seed(min_run, max_run, s);
            }
        }
        assert forall|node: Node| #[trigger] frontier@.contains(node) implies {
            &&& grid.valid(max_run, node.state)
            &&& grid.reaches(min_run, max_run, node.state, node.dist as nat)
            &&& grid.best(max_run, table@, node.state) matches Some(e) && e <= node.dist
        } by {
            grid.lemma_reaches_seed(min_run, max_run, node.state);
            assert(grid.best(max_run, table@, node.state) == Some(0u64));
        }
    }
}

/// Relaxes until the frontier is empty.
fn exhaust(grid: &Grid, min_run: usize, max_run: usize, table: &mut Vec<Option<u64>>, frontier: &mut Frontier)
    requires
        grid.wf(),
        1 <= max_run,
        grid.state_count(max_run) <= usize::MAX,
        old(frontier).wf(),
        grid.sound(min_run, max_run, old(table)@),
        grid.front_ok(min_run, max_run, old(table)@, old(frontier)@),
        grid.settled(min_run, max_run, old(table)@, old(frontier)@),
    ensures
        grid.sound(min_run, max_run, final(table)@),
        grid.all_relaxed(min_run, max_run, final(table)@),
{
    loop
        invariant
            grid.wf(),
            1 <= max_run,
            grid.state_count(max_run) <= usize::MAX,
            frontier.wf(),
            grid.sound(min_run, max_run, table@),
            grid.front_ok(min_run, max_run, table@, frontier@),
            grid.settled(min_run, max_run, table@, frontier@),
        ensures
            grid.sound(min_run, max_run, table@),
            grid.all_relaxed(min_run, max_run, table@),
        decreases total(table@), frontier.spec_len(),
    {
        let ghost front0 = frontier@;
        let ghost total0 = total(table@);
        let ghost len0 = frontier.spec_len();
        let cur: Node = match frontier.pop() {
            None => {
                proof {
                    frontier.lemma_len();
                    broadcast use vstd::multiset::group_multiset_axioms;

                    assert forall|s: SearchState| grid.valid(max_run, s) implies ((#[trigger] grid.best(
                        max_run,
                        table@,
                        s,
                    )) matches Some(d) ==> grid.relaxed_upto(min_run, max_run, table@, s, d as nat, 4)) by {
                        if let Some(d) = grid.best(max_run, table@, s) {
                            assert(!frontier@.contains(Node { state: s, dist: d }));
                        }
                    }
                }
                break;
            },
            Some(node) => node,
        };
        assert(front0.contains(cur));
        proof {
            grid.lemma_slot_bound(max_run, cur.state);
            assert forall|node: Node| #[trigger] frontier@.contains(node) implies front0.contains(node) by {
                lemma_remove_other(front0, cur, node);
            }
        }
        let j: usize = grid.slot_of(max_run, cur.state);
        let known: u64 = match table[j] {
            Some(e) => e,
            None => cur.dist,
        };
        if known < cur.dist {
            proof {
                assert forall|s: SearchState| grid.valid(max_run, s) implies ((#[trigger] grid.best(
                    max_run,
                    table@,
                    s,
                )) matches Some(d) ==> {
                    ||| frontier@.contains(Node { state: s, dist: d })
                    ||| grid.relaxed_upto(min_run, max_run, table@, s, d as nat, 4)
                }) by {
                    if let Some(d) = grid.best(max_run, table@, s) {
                        lemma_remove_other(front0, cur, Node { state: s, dist: d });
                    }
                }
            }
            continue;
        }
        proof {
            assert forall|s: SearchState| grid.valid(max_run, s) implies ((#[trigger] grid.best(max_run, table@, s)) matches Some(
                d,
            ) ==> {
                ||| frontier@.contains(Node { state: s, dist: d })
                ||| grid.relaxed_upto(min_run, max_run, table@, s, d as nat, 4)
                ||| (s == cur.state && d == cur.dist && grid.relaxed_upto(min_run, max_run, table@, s, d as nat, 0))
            }) by {
                if let Some(d) = grid.best(max_run, table@, s) {
                    lemma_remove_other(front0, cur, Node { state: s, dist: d });
                }
            }
        }
        relax(grid, min_run, max_run, table, frontier, cur, Heading::Down);
        relax(grid, min_run, max_run, table, frontier, cur, Heading::Right);
        relax(grid, min_run, max_run, table, frontier, cur, Heading::Up);
        relax(grid, min_run, max_run, table, frontier, cur, Heading::Left);
        proof {
            assert forall|s: SearchState| grid.valid(max_run, s) implies ((#[trigger] grid.best(max_run, table@, s)) matches Some(
                d,
            ) ==> {
                ||| frontier@.contains(Node { state: s, dist: d })
                ||| grid.relaxed_upto(min_run, max_run, table@, s, d as nat, 4)
            }) by {
            }
        }
    }
}

/// The least cost the table holds among the states on the goal cell.
fn scan_goal(grid: &Grid, max_run: usize, table: &Vec<Option<u64>>) -> (acc: Option<u64>)
    requires
        grid.wf(),
        1 <= max_run < usize::MAX,
        grid.state_count(max_run) <= usize::MAX,
        table@.len() == grid.state_count(max_run),
    ensures
        grid.scanned(max_run, table@, acc, 4, 0),
{
    let row: usize = grid.rows() - 1;
    let col: usize = grid.cols() - 1;
    let mut acc: Option<u64> = None;
    let mut k: usize = 0;
    while k < 4
        invariant
            k <= 4,
            grid.wf(),
            1 <= max_run < usize::MAX,
            grid.state_count(max_run) <= usize::MAX,
            table@.len() == grid.state_count(max_run),
            row == grid.height() - 1,
            col == grid.width() - 1,
            grid.scanned(max_run, table@, acc, k as int, 0),
        decreases 4 - k,
    {
        let dir = Heading::from_ordinal(k);
        let mut run: usize = 1;
        while run <= max_run
            invariant
                k < 4,
                dir.ordinal() == k,
                1 <= run <= max_run + 1,
                grid.wf(),
                1 <= max_run < usize::MAX,
                grid.state_count(max_run) <= usize::MAX,
                table@.len() == grid.state_count(max_run),
                row == grid.height() - 1,
                col == grid.width() - 1,
                grid.scanned(max_run, table@, acc, k as int, run as int),
            decreases max_run + 1 - run,
        {
            let g = SearchState { row, col, dir, run };
            let j: usize = grid.slot_of(max_run, g);
            let ghost acc0 = acc;
            match table[j] {
                Some(d) => {
                    let lower: bool = match acc {
                        None => true,
                        Some(m) => d < m,
                    };
                    if lower {
                        acc = Some(d);
                    }
                },
                None => {},
            }
            proof {
                assert(grid.best(max_run, table@, g) == table@[j as int]);
                assert forall|s: SearchState|
                    grid.valid(max_run, s) && grid.at_goal(s) && (s.dir.ordinal() < k || (s.dir.ordinal() == k && s.run
                        < run + 1)) implies ((#[trigger] grid.best(max_run, table@, s)) matches Some(d) ==> acc matches Some(
                    m,
                ) && m <= d) by {
                    if s.dir.ordinal() == k && s.run == run {
                        assert(s == g);
                    }
                }
                if let Some(m) = acc {
                    if acc != acc0 {
                        assert(grid.valid(max_run, g) && grid.at_goal(g) && grid.best(max_run, table@, g) == Some(m));
                    } else {
                        let w = choose|w: SearchState|
                            grid.valid(max_run, w) && grid.at_goal(w) && #[trigger] grid.best(max_run, table@, w)
                                == Some(m);
                        assert(grid.valid(max_run, w) && grid.at_goal(w) && grid.best(max_run, table@, w) == Some(m));
                    }
                }
            }
            run += 1;
        }
        k += 1;
    }
    acc
}

/// The search proper. It asks nothing of `min_run`: where it lies above
/// `max_run` no turn is ever allowed, and the cheapest cost is that of the
/// straight runs from the start.
fn search(grid: &Grid, min_run: usize, max_run: usize) -> (r: Option<u64>)
    requires
        grid.wf(),
        1 <= max_run,
        grid.state_count(max_run) * 255 <= usize::MAX,
    ensures
        r matches Some(c) ==> grid.is_min_cost(min_run, max_run, c as nat),
        r is None ==> forall|p: Seq<SearchState>| !grid.is_goal_path(min_run, max_run, p),
        as_cost(r) == grid.min_cost(min_run, max_run),
{
    let ghost origin = SearchState { row: 0, col: 0, dir: Heading::Down, run: 1 };
    proof {
        grid.lemma_slot_bound(max_run, origin);
        let cells = grid.height() * grid.width();
        assert(cells * 4 * max_run >= max_run) by (nonlinear_arith)
            requires
                cells >= 1,
                max_run >= 0,
        ;
    }
    let cells: usize = grid.rows() * grid.cols();
    let n: usize = cells * 4 * max_run;
    let mut table = empty_table(n);
    let mut frontier = Frontier::new();
    seed(grid, min_run, max_run, &mut table, &mut frontier);
    exhaust(grid, min_run, max_run, &mut table, &mut frontier);
    let acc = scan_goal(grid, max_run, &table);
    proof {
        match acc {
            Some(m) => {
                let g = choose|g: SearchState|
                    grid.valid(max_run, g) && grid.at_goal(g) && #[trigger] grid.best(max_run, table@, g) == Some(m);
                assert(grid.reaches(min_run, max_run, g, m as nat));
                let p = choose|p: Seq<SearchState>| #[trigger]
                    grid.is_path(min_run, max_run, p) && p.last() == g && grid.path_cost(p) == m as nat;
                assert(grid.is_goal_path(min_run, max_run, p) && grid.path_cost(p) == m as nat);
                assert forall|q: Seq<SearchState>| #[trigger] grid.is_goal_path(min_run, max_run, q) implies m
                    <= grid.path_cost(q) by {
                    if grid.path_cost(q) <= u64::MAX {
                        grid.lemma_table_complete(min_run, max_run, table@, q);
                        grid.lemma_path_states_valid(min_run, max_run, q, q.len() - 1);
                    }
                }
                assert(grid.is_min_cost(min_run, max_run, m as nat));
                grid.lemma_min_cost_is(min_run, max_run, m as nat);
            },
            None => {
                assert forall|p: Seq<SearchState>| !grid.is_goal_path(min_run, max_run, p) by {
                    if grid.is_goal_path(min_run, max_run, p) {
                        grid.lemma_short_path(min_run, max_run, p);
                        let q = choose|q: Seq<SearchState>| #[trigger]
                            grid.is_path(min_run, max_run, q) && q.last() == p.last() && q.len()
                                <= grid.state_count(max_run);
                        grid.lemma_cost_bound(q);
                        grid.lemma_table_complete(min_run, max_run, table@, q);
                        grid.lemma_path_states_valid(min_run, max_run, q, q.len() - 1);
                        assert(grid.best(max_run, table@, q.last()) is Some);
                    }
                }
            },
        }
    }
    acc
}

} // verus!

verus! {

/// Why a search was refused or found nothing.
#[derive(Clone, Copy, Debug, PartialEq, Eq, Structural)]
pub enum SolveError {
    /// The run limits do not satisfy `1 <= min_run <= max_run`.
    InvalidBounds,
    /// The grid and `max_run` give more search states than the table of
    /// best costs can hold.
    TooLarge,
    /// No allowed path reaches the bottom-right cell.
    Unreachable,
}

/// The longest run that the grid has room for: the larger of its height
/// and its width.
pub open spec fn longest_run(grid: &Grid) -> int {
    if grid.height() >= grid.width() {
        grid.height()
    } else {
        grid.width()
    }
}

/// The upper limit that the search works with: `max_run`, or the longest
/// run the grid has room for where that is less. No path tells the two
/// apart.
pub open spec fn working_limit(grid: &Grid, max_run: usize) -> usize {
    if max_run <= longest_run(grid) {
        max_run
    } else {
        longest_run(grid) as usize
    }
}

/// The table of best costs for `grid` and `max_run` fits in memory, with
/// room for the cost of any loop-free path.
pub open spec fn fits(grid: &Grid, max_run: usize) -> bool {
    grid.state_count(working_limit(grid, max_run)) * 255 <= usize::MAX
}

/// The upper limit that the search works with.
pub fn clamp_run(grid: &Grid, max_run: usize) -> (r: usize)
    requires
        grid.wf(),
    ensures
        r == working_limit(grid, max_run),
{
    let rows: usize = grid.rows();
    let cols: usize = grid.cols();
    let longest: usize = if rows >= cols {
        rows
    } else {
        cols
    };
    if max_run <= longest {
        max_run
    } else {
        longest
    }
}

/// Decides `fits`.
pub fn check_fits(grid: &Grid, max_run: usize) -> (ok: bool)
    requires
        grid.wf(),
        1 <= max_run,
    ensures
        ok == fits(grid, max_run),
{
    let max_run: usize = clamp_run(grid, max_run);
    let rows: usize = grid.rows();
    let cols: usize = grid.cols();
    let ghost h = rows as int;
    let ghost w = cols as int;
    let ghost m = max_run as int;
    proof {
        assert(h * w >= 1 && h * w * 4 >= h * w && h * w * 4 * m >= h * w * 4 && h * w * 4 * m * 255 >= h * w * 4 * m)
            by (nonlinear_arith)
            requires
                h >= 1,
                w >= 1,
                m >= 1,
        ;
    }
    let cells: usize = match rows.checked_mul(cols) {
        Some(v) => v,
        None => {
            return false;
        },
    };
    let with_dirs: usize = match cells.checked_mul(4) {
        Some(v) => v,
        None => {
            return false;
        },
    };
    let states: usize = match with_dirs.checked_mul(max_run) {
        Some(v) => v,
        None => {
            return false;
        },
    };
    states.checked_mul(255).is_some()
}

/// The cost of a cheapest path from the top-left to the bottom-right cell
/// that never reverses, never takes more than `max_run` consecutive steps in
/// one heading, and turns only after at least `min_run` steps in the heading
/// it leaves. `None` when no such path exists.
///
/// The path may arrive on the bottom-right cell with any run length, also
/// one below `min_run`. The walker starts with a run of one in a heading of
/// its choice, so its first steps count as the continuation of that run.
/// The bound on the number of search states is what the table of best costs
/// needs to fit in memory and what keeps every cost of a loop-free path
/// within a `u64`.
pub fn find_path(grid: &Grid, min_run: usize, max_run: usize) -> (r: Option<u64>)
    requires
        grid.wf(),
        1 <= min_run <= max_run,
        fits(grid, max_run),
    ensures
        r matches Some(c) ==> grid.is_min_cost(min_run, max_run, c as nat),
        r is None ==> forall|p: Seq<SearchState>| !grid.is_goal_path(min_run, max_run, p),
        as_cost(r) == grid.min_cost(min_run, max_run),
{
    let limit: usize = clamp_run(grid, max_run);
    let r = search(grid, min_run, limit);
    proof {
        grid.lemma_working_limit(min_run, max_run, limit);
    }
    r
}

/// The cost of a cheapest allowed path across `grid`, or the reason there
/// is none to report.
pub fn solve(grid: &Grid, min_run: usize, max_run: usize) -> (r: Result<u64, SolveError>)
    requires
        grid.wf(),
    ensures
        r == Err::<u64, SolveError>(SolveError::InvalidBounds) <==> !(1 <= min_run <= max_run),
        r == Err::<u64, SolveError>(SolveError::TooLarge) <==> 1 <= min_run <= max_run && !fits(grid, max_run),
        r == Err::<u64, SolveError>(SolveError::Unreachable) <==> 1 <= min_run <= max_run && fits(grid, max_run)
            && grid.min_cost(min_run, max_run) is None,
        r matches Ok(c) ==> grid.min_cost(min_run, max_run) == Some(c as nat) && grid.is_min_cost(
            min_run,
            max_run,
            c as nat,
        ),
{
    if min_run < 1 || min_run > max_run {
        return Err(SolveError::InvalidBounds);
    }
    if !check_fits(grid, max_run) {
        return Err(SolveError::TooLarge);
    }
    match find_path(grid, min_run, max_run) {
        Some(c) => Ok(c),
        None => Err(SolveError::Unreachable),
    }
}

/// The cheapest cost with runs of one to three steps.
pub fn part_one(grid: &Grid) -> (r: Result<u64, SolveError>)
    requires
        grid.wf(),
    ensures
        r is Ok <==> fits(grid, 3) && grid.min_cost(1, 3) is Some,
        r matches Ok(c) ==> grid.min_cost(1, 3) == Some(c as nat),
        r matches Err(e) ==> e == if fits(grid, 3) {
            SolveError::Unreachable
        } else {
            SolveError::TooLarge
        },
{
    solve(grid, 1, 3)
}

/// The cheapest cost with runs of four to ten steps.
pub fn part_two(grid: &Grid) -> (r: Result<u64, SolveError>)
    requires
        grid.wf(),
    ensures
        r is Ok <==> fits(grid, 10) && grid.min_cost(4, 10) is Some,
        r matches Ok(c) ==> grid.min_cost(4, 10) == Some(c as nat),
        r matches Err(e) ==> e == if fits(grid, 10) {
            SolveError::Unreachable
        } else {
            SolveError::TooLarge
        },
{
    solve(grid, 4, 10)
}

} // verus!
