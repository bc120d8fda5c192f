//! Laws of the cheapest cost that hold for every grid.

use vstd::prelude::*;
use crate::day17::model::{Grid, Heading, SearchState};
use crate::day17::solver::as_cost;

verus! {

impl Grid {
    /// Among the costs of the paths to the goal there is a least one, as
    /// soon as there is one path.
    pub proof fn lemma_min_cost_exists(&self, min_run: usize, max_run: usize, p: Seq<SearchState>)
        requires
            self.is_goal_path(min_run, max_run, p),
        ensures
            exists|c: nat| self.is_min_cost(min_run, max_run, c),
        decreases self.path_cost(p),
    {
        let c = self.path_cost(p);
        if forall|q: Seq<SearchState>| #[trigger] self.is_goal_path(min_run, max_run, q) ==> c <= self.path_cost(q) {
            assert(self.is_min_cost(min_run, max_run, c));
        } else {
            let q = choose|q: Seq<SearchState>| #[trigger]
                self.is_goal_path(min_run, max_run, q) && !(c <= self.path_cost(q));
            self.lemma_min_cost_exists(min_run, max_run, q);
        }
    }

    /// `min_cost` is `Some` exactly when a path reaches the goal, and then
    /// it is the cost of a cheapest one.
    pub proof fn lemma_min_cost_spec(&self, min_run: usize, max_run: usize)
        ensures
            self.min_cost(min_run, max_run) is Some <==> exists|p: Seq<SearchState>| #[trigger]
                self.is_goal_path(min_run, max_run, p),
            self.min_cost(min_run, max_run) matches Some(c) ==> self.is_min_cost(min_run, max_run, c),
    {
        if exists|p: Seq<SearchState>| #[trigger] self.is_goal_path(min_run, max_run, p) {
            let p = choose|p: Seq<SearchState>| #[trigger] self.is_goal_path(min_run, max_run, p);
            self.lemma_min_cost_exists(min_run, max_run, p);
        }
    }

    /// A path stays a path when the run limits are loosened.
    pub proof fn lemma_path_under_looser_limits(
        &self,
        min_a: usize,
        max_a: usize,
        min_b: usize,
        max_b: usize,
        p: Seq<SearchState>,
    )
        requires
            min_b <= min_a,
            max_a <= max_b,
            self.is_path(min_a, max_a, p),
        ensures
            self.is_path(min_b, max_b, p),
    {
        assert forall|i: int| 0 <= i < p.len() - 1 implies #[trigger] self.step_at(min_b, max_b, p, i) by {
            assert(self.step_at(min_a, max_a, p, i));
        }
    }

    /// Loosening the run limits never raises the cheapest cost, and never
    /// makes the goal unreachable.
    pub proof fn lemma_looser_limits_never_cost_more(
        &self,
        min_a: usize,
        max_a: usize,
        min_b: usize,
        max_b: usize,
    )
        requires
            min_b <= min_a,
            max_a <= max_b,
        ensures
            self.min_cost(min_a, max_a) matches Some(a) ==> self.min_cost(min_b, max_b) matches Some(b) && b <= a,
    {
        self.lemma_min_cost_spec(min_a, max_a);
        self.lemma_min_cost_spec(min_b, max_b);
        if let Some(a) = self.min_cost(min_a, max_a) {
            let p = choose|p: Seq<SearchState>| #[trigger]
                self.is_goal_path(min_a, max_a, p) && self.path_cost(p) == a;
            self.lemma_path_under_looser_limits(min_a, max_a, min_b, max_b, p);
            assert(self.is_goal_path(min_b, max_b, p));
        }
    }

    /// Raising `max_run` while `min_run` stays never raises the cheapest
    /// cost: every path allowed before is still allowed.
    pub proof fn lemma_raising_max_run_never_costs_more(&self, min_run: usize, max_run: usize, wider: usize)
        requires
            max_run <= wider,
        ensures
            self.min_cost(min_run, max_run) matches Some(a) ==> self.min_cost(min_run, wider) matches Some(b) && b
                <= a,
    {
        self.lemma_looser_limits_never_cost_more(min_run, max_run, min_run, wider);
    }

    /// Raising `min_run` while `max_run` stays never lowers the cheapest
    /// cost: every path still allowed was allowed before.
    pub proof fn lemma_raising_min_run_never_costs_less(&self, min_run: usize, stricter: usize, max_run: usize)
        requires
            min_run <= stricter,
        ensures
            self.min_cost(stricter, max_run) matches Some(b) ==> self.min_cost(min_run, max_run) matches Some(a) && a
                <= b,
    {
        self.lemma_looser_limits_never_cost_more(stricter, max_run, min_run, max_run);
    }

    /// On a grid whose cells all weigh nothing, the cheapest cost is zero
    /// whatever the run limits, as soon as the goal can be reached.
    pub proof fn lemma_zero_grid_costs_nothing(&self, min_run: usize, max_run: usize)
        requires
            forall|r: int, c: int| 0 <= r < self.height() && 0 <= c < self.width() ==> self.weight(r, c) == 0,
            self.wf(),
            1 <= max_run,
        ensures
            self.min_cost(min_run, max_run) matches Some(c) ==> c == 0,
    {
        self.lemma_min_cost_spec(min_run, max_run);
        if let Some(c) = self.min_cost(min_run, max_run) {
            let p = choose|p: Seq<SearchState>| #[trigger]
                self.is_goal_path(min_run, max_run, p) && self.path_cost(p) == c;
            self.lemma_zero_path(min_run, max_run, p);
        }
    }

    /// A path over cells that all weigh nothing costs nothing.
    pub proof fn lemma_zero_path(&self, min_run: usize, max_run: usize, p: Seq<SearchState>)
        requires
            forall|r: int, c: int| 0 <= r < self.height() && 0 <= c < self.width() ==> self.weight(r, c) == 0,
            self.wf(),
            1 <= max_run,
            self.is_path(min_run, max_run, p),
        ensures
            self.path_cost(p) == 0,
        decreases p.len(),
    {
        if p.len() > 1 {
            self.lemma_path_prefix(min_run, max_run, p);
            self.lemma_zero_path(min_run, max_run, p.drop_last());
            self.lemma_path_states_valid(min_run, max_run, p, p.len() - 1);
        }
    }
}

impl Grid {
    /// The room behind a state: the number of cells from the edge of the
    /// grid that the state has its back to, up to and including its own.
    pub open spec fn room(&self, s: SearchState) -> int {
        match s.dir {
            Heading::Down => s.row + 1,
            Heading::Up => self.height() - s.row,
            Heading::Right => s.col + 1,
            Heading::Left => self.width() - s.col,
        }
    }

    /// No state of a path has a longer run than it has room behind it.
    pub proof fn lemma_run_has_room(&self, min_run: usize, max_run: usize, p: Seq<SearchState>, k: int)
        requires
            self.wf(),
            1 <= max_run,
            self.is_path(min_run, max_run, p),
            0 <= k < p.len(),
        ensures
            1 <= p[k].run <= self.room(p[k]),
            self.room(p[k]) <= self.height() || self.room(p[k]) <= self.width(),
        decreases k,
    {
        self.lemma_path_states_valid(min_run, max_run, p, k);
        if k > 0 {
            self.lemma_run_has_room(min_run, max_run, p, k - 1);
            self.lemma_path_states_valid(min_run, max_run, p, k - 1);
            assert(self.step_at(min_run, max_run, p, k - 1));
        }
    }

    /// An upper limit above the longest run that the grid has room for
    /// allows the same paths as that longest run, and so gives the same
    /// cheapest cost.
    pub proof fn lemma_working_limit(&self, min_run: usize, max_run: usize, limit: usize)
        requires
            self.wf(),
            1 <= max_run,
            limit <= max_run,
            limit == max_run || (limit >= self.height() && limit >= self.width()),
        ensures
            forall|p: Seq<SearchState>|
                #[trigger] self.is_goal_path(min_run, max_run, p) == self.is_goal_path(min_run, limit, p),
            forall|c: nat| #[trigger] self.is_min_cost(min_run, max_run, c) == self.is_min_cost(min_run, limit, c),
            self.min_cost(min_run, max_run) == self.min_cost(min_run, limit),
    {
        assert forall|p: Seq<SearchState>| #[trigger]
            self.is_path(min_run, max_run, p) == self.is_path(min_run, limit, p) by {
            if self.is_path(min_run, limit, p) {
                self.lemma_path_under_looser_limits(min_run, limit, min_run, max_run, p);
            }
            if self.is_path(min_run, max_run, p) {
                assert forall|i: int| 0 <= i < p.len() - 1 implies #[trigger] self.step_at(min_run, limit, p, i) by {
                    assert(self.step_at(min_run, max_run, p, i));
                    self.lemma_run_has_room(min_run, max_run, p, i);
                    self.lemma_run_has_room(min_run, max_run, p, i + 1);
                }
            }
        }
        assert forall|p: Seq<SearchState>|
            #[trigger] self.is_goal_path(min_run, max_run, p) == self.is_goal_path(min_run, limit, p) by {
            assert(self.is_path(min_run, max_run, p) == self.is_path(min_run, limit, p));
        }
        assert forall|c: nat| #[trigger]
            self.is_min_cost(min_run, max_run, c) == self.is_min_cost(min_run, limit, c) by {
            if self.is_min_cost(min_run, max_run, c) {
                let p = choose|p: Seq<SearchState>| #[trigger]
                    self.is_goal_path(min_run, max_run, p) && self.path_cost(p) == c;
                assert(self.is_goal_path(min_run, limit, p));
                assert forall|q: Seq<SearchState>| #[trigger] self.is_goal_path(min_run, limit, q) implies c
                    <= self.path_cost(q) by {
                    assert(self.is_goal_path(min_run, max_run, q));
                }
            }
            if self.is_min_cost(min_run, limit, c) {
                let p = choose|p: Seq<SearchState>| #[trigger]
                    self.is_goal_path(min_run, limit, p) && self.path_cost(p) == c;
                assert(self.is_goal_path(min_run, max_run, p));
                assert forall|q: Seq<SearchState>| #[trigger] self.is_goal_path(min_run, max_run, q) implies c
                    <= self.path_cost(q) by {
                    assert(self.is_goal_path(min_run, limit, q));
                }
            }
        }
        self.lemma_min_cost_spec(min_run, max_run);
        self.lemma_min_cost_spec(min_run, limit);
        match self.min_cost(min_run, max_run) {
            Some(c) => {
                self.lemma_min_cost_is(min_run, limit, c);
            },
            None => {
                if let Some(c) = self.min_cost(min_run, limit) {
                    let p = choose|p: Seq<SearchState>| #[trigger]
                        self.is_goal_path(min_run, limit, p) && self.path_cost(p) == c;
                    assert(self.is_goal_path(min_run, max_run, p));
                }
            },
        }
    }

    /// The path changes its heading with every step, the first included.
    pub open spec fn turns_at_every_step(p: Seq<SearchState>) -> bool {
        forall|i: int| 0 <= i < p.len() - 1 ==> (#[trigger] p[i + 1]).dir != p[i].dir
    }

    /// With both limits at one, the cheapest cost is never below that of
    /// the plain search that only forbids reversing, for which the limits
    /// one and `usize::MAX` stand: no run in a grid is long enough for the
    /// upper limit to bind.
    pub proof fn lemma_unit_runs_cost_at_least_plain(&self)
        ensures
            self.min_cost(1, 1) matches Some(a) ==> self.min_cost(1, usize::MAX) matches Some(b) && b <= a,
    {
        self.lemma_raising_max_run_never_costs_more(1, 1, usize::MAX);
    }

    /// A path that turns at every step has a run of one in every state.
    pub proof fn lemma_turning_path_runs(&self, max_run: usize, p: Seq<SearchState>, k: int)
        requires
            self.is_path(1, max_run, p),
            Self::turns_at_every_step(p),
            0 <= k < p.len(),
        ensures
            p[k].run == 1,
        decreases k,
    {
        if k > 0 {
            self.lemma_turning_path_runs(max_run, p, k - 1);
            assert(self.step_at(1, max_run, p, k - 1));
            assert(p[k - 1 + 1].dir != p[k - 1].dir);
        }
    }

    /// With both limits at one, the search gives the cost of the plain
    /// non-reversing search on exactly the grids where a cheapest path of
    /// the plain search turns at every step: such a path `p` is then a
    /// cheapest path under both pairs of limits.
    pub proof fn lemma_unit_runs_match_plain(&self, p: Seq<SearchState>)
        requires
            self.is_goal_path(1, usize::MAX, p),
            forall|q: Seq<SearchState>| #[trigger]
                self.is_goal_path(1, usize::MAX, q) ==> self.path_cost(p) <= self.path_cost(q),
            Self::turns_at_every_step(p),
        ensures
            self.min_cost(1, 1) == Some(self.path_cost(p)),
            self.min_cost(1, usize::MAX) == Some(self.path_cost(p)),
    {
        assert forall|i: int| 0 <= i < p.len() - 1 implies #[trigger] self.step_at(1, 1, p, i) by {
            assert(self.step_at(1, usize::MAX, p, i));
            self.lemma_turning_path_runs(usize::MAX, p, i);
            assert(p[i + 1].dir != p[i].dir);
        }
        assert(self.is_goal_path(1, 1, p));
        assert forall|q: Seq<SearchState>| #[trigger] self.is_goal_path(1, 1, q) implies self.path_cost(p)
            <= self.path_cost(q) by {
            self.lemma_path_under_looser_limits(1, 1, 1, usize::MAX, q);
            assert(self.is_goal_path(1, usize::MAX, q));
        }
        assert(self.is_min_cost(1, 1, self.path_cost(p)));
        assert(self.is_min_cost(1, usize::MAX, self.path_cost(p)));
        self.lemma_min_cost_is(1, 1, self.path_cost(p));
        self.lemma_min_cost_is(1, usize::MAX, self.path_cost(p));
    }

    /// With both limits at one, every step of a path is a turn.
    pub proof fn lemma_unit_runs_turn(&self, p: Seq<SearchState>)
        requires
            self.wf(),
            self.is_path(1, 1, p),
        ensures
            Self::turns_at_every_step(p),
    {
        assert forall|i: int| 0 <= i < p.len() - 1 implies (#[trigger] p[i + 1]).dir != p[i].dir by {
            assert(self.step_at(1, 1, p, i));
            self.lemma_path_states_valid(1, 1, p, i);
        }
    }

    /// With both limits at one, the search gives the result of the plain
    /// non-reversing search on these grids and no others: those on which
    /// the plain search reaches nothing, and those on which one of its
    /// cheapest paths turns at every step.
    pub proof fn lemma_unit_runs_against_plain(&self)
        requires
            self.wf(),
        ensures
            self.min_cost(1, 1) == self.min_cost(1, usize::MAX) <==> (self.min_cost(1, usize::MAX) is None
                || exists|p: Seq<SearchState>|
                #![trigger self.is_goal_path(1, usize::MAX, p)]
                self.is_goal_path(1, usize::MAX, p) && Self::turns_at_every_step(p) && self.min_cost(1, usize::MAX)
                    == Some(self.path_cost(p))),
    {
        self.lemma_unit_runs_cost_at_least_plain();
        self.lemma_min_cost_spec(1, 1);
        self.lemma_min_cost_spec(1, usize::MAX);
        if self.min_cost(1, 1) == self.min_cost(1, usize::MAX) {
            if let Some(c) = self.min_cost(1, 1) {
                let p = choose|p: Seq<SearchState>| #[trigger] self.is_goal_path(1, 1, p) && self.path_cost(p) == c;
                self.lemma_unit_runs_turn(p);
                self.lemma_path_under_looser_limits(1, 1, 1, usize::MAX, p);
                assert(self.is_goal_path(1, usize::MAX, p) && Self::turns_at_every_step(p) && self.min_cost(
                    1,
                    usize::MAX,
                ) == Some(self.path_cost(p)));
            }
        }
        if exists|p: Seq<SearchState>|
            #![trigger self.is_goal_path(1, usize::MAX, p)]
            self.is_goal_path(1, usize::MAX, p) && Self::turns_at_every_step(p) && self.min_cost(1, usize::MAX) == Some(
                self.path_cost(p),
            ) {
            let p = choose|p: Seq<SearchState>|
                #![trigger self.is_goal_path(1, usize::MAX, p)]
                self.is_goal_path(1, usize::MAX, p) && Self::turns_at_every_step(p) && self.min_cost(1, usize::MAX)
                    == Some(self.path_cost(p));
            self.lemma_unit_runs_match_plain(p);
        }
    }
}

/// Two results that both stand for the cheapest cost of one grid under one
/// pair of limits are the same result: repeated searches agree.
pub proof fn lemma_result_determined(grid: &Grid, min_run: usize, max_run: usize, a: Option<u64>, b: Option<u64>)
    requires
        as_cost(a) == grid.min_cost(min_run, max_run),
        as_cost(b) == grid.min_cost(min_run, max_run),
    ensures
        a == b,
{
}

} // verus!
