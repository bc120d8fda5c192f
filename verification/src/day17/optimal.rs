//! Why a table that no relaxation can improve holds the cheapest cost of
//! every state, and why a reachable state is reached by a short path.

use vstd::prelude::*;
use vstd::set_lib::{lemma_int_range, lemma_len_subset, set_int_range};
use crate::day17::model::{Grid, Heading, SearchState};

verus! {

/// More numbers than `n`, all of them in `0..n`, include the same number
/// twice.
pub proof fn lemma_pigeonhole(s: Seq<int>, n: int)
    requires
        0 <= n < s.len(),
        forall|k: int| 0 <= k < s.len() ==> 0 <= #[trigger] s[k] < n,
    ensures
        exists|i: int, j: int| 0 <= i < j < s.len() && s[i] == s[j],
{
    if s.no_duplicates() {
        s.unique_seq_to_set();
        lemma_int_range(0, n);
        assert(s.to_set().subset_of(set_int_range(0, n))) by {
            assert forall|x: int| s.to_set().contains(x) implies set_int_range(0, n).contains(x) by {
                let k = choose|k: int| 0 <= k < s.len() && s[k] == x;
                assert(0 <= s[k] < n);
            }
        }
        lemma_len_subset(s.to_set(), set_int_range(0, n));
    } else {
        let (a, b) = choose|a: int, b: int| 0 <= a < s.len() && 0 <= b < s.len() && a != b && s[a] == s[b];
        if a < b {
            assert(0 <= a < b < s.len() && s[a] == s[b]);
        } else {
            assert(0 <= b < a < s.len() && s[b] == s[a]);
        }
    }
}

impl Grid {
    /// Every state the table knows is fully relaxed.
    pub open spec fn all_relaxed(&self, min_run: usize, max_run: usize, table: Seq<Option<u64>>) -> bool {
        forall|s: SearchState|
            self.valid(max_run, s) ==> ((#[trigger] self.best(max_run, table, s)) matches Some(d) ==> self.relaxed_upto(
                min_run,
                max_run,
                table,
                s,
                d as nat,
                4,
            ))
    }

    /// A path without its last state is a path, and its last step is an
    /// allowed one.
    pub proof fn lemma_path_prefix(&self, min_run: usize, max_run: usize, p: Seq<SearchState>)
        requires
            self.is_path(min_run, max_run, p),
            p.len() >= 2,
        ensures
            self.is_path(min_run, max_run, p.drop_last()),
            self.is_step(min_run, max_run, p[p.len() - 2], p.last()),
            p.drop_last().last() == p[p.len() - 2],
    {
        let q = p.drop_last();
        assert forall|i: int| 0 <= i < q.len() - 1 implies #[trigger] self.step_at(min_run, max_run, q, i) by {
            assert(self.step_at(min_run, max_run, p, i));
        }
        assert(self.step_at(min_run, max_run, p, p.len() - 2));
    }

    /// Every state of a path is valid.
    pub proof fn lemma_path_states_valid(&self, min_run: usize, max_run: usize, p: Seq<SearchState>, k: int)
        requires
            self.wf(),
            1 <= max_run,
            self.is_path(min_run, max_run, p),
            0 <= k < p.len(),
        ensures
            self.valid(max_run, p[k]),
        decreases k,
    {
        if k > 0 {
            self.lemma_path_states_valid(min_run, max_run, p, k - 1);
            assert(self.step_at(min_run, max_run, p, k - 1));
            self.lemma_moved_valid(min_run, max_run, p[k - 1], p[k].dir);
        }
    }

    /// A path of `n` states costs at most `255 * (n - 1)`.
    pub proof fn lemma_cost_bound(&self, p: Seq<SearchState>)
        requires
            p.len() >= 1,
        ensures
            self.path_cost(p) <= 255 * (p.len() - 1),
        decreases p.len(),
    {
        if p.len() > 1 {
            self.lemma_cost_bound(p.drop_last());
        }
    }

    /// Cutting the loop between two occurrences of one state out of a path
    /// leaves a shorter path to the same end.
    pub proof fn lemma_cut_loop(&self, min_run: usize, max_run: usize, p: Seq<SearchState>, i: int, j: int)
        requires
            self.is_path(min_run, max_run, p),
            0 <= i < j < p.len(),
            p[i] == p[j],
        ensures
            self.is_path(min_run, max_run, p.subrange(0, i + 1) + p.subrange(j + 1, p.len() as int)),
            (p.subrange(0, i + 1) + p.subrange(j + 1, p.len() as int)).last() == p.last(),
            (p.subrange(0, i + 1) + p.subrange(j + 1, p.len() as int)).len() < p.len(),
    {
        let q = p.subrange(0, i + 1) + p.subrange(j + 1, p.len() as int);
        assert forall|k: int| 0 <= k < q.len() - 1 implies #[trigger] self.step_at(min_run, max_run, q, k) by {
            if k < i {
                assert(self.step_at(min_run, max_run, p, k));
            } else {
                assert(self.step_at(min_run, max_run, p, k + (j - i)));
            }
        }
    }

    /// Whatever a path reaches, a path of no more states than there are
    /// search states reaches too.
    pub proof fn lemma_short_path(&self, min_run: usize, max_run: usize, p: Seq<SearchState>)
        requires
            self.wf(),
            1 <= max_run,
            self.is_path(min_run, max_run, p),
        ensures
            exists|q: Seq<SearchState>| #[trigger]
                self.is_path(min_run, max_run, q) && q.last() == p.last() && q.len() <= self.state_count(max_run),
        decreases p.len(),
    {
        let n = self.state_count(max_run);
        self.lemma_path_states_valid(min_run, max_run, p, 0);
        self.lemma_slot_bound(max_run, p[0]);
        if p.len() <= n {
            assert(self.is_path(min_run, max_run, p) && p.last() == p.last() && p.len() <= n);
        } else {
            let slots = Seq::new(p.len(), |k: int| self.slot(max_run, p[k]));
            assert forall|k: int| 0 <= k < slots.len() implies 0 <= #[trigger] slots[k] < n by {
                self.lemma_path_states_valid(min_run, max_run, p, k);
                self.lemma_slot_bound(max_run, p[k]);
            }
            lemma_pigeonhole(slots, n);
            let (i, j) = choose|i: int, j: int| 0 <= i < j < slots.len() && slots[i] == slots[j];
            self.lemma_path_states_valid(min_run, max_run, p, i);
            self.lemma_path_states_valid(min_run, max_run, p, j);
            self.lemma_slot_unique(max_run, p[i], p[j]);
            self.lemma_cut_loop(min_run, max_run, p, i, j);
            let shorter = p.subrange(0, i + 1) + p.subrange(j + 1, p.len() as int);
            self.lemma_short_path(min_run, max_run, shorter);
            let q = choose|q: Seq<SearchState>| #[trigger]
                self.is_path(min_run, max_run, q) && q.last() == shorter.last() && q.len() <= n;
            assert(self.is_path(min_run, max_run, q) && q.last() == p.last() && q.len() <= n);
        }
    }

    /// In a sound table where every known state is relaxed, the end of any
    /// path whose cost fits in a `u64` is known at no more than that cost.
    pub proof fn lemma_table_complete(
        &self,
        min_run: usize,
        max_run: usize,
        table: Seq<Option<u64>>,
        p: Seq<SearchState>,
    )
        requires
            self.wf(),
            1 <= max_run,
            self.sound(min_run, max_run, table),
            self.all_relaxed(min_run, max_run, table),
            self.is_path(min_run, max_run, p),
            self.path_cost(p) <= u64::MAX,
        ensures
            self.best(max_run, table, p.last()) matches Some(d) && d <= self.path_cost(p),
        decreases p.len(),
    {
        if p.len() == 1 {
            assert(p[0].is_seed());
        } else {
            let q = p.drop_last();
            let s = q.last();
            let t = p.last();
            self.lemma_path_prefix(min_run, max_run, p);
            self.lemma_table_complete(min_run, max_run, table, q);
            self.lemma_path_states_valid(min_run, max_run, q, q.len() - 1);
            let d = self.best(max_run, table, s)->0;
            assert(self.relaxed_upto(min_run, max_run, table, s, d as nat, 4));
            match t.dir {
                Heading::Down => {
                    assert(self.relaxed_dir(min_run, max_run, table, s, d as nat, Heading::Down));
                },
                Heading::Right => {
                    assert(self.relaxed_dir(min_run, max_run, table, s, d as nat, Heading::Right));
                },
                Heading::Up => {
                    assert(self.relaxed_dir(min_run, max_run, table, s, d as nat, Heading::Up));
                },
                Heading::Left => {
                    assert(self.relaxed_dir(min_run, max_run, table, s, d as nat, Heading::Left));
                },
            }
        }
    }

    /// There is at most one cheapest cost.
    pub proof fn lemma_min_cost_unique(&self, min_run: usize, max_run: usize, a: nat, b: nat)
        requires
            self.is_min_cost(min_run, max_run, a),
            self.is_min_cost(min_run, max_run, b),
        ensures
            a == b,
    {
        let pa = choose|p: Seq<SearchState>| #[trigger]
            self.is_goal_path(min_run, max_run, p) && self.path_cost(p) == a;
        let pb = choose|p: Seq<SearchState>| #[trigger]
            self.is_goal_path(min_run, max_run, p) && self.path_cost(p) == b;
        assert(self.is_goal_path(min_run, max_run, pa));
        assert(self.is_goal_path(min_run, max_run, pb));
    }

    /// `min_cost` is the cheapest cost when there is one.
    pub proof fn lemma_min_cost_is(&self, min_run: usize, max_run: usize, c: nat)
        requires
            self.is_min_cost(min_run, max_run, c),
        ensures
            self.min_cost(min_run, max_run) == Some(c),
    {
        let p = choose|p: Seq<SearchState>| #[trigger]
            self.is_goal_path(min_run, max_run, p) && self.path_cost(p) == c;
        assert(self.is_goal_path(min_run, max_run, p));
        let chosen = choose|c: nat| self.is_min_cost(min_run, max_run, c);
        self.lemma_min_cost_unique(min_run, max_run, c, chosen);
    }
}

} // verus!
