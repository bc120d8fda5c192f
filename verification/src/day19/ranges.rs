//! Ranges of ratings, cut along the rules of the workflows.

use vstd::prelude::*;
use crate::day19::{Dst, Operation, Relation, Workflows};
use crate::fold::{as_u64, lemma_total_grows, lemma_total_none, lemma_total_step, total};

verus! {

/// For each of the four ratings the least and the largest value allowed.
pub type PartRange = [(u32, u32); 4];

/// A range as a sequence of four pairs.
pub type Bounds = Seq<(u32, u32)>;

/// The two ranges that a condition makes of a range: the one that meets
/// it, and the one that is left. The cut is made at the value of the
/// condition whatever the range was before. `None` for a rating that no
/// part has, or where the value next to the cut does not exist.
pub open spec fn narrow(range: Bounds, op: Operation) -> Option<(Bounds, Bounds)> {
    if op.part_index >= 4 {
        None
    } else {
        let i = op.part_index as int;
        match op.relation {
            Relation::Less => if op.val == 0 {
                None
            } else {
                Some((range.update(i, (range[i].0, (op.val - 1) as u32)), range.update(i, (op.val, range[i].1))))
            },
            Relation::Greater => if op.val == u32::MAX {
                None
            } else {
                Some((range.update(i, ((op.val + 1) as u32, range[i].1)), range.update(i, (range[i].0, op.val))))
            },
        }
    }
}

/// The ranges with `range` added, unless it is among them already.
pub open spec fn with_range(found: Seq<Bounds>, range: Bounds) -> Seq<Bounds> {
    if found.contains(range) {
        found
    } else {
        found.push(range)
    }
}

impl Workflows {
    /// The accepted ranges once `range` has gone through workflow `at` from
    /// rule `k` on, added to those `found` before. `None` as for a single
    /// part: a workflow that does not exist, a condition that cannot be
    /// cut along, or no fuel left.
    pub open spec fn cut(&self, range: Bounds, at: int, k: int, fuel: nat, found: Seq<Bounds>) -> Option<
        Seq<Bounds>,
    >
        decreases fuel, self.flows@[at].instructions@.len() - k, 1int,
    {
        let rules = self.flows@[at].instructions@;
        if k < 0 || k >= rules.len() {
            Some(found)
        } else {
            match rules[k].op {
                Some(op) => match narrow(range, op) {
                    Some((branch, rest)) => match self.send(branch, at, k, fuel, found) {
                        Some(more) => self.cut(rest, at, k + 1, fuel, more),
                        None => None,
                    },
                    None => None,
                },
                None => match self.send(range, at, k, fuel, found) {
                    Some(more) => self.cut(range, at, k + 1, fuel, more),
                    None => None,
                },
            }
        }
    }

    /// The accepted ranges once `range` has gone where rule `k` of
    /// workflow `at` sends it.
    pub open spec fn send(&self, range: Bounds, at: int, k: int, fuel: nat, found: Seq<Bounds>) -> Option<
        Seq<Bounds>,
    >
        decreases fuel, self.flows@[at].instructions@.len() - k, 0int,
    {
        let rules = self.flows@[at].instructions@;
        if k < 0 || k >= rules.len() {
            None
        } else {
            match rules[k].dst {
                Dst::Accept => Some(with_range(found, range)),
                Dst::Reject => Some(found),
                Dst::Workflow(label) => match self.index_of(label@) {
                    Some(next) => if fuel == 0 {
                        None
                    } else {
                        self.cut(range, next, 0, (fuel - 1) as nat, found)
                    },
                    None => None,
                },
            }
        }
    }

    /// All accepted ranges of ratings from 1 to 4000.
    pub open spec fn accepted_ranges(&self) -> Option<Seq<Bounds>> {
        match self.index_of(seq![105u8, 110u8]) {
            Some(start) => self.cut(
                seq![(1u32, 4000u32), (1u32, 4000u32), (1u32, 4000u32), (1u32, 4000u32)],
                start,
                0,
                self.flows@.len(),
                Seq::empty(),
            ),
            None => None,
        }
    }
}

/// The number of parts in a range. `None` where a largest value lies more
/// than one below the least.
pub open spec fn volume(range: Bounds) -> Option<nat> {
    if forall|i: int| 0 <= i < 4 ==> (#[trigger] range[i]).1 + 1 >= range[i].0 {
        Some(
            ((range[0].1 + 1 - range[0].0) * (range[1].1 + 1 - range[1].0) * (range[2].1 + 1 - range[2].0) * (
            range[3].1 + 1 - range[3].0)) as nat,
        )
    } else {
        None
    }
}

/// The number of parts in each range.
pub open spec fn volumes(ranges: Seq<Bounds>) -> Seq<Option<nat>> {
    Seq::new(ranges.len(), |i: int| volume(ranges[i]))
}

/// The ranges as sequences.
pub open spec fn bounds_of(ranges: Seq<PartRange>) -> Seq<Bounds> {
    Seq::new(ranges.len(), |i: int| ranges[i]@)
}

/// `range` is among `found`.
fn is_found(found: &Vec<PartRange>, range: &PartRange) -> (r: bool)
    ensures
        r == bounds_of(found@).contains(range@),
{
    let mut i: usize = 0;
    while i < found.len()
        invariant
            i <= found@.len(),
            forall|k: int| 0 <= k < i ==> bounds_of(found@)[k] != range@,
        decreases found@.len() - i,
    {
        let other: &PartRange = &found[i];
        if other[0].0 == range[0].0 && other[0].1 == range[0].1 && other[1].0 == range[1].0 && other[1].1 == range[1].1
            && other[2].0 == range[2].0 && other[2].1 == range[2].1 && other[3].0 == range[3].0 && other[3].1
            == range[3].1 {
            assert(other@ =~= range@);
            assert(bounds_of(found@)[i as int] == range@);
            return true;
        }
        assert(bounds_of(found@)[i as int] == other@);
        i += 1;
    }
    false
}

/// Cuts a range along a condition.
fn split(range: PartRange, op: &Operation) -> (r: Option<(PartRange, PartRange)>)
    ensures
        match r {
            Some((branch, rest)) => narrow(range@, *op) == Some((branch@, rest@)),
            None => narrow(range@, *op) is None,
        },
{
    if op.part_index >= 4 {
        return None;
    }
    let i: usize = op.part_index;
    let mut branch: PartRange = range;
    let mut rest: PartRange = range;
    match op.relation {
        Relation::Less => {
            if op.val == 0 {
                return None;
            }
            branch[i] = (range[i].0, op.val - 1);
            rest[i] = (op.val, range[i].1);
        },
        Relation::Greater => {
            if op.val == 0xffff_ffff {
                return None;
            }
            branch[i] = (op.val + 1, range[i].1);
            rest[i] = (range[i].0, op.val);
        },
    }
    Some((branch, rest))
}

/// Sends a range through workflow `at` from rule `from` on and adds the
/// ranges that are accepted to `accepted_ranges`. Returns `false` where a
/// part would have no verdict.
pub fn calc_accepted_ranges(
    part_range: PartRange,
    at: usize,
    from: usize,
    workflows: &Workflows,
    fuel: usize,
    accepted_ranges: &mut Vec<PartRange>,
) -> (ok: bool)
    requires
        workflows.wf(),
        at < workflows.flows@.len(),
    ensures
        match workflows.cut(part_range@, at as int, from as int, fuel as nat, bounds_of(old(accepted_ranges)@)) {
            Some(found) => ok && bounds_of(final(accepted_ranges)@) == found,
            None => !ok,
        },
    decreases fuel, workflows.flows@[at as int].instructions@.len() - from, 1int,
{
    let workflow = &workflows.flows[at];
    if from >= workflow.instructions.len() {
        return true;
    }
    let instruction = &workflow.instructions[from];
    match &instruction.op {
        Some(op) => match split(part_range, op) {
            Some((branch, rest)) => {
                if !branch_range(branch, at, from, workflows, fuel, accepted_ranges) {
                    return false;
                }
                calc_accepted_ranges(rest, at, from + 1, workflows, fuel, accepted_ranges)
            },
            None => false,
        },
        None => {
            if !branch_range(part_range, at, from, workflows, fuel, accepted_ranges) {
                return false;
            }
            calc_accepted_ranges(part_range, at, from + 1, workflows, fuel, accepted_ranges)
        },
    }
}

/// Sends a range where rule `k` of workflow `at` sends it.
pub fn branch_range(
    part_range: PartRange,
    at: usize,
    k: usize,
    workflows: &Workflows,
    fuel: usize,
    accepted_ranges: &mut Vec<PartRange>,
) -> (ok: bool)
    requires
        workflows.wf(),
        at < workflows.flows@.len(),
        k < workflows.flows@[at as int].instructions@.len(),
    ensures
        match workflows.send(part_range@, at as int, k as int, fuel as nat, bounds_of(old(accepted_ranges)@)) {
            Some(found) => ok && bounds_of(final(accepted_ranges)@) == found,
            None => !ok,
        },
    decreases fuel, workflows.flows@[at as int].instructions@.len() - k, 0int,
{
    match &workflows.flows[at].instructions[k].dst {
        Dst::Accept => {
            if !is_found(accepted_ranges, &part_range) {
                let ghost before = bounds_of(accepted_ranges@);
                accepted_ranges.push(part_range);
                assert(bounds_of(accepted_ranges@) =~= before.push(part_range@));
            }
            true
        },
        Dst::Reject => true,
        Dst::Workflow(label) => match workflows.lookup(label.as_slice()) {
            Some(next) => if fuel == 0 {
                false
            } else {
                calc_accepted_ranges(part_range, next, 0, workflows, fuel - 1, accepted_ranges)
            },
            None => false,
        },
    }
}

/// The number of parts in a range, `None` when the range has none to
/// count or the number does not fit in a `u64`.
fn volume_of(range: &PartRange) -> (r: Option<u64>)
    ensures
        r == as_u64(volume(range@)),
{
    let mut sizes: [u64; 4] = [0, 0, 0, 0];
    let mut i: usize = 0;
    while i < 4
        invariant
            i <= 4,
            forall|k: int| 0 <= k < i ==> (#[trigger] range@[k]).1 + 1 >= range@[k].0,
            forall|k: int| 0 <= k < i ==> #[trigger] sizes@[k] == range@[k].1 + 1 - range@[k].0,
        decreases 4 - i,
    {
        let (lo, hi): (u32, u32) = range[i];
        if (hi as u64) + 1 < lo as u64 {
            assert(!(range@[i as int].1 + 1 >= range@[i as int].0));
            return None;
        }
        sizes[i] = hi as u64 + 1 - lo as u64;
        i += 1;
    }
    let (a, b, c, d): (u64, u64, u64, u64) = (sizes[0], sizes[1], sizes[2], sizes[3]);
    let ghost exact: int = a * b * c * d;
    assert(volume(range@) == Some(exact as nat) && exact >= 0) by (nonlinear_arith)
        requires
            exact == a * b * c * d,
            volume(range@) == Some(
                ((range@[0].1 + 1 - range@[0].0) * (range@[1].1 + 1 - range@[1].0) * (range@[2].1 + 1 - range@[2].0)
                    * (range@[3].1 + 1 - range@[3].0)) as nat,
            ),
            a == range@[0].1 + 1 - range@[0].0,
            b == range@[1].1 + 1 - range@[1].0,
            c == range@[2].1 + 1 - range@[2].0,
            d == range@[3].1 + 1 - range@[3].0,
    ;
    if a == 0 || b == 0 || c == 0 || d == 0 {
        assert(exact == 0) by (nonlinear_arith)
            requires
                exact == a * b * c * d,
                a == 0 || b == 0 || c == 0 || d == 0,
        ;
        return Some(0);
    }
    let ab: u64 = match a.checked_mul(b) {
        Some(v) => v,
        None => {
            assert(exact > u64::MAX) by (nonlinear_arith)
                requires
                    exact == a * b * c * d,
                    a * b > u64::MAX,
                    c >= 1,
                    d >= 1,
            ;
            return None;
        },
    };
    let abc: u64 = match ab.checked_mul(c) {
        Some(v) => v,
        None => {
            assert(exact > u64::MAX) by (nonlinear_arith)
                requires
                    exact == a * b * c * d,
                    ab == a * b,
                    ab * c > u64::MAX,
                    d >= 1,
            ;
            return None;
        },
    };
    assert(abc * d == exact) by (nonlinear_arith)
        requires
            exact == a * b * c * d,
            ab == a * b,
            abc == ab * c,
    ;
    abc.checked_mul(d)
}

} // verus!

verus! {

/// The number of parts with ratings from 1 to 4000 that are accepted,
/// counted range by range: the ratings are cut along the rules of the
/// workflows, and every range that reaches an accepting rule is counted
/// once. `None` when a range has no verdict, a range has nothing to count,
/// or the number does not fit in a `u64`.
pub fn part_two(workflows: &Workflows) -> (r: Option<u64>)
    requires
        workflows.wf(),
    ensures
        r == match workflows.accepted_ranges() {
            Some(found) => as_u64(total(volumes(found))),
            None => None,
        },
{
    let mut start: Vec<u8> = Vec::new();
    start.push(105);
    start.push(110);
    assert(start@ =~= seq![105u8, 110u8]);
    let at: usize = match workflows.lookup(start.as_slice()) {
        Some(at) => at,
        None => {
            return None;
        },
    };
    let whole: PartRange = [(1, 4000), (1, 4000), (1, 4000), (1, 4000)];
    assert(whole@ =~= seq![(1u32, 4000u32), (1u32, 4000u32), (1u32, 4000u32), (1u32, 4000u32)]);
    let mut accepted_ranges: Vec<PartRange> = Vec::new();
    assert(bounds_of(accepted_ranges@) =~= Seq::<Bounds>::empty());
    if !calc_accepted_ranges(whole, at, 0, workflows, workflows.flows.len(), &mut accepted_ranges) {
        return None;
    }
    let ghost found = bounds_of(accepted_ranges@);
    let ghost vals = volumes(found);
    let mut acc: u64 = 0;
    let mut i: usize = 0;
    assert(vals.take(0) =~= Seq::<Option<nat>>::empty());
    while i < accepted_ranges.len()
        invariant
            i <= accepted_ranges@.len(),
            found == bounds_of(accepted_ranges@),
            workflows.accepted_ranges() == Some(found),
            vals == volumes(found),
            total(vals.take(i as int)) == Some(acc as nat),
        decreases accepted_ranges@.len() - i,
    {
        proof {
            lemma_total_step(vals, i as int);
            assert(found[i as int] == accepted_ranges@[i as int]@);
        }
        let next: Option<u64> = match volume_of(&accepted_ranges[i]) {
            Some(v) => acc.checked_add(v),
            None => None,
        };
        match next {
            Some(v) => {
                acc = v;
            },
            None => {
                proof {
                    if vals[i as int] is None {
                        lemma_total_none(vals, i + 1);
                    } else {
                        lemma_total_grows(vals, i + 1);
                    }
                }
                return None;
            },
        }
        i += 1;
    }
    assert(vals.take(i as int) =~= vals);
    Some(acc)
}

} // verus!
