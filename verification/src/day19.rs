//! Workflows of rules that sort parts into accepted and rejected ones.

pub mod input;
pub mod ranges;

use vstd::prelude::*;
use crate::fold::{as_u32, lemma_total_grows, lemma_total_none, lemma_total_step, total};
use crate::text::same_bytes;

verus! {

/// The four ratings of a part: x, m, a and s.
pub type Part = [u32; 4];

/// How a rating is compared with the value of a rule.
#[derive(Clone, Copy, Debug, PartialEq, Eq, Structural)]
pub enum Relation {
    Less,
    Greater,
}

/// The condition of a rule: rating number `part_index` stands in
/// `relation` to `val`.
#[derive(Clone, Copy, Debug, PartialEq, Eq, Structural)]
pub struct Operation {
    pub relation: Relation,
    pub part_index: usize,
    pub val: u32,
}

/// Where a rule sends a part.
#[derive(Debug)]
pub enum Dst {
    Accept,
    Reject,
    Workflow(Vec<u8>),
}

/// A rule: a condition, or none for a rule that always applies, and where
/// the part goes when it applies.
#[derive(Debug)]
pub struct Instruction {
    pub op: Option<Operation>,
    pub dst: Dst,
}

/// The rules of one workflow, in order.
#[derive(Debug)]
pub struct Workflow {
    pub instructions: Vec<Instruction>,
}

/// The workflows by name. Where a name stands twice, the later workflow
/// counts.
#[derive(Debug)]
pub struct Workflows {
    pub names: Vec<Vec<u8>>,
    pub flows: Vec<Workflow>,
}

/// Where a rule sends a part, with the name of a workflow as a sequence.
pub ghost enum Target {
    Accept,
    Reject,
    Workflow(Seq<u8>),
}

/// A rule with its target.
pub ghost struct Rule {
    pub op: Option<Operation>,
    pub target: Target,
}

impl Dst {
    /// The target that this stands for.
    pub open spec fn view(&self) -> Target {
        match *self {
            Dst::Accept => Target::Accept,
            Dst::Reject => Target::Reject,
            Dst::Workflow(label) => Target::Workflow(label@),
        }
    }
}

impl Instruction {
    /// The rule that this stands for.
    pub open spec fn view(&self) -> Rule {
        Rule { op: self.op, target: self.dst@ }
    }
}

impl Workflow {
    /// The rules of the workflow.
    pub open spec fn view(&self) -> Seq<Rule> {
        Seq::new(self.instructions@.len(), |i: int| self.instructions@[i]@)
    }
}

impl Operation {
    /// The part meets the condition. `None` for a rating that no part has.
    pub open spec fn holds(self, part: Seq<u32>) -> Option<bool> {
        if self.part_index >= 4 {
            None
        } else {
            Some(
                match self.relation {
                    Relation::Less => part[self.part_index as int] < self.val,
                    Relation::Greater => part[self.part_index as int] > self.val,
                },
            )
        }
    }
}

impl Workflows {
    /// There is a name for every workflow.
    pub open spec fn wf(&self) -> bool {
        self.names@.len() == self.flows@.len()
    }

    /// The index of the workflow called `label` among the first `n`: the
    /// last one of that name.
    pub open spec fn find(&self, label: Seq<u8>, n: int) -> Option<int>
        decreases n,
    {
        if n <= 0 {
            None
        } else if self.names@[n - 1]@ == label {
            Some(n - 1)
        } else {
            self.find(label, n - 1)
        }
    }

    /// The index of the workflow called `label`.
    pub open spec fn index_of(&self, label: Seq<u8>) -> Option<int> {
        self.find(label, self.names@.len() as int)
    }

    /// What becomes of a part that stands before rule `k` of workflow `at`
    /// and may still enter `fuel` workflows: `Some(true)` for accepted,
    /// `Some(false)` for rejected. `None` when the part falls off the end
    /// of a workflow, is sent to a workflow that does not exist, meets a
    /// condition on a rating it does not have, or has no fuel left.
    pub open spec fn run(&self, part: Seq<u32>, at: int, k: int, fuel: nat) -> Option<bool>
        decreases fuel, self.flows@[at].instructions@.len() - k,
    {
        let rules = self.flows@[at].instructions@;
        if k < 0 || k >= rules.len() {
            None
        } else {
            let applies = match rules[k].op {
                Some(op) => op.holds(part),
                None => Some(true),
            };
            match applies {
                None => None,
                Some(false) => self.run(part, at, k + 1, fuel),
                Some(true) => match rules[k].dst {
                    Dst::Accept => Some(true),
                    Dst::Reject => Some(false),
                    Dst::Workflow(label) => match self.index_of(label@) {
                        Some(next) => if fuel == 0 {
                            None
                        } else {
                            self.run(part, next, 0, (fuel - 1) as nat)
                        },
                        None => None,
                    },
                },
            }
        }
    }

    /// What becomes of a part that enters the workflow called `in`. The
    /// part may enter as many further workflows as there are workflows;
    /// beyond that it has no verdict.
    pub open spec fn verdict(&self, part: Seq<u32>) -> Option<bool> {
        match self.index_of(seq![105u8, 110u8]) {
            Some(start) => self.run(part, start, 0, self.flows@.len()),
            None => None,
        }
    }

    /// A found index names a workflow.
    pub proof fn lemma_find_in_range(&self, label: Seq<u8>, n: int)
        requires
            n <= self.names@.len(),
        ensures
            self.find(label, n) matches Some(i) ==> 0 <= i < n && self.names@[i]@ == label,
        decreases n,
    {
        if n > 0 {
            self.lemma_find_in_range(label, n - 1);
        }
    }

    /// The index of the workflow called `label`.
    pub fn lookup(&self, label: &[u8]) -> (r: Option<usize>)
        ensures
            match r {
                Some(i) => self.index_of(label@) == Some(i as int) && i < self.names@.len(),
                None => self.index_of(label@) is None,
            },
    {
        proof {
            self.lemma_find_in_range(label@, self.names@.len() as int);
        }
        let mut n: usize = self.names.len();
        while n > 0
            invariant
                n <= self.names@.len(),
                self.index_of(label@) == self.find(label@, n as int),
            decreases n,
        {
            if same_bytes(self.names[n - 1].as_slice(), label) {
                return Some(n - 1);
            }
            n -= 1;
        }
        None
    }
}

/// Whether the part meets the condition.
fn test(op: &Operation, part: &Part) -> (r: Option<bool>)
    ensures
        r == op.holds(part@),
{
    if op.part_index >= 4 {
        return None;
    }
    let rating: u32 = part[op.part_index];
    Some(
        match op.relation {
            Relation::Less => rating < op.val,
            Relation::Greater => rating > op.val,
        },
    )
}

/// Follows a part from rule `from` of workflow `at` on.
pub fn accepted_recursive(part: &Part, at: usize, from: usize, workflows: &Workflows, fuel: usize) -> (r: Option<
    bool,
>)
    requires
        workflows.wf(),
        at < workflows.flows@.len(),
    ensures
        r == workflows.run(part@, at as int, from as int, fuel as nat),
    decreases fuel, workflows.flows@[at as int].instructions@.len() - from,
{
    let workflow = &workflows.flows[at];
    if from >= workflow.instructions.len() {
        return None;
    }
    let instruction = &workflow.instructions[from];
    let applies: Option<bool> = match &instruction.op {
        Some(op) => test(op, part),
        None => Some(true),
    };
    match applies {
        None => None,
        Some(false) => accepted_recursive(part, at, from + 1, workflows, fuel),
        Some(true) => goto_dst(part, &instruction.dst, workflows, fuel),
    }
}

/// Sends a part where a rule sends it.
pub fn goto_dst(part: &Part, dst: &Dst, workflows: &Workflows, fuel: usize) -> (r: Option<bool>)
    requires
        workflows.wf(),
    ensures
        r == match *dst {
            Dst::Accept => Some(true),
            Dst::Reject => Some(false),
            Dst::Workflow(label) => match workflows.index_of(label@) {
                Some(next) => if fuel == 0 {
                    None
                } else {
                    workflows.run(part@, next, 0, (fuel - 1) as nat)
                },
                None => None,
            },
        },
    decreases fuel, 0int,
{
    match dst {
        Dst::Accept => Some(true),
        Dst::Reject => Some(false),
        Dst::Workflow(label) => match workflows.lookup(label.as_slice()) {
            Some(next) => if fuel == 0 {
                None
            } else {
                accepted_recursive(part, next, 0, workflows, fuel - 1)
            },
            None => None,
        },
    }
}

/// Whether a part that enters the workflow called `in` is accepted in the
/// end. `None` when the part has no verdict.
pub fn accepted(part: &Part, workflows: &Workflows) -> (r: Option<bool>)
    requires
        workflows.wf(),
    ensures
        r == workflows.verdict(part@),
{
    let mut start: Vec<u8> = Vec::new();
    start.push(105);
    start.push(110);
    assert(start@ =~= seq![105u8, 110u8]);
    match workflows.lookup(start.as_slice()) {
        Some(at) => accepted_recursive(part, at, 0, workflows, workflows.flows.len()),
        None => None,
    }
}

/// What a part adds to the sum of the accepted parts: its four ratings
/// when it is accepted, nothing when it is rejected.
pub open spec fn worth(workflows: &Workflows, part: Seq<u32>) -> Option<nat> {
    match workflows.verdict(part) {
        Some(true) => Some((part[0] + part[1] + part[2] + part[3]) as nat),
        Some(false) => Some(0),
        None => None,
    }
}

/// What each part adds to the sum.
pub open spec fn worths(workflows: &Workflows, parts: Seq<Part>) -> Seq<Option<nat>> {
    Seq::new(parts.len(), |i: int| worth(workflows, parts[i]@))
}

/// The sum of the ratings of all accepted parts. `None` when a part has no
/// verdict or the sum does not fit in a `u32`.
pub fn part_one(parts: &Vec<Part>, workflows: &Workflows) -> (r: Option<u32>)
    requires
        workflows.wf(),
    ensures
        r == as_u32(total(worths(workflows, parts@))),
{
    let ghost vals = worths(workflows, parts@);
    let mut acc: u32 = 0;
    let mut i: usize = 0;
    assert(vals.take(0) =~= Seq::<Option<nat>>::empty());
    while i < parts.len()
        invariant
            i <= parts@.len(),
            workflows.wf(),
            vals == worths(workflows, parts@),
            total(vals.take(i as int)) == Some(acc as nat),
        decreases parts@.len() - i,
    {
        proof {
            lemma_total_step(vals, i as int);
        }
        let part: &Part = &parts[i];
        let value: Option<u64> = match accepted(part, workflows) {
            Some(true) => Some(part[0] as u64 + part[1] as u64 + part[2] as u64 + part[3] as u64),
            Some(false) => Some(0),
            None => None,
        };
        let next: Option<u32> = match value {
            Some(v) => if v <= (0xffff_ffff - acc) as u64 {
                Some(acc + v as u32)
            } else {
                None
            },
            None => None,
        };
        match next {
            Some(v) => {
                acc = v;
            },
            None => {
                proof {
                    if value is None {
                        lemma_total_none(vals, i + 1);
                    } else {
                        lemma_total_grows(vals, i + 1);
                    }
                }
                return None;
            },
        }
        i += 1;
    }
    assert(vals.take(i as int) =~= vals);
    Some(acc)
}

} // verus!
