//! Reading workflows and parts from text.

use vstd::prelude::*;
use vstd::string::StringSliceAdditionalSpecFns;
use crate::day19::{Dst, Instruction, Operation, Part, Relation, Rule, Target, Workflow, Workflows};
use crate::text::{
    block_end, find_byte, first_index, lemma_block_end, lines, lines_of, number, parse_u32, slice_of, split_any,
    split_at_any, views,
};

verus! {

/// Index of the first `<` or `>` of `s`, or the length of `s` when it holds
/// neither.
pub open spec fn first_sign(s: Seq<u8>) -> int
    decreases s.len(),
{
    if s.len() == 0 {
        0
    } else if s[0] == 60u8 || s[0] == 62u8 {
        0
    } else {
        1 + first_sign(s.drop_first())
    }
}

/// The first sign stands where no sign stands before.
pub proof fn lemma_first_sign(s: Seq<u8>, k: int)
    requires
        0 <= k <= s.len(),
        forall|j: int| 0 <= j < k ==> s[j] != 60u8 && s[j] != 62u8,
        k < s.len() ==> s[k] == 60u8 || s[k] == 62u8,
    ensures
        first_sign(s) == k,
    decreases s.len(),
{
    if s.len() > 0 && k > 0 {
        let rest = s.drop_first();
        assert forall|j: int| 0 <= j < k - 1 implies rest[j] != 60u8 && rest[j] != 62u8 by {
            assert(rest[j] == s[j + 1]);
        }
        lemma_first_sign(rest, k - 1);
    }
}

/// The target that a text names: `A` accepts, `R` rejects, anything else
/// is the name of a workflow.
pub open spec fn target_of(s: Seq<u8>) -> Target {
    if s == seq![65u8] {
        Target::Accept
    } else if s == seq![82u8] {
        Target::Reject
    } else {
        Target::Workflow(s)
    }
}

/// The number of the rating that a text names: x, m, a and s in this
/// order.
pub open spec fn rating_of(s: Seq<u8>) -> Option<usize> {
    if s == seq![120u8] {
        Some(0usize)
    } else if s == seq![109u8] {
        Some(1usize)
    } else if s == seq![97u8] {
        Some(2usize)
    } else if s == seq![115u8] {
        Some(3usize)
    } else {
        None
    }
}

/// The condition that a text states: the name of a rating, a sign, and a
/// value. It asks for less where the text holds a `<` anywhere.
pub open spec fn condition_of(s: Seq<u8>) -> Option<Operation> {
    let at = first_sign(s);
    if at >= s.len() {
        None
    } else {
        match (rating_of(s.subrange(0, at)), number(s.subrange(at + 1, s.len() as int))) {
            (Some(part_index), Some(val)) => if val <= u32::MAX {
                Some(
                    Operation {
                        relation: if s.contains(60u8) {
                            Relation::Less
                        } else {
                            Relation::Greater
                        },
                        part_index,
                        val: val as u32,
                    },
                )
            } else {
                None
            },
            _ => None,
        }
    }
}

/// The rule that a text states: a condition, a colon and a target, or a
/// target alone.
pub open spec fn rule_of(s: Seq<u8>) -> Option<Rule> {
    let colon = first_index(s, 58u8);
    if colon < s.len() {
        match condition_of(s.subrange(0, colon)) {
            Some(op) => Some(Rule { op: Some(op), target: target_of(s.subrange(colon + 1, s.len() as int)) }),
            None => None,
        }
    } else {
        Some(Rule { op: None, target: target_of(s) })
    }
}

/// The rules that the pieces state, empty pieces left aside.
pub open spec fn rules_of(pieces: Seq<Seq<u8>>) -> Option<Seq<Rule>>
    decreases pieces.len(),
{
    if pieces.len() == 0 {
        Some(Seq::empty())
    } else if pieces.last().len() == 0 {
        rules_of(pieces.drop_last())
    } else {
        match (rules_of(pieces.drop_last()), rule_of(pieces.last())) {
            (Some(rs), Some(r)) => Some(rs.push(r)),
            _ => None,
        }
    }
}

/// The pieces of a line that states a workflow: its name, and its rules
/// between braces and commas.
pub open spec fn flow_pieces(line: Seq<u8>) -> Seq<Seq<u8>> {
    split_any(line, seq![123u8, 44u8, 125u8])
}

/// The pieces of a line that states a part: a name and a value for each
/// rating.
pub open spec fn part_pieces(line: Seq<u8>) -> Seq<Seq<u8>> {
    split_any(line, seq![61u8, 44u8, 125u8])
}

/// The line states a part: its second, fourth, sixth and eighth piece are
/// numbers that fit in a `u32`.
pub open spec fn is_part(line: Seq<u8>) -> bool {
    let ps = part_pieces(line);
    ps.len() >= 8 && forall|i: int| 0 <= i < 4 ==> ((#[trigger] number(ps[2 * i + 1])) matches Some(v) && v <= u32::MAX)
}

/// Rating number `i` of the part that a line states.
pub open spec fn rating_at(line: Seq<u8>, i: int) -> u32 {
    number(part_pieces(line)[2 * i + 1]).unwrap() as u32
}

/// The text states workflows and parts: lines of workflows, an empty line,
/// and lines of parts.
pub open spec fn is_listing(ls: Seq<Seq<u8>>) -> bool {
    let e = block_end(ls, 0);
    &&& e < ls.len()
    &&& forall|i: int| 0 <= i < e ==> (#[trigger] rules_of(flow_pieces(ls[i]).skip(1))) is Some
    &&& forall|i: int| e < i < ls.len() ==> #[trigger] is_part(ls[i])
}

/// Maps the text of a target to the target.
pub fn map_dst(dst: &[u8]) -> (r: Dst)
    ensures
        r@ == target_of(dst@),
{
    if dst.len() == 1 && dst[0] == 65 {
        assert(dst@ =~= seq![65u8]);
        Dst::Accept
    } else if dst.len() == 1 && dst[0] == 82 {
        assert(dst@ =~= seq![82u8]);
        Dst::Reject
    } else {
        proof {
            let a = seq![65u8];
            let r = seq![82u8];
            if dst@ == a {
                assert(a.len() == 1 && a[0] == 65);
            }
            if dst@ == r {
                assert(r.len() == 1 && r[0] == 82);
            }
        }
        let label = slice_of(dst, 0, dst.len());
        assert(label@ =~= dst@);
        Dst::Workflow(label)
    }
}

/// The number of the rating that a text names.
fn read_rating(s: &[u8]) -> (r: Option<usize>)
    ensures
        r == rating_of(s@),
{
    if s.len() != 1 {
        proof {
            assert(seq![120u8].len() == 1 && seq![109u8].len() == 1 && seq![97u8].len() == 1 && seq![115u8].len() == 1);
        }
        return None;
    }
    let b: u8 = s[0];
    proof {
        assert(seq![120u8][0] == 120 && seq![109u8][0] == 109 && seq![97u8][0] == 97 && seq![115u8][0] == 115);
        assert(s@ =~= seq![b]);
    }
    if b == 120 {
        Some(0)
    } else if b == 109 {
        Some(1)
    } else if b == 97 {
        Some(2)
    } else if b == 115 {
        Some(3)
    } else {
        None
    }
}

/// Reads a condition.
fn read_condition(s: &[u8]) -> (r: Option<Operation>)
    ensures
        r == condition_of(s@),
{
    let mut at: usize = 0;
    while at < s.len() && s[at] != 60 && s[at] != 62
        invariant
            at <= s@.len(),
            forall|j: int| 0 <= j < at ==> s@[j] != 60u8 && s@[j] != 62u8,
        decreases s@.len() - at,
    {
        at += 1;
    }
    proof {
        lemma_first_sign(s@, at as int);
    }
    if at >= s.len() {
        return None;
    }
    let less: bool = find_byte(s, 60) < s.len();
    proof {
        lemma_first_index_holds(s@, 60u8);
    }
    let name = slice_of(s, 0, at);
    let digits = slice_of(s, at + 1, s.len());
    match (read_rating(name.as_slice()), parse_u32(digits.as_slice())) {
        (Some(part_index), Some(val)) => Some(
            Operation {
                relation: if less {
                    Relation::Less
                } else {
                    Relation::Greater
                },
                part_index,
                val,
            },
        ),
        _ => None,
    }
}

/// The first index of a byte lies within the sequence exactly when the
/// sequence holds the byte.
pub proof fn lemma_first_index_holds(s: Seq<u8>, b: u8)
    ensures
        0 <= first_index(s, b) <= s.len(),
        first_index(s, b) < s.len() <==> s.contains(b),
    decreases s.len(),
{
    if s.len() > 0 {
        if s[0] == b {
            assert(s.contains(b));
        } else {
            let rest = s.drop_first();
            lemma_first_index_holds(rest, b);
            if rest.contains(b) {
                let j = choose|j: int| 0 <= j < rest.len() && rest[j] == b;
                assert(s[j + 1] == b);
            }
            if s.contains(b) {
                let j = choose|j: int| 0 <= j < s.len() && s[j] == b;
                assert(rest[j - 1] == b);
            }
        }
    }
}

/// Reads a rule.
fn read_rule(s: &[u8]) -> (r: Option<Instruction>)
    ensures
        match r {
            Some(instruction) => rule_of(s@) == Some(instruction@),
            None => rule_of(s@) is None,
        },
{
    let colon: usize = find_byte(s, 58);
    if colon < s.len() {
        let condition = slice_of(s, 0, colon);
        let target = slice_of(s, colon + 1, s.len());
        match read_condition(condition.as_slice()) {
            Some(op) => Some(Instruction { op: Some(op), dst: map_dst(target.as_slice()) }),
            None => None,
        }
    } else {
        Some(Instruction { op: None, dst: map_dst(s) })
    }
}

/// Reads the rules of a workflow from the pieces behind its name.
fn read_rules(pieces: &Vec<Vec<u8>>) -> (r: Option<Workflow>)
    requires
        pieces@.len() >= 1,
    ensures
        match r {
            Some(flow) => rules_of(views(pieces@).skip(1)) == Some(flow@),
            None => rules_of(views(pieces@).skip(1)) is None,
        },
{
    let ghost all = views(pieces@).skip(1);
    let mut instructions: Vec<Instruction> = Vec::new();
    let mut i: usize = 1;
    assert(all.take(0) =~= Seq::<Seq<u8>>::empty());
    while i < pieces.len()
        invariant
            1 <= i <= pieces@.len(),
            all == views(pieces@).skip(1),
            rules_of(all.take(i - 1)) == Some(Seq::new(instructions@.len(), |k: int| instructions@[k]@)),
        decreases pieces@.len() - i,
    {
        proof {
            assert(all.take(i as int).drop_last() =~= all.take(i - 1));
            assert(all.take(i as int).last() == pieces@[i as int]@);
        }
        if pieces[i].len() > 0 {
            match read_rule(pieces[i].as_slice()) {
                Some(instruction) => {
                    let ghost before = Seq::new(instructions@.len(), |k: int| instructions@[k]@);
                    instructions.push(instruction);
                    assert(Seq::new(instructions@.len(), |k: int| instructions@[k]@) =~= before.push(instruction@));
                },
                None => {
                    proof {
                        lemma_rules_none(all, i as int);
                    }
                    return None;
                },
            }
        }
        i += 1;
    }
    assert(all.take(i - 1) =~= all);
    Some(Workflow { instructions })
}

/// Once the pieces up to `i` state no rules, all pieces state none.
pub proof fn lemma_rules_none(pieces: Seq<Seq<u8>>, i: int)
    requires
        0 <= i <= pieces.len(),
        rules_of(pieces.take(i)) is None,
    ensures
        rules_of(pieces) is None,
    decreases pieces.len() - i,
{
    if i < pieces.len() {
        assert(pieces.take(i + 1).drop_last() =~= pieces.take(i));
        lemma_rules_none(pieces, i + 1);
    } else {
        assert(pieces.take(i) =~= pieces);
    }
}

/// Reads a part.
fn read_part(line: &[u8]) -> (r: Option<Part>)
    ensures
        r is Some <==> is_part(line@),
        r matches Some(part) ==> forall|i: int| 0 <= i < 4 ==> #[trigger] part@[i] == rating_at(line@, i),
{
    let mut seps: Vec<u8> = Vec::new();
    seps.push(61);
    seps.push(44);
    seps.push(125);
    assert(seps@ =~= seq![61u8, 44u8, 125u8]);
    let pieces = split_at_any(line, seps.as_slice());
    if pieces.len() < 8 {
        return None;
    }
    let mut part: Part = [0, 0, 0, 0];
    let mut i: usize = 0;
    while i < 4
        invariant
            i <= 4,
            pieces@.len() >= 8,
            views(pieces@) == part_pieces(line@),
            forall|k: int|
                0 <= k < i ==> ((#[trigger] number(part_pieces(line@)[2 * k + 1])) matches Some(v) && v <= u32::MAX),
            forall|k: int| 0 <= k < i ==> #[trigger] part@[k] == rating_at(line@, k),
        decreases 4 - i,
    {
        assert(views(pieces@)[2 * i + 1] == pieces@[2 * i + 1]@);
        match parse_u32(pieces[2 * i + 1].as_slice()) {
            Some(v) => {
                part[i] = v;
            },
            None => {
                assert(!(number(part_pieces(line@)[2 * i + 1]) matches Some(v) && v <= u32::MAX));
                return None;
            },
        }
        i += 1;
    }
    Some(part)
}

/// Reads the workflows, each from a line of the form `name{rule,rule}`,
/// up to the first empty line, and the parts from the lines behind it, each
/// of the form `{x=1,m=2,a=3,s=4}`. `None` when there is no empty line or a
/// line states no workflow or no part.
pub fn parse_input(input: &str) -> (r: Option<(Workflows, Vec<Part>)>)
    ensures
        r is Some <==> is_listing(lines(input.spec_bytes())),
        r matches Some((workflows, parts)) ==> {
            let ls = lines(input.spec_bytes());
            let e = block_end(ls, 0);
            &&& workflows.wf()
            &&& workflows.names@.len() == e
            &&& forall|i: int| 0 <= i < e ==> (#[trigger] workflows.names@[i])@ == flow_pieces(ls[i])[0]
            &&& forall|i: int|
                0 <= i < e ==> Some((#[trigger] workflows.flows@[i])@) == rules_of(flow_pieces(ls[i]).skip(1))
            &&& parts@.len() == ls.len() - e - 1
            &&& forall|j: int, i: int|
                0 <= j < parts@.len() && 0 <= i < 4 ==> #[trigger] parts@[j]@[i] == rating_at(ls[e + 1 + j], i)
        },
{
    let all = lines_of(input.as_bytes());
    let ghost ls = lines(input.spec_bytes());
    let n: usize = all.len();
    let mut seps: Vec<u8> = Vec::new();
    seps.push(123);
    seps.push(44);
    seps.push(125);
    assert(seps@ =~= seq![123u8, 44u8, 125u8]);
    let mut names: Vec<Vec<u8>> = Vec::new();
    let mut flows: Vec<Workflow> = Vec::new();
    let mut i: usize = 0;
    while i < n && all[i].len() > 0
        invariant
            i <= n,
            n == all@.len(),
            ls == views(all@),
            ls == lines(input.spec_bytes()),
            seps@ == seq![123u8, 44u8, 125u8],
            names@.len() == i,
            flows@.len() == i,
            forall|k: int| 0 <= k < i ==> (#[trigger] ls[k]).len() > 0,
            forall|k: int| 0 <= k < i ==> (#[trigger] rules_of(flow_pieces(ls[k]).skip(1))) is Some,
            forall|k: int| 0 <= k < i ==> (#[trigger] names@[k])@ == flow_pieces(ls[k])[0],
            forall|k: int| 0 <= k < i ==> Some((#[trigger] flows@[k])@) == rules_of(flow_pieces(ls[k]).skip(1)),
        decreases n - i,
    {
        assert(ls[i as int] == all@[i as int]@);
        let mut pieces = split_at_any(all[i].as_slice(), seps.as_slice());
        assert(views(pieces@) == flow_pieces(ls[i as int]));
        match read_rules(&pieces) {
            Some(flow) => {
                assert(views(pieces@)[0] == pieces@[0]@);
                let name: Vec<u8> = pieces.swap_remove(0);
                names.push(name);
                flows.push(flow);
            },
            None => {
                proof {
                    lemma_block_end(ls, 0, i as int);
                    lemma_block_end(ls, i + 1, i + 1);
                    assert(block_end(ls, 0) > i);
                }
                return None;
            },
        }
        i += 1;
    }
    proof {
        lemma_block_end(ls, 0, i as int);
        if i < n {
            assert(ls[i as int] == all@[i as int]@);
        }
        assert(block_end(ls, 0) == i);
    }
    if i >= n {
        return None;
    }
    let e: usize = i;
    let mut parts: Vec<Part> = Vec::new();
    let mut j: usize = e + 1;
    while j < n
        invariant
            e < j <= n,
            n == all@.len(),
            ls == views(all@),
            ls == lines(input.spec_bytes()),
            e == block_end(ls, 0),
            parts@.len() == j - e - 1,
            forall|k: int| e < k < j ==> #[trigger] is_part(ls[k]),
            forall|p: int, q: int|
                0 <= p < parts@.len() && 0 <= q < 4 ==> #[trigger] parts@[p]@[q] == rating_at(ls[e + 1 + p], q),
            forall|k: int| 0 <= k < e ==> (#[trigger] rules_of(flow_pieces(ls[k]).skip(1))) is Some,
        decreases n - j,
    {
        assert(ls[j as int] == all@[j as int]@);
        match read_part(all[j].as_slice()) {
            Some(part) => {
                parts.push(part);
            },
            None => {
                return None;
            },
        }
        j += 1;
    }
    Some((Workflows { names, flows }, parts))
}

} // verus!
