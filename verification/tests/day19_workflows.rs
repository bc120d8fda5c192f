use aoc::day19::input::{map_dst, parse_input};
use aoc::day19::ranges::{branch_range, calc_accepted_ranges, part_two};
use aoc::day19::{accepted, accepted_recursive, goto_dst, part_one, Dst, Instruction, Operation, Relation, Workflow, Workflows};

const SAMPLE: &str = "px{a<2006:qkq,m>2090:A,rfg}
pv{a>1716:R,A}
lnx{m>1548:A,A}
rfg{s<537:gd,x>2440:R,A}
qs{s>3448:A,lnx}
qkq{x<1416:A,crn}
crn{x>2662:A,R}
in{s<1351:px,qqz}
qqz{s>2770:qs,m<1801:hdj,R}
gd{a>3333:R,R}
hdj{m>838:A,pv}

{x=787,m=2655,a=1222,s=2876}
{x=1679,m=44,a=2067,s=496}
{x=2036,m=264,a=79,s=2244}
{x=2461,m=1339,a=466,s=291}
{x=2127,m=1623,a=2188,s=1013}
";

#[test]
fn day19_sample_answers() {
    let (workflows, parts) = parse_input(SAMPLE).unwrap();
    assert_eq!(part_one(&parts, &workflows), Some(19114));
    assert_eq!(part_two(&workflows), Some(167409079868000));
}

#[test]
fn day19_text_is_read() {
    let (workflows, parts) = parse_input("in{a<2006:qkq,m>2090:A,rfg}\nqs{R}\n\n{x=7,m=26,a=12,s=28}\n").unwrap();
    assert_eq!(workflows.names, vec![b"in".to_vec(), b"qs".to_vec()]);
    assert_eq!(parts, vec![[7, 26, 12, 28]]);
    let rules = &workflows.flows[0].instructions;
    assert_eq!(rules.len(), 3);
    assert_eq!(rules[0].op, Some(Operation { relation: Relation::Less, part_index: 2, val: 2006 }));
    assert!(matches!(&rules[0].dst, Dst::Workflow(l) if l == b"qkq"));
    assert_eq!(rules[1].op, Some(Operation { relation: Relation::Greater, part_index: 1, val: 2090 }));
    assert!(matches!(rules[1].dst, Dst::Accept));
    assert_eq!(rules[2].op, None);
    assert!(matches!(&rules[2].dst, Dst::Workflow(l) if l == b"rfg"));
    assert!(matches!(workflows.flows[1].instructions[0].dst, Dst::Reject));
    assert!(matches!(map_dst(b"A"), Dst::Accept));
    assert!(matches!(map_dst(b"R"), Dst::Reject));
    assert!(matches!(map_dst(b"AR"), Dst::Workflow(_)));
}

#[test]
fn day19_unreadable_text() {
    assert!(parse_input("").is_none());
    assert!(parse_input("in{A}\n").is_none());
    assert!(parse_input("in{q<5:A}\n\n").is_none());
    assert!(parse_input("in{x5:A}\n\n").is_none());
    assert!(parse_input("in{x<y:A}\n\n").is_none());
    assert!(parse_input("in{A}\n\n{x=1,m=2,a=3}\n").is_none());
    assert!(parse_input("in{A}\n\n{x=1,m=2,a=3,s=z}\n").is_none());
    let (workflows, parts) = parse_input("in{A}\n\n").unwrap();
    assert_eq!(workflows.names.len(), 1);
    assert!(parts.is_empty());
    assert_eq!(part_one(&parts, &workflows), Some(0));
}

fn rule(op: Option<Operation>, dst: Dst) -> Instruction {
    Instruction { op, dst }
}

fn flows(list: Vec<(&str, Vec<Instruction>)>) -> Workflows {
    let mut names = Vec::new();
    let mut flows = Vec::new();
    for (name, instructions) in list {
        names.push(name.as_bytes().to_vec());
        flows.push(Workflow { instructions });
    }
    Workflows { names, flows }
}

#[test]
fn day19_parts_without_a_verdict() {
    // a circle of workflows
    let round = flows(vec![
        ("in", vec![rule(None, Dst::Workflow(b"b".to_vec()))]),
        ("b", vec![rule(None, Dst::Workflow(b"in".to_vec()))]),
    ]);
    assert_eq!(accepted(&[1, 1, 1, 1], &round), None);
    assert_eq!(part_two(&round), None);
    // a workflow that does not exist
    let lost = flows(vec![("in", vec![rule(None, Dst::Workflow(b"zz".to_vec()))])]);
    assert_eq!(accepted(&[1, 1, 1, 1], &lost), None);
    // no workflow to start with
    let none = flows(vec![("on", vec![rule(None, Dst::Accept)])]);
    assert_eq!(accepted(&[1, 1, 1, 1], &none), None);
    assert_eq!(part_two(&none), None);
    // a part that no rule applies to
    let open = flows(vec![(
        "in",
        vec![rule(Some(Operation { relation: Relation::Less, part_index: 0, val: 5 }), Dst::Accept)],
    )]);
    assert_eq!(accepted(&[4, 1, 1, 1], &open), Some(true));
    assert_eq!(accepted(&[5, 1, 1, 1], &open), None);
    // a rating that no part has
    let odd = flows(vec![(
        "in",
        vec![rule(Some(Operation { relation: Relation::Less, part_index: 4, val: 5 }), Dst::Accept)],
    )]);
    assert_eq!(accepted(&[4, 1, 1, 1], &odd), None);
    assert_eq!(part_one(&vec![[4, 1, 1, 1]], &odd), None);
}

#[test]
fn day19_later_workflow_of_a_name_counts() {
    let twice = flows(vec![("in", vec![rule(None, Dst::Reject)]), ("in", vec![rule(None, Dst::Accept)])]);
    assert_eq!(accepted(&[1, 2, 3, 4], &twice), Some(true));
    assert_eq!(part_one(&vec![[1, 2, 3, 4], [10, 20, 30, 40]], &twice), Some(110));
    assert_eq!(accepted_recursive(&[1, 2, 3, 4], 0, 0, &twice, 0), Some(false));
    assert_eq!(goto_dst(&[1, 2, 3, 4], &Dst::Workflow(b"in".to_vec()), &twice, 1), Some(true));
    assert_eq!(goto_dst(&[1, 2, 3, 4], &Dst::Workflow(b"in".to_vec()), &twice, 0), None);
}

#[test]
fn day19_ranges_are_cut_at_the_values() {
    let less = flows(vec![(
        "in",
        vec![
            rule(Some(Operation { relation: Relation::Less, part_index: 0, val: 1001 }), Dst::Accept),
            rule(None, Dst::Reject),
        ],
    )]);
    assert_eq!(part_two(&less), Some(1000 * 4000 * 4000 * 4000));
    let more = flows(vec![(
        "in",
        vec![
            rule(Some(Operation { relation: Relation::Greater, part_index: 3, val: 3990 }), Dst::Accept),
            rule(None, Dst::Reject),
        ],
    )]);
    assert_eq!(part_two(&more), Some(10 * 4000 * 4000 * 4000));
    let all = flows(vec![("in", vec![rule(None, Dst::Accept)])]);
    assert_eq!(part_two(&all), Some(4000u64.pow(4)));
    let mut found = Vec::new();
    assert!(calc_accepted_ranges([(1, 10); 4], 0, 0, &less, 1, &mut found));
    assert_eq!(found, vec![[(1, 1000), (1, 10), (1, 10), (1, 10)]]);
    // the same range is kept once
    assert!(branch_range([(1, 1000), (1, 10), (1, 10), (1, 10)], 0, 0, &less, 1, &mut found));
    assert_eq!(found.len(), 1);
    assert!(branch_range([(1, 5), (1, 10), (1, 10), (1, 10)], 0, 1, &less, 1, &mut found));
    assert_eq!(found.len(), 1);
}

#[test]
fn day19_cuts_that_cannot_be_made() {
    let zero = flows(vec![(
        "in",
        vec![rule(Some(Operation { relation: Relation::Less, part_index: 0, val: 0 }), Dst::Accept)],
    )]);
    assert_eq!(part_two(&zero), None);
    let top = flows(vec![(
        "in",
        vec![rule(Some(Operation { relation: Relation::Greater, part_index: 0, val: u32::MAX }), Dst::Accept)],
    )]);
    assert_eq!(part_two(&top), None);
    // a cut above the range leaves a range with nothing to count
    let above = flows(vec![(
        "in",
        vec![rule(Some(Operation { relation: Relation::Greater, part_index: 0, val: 5000 }), Dst::Accept)],
    )]);
    assert_eq!(part_two(&above), None);
    let edge = flows(vec![(
        "in",
        vec![rule(Some(Operation { relation: Relation::Greater, part_index: 0, val: 4000 }), Dst::Accept)],
    )]);
    assert_eq!(part_two(&edge), Some(0));
}
