use aoc::day08::{checked_lcm, code, first_arrival_of, parse_input, part_one, part_two, step_count, Network, Target};

const FIRST: &str = "RL

AAA = (BBB, CCC)
BBB = (DDD, EEE)
CCC = (ZZZ, GGG)
DDD = (DDD, DDD)
EEE = (EEE, EEE)
GGG = (GGG, GGG)
ZZZ = (ZZZ, ZZZ)
";

const SECOND: &str = "LLR

AAA = (BBB, BBB)
BBB = (AAA, ZZZ)
ZZZ = (ZZZ, ZZZ)
";

const GHOSTS: &str = "LR

11A = (11B, NNN)
11B = (NNN, 11Z)
11Z = (11B, NNN)
22A = (22B, NNN)
22B = (22C, 22C)
22C = (22Z, 22Z)
22Z = (22B, 22B)
NNN = (NNN, NNN)
";

#[test]
fn day08_sample_answers() {
    let (dirs, net) = parse_input(FIRST).unwrap();
    assert_eq!(part_one(&dirs, &net), Some(2));
    let (dirs, net) = parse_input(SECOND).unwrap();
    assert_eq!(part_one(&dirs, &net), Some(6));
    let (dirs, net) = parse_input(GHOSTS).unwrap();
    assert_eq!(part_two(&dirs, &net), Some(6));
}

#[test]
fn day08_text_is_read() {
    let (dirs, net) = parse_input(SECOND).unwrap();
    assert_eq!(dirs, vec![0, 0, 1]);
    assert_eq!(net.names, vec![code(*b"AAA"), code(*b"BBB"), code(*b"ZZZ")]);
    assert_eq!(net.links.len(), 3);
    assert_eq!(net.links[&code(*b"BBB")], (code(*b"AAA"), code(*b"ZZZ")));
    assert!(parse_input("").is_none());
    assert!(parse_input("LR\n\nAAA = (BBB)\n").is_none());
    let (dirs, net) = parse_input("LXR\n").unwrap();
    assert_eq!(dirs, vec![0, 1, 1]);
    assert!(net.names.is_empty());
    assert!(net.links.is_empty());
}

#[test]
fn day08_codes_keep_the_last_byte() {
    assert_eq!(code(*b"AAA"), 65 + 65 * 256 + 65 * 65536);
    assert_eq!(code(*b"11Z") / 65536, 90);
    assert_ne!(code(*b"ABC"), code(*b"CBA"));
}

#[test]
fn day08_walks_that_do_not_arrive() {
    let (dirs, net) = parse_input(FIRST).unwrap();
    // DDD only leads to itself
    assert_eq!(step_count(code(*b"DDD"), &dirs, &net, Target::Exact(code(*b"ZZZ"))), None);
    // a start that is the target needs no turn
    assert_eq!(step_count(code(*b"ZZZ"), &dirs, &net, Target::Exact(code(*b"ZZZ"))), Some(0));
    // a node that the network does not hold
    assert_eq!(step_count(code(*b"QQQ"), &dirs, &net, Target::Exact(code(*b"ZZZ"))), None);
    // no turns to take
    assert_eq!(step_count(code(*b"AAA"), &vec![], &net, Target::Exact(code(*b"ZZZ"))), None);
    assert_eq!(step_count(code(*b"AAA"), &vec![], &net, Target::Exact(code(*b"AAA"))), Some(0));
    // a turn that is neither left nor right
    assert_eq!(step_count(code(*b"AAA"), &vec![2], &net, Target::Exact(code(*b"ZZZ"))), None);
    assert_eq!(first_arrival_of(code(*b"AAA"), &dirs, &net, Target::Ending(b'Z')), Some(2));
    assert_eq!(first_arrival_of(code(*b"AAA"), &dirs, &net, Target::Ending(b'G')), None);
}

#[test]
fn day08_no_start_no_answer() {
    let (dirs, net) = parse_input(FIRST).unwrap();
    assert_eq!(part_two(&dirs, &net), Some(2));
    let empty = Network { names: vec![], links: Default::default() };
    assert_eq!(part_two(&dirs, &empty), None);
    let (dirs, net) = parse_input("L\n\nAAB = (AAB, AAB)\nAAZ = (AAZ, AAZ)\n").unwrap();
    assert_eq!(part_two(&dirs, &net), None);
}

#[test]
fn day08_least_common_multiples() {
    assert_eq!(checked_lcm(4, 6), Some(12));
    assert_eq!(checked_lcm(6, 4), Some(12));
    assert_eq!(checked_lcm(7, 13), Some(91));
    assert_eq!(checked_lcm(0, 0), Some(0));
    assert_eq!(checked_lcm(0, 5), Some(0));
    assert_eq!(checked_lcm(5, 0), Some(0));
    assert_eq!(checked_lcm(1, u64::MAX), Some(u64::MAX));
    assert_eq!(checked_lcm(u64::MAX, u64::MAX), Some(u64::MAX));
    assert_eq!(checked_lcm(u64::MAX, u64::MAX - 1), None);
    assert_eq!(checked_lcm(1 << 32, (1 << 32) + 1), None);
    assert_eq!(checked_lcm(1 << 32, 1 << 33), Some(1 << 33));
}
