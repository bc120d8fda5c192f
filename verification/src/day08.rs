//! A network of named nodes, walked by a repeating list of left and right
//! turns.

use std::collections::HashMap;
use vstd::prelude::*;
use vstd::string::StringSliceAdditionalSpecFns;
use crate::text::{lines, lines_of, views};

verus! {

broadcast use vstd::std_specs::hash::group_hash_axioms;

/// The number that stands for a name of three bytes.
pub open spec fn code_of(a: u8, b: u8, c: u8) -> u32 {
    (a + b * 256 + c * 65536) as u32
}

/// The last byte of the name that `code` stands for.
pub open spec fn last_byte(code: u32) -> int {
    code as int / 65536
}

/// The number that stands for a name of three bytes.
pub fn code(loc: [u8; 3]) -> (c: u32)
    ensures
        c == code_of(loc[0], loc[1], loc[2]),
        last_byte(c) == loc[2],
{
    loc[0] as u32 + loc[1] as u32 * 256 + loc[2] as u32 * 65536
}

/// The nodes of a network: for each node the node to its left and the node
/// to its right, and the names of all nodes in the order they were given.
pub struct Network {
    pub names: Vec<u32>,
    pub links: HashMap<u32, (u32, u32)>,
}

/// Where a walk ends.
#[derive(Clone, Copy, Debug, PartialEq, Eq, Structural)]
pub enum Target {
    /// On the node with this name.
    Exact(u32),
    /// On any node whose name ends in this byte.
    Ending(u8),
}

impl Target {
    /// The walk ends on `at`.
    pub open spec fn hit(self, at: u32) -> bool {
        match self {
            Target::Exact(name) => at == name,
            Target::Ending(b) => last_byte(at) == b,
        }
    }

    /// The walk ends on `at`.
    pub fn is_hit(self, at: u32) -> (r: bool)
        ensures
            r == self.hit(at),
    {
        match self {
            Target::Exact(name) => at == name,
            Target::Ending(b) => at / 65536 == b as u32,
        }
    }
}

/// The node reached from `at` by one turn: left for 0, right for 1. `None`
/// when the network has no node `at` or the turn is neither.
pub open spec fn hop(links: Map<u32, (u32, u32)>, at: u32, turn: usize) -> Option<u32> {
    if links.contains_key(at) && turn <= 1 {
        Some(
            if turn == 0 {
                links[at].0
            } else {
                links[at].1
            },
        )
    } else {
        None
    }
}

/// The node reached from `start` after `k` turns, the list of turns being
/// repeated as often as needed.
pub open spec fn walk(links: Map<u32, (u32, u32)>, turns: Seq<usize>, start: u32, k: nat) -> Option<u32>
    decreases k,
{
    if k == 0 {
        Some(start)
    } else {
        match walk(links, turns, start, (k - 1) as nat) {
            Some(at) => hop(links, at, turns[(k - 1) % (turns.len() as int)]),
            None => None,
        }
    }
}

/// The walk from `start` is on a target node after exactly `k` turns.
pub open spec fn arrives(
    links: Map<u32, (u32, u32)>,
    turns: Seq<usize>,
    start: u32,
    target: Target,
    k: nat,
) -> bool {
    walk(links, turns, start, k) matches Some(at) && target.hit(at)
}

/// The number of turns after which a walk is given up: the number of nodes
/// times the number of turns in the list, which is the number of ways a
/// walker can stand in the network, or the largest `u64` if that is less.
pub open spec fn patience(links: Map<u32, (u32, u32)>, turns: Seq<usize>) -> nat {
    if links.len() * turns.len() <= u64::MAX {
        links.len() * turns.len()
    } else {
        u64::MAX as nat
    }
}

/// A walk that has left the network does not come back.
pub proof fn lemma_walk_lost(links: Map<u32, (u32, u32)>, turns: Seq<usize>, start: u32, i: nat, k: nat)
    requires
        i <= k,
        walk(links, turns, start, i) is None,
    ensures
        walk(links, turns, start, k) is None,
    decreases k - i,
{
    if i < k {
        lemma_walk_lost(links, turns, start, i, (k - 1) as nat);
    }
}

/// The number of turns after which the walk from `location` first stands
/// on a target node. `None` when it does not arrive within `patience`
/// turns, be it that it leaves the network or that there are no turns to
/// take.
pub fn step_count(location: u32, directions: &Vec<usize>, map: &Network, target: Target) -> (r: Option<u64>)
    ensures
        match r {
            Some(c) => {
                &&& arrives(map.links@, directions@, location, target, c as nat)
                &&& forall|k: nat| k < c ==> !#[trigger] arrives(map.links@, directions@, location, target, k)
                &&& c <= patience(map.links@, directions@)
            },
            None => forall|k: nat|
                k <= patience(map.links@, directions@) ==> !#[trigger] arrives(
                    map.links@,
                    directions@,
                    location,
                    target,
                    k,
                ),
        },
{
    let ghost links = map.links@;
    let ghost turns = directions@;
    let nodes: u128 = map.links.len() as u128;
    let n: usize = directions.len();
    assert(nodes * (n as u128) == links.len() * turns.len() && nodes * (n as u128) <= 0xffff_ffff_ffff_ffff
        * 0xffff_ffff_ffff_ffff) by (nonlinear_arith)
        requires
            nodes == links.len(),
            n == turns.len(),
            nodes <= 0xffff_ffff_ffff_ffff,
            n <= 0xffff_ffff_ffff_ffff,
    ;
    let product: u128 = nodes * (n as u128);
    let limit: u64 = if product <= 0xffff_ffff_ffff_ffff {
        product as u64
    } else {
        0xffff_ffff_ffff_ffff
    };
    assert(limit == patience(links, turns));
    let mut at: u32 = location;
    let mut count: u64 = 0;
    let mut i: usize = 0;
    loop
        invariant
            links == map.links@,
            turns == directions@,
            n == turns.len(),
            limit == patience(links, turns),
            count <= limit,
            n > 0 ==> i == count as int % (n as int),
            n == 0 ==> count == 0,
            walk(links, turns, location, count as nat) == Some(at),
            forall|k: nat| k < count ==> !#[trigger] arrives(links, turns, location, target, k),
        decreases limit - count,
    {
        if target.is_hit(at) {
            return Some(count);
        }
        if count == limit {
            assert forall|k: nat| k <= limit implies !#[trigger] arrives(links, turns, location, target, k) by {
            }
            return None;
        }
        assert(n > 0) by (nonlinear_arith)
            requires
                limit > 0,
                limit <= links.len() * n,
                n >= 0,
        ;
        let turn: usize = directions[i];
        let next: Option<u32> = match map.links.get(&at) {
            Some(pair) => if turn == 0 {
                Some(pair.0)
            } else if turn == 1 {
                Some(pair.1)
            } else {
                None
            },
            None => None,
        };
        assert(next == hop(links, at, turn));
        assert(walk(links, turns, location, (count + 1) as nat) == next);
        match next {
            Some(node) => {
                at = node;
            },
            None => {
                assert forall|k: nat| k <= limit implies !#[trigger] arrives(links, turns, location, target, k) by {
                    if k > count {
                        lemma_walk_lost(links, turns, location, (count + 1) as nat, k);
                    }
                }
                return None;
            },
        }
        count += 1;
        i = if i + 1 == n {
            0
        } else {
            i + 1
        };
        assert(i == count as int % (n as int)) by (nonlinear_arith)
            requires
                n > 0,
                count >= 1,
                i == (if (count - 1) % (n as int) + 1 == n {
                    0
                } else {
                    (count - 1) % (n as int) + 1
                }),
        ;
    }
}

/// The number that stands for `AAA`.
pub open spec fn first_node() -> u32 {
    code_of(65, 65, 65)
}

/// The number that stands for `ZZZ`.
pub open spec fn last_node() -> u32 {
    code_of(90, 90, 90)
}

/// The number of turns from the node `AAA` to the node `ZZZ`.
pub fn part_one(directions: &Vec<usize>, map: &Network) -> (r: Option<u64>)
    ensures
        match r {
            Some(c) => {
                &&& arrives(map.links@, directions@, first_node(), Target::Exact(last_node()), c as nat)
                &&& forall|k: nat|
                    k < c ==> !#[trigger] arrives(
                        map.links@,
                        directions@,
                        first_node(),
                        Target::Exact(last_node()),
                        k,
                    )
            },
            None => forall|k: nat|
                k <= patience(map.links@, directions@) ==> !#[trigger] arrives(
                    map.links@,
                    directions@,
                    first_node(),
                    Target::Exact(last_node()),
                    k,
                ),
        },
{
    let from: u32 = code([65, 65, 65]);
    let to: u32 = code([90, 90, 90]);
    step_count(from, directions, map, Target::Exact(to))
}

} // verus!

verus! {

/// The least number of turns, within `patience`, after which the walk from
/// `start` stands on a target node; `None` when there is none.
#[verifier::opaque]
pub open spec fn first_arrival(
    links: Map<u32, (u32, u32)>,
    turns: Seq<usize>,
    start: u32,
    target: Target,
) -> Option<nat> {
    if exists|k: nat| k <= patience(links, turns) && #[trigger] arrives(links, turns, start, target, k) {
        Some(
            choose|k: nat|
                #[trigger] arrives(links, turns, start, target, k) && k <= patience(links, turns) && forall|j: nat|
                    j < k ==> !#[trigger] arrives(links, turns, start, target, j),
        )
    } else {
        None
    }
}

/// The first arrival is the only number of turns at which the walk
/// arrives without having arrived before.
pub proof fn lemma_first_arrival(
    links: Map<u32, (u32, u32)>,
    turns: Seq<usize>,
    start: u32,
    target: Target,
    c: nat,
)
    requires
        arrives(links, turns, start, target, c),
        c <= patience(links, turns),
        forall|j: nat| j < c ==> !#[trigger] arrives(links, turns, start, target, j),
    ensures
        first_arrival(links, turns, start, target) == Some(c),
{
    reveal(first_arrival);
    let k = choose|k: nat|
        #[trigger] arrives(links, turns, start, target, k) && k <= patience(links, turns) && forall|j: nat|
            j < k ==> !#[trigger] arrives(links, turns, start, target, j);
    if k < c {
        assert(!arrives(links, turns, start, target, k));
    }
    if c < k {
        assert(!arrives(links, turns, start, target, c));
    }
}

/// A walk that does not arrive within `patience` has no first arrival.
pub proof fn lemma_no_arrival(links: Map<u32, (u32, u32)>, turns: Seq<usize>, start: u32, target: Target)
    requires
        forall|k: nat| k <= patience(links, turns) ==> !#[trigger] arrives(links, turns, start, target, k),
    ensures
        first_arrival(links, turns, start, target) is None,
{
    reveal(first_arrival);
}

/// `step_count` as a value: the first arrival, when there is one.
pub fn first_arrival_of(location: u32, directions: &Vec<usize>, map: &Network, target: Target) -> (r: Option<u64>)
    ensures
        r == match first_arrival(map.links@, directions@, location, target) {
            Some(c) => Some(c as u64),
            None => None,
        },
        first_arrival(map.links@, directions@, location, target) matches Some(c) ==> c <= u64::MAX,
{
    let r = step_count(location, directions, map, target);
    proof {
        if let Some(c) = r {
            lemma_first_arrival(map.links@, directions@, location, target, c as nat);
        } else {
            lemma_no_arrival(map.links@, directions@, location, target);
        }
    }
    r
}

/// `d` divides `x`.
pub open spec fn divides(d: nat, x: nat) -> bool {
    d > 0 && x % d == 0
}

/// `g` is the greatest number that divides both `a` and `b`, or zero when
/// both are zero.
pub open spec fn is_gcd(a: nat, b: nat, g: nat) -> bool {
    if a == 0 && b == 0 {
        g == 0
    } else {
        &&& divides(g, a)
        &&& divides(g, b)
        &&& forall|d: nat| divides(d, a) && divides(d, b) ==> d <= g
    }
}

/// The greatest common divisor of `a` and `b`.
#[verifier::opaque]
pub open spec fn gcd_of(a: nat, b: nat) -> nat {
    choose|g: nat| is_gcd(a, b, g)
}

/// The least common multiple of `a` and `b`: `a` times the part of `b`
/// that `a` does not already hold; zero when both are zero.
pub open spec fn lcm_of(a: nat, b: nat) -> nat {
    if a == 0 && b == 0 {
        0
    } else {
        a * (b / gcd_of(a, b))
    }
}

/// A number that is a greatest common divisor is the greatest common
/// divisor.
pub proof fn lemma_gcd_unique(a: nat, b: nat, g: nat)
    requires
        is_gcd(a, b, g),
    ensures
        gcd_of(a, b) == g,
        !(a == 0 && b == 0) ==> g >= 1,
{
    reveal(gcd_of);
    let h = gcd_of(a, b);
    assert(is_gcd(a, b, h));
}

/// The greatest common divisor, computed by `num::integer::gcd`. The
/// contract claims that the result divides both arguments and that no
/// larger number does, and that it is zero when both arguments are.
#[verifier::external_body]
fn gcd(a: u64, b: u64) -> (g: u64)
    ensures
        is_gcd(a as nat, b as nat, g as nat),
{
    num::integer::gcd(a, b)
}

/// The least common multiple, computed by `num::integer::lcm`. The contract
/// claims what the source shows: zero for two zeros, else the first
/// argument times the quotient of the second by the greatest common
/// divisor. The product has to fit, since the outside function multiplies
/// without a check.
#[verifier::external_body]
fn lcm(a: u64, b: u64) -> (m: u64)
    requires
        lcm_of(a as nat, b as nat) <= u64::MAX,
    ensures
        m == lcm_of(a as nat, b as nat),
{
    num::integer::lcm(a, b)
}

/// The least common multiple of `a` and `b`, `None` when it does not fit
/// in a `u64`.
pub fn checked_lcm(a: u64, b: u64) -> (r: Option<u64>)
    ensures
        r == if lcm_of(a as nat, b as nat) <= u64::MAX {
            Some(lcm_of(a as nat, b as nat) as u64)
        } else {
            None
        },
{
    if a == 0 && b == 0 {
        return Some(lcm(a, b));
    }
    let g: u64 = gcd(a, b);
    proof {
        lemma_gcd_unique(a as nat, b as nat, g as nat);
    }
    match a.checked_mul(b / g) {
        Some(_) => Some(lcm(a, b)),
        None => None,
    }
}

/// The least common multiple of the first arrivals of the walks that start
/// on the nodes, among the first `n` names, whose name ends in `A` and end
/// on a node whose name ends in `Z`. The outer `None` stands for a walk
/// that does not arrive or a multiple that does not fit in a `u64`, the
/// inner one for no walk at all.
pub open spec fn journeys(links: Map<u32, (u32, u32)>, turns: Seq<usize>, names: Seq<u32>, n: int) -> Option<
    Option<nat>,
>
    decreases n,
{
    if n <= 0 {
        Some(None)
    } else {
        match journeys(links, turns, names, n - 1) {
            None => None,
            Some(so_far) => if last_byte(names[n - 1]) != 65 {
                Some(so_far)
            } else {
                match first_arrival(links, turns, names[n - 1], Target::Ending(90)) {
                    None => None,
                    Some(c) => match so_far {
                        None => Some(Some(c)),
                        Some(a) => if lcm_of(a, c) <= u64::MAX {
                            Some(Some(lcm_of(a, c)))
                        } else {
                            None
                        },
                    },
                }
            },
        }
    }
}

/// Once the journeys up to name `i` fail, they fail for more names.
pub proof fn lemma_journeys_none(links: Map<u32, (u32, u32)>, turns: Seq<usize>, names: Seq<u32>, i: int, n: int)
    requires
        0 <= i <= n,
        journeys(links, turns, names, i) is None,
    ensures
        journeys(links, turns, names, n) is None,
    decreases n - i,
{
    if i < n {
        lemma_journeys_none(links, turns, names, i, n - 1);
    }
}

/// The number of turns after which all walks that start on a node whose
/// name ends in `A` stand on a node whose name ends in `Z` at once, taken
/// as the least common multiple of their first arrivals. `None` when there
/// is no such start, a walk does not arrive, or the multiple does not fit.
pub fn part_two(directions: &Vec<usize>, map: &Network) -> (r: Option<u64>)
    ensures
        r == match journeys(map.links@, directions@, map.names@, map.names@.len() as int) {
            Some(Some(v)) => Some(v as u64),
            _ => None,
        },
{
    let mut acc: Option<u64> = None;
    let mut i: usize = 0;
    while i < map.names.len()
        invariant
            i <= map.names@.len(),
            journeys(map.links@, directions@, map.names@, i as int) == Some(
                match acc {
                    Some(v) => Some(v as nat),
                    None => None,
                },
            ),
        decreases map.names@.len() - i,
    {
        let name: u32 = map.names[i];
        if name / 65536 == 65 {
            let next: Option<u64> = match first_arrival_of(name, directions, map, Target::Ending(90)) {
                None => None,
                Some(c) => match acc {
                    None => Some(c),
                    Some(a) => checked_lcm(a, c),
                },
            };
            match next {
                Some(v) => {
                    acc = Some(v);
                },
                None => {
                    proof {
                        lemma_journeys_none(map.links@, directions@, map.names@, i + 1, map.names@.len() as int);
                    }
                    return None;
                },
            }
        }
        i += 1;
    }
    acc
}

/// The turns that a line spells: left for each `L`, right for any other
/// byte.
pub open spec fn turns_of(line: Seq<u8>) -> Seq<usize> {
    Seq::new(
        line.len(),
        |i: int|
            if line[i] == 76u8 {
                0usize
            } else {
                1usize
            },
    )
}

/// The name that starts at byte `at` of a line.
pub open spec fn name_at(line: Seq<u8>, at: int) -> u32 {
    code_of(line[at], line[at + 1], line[at + 2])
}

/// The names that the lines from the third on define, in order.
pub open spec fn names_of(ls: Seq<Seq<u8>>) -> Seq<u32> {
    Seq::new(
        if ls.len() >= 2 {
            (ls.len() - 2) as nat
        } else {
            0
        },
        |i: int| name_at(ls[i + 2], 0),
    )
}

/// The links that the lines from the third up to line `n` define, a later
/// line for a name replacing an earlier one.
pub open spec fn links_of(ls: Seq<Seq<u8>>, n: int) -> Map<u32, (u32, u32)>
    decreases n,
{
    if n <= 2 {
        Map::empty()
    } else {
        links_of(ls, n - 1).insert(name_at(ls[n - 1], 0), (name_at(ls[n - 1], 7), name_at(ls[n - 1], 12)))
    }
}

/// The text states a network: a line of turns, a line that is passed over,
/// and lines of at least fifteen bytes.
pub open spec fn is_network(ls: Seq<Seq<u8>>) -> bool {
    ls.len() >= 1 && forall|i: int| 2 <= i < ls.len() ==> (#[trigger] ls[i]).len() >= 15
}

/// The name that starts at byte `at` of a line.
fn read_name(line: &Vec<u8>, at: usize) -> (c: u32)
    requires
        at + 3 <= line@.len(),
    ensures
        c == name_at(line@, at as int),
{
    let n: usize = line.len();
    assert(at + 3 <= n);
    code([line[at], line[at + 1], line[at + 2]])
}

/// Reads the turns from the first line and the network from the lines
/// behind the second: in each, the name of a node stands in the first
/// three bytes, the node to its left from the eighth byte on and the node
/// to its right from the thirteenth on. `None` when there is no line or a
/// line of the network has fewer than fifteen bytes.
pub fn parse_input(input: &str) -> (r: Option<(Vec<usize>, Network)>)
    ensures
        r is Some <==> is_network(lines(input.spec_bytes())),
        r matches Some((directions, map)) ==> {
            let ls = lines(input.spec_bytes());
            &&& directions@ == turns_of(ls[0])
            &&& map.names@ == names_of(ls)
            &&& map.links@ == links_of(ls, ls.len() as int)
        },
{
    let all = lines_of(input.as_bytes());
    let ghost ls = lines(input.spec_bytes());
    if all.len() == 0 {
        return None;
    }
    assert(ls[0] == all@[0]@);
    let first = &all[0];
    let mut directions: Vec<usize> = Vec::new();
    let mut k: usize = 0;
    while k < first.len()
        invariant
            k <= first@.len(),
            directions@.len() == k,
            forall|j: int| 0 <= j < k ==> #[trigger] directions@[j] == turns_of(first@)[j],
        decreases first@.len() - k,
    {
        directions.push(
            if first[k] == 76 {
                0
            } else {
                1
            },
        );
        k += 1;
    }
    assert(directions@ =~= turns_of(ls[0]));
    let mut names: Vec<u32> = Vec::new();
    let mut links: HashMap<u32, (u32, u32)> = HashMap::new();
    let mut i: usize = 2;
    assert(links@ =~= links_of(ls, 2));
    while i < all.len()
        invariant
            2 <= i,
            i <= all@.len() || i == 2,
            ls == views(all@),
            ls == lines(input.spec_bytes()),
            forall|j: int| 2 <= j < i && j < ls.len() ==> (#[trigger] ls[j]).len() >= 15,
            names@.len() == i - 2,
            forall|j: int| 0 <= j < names@.len() ==> #[trigger] names@[j] == name_at(ls[j + 2], 0),
            links@ == links_of(ls, i as int),
        decreases all@.len() - i,
    {
        let line = &all[i];
        assert(ls[i as int] == line@);
        if line.len() < 15 {
            return None;
        }
        let name: u32 = read_name(line, 0);
        let left: u32 = read_name(line, 7);
        let right: u32 = read_name(line, 12);
        names.push(name);
        links.insert(name, (left, right));
        i += 1;
    }
    proof {
        assert(names@ =~= names_of(ls));
        if ls.len() < 2 {
            assert(links_of(ls, ls.len() as int) =~= links_of(ls, 2));
        }
    }
    Some((directions, Network { names, links }))
}

} // verus!
