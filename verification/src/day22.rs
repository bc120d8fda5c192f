//! Bricks that fall straight down until they rest on the ground or on each
//! other.

use vstd::prelude::*;
use vstd::string::StringSliceAdditionalSpecFns;
use crate::text::{find_byte, first_index, lines, lines_of, number, parse_u64, slice_of, split, split_at, views};

verus! {

/// A point or an extent in space, in whole cubes.
#[derive(Clone, Copy, Debug, PartialEq, Eq, Structural)]
pub struct Vec3 {
    pub x: u16,
    pub y: u16,
    pub z: u16,
}

/// A brick: the cube at its lowest corner and its extent along each axis.
#[derive(Clone, Copy, Debug, PartialEq, Eq, Structural)]
pub struct Brick {
    pub pos: Vec3,
    pub dim: Vec3,
}

impl Brick {
    /// The brick one cube further down.
    pub open spec fn down(self) -> Brick {
        Brick { pos: Vec3 { x: self.pos.x, y: self.pos.y, z: (self.pos.z - 1) as u16 }, dim: self.dim }
    }

    /// The two bricks share a cube.
    pub open spec fn overlaps(self, other: Brick) -> bool {
        &&& self.pos.x < other.pos.x + other.dim.x
        &&& self.pos.x + self.dim.x > other.pos.x
        &&& self.pos.y < other.pos.y + other.dim.y
        &&& self.pos.y + self.dim.y > other.pos.y
        &&& self.pos.z < other.pos.z + other.dim.z
        &&& self.pos.z + self.dim.z > other.pos.z
    }

    /// The brick one cube further down; `None` when it lies on the ground,
    /// which is at height one.
    pub fn lowered(self) -> (r: Option<Brick>)
        requires
            self.pos.z >= 1,
        ensures
            r == if self.pos.z == 1 {
                None
            } else {
                Some(self.down())
            },
    {
        if self.pos.z == 1 {
            return None;
        }
        Some(Brick { pos: Vec3 { x: self.pos.x, y: self.pos.y, z: self.pos.z - 1 }, dim: self.dim })
    }

    /// The two bricks share a cube.
    pub fn collides(&self, other: &Brick) -> (r: bool)
        ensures
            r == self.overlaps(*other),
    {
        (self.pos.x as u32) < other.pos.x as u32 + other.dim.x as u32 && self.pos.x as u32 + self.dim.x as u32
            > other.pos.x as u32 && (self.pos.y as u32) < other.pos.y as u32 + other.dim.y as u32 && self.pos.y as u32
            + self.dim.y as u32 > other.pos.y as u32 && (self.pos.z as u32) < other.pos.z as u32 + other.dim.z as u32
            && self.pos.z as u32 + self.dim.z as u32 > other.pos.z as u32
    }
}

/// Every brick lies at height one or above.
pub open spec fn above_ground(bricks: Seq<Brick>) -> bool {
    forall|i: int| 0 <= i < bricks.len() ==> (#[trigger] bricks[i]).pos.z >= 1
}

/// `b` shares a cube with one of the bricks other than number `k` and,
/// where `gone` names a brick, other than that one.
pub open spec fn blocked(bricks: Seq<Brick>, b: Brick, k: int, gone: Option<int>) -> bool {
    exists|j: int| 0 <= j < bricks.len() && j != k && gone != Some(j) && b.overlaps(#[trigger] bricks[j])
}

/// Brick `k` can move one cube down: it is above the ground and the place
/// below is free of the other bricks, not counting the brick `gone`.
pub open spec fn can_fall(bricks: Seq<Brick>, k: int, gone: Option<int>) -> bool {
    bricks[k].pos.z > 1 && !blocked(bricks, bricks[k].down(), k, gone)
}

/// No brick can move down.
pub open spec fn stable(bricks: Seq<Brick>) -> bool {
    forall|k: int| 0 <= k < bricks.len() ==> !#[trigger] can_fall(bricks, k, None)
}

/// The bricks after the bricks named by `moves` have moved down one cube
/// each, in that order.
pub open spec fn after_moves(bricks: Seq<Brick>, moves: Seq<int>) -> Seq<Brick>
    decreases moves.len(),
{
    if moves.len() == 0 {
        bricks
    } else {
        let before = after_moves(bricks, moves.drop_last());
        before.update(moves.last(), before[moves.last()].down())
    }
}

/// Every move names a brick that can fall at the time of the move.
pub open spec fn legal_moves(bricks: Seq<Brick>, moves: Seq<int>) -> bool
    decreases moves.len(),
{
    if moves.len() == 0 {
        true
    } else {
        &&& legal_moves(bricks, moves.drop_last())
        &&& 0 <= moves.last() < bricks.len()
        &&& can_fall(after_moves(bricks, moves.drop_last()), moves.last(), None)
    }
}

/// The bricks `after` are what some run of legal moves makes of `before`.
pub open spec fn falls_to(before: Seq<Brick>, after: Seq<Brick>) -> bool {
    exists|moves: Seq<int>| legal_moves(before, moves) && #[trigger] after_moves(before, moves) == after
}

/// The number of bricks among the first `n` that are not where they were.
pub open spec fn moved_count(before: Seq<Brick>, after: Seq<Brick>, n: int) -> nat
    decreases n,
{
    if n <= 0 {
        0
    } else {
        moved_count(before, after, n - 1) + if after[n - 1] != before[n - 1] {
            1nat
        } else {
            0nat
        }
    }
}

/// The sum of the heights of the first `n` bricks.
pub open spec fn height_sum(bricks: Seq<Brick>, n: int) -> nat
    decreases n,
{
    if n <= 0 {
        0
    } else {
        height_sum(bricks, n - 1) + bricks[n - 1].pos.z as nat
    }
}

/// Lowering one brick lowers the sum of the heights by one.
pub proof fn lemma_height_sum_down(bricks: Seq<Brick>, k: int, n: int)
    requires
        0 <= k < bricks.len(),
        0 <= n <= bricks.len(),
        bricks[k].pos.z >= 1,
    ensures
        height_sum(bricks.update(k, bricks[k].down()), n) + (if k < n {
            1nat
        } else {
            0nat
        }) == height_sum(bricks, n),
    decreases n,
{
    if n > 0 {
        lemma_height_sum_down(bricks, k, n - 1);
    }
}

/// `b` shares a cube with a brick other than number `k` and other than
/// `gone`.
pub fn is_blocked(bricks: &Vec<Brick>, b: &Brick, k: usize, gone: Option<usize>) -> (r: bool)
    ensures
        r == blocked(
            bricks@,
            *b,
            k as int,
            match gone {
                Some(g) => Some(g as int),
                None => None,
            },
        ),
{
    let ghost skip: Option<int> = match gone {
        Some(g) => Some(g as int),
        None => None,
    };
    let mut j: usize = 0;
    while j < bricks.len()
        invariant
            j <= bricks@.len(),
            skip == match gone {
                Some(g) => Some(g as int),
                None => None,
            },
            forall|m: int| 0 <= m < j && m != k && skip != Some(m) ==> !b.overlaps(#[trigger] bricks@[m]),
        decreases bricks@.len() - j,
    {
        let other: bool = match gone {
            Some(g) => g != j,
            None => true,
        };
        if j != k && other && b.collides(&bricks[j]) {
            assert(b.overlaps(bricks@[j as int]));
            return true;
        }
        j += 1;
    }
    false
}

/// Lets the bricks fall until none can move, and returns the number of
/// bricks that moved.
pub fn settle(bricks: &mut Vec<Brick>) -> (count: usize)
    requires
        above_ground(old(bricks)@),
    ensures
        final(bricks)@.len() == old(bricks)@.len(),
        above_ground(final(bricks)@),
        falls_to(old(bricks)@, final(bricks)@),
        stable(final(bricks)@),
        count == moved_count(old(bricks)@, final(bricks)@, old(bricks)@.len() as int),
{
    let n: usize = bricks.len();
    let ghost start = bricks@;
    let ghost mut moves: Seq<int> = Seq::empty();
    let mut flags: Vec<bool> = Vec::new();
    let mut f: usize = 0;
    while f < n
        invariant
            f <= n,
            flags@.len() == f,
            forall|k: int| 0 <= k < f ==> !flags@[k],
        decreases n - f,
    {
        flags.push(false);
        f += 1;
    }
    loop
        invariant
            n == bricks@.len(),
            n == start.len(),
            flags@.len() == n,
            above_ground(bricks@),
            legal_moves(start, moves),
            after_moves(start, moves) == bricks@,
            forall|k: int|
                0 <= k < n ==> {
                    &&& (#[trigger] bricks@[k]).dim == start[k].dim
                    &&& bricks@[k].pos.x == start[k].pos.x
                    &&& bricks@[k].pos.y == start[k].pos.y
                    &&& bricks@[k].pos.z <= start[k].pos.z
                    &&& flags@[k] == (bricks@[k].pos.z < start[k].pos.z)
                },
        ensures
            n == bricks@.len(),
            flags@.len() == n,
            above_ground(bricks@),
            legal_moves(start, moves),
            after_moves(start, moves) == bricks@,
            stable(bricks@),
            forall|k: int| 0 <= k < n ==> #[trigger] flags@[k] == (bricks@[k] != start[k]),
        decreases height_sum(bricks@, n as int),
    {
        let ghost before = bricks@;
        let mut moved: bool = false;
        let mut i: usize = 0;
        while i < n
            invariant
                i <= n,
                n == bricks@.len(),
                n == start.len(),
                n == before.len(),
                flags@.len() == n,
                above_ground(bricks@),
                legal_moves(start, moves),
                after_moves(start, moves) == bricks@,
                forall|k: int|
                    0 <= k < n ==> {
                        &&& (#[trigger] bricks@[k]).dim == start[k].dim
                        &&& bricks@[k].pos.x == start[k].pos.x
                        &&& bricks@[k].pos.y == start[k].pos.y
                        &&& bricks@[k].pos.z <= start[k].pos.z
                        &&& flags@[k] == (bricks@[k].pos.z < start[k].pos.z)
                    },
                !moved ==> bricks@ == before,
                !moved ==> forall|k: int| 0 <= k < i ==> !#[trigger] can_fall(bricks@, k, None),
                moved ==> height_sum(bricks@, n as int) < height_sum(before, n as int),
                height_sum(bricks@, n as int) <= height_sum(before, n as int),
            decreases n - i,
        {
            let brick: Brick = bricks[i];
            match brick.lowered() {
                Some(lower) => {
                    if !is_blocked(bricks, &lower, i, None) {
                        proof {
                            lemma_height_sum_down(bricks@, i as int, n as int);
                            let next = moves.push(i as int);
                            assert(next.drop_last() =~= moves);
                            moves = next;
                        }
                        bricks.set(i, lower);
                        flags.set(i, true);
                        moved = true;
                    }
                },
                None => {},
            }
            i += 1;
        }
        if !moved {
            break;
        }
    }
    let mut count: usize = 0;
    let mut k: usize = 0;
    while k < n
        invariant
            k <= n,
            n == bricks@.len(),
            flags@.len() == n,
            forall|j: int| 0 <= j < n ==> #[trigger] flags@[j] == (bricks@[j] != start[j]),
            count == moved_count(start, bricks@, k as int),
            count <= k,
        decreases n - k,
    {
        if flags[k] {
            count += 1;
        }
        k += 1;
    }
    assert(falls_to(start, bricks@));
    count
}

} // verus!

verus! {

/// Taking brick `i` away lets no other brick fall.
pub open spec fn safe(bricks: Seq<Brick>, i: int) -> bool {
    forall|k: int| 0 <= k < bricks.len() && k != i ==> !#[trigger] can_fall(bricks, k, Some(i))
}

/// The number of bricks among the first `n` that are safe to take away.
pub open spec fn safe_count(bricks: Seq<Brick>, n: int) -> nat
    decreases n,
{
    if n <= 0 {
        0
    } else {
        safe_count(bricks, n - 1) + if safe(bricks, n - 1) {
            1nat
        } else {
            0nat
        }
    }
}

/// Taking brick `i` away lets no other brick fall.
pub fn is_safe(bricks: &Vec<Brick>, i: usize) -> (r: bool)
    requires
        above_ground(bricks@),
    ensures
        r == safe(bricks@, i as int),
{
    let mut k: usize = 0;
    while k < bricks.len()
        invariant
            k <= bricks@.len(),
            above_ground(bricks@),
            forall|m: int| 0 <= m < k && m != i ==> !#[trigger] can_fall(bricks@, m, Some(i as int)),
        decreases bricks@.len() - k,
    {
        if k != i {
            let brick: Brick = bricks[k];
            match brick.lowered() {
                Some(lower) => {
                    if !is_blocked(bricks, &lower, k, Some(i)) {
                        assert(can_fall(bricks@, k as int, Some(i as int)));
                        return false;
                    }
                },
                None => {},
            }
        }
        k += 1;
    }
    true
}

/// Lets the bricks fall and returns the number of bricks of which each,
/// taken away alone, would let no other brick fall.
pub fn part_one(bricks: &mut Vec<Brick>) -> (count: usize)
    requires
        above_ground(old(bricks)@),
    ensures
        final(bricks)@.len() == old(bricks)@.len(),
        falls_to(old(bricks)@, final(bricks)@),
        stable(final(bricks)@),
        count == safe_count(final(bricks)@, final(bricks)@.len() as int),
{
    settle(bricks);
    let mut count: usize = 0;
    let mut i: usize = 0;
    while i < bricks.len()
        invariant
            i <= bricks@.len(),
            above_ground(bricks@),
            count == safe_count(bricks@, i as int),
            count <= i,
        decreases bricks@.len() - i,
    {
        if is_safe(bricks, i) {
            count += 1;
        }
        i += 1;
    }
    count
}

/// Letting the bricks `before` fall moves `count` of them.
pub open spec fn settles_with(before: Seq<Brick>, count: nat) -> bool {
    exists|after: Seq<Brick>| #[trigger]
        falls_to(before, after) && stable(after) && after.len() == before.len() && count == moved_count(
            before,
            after,
            before.len() as int,
        )
}

/// The sum of the first `n` numbers.
pub open spec fn sum_of(counts: Seq<nat>, n: int) -> nat
    decreases n,
{
    if n <= 0 {
        0
    } else {
        sum_of(counts, n - 1) + counts[n - 1]
    }
}

/// The numbers `counts` tell, for the first `n` bricks, how many other
/// bricks move when that brick alone is taken away and the rest falls.
pub open spec fn chain_counts(bricks: Seq<Brick>, counts: Seq<nat>, n: int) -> bool {
    counts.len() == n && forall|i: int| 0 <= i < n ==> settles_with(bricks.remove(i), #[trigger] counts[i])
}

/// A sum does not depend on what follows the numbers added.
pub proof fn lemma_sum_prefix(a: Seq<nat>, b: Seq<nat>, n: int)
    requires
        0 <= n <= a.len(),
        n <= b.len(),
        forall|i: int| 0 <= i < n ==> a[i] == b[i],
    ensures
        sum_of(a, n) == sum_of(b, n),
    decreases n,
{
    if n > 0 {
        lemma_sum_prefix(a, b, n - 1);
    }
}

/// Takes brick `i` away, lets the others fall and returns how many of them
/// moved. The bricks themselves stay as they are.
pub fn chain_reaction(bricks: &Vec<Brick>, i: usize) -> (moved: usize)
    requires
        above_ground(bricks@),
        i < bricks@.len(),
    ensures
        settles_with(bricks@.remove(i as int), moved as nat),
{
    let n: usize = bricks.len();
    let mut rest: Vec<Brick> = Vec::new();
    let mut k: usize = 0;
    while k < n
        invariant
            k <= n,
            i < n,
            n == bricks@.len(),
            rest@.len() == if k <= i {
                k as int
            } else {
                k - 1
            },
            forall|j: int| 0 <= j < rest@.len() ==> #[trigger] rest@[j] == bricks@.remove(i as int)[j],
        decreases n - k,
    {
        if k != i {
            rest.push(bricks[k]);
        }
        k += 1;
    }
    assert(rest@ =~= bricks@.remove(i as int));
    let ghost before = rest@;
    let moved: usize = settle(&mut rest);
    assert(falls_to(before, rest@) && stable(rest@) && rest@.len() == before.len());
    moved
}

/// For every brick, takes it away, lets the others fall and counts how
/// many moved; returns the sum of these numbers. `None` when the sum does
/// not fit in a `usize`. The bricks themselves stay as they are.
pub fn part_two(bricks: &Vec<Brick>) -> (r: Option<usize>)
    requires
        above_ground(bricks@),
    ensures
        exists|counts: Seq<nat>| #[trigger]
            chain_counts(bricks@, counts, counts.len() as int) && counts.len() <= bricks@.len() && match r {
                Some(total) => counts.len() == bricks@.len() && total == sum_of(counts, counts.len() as int),
                None => sum_of(counts, counts.len() as int) > usize::MAX,
            },
{
    let n: usize = bricks.len();
    let ghost mut counts: Seq<nat> = Seq::empty();
    let mut total: usize = 0;
    let mut i: usize = 0;
    while i < n
        invariant
            i <= n,
            n == bricks@.len(),
            above_ground(bricks@),
            chain_counts(bricks@, counts, i as int),
            total == sum_of(counts, i as int),
        decreases n - i,
    {
        let moved: usize = chain_reaction(bricks, i);
        proof {
            let next = counts.push(moved as nat);
            assert forall|j: int| 0 <= j < i + 1 implies settles_with(bricks@.remove(j), #[trigger] next[j]) by {
                if j < i {
                    assert(next[j] == counts[j]);
                }
            }
            lemma_sum_prefix(counts, next, i as int);
            counts = next;
        }
        match total.checked_add(moved) {
            Some(v) => {
                total = v;
            },
            None => {
                assert(chain_counts(bricks@, counts, counts.len() as int));
                return None;
            },
        }
        i += 1;
    }
    assert(chain_counts(bricks@, counts, counts.len() as int));
    Some(total)
}

} // verus!

verus! {

/// The point that a text of three numbers between commas states; what
/// follows a third comma is ignored.
pub open spec fn point_of(s: Seq<u8>) -> Option<Vec3> {
    let parts = split(s, 44u8);
    if parts.len() >= 3 {
        match (number(parts[0]), number(parts[1]), number(parts[2])) {
            (Some(x), Some(y), Some(z)) => if x <= u16::MAX && y <= u16::MAX && z <= u16::MAX {
                Some(Vec3 { x: x as u16, y: y as u16, z: z as u16 })
            } else {
                None
            },
            _ => None,
        }
    } else {
        None
    }
}

/// The extent of a brick along one axis, from its first to its last cube.
pub open spec fn extent(first: u16, last: u16) -> Option<u16> {
    if first <= last && last - first + 1 <= u16::MAX {
        Some((last - first + 1) as u16)
    } else {
        None
    }
}

/// The brick that a line states: its first and its last cube, divided by a
/// tilde. `None` when the line has no tilde, a cube cannot be read, the
/// last cube lies before the first along some axis, an extent does not fit
/// in a `u16`, or the brick lies below height one.
pub open spec fn brick_of(line: Seq<u8>) -> Option<Brick> {
    let i = first_index(line, 126u8);
    if i >= line.len() {
        None
    } else {
        match (point_of(line.subrange(0, i)), point_of(line.subrange(i + 1, line.len() as int))) {
            (Some(a), Some(b)) => match (extent(a.x, b.x), extent(a.y, b.y), extent(a.z, b.z)) {
                (Some(dx), Some(dy), Some(dz)) => if a.z >= 1 {
                    Some(Brick { pos: a, dim: Vec3 { x: dx, y: dy, z: dz } })
                } else {
                    None
                },
                _ => None,
            },
            _ => None,
        }
    }
}

/// Reads a number that fits in a `u16`.
fn read_u16(s: &[u8]) -> (r: Option<u16>)
    ensures
        r == match number(s@) {
            Some(v) => if v <= u16::MAX {
                Some(v as u16)
            } else {
                None
            },
            None => None,
        },
{
    match parse_u64(s) {
        Some(v) => if v <= 0xffff {
            Some(v as u16)
        } else {
            None
        },
        None => None,
    }
}

/// Reads a point.
fn read_point(s: &[u8]) -> (r: Option<Vec3>)
    ensures
        r == point_of(s@),
{
    let parts = split_at(s, 44);
    if parts.len() < 3 {
        return None;
    }
    assert(views(parts@)[0] == parts@[0]@ && views(parts@)[1] == parts@[1]@ && views(parts@)[2] == parts@[2]@);
    match (read_u16(parts[0].as_slice()), read_u16(parts[1].as_slice()), read_u16(parts[2].as_slice())) {
        (Some(x), Some(y), Some(z)) => Some(Vec3 { x, y, z }),
        _ => None,
    }
}

/// The extent from `first` to `last`.
fn span(first: u16, last: u16) -> (r: Option<u16>)
    ensures
        r == extent(first, last),
{
    if first <= last && last - first < 0xffff {
        Some(last - first + 1)
    } else {
        None
    }
}

/// Reads one brick.
pub fn read_brick(line: &[u8]) -> (r: Option<Brick>)
    ensures
        r == brick_of(line@),
{
    let i: usize = find_byte(line, 126);
    if i >= line.len() {
        return None;
    }
    let first = slice_of(line, 0, i);
    let last = slice_of(line, i + 1, line.len());
    match (read_point(first.as_slice()), read_point(last.as_slice())) {
        (Some(a), Some(b)) => match (span(a.x, b.x), span(a.y, b.y), span(a.z, b.z)) {
            (Some(dx), Some(dy), Some(dz)) => if a.z >= 1 {
                Some(Brick { pos: a, dim: Vec3 { x: dx, y: dy, z: dz } })
            } else {
                None
            },
            _ => None,
        },
        _ => None,
    }
}

/// Every line states a brick.
pub open spec fn all_bricks(ls: Seq<Seq<u8>>) -> bool {
    forall|i: int| 0 <= i < ls.len() ==> (#[trigger] brick_of(ls[i])) is Some
}

/// Reads one brick per line. `None` when a line states no brick.
pub fn parse_input(input: &str) -> (r: Option<Vec<Brick>>)
    ensures
        r is Some <==> all_bricks(lines(input.spec_bytes())),
        r matches Some(bricks) ==> {
            let ls = lines(input.spec_bytes());
            &&& bricks@.len() == ls.len()
            &&& forall|i: int| 0 <= i < ls.len() ==> Some(#[trigger] bricks@[i]) == brick_of(ls[i])
            &&& above_ground(bricks@)
        },
{
    let all = lines_of(input.as_bytes());
    let ghost ls = lines(input.spec_bytes());
    let mut bricks: Vec<Brick> = Vec::new();
    let mut i: usize = 0;
    while i < all.len()
        invariant
            i <= all@.len(),
            ls == views(all@),
            ls == lines(input.spec_bytes()),
            bricks@.len() == i,
            forall|k: int| 0 <= k < i ==> Some(#[trigger] bricks@[k]) == brick_of(ls[k]),
            forall|k: int| 0 <= k < i ==> (#[trigger] brick_of(ls[k])) is Some,
            above_ground(bricks@),
        decreases all@.len() - i,
    {
        assert(ls[i as int] == all@[i as int]@);
        match read_brick(all[i].as_slice()) {
            Some(b) => {
                bricks.push(b);
            },
            None => {
                return None;
            },
        }
        i += 1;
    }
    Some(bricks)
}

} // verus!
