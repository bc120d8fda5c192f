//! Spinning the platform: a tilt to each side in turn, over and over.

use vstd::prelude::*;
use vstd::string::StringSliceAdditionalSpecFns;
use crate::day14::{
    cell_of, consistent, cube_at, cycle, cycled, height, inside, load, rolled, same_lane, taken, tilted, tilts_to,
    to_edge, total_load, width, Cell, Coord, Grid, Tilt,
};
use crate::text::{lines, lines_of, views};

verus! {

/// The number of spins asked for.
pub const TOTAL_CYCLES: u32 = 1000000000;

/// A platform: its cells and its round rocks.
pub type State = (Seq<Vec<bool>>, Seq<Coord>);

/// The cells of a platform as sequences.
pub open spec fn cells(grid: Seq<Vec<bool>>) -> Seq<Seq<bool>> {
    Seq::new(grid.len(), |r: int| grid[r]@)
}

/// The platform `after` is what `n` spins can make of the platform
/// `before`.
pub open spec fn spun(before: State, after: State, n: nat) -> bool
    decreases n,
{
    if n == 0 {
        after == before
    } else {
        exists|mid: State| spun(before, mid, (n - 1) as nat) && #[trigger] cycled(mid, after)
    }
}

/// One more spin.
pub proof fn lemma_spin_on(before: State, mid: State, after: State, n: nat)
    requires
        spun(before, mid, n),
        cycled(mid, after),
    ensures
        spun(before, after, n + 1),
{
}

/// Platforms with the same cells agree on their size and on what lies on
/// each cell.
pub proof fn lemma_same_cells(a: Seq<Vec<bool>>, b: Seq<Vec<bool>>)
    requires
        cells(a) == cells(b),
    ensures
        height(a) == height(b),
        width(a) == width(b),
        forall|cell: Cell| inside(a, cell) ==> #[trigger] taken(a, cell) == taken(b, cell),
        forall|cell: Cell| #[trigger] inside(a, cell) == inside(b, cell),
        forall|tilt: Tilt, cell: Cell| #[trigger] to_edge(tilt, a, cell) == to_edge(tilt, b, cell),
{
    assert(a.len() == cells(a).len());
    assert(b.len() == cells(b).len());
    if a.len() > 0 {
        assert(cells(a)[0] == a[0]@);
        assert(cells(b)[0] == b[0]@);
    }
    assert forall|cell: Cell| inside(a, cell) implies #[trigger] taken(a, cell) == taken(b, cell) by {
        assert(cells(a)[cell.0] == a[cell.0]@);
        assert(cells(b)[cell.0] == b[cell.0]@);
    }
}

/// A tilt makes of a platform what it makes of any platform with the same
/// cells and round rocks.
pub proof fn lemma_tilt_same_cells(tilt: Tilt, a: State, b: State, after: State)
    requires
        cells(a.0) == cells(b.0),
        a.1 == b.1,
        tilts_to(tilt, a, after),
    ensures
        tilts_to(tilt, b, after),
{
    lemma_same_cells(a.0, b.0);
    let order = choose|order: Seq<Coord>| tilted(tilt, a, after, order);
    assert forall|cell: Cell| inside(b.0, cell) implies #[trigger] cube_at(after.0, after.1, cell) == cube_at(
        b.0,
        b.1,
        cell,
    ) by {
        assert(inside(a.0, cell));
        assert(cube_at(after.0, after.1, cell) == cube_at(a.0, a.1, cell));
        assert(taken(a.0, cell) == taken(b.0, cell));
    }
    assert forall|k: int| 0 <= k < order.len() implies rolled(
        tilt,
        b.0,
        b.1,
        cell_of(order[k]),
        #[trigger] cell_of(after.1[k]),
    ) by {
        assert(rolled(tilt, a.0, a.1, cell_of(order[k]), cell_of(after.1[k])));
        assert forall|cell: Cell|
            inside(b.0, cell) && same_lane(tilt, cell_of(order[k]), cell) && to_edge(
                tilt,
                b.0,
                cell_of(after.1[k]),
            ) <= to_edge(tilt, b.0, cell) <= to_edge(tilt, b.0, cell_of(order[k])) implies !#[trigger] cube_at(
            b.0,
            b.1,
            cell,
        ) by {
            assert(inside(a.0, cell));
            assert(to_edge(tilt, a.0, cell) == to_edge(tilt, b.0, cell));
            assert(!cube_at(a.0, a.1, cell));
            assert(taken(a.0, cell) == taken(b.0, cell));
        }
    }
    assert(tilted(tilt, b, after, order));
}

/// Spins make of a platform what they make of any platform with the same
/// cells and round rocks.
pub proof fn lemma_twin_spun(a: State, b: State, after: State, n: nat)
    requires
        cells(a.0) == cells(b.0),
        a.1 == b.1,
        n >= 1,
        spun(b, after, n),
    ensures
        spun(a, after, n),
    decreases n,
{
    let mid = choose|mid: State| spun(b, mid, (n - 1) as nat) && #[trigger] cycled(mid, after);
    if n == 1 {
        assert(mid == b);
        let (s1, s2, s3) = choose|s1: State, s2: State, s3: State|
            #![trigger tilts_to(Tilt::North, b, s1), tilts_to(Tilt::West, s1, s2), tilts_to(Tilt::South, s2, s3)]
            tilts_to(Tilt::North, b, s1) && tilts_to(Tilt::West, s1, s2) && tilts_to(Tilt::South, s2, s3)
                && tilts_to(Tilt::East, s3, after);
        lemma_tilt_same_cells(Tilt::North, b, a, s1);
        assert(tilts_to(Tilt::North, a, s1) && tilts_to(Tilt::West, s1, s2) && tilts_to(Tilt::South, s2, s3));
        assert(cycled(a, after));
        assert(spun(a, a, 0));
    } else {
        lemma_twin_spun(a, b, mid, (n - 1) as nat);
        assert(cycled(mid, after));
    }
}

/// The two platforms have the same cells.
fn same_cells(a: &Grid, b: &Grid) -> (r: bool)
    ensures
        r == (cells(a@) == cells(b@)),
{
    if a.len() != b.len() {
        assert(cells(a@).len() != cells(b@).len());
        return false;
    }
    let mut i: usize = 0;
    while i < a.len()
        invariant
            i <= a@.len(),
            a@.len() == b@.len(),
            forall|k: int| 0 <= k < i ==> (#[trigger] a@[k])@ == b@[k]@,
        decreases a@.len() - i,
    {
        let x = &a[i];
        let y = &b[i];
        if x.len() != y.len() {
            assert(cells(a@)[i as int] != cells(b@)[i as int]);
            return false;
        }
        let mut j: usize = 0;
        while j < x.len()
            invariant
                j <= x@.len(),
                x@.len() == y@.len(),
                i < a@.len(),
                a@.len() == b@.len(),
                x@ == a@[i as int]@,
                y@ == b@[i as int]@,
                forall|k: int| 0 <= k < j ==> x@[k] == y@[k],
            decreases x@.len() - j,
        {
            if x[j] != y[j] {
                assert(cells(a@)[i as int] != cells(b@)[i as int]);
                return false;
            }
            j += 1;
        }
        assert(x@ =~= y@);
        i += 1;
    }
    assert(cells(a@) =~= cells(b@));
    true
}

/// A copy of a platform.
fn copy_state(grid: &Grid, rocks: &Vec<Coord>) -> (r: (Grid, Vec<Coord>))
    ensures
        cells(r.0@) == cells(grid@),
        r.1@ == rocks@,
{
    let mut g: Grid = Vec::new();
    let mut i: usize = 0;
    while i < grid.len()
        invariant
            i <= grid@.len(),
            g@.len() == i,
            forall|k: int| 0 <= k < i ==> (#[trigger] g@[k])@ == grid@[k]@,
        decreases grid@.len() - i,
    {
        let source = &grid[i];
        let mut row: Vec<bool> = Vec::new();
        let mut j: usize = 0;
        while j < source.len()
            invariant
                j <= source@.len(),
                row@.len() == j,
                forall|k: int| 0 <= k < j ==> row@[k] == source@[k],
            decreases source@.len() - j,
        {
            row.push(source[j]);
            j += 1;
        }
        assert(row@ =~= source@);
        g.push(row);
        i += 1;
    }
    let mut r: Vec<Coord> = Vec::new();
    let mut k: usize = 0;
    while k < rocks.len()
        invariant
            k <= rocks@.len(),
            r@.len() == k,
            forall|m: int| 0 <= m < k ==> r@[m] == rocks@[m],
        decreases rocks@.len() - k,
    {
        r.push(rocks[k]);
        k += 1;
    }
    assert(r@ =~= rocks@);
    assert(cells(g@) =~= cells(grid@));
    (g, r)
}

/// A platform with the same cells and round rocks is as consistent.
pub proof fn lemma_copy_consistent(grid: Seq<Vec<bool>>, copy: Seq<Vec<bool>>, rocks: Seq<Coord>)
    requires
        consistent(grid, rocks),
        cells(copy) == cells(grid),
    ensures
        consistent(copy, rocks),
{
    assert(copy.len() == cells(copy).len());
    assert(grid.len() == cells(grid).len());
    assert forall|r: int| 0 <= r < copy.len() implies (#[trigger] copy[r])@ == grid[r]@ by {
        assert(cells(copy)[r] == copy[r]@);
        assert(cells(grid)[r] == grid[r]@);
    }
    assert forall|k: int| 0 <= k < rocks.len() implies inside(copy, #[trigger] cell_of(rocks[k])) && taken(
        copy,
        cell_of(rocks[k]),
    ) by {
        assert(inside(grid, cell_of(rocks[k])));
    }
}

/// The load on the northern support after a thousand million spins. The
/// spins are not all carried out: a slow copy of the platform is spun once
/// and a fast one twice at a time until both show the same cells, after
/// `i` spins of the slow one; from there the slow copy is spun on for the
/// remainder of the thousand million by `i`. The platform handed in ends
/// as the slow copy does. `None` when the load does not fit in a `usize`.
pub fn part_two(grid_tortoise: &mut Grid, rocks_tortoise: &mut Vec<Coord>) -> (r: Option<usize>)
    requires
        consistent(old(grid_tortoise)@, old(rocks_tortoise)@),
    ensures
        exists|i: nat, met: State, hare: State|
            {
                &&& 1 <= i <= TOTAL_CYCLES
                &&& #[trigger] spun((old(grid_tortoise)@, old(rocks_tortoise)@), met, i)
                &&& #[trigger] spun((old(grid_tortoise)@, old(rocks_tortoise)@), hare, 2 * i)
                &&& (i == TOTAL_CYCLES || cells(met.0) == cells(hare.0))
                &&& spun(met, (final(grid_tortoise)@, final(rocks_tortoise)@), (TOTAL_CYCLES as nat % i) as nat)
            },
        r == if load(final(rocks_tortoise)@, height(final(grid_tortoise)@), final(rocks_tortoise)@.len() as int)
            <= usize::MAX {
            Some(load(final(rocks_tortoise)@, height(final(grid_tortoise)@), final(rocks_tortoise)@.len() as int) as usize)
        } else {
            None
        },
{
    let ghost start: State = (grid_tortoise@, rocks_tortoise@);
    let (mut grid_hare, mut rocks_hare) = copy_state(grid_tortoise, rocks_tortoise);
    proof {
        lemma_copy_consistent(grid_tortoise@, grid_hare@, rocks_tortoise@);
    }
    let ghost twin: State = (grid_hare@, rocks_hare@);
    cycle(grid_tortoise, rocks_tortoise);
    cycle(&mut grid_hare, &mut rocks_hare);
    let ghost once: State = (grid_hare@, rocks_hare@);
    cycle(&mut grid_hare, &mut rocks_hare);
    let mut i: u32 = 1;
    proof {
        assert(spun(start, start, 0));
        lemma_spin_on(start, start, (grid_tortoise@, rocks_tortoise@), 0);
        assert(spun(twin, twin, 0));
        lemma_spin_on(twin, twin, once, 0);
        lemma_spin_on(twin, once, (grid_hare@, rocks_hare@), 1);
    }
    while i < TOTAL_CYCLES && !same_cells(grid_tortoise, &grid_hare)
        invariant
            1 <= i <= TOTAL_CYCLES,
            consistent(grid_tortoise@, rocks_tortoise@),
            consistent(grid_hare@, rocks_hare@),
            spun(start, (grid_tortoise@, rocks_tortoise@), i as nat),
            spun(twin, (grid_hare@, rocks_hare@), (2 * i) as nat),
        decreases TOTAL_CYCLES - i,
    {
        let ghost t0: State = (grid_tortoise@, rocks_tortoise@);
        let ghost h0: State = (grid_hare@, rocks_hare@);
        cycle(grid_tortoise, rocks_tortoise);
        cycle(&mut grid_hare, &mut rocks_hare);
        let ghost h1: State = (grid_hare@, rocks_hare@);
        cycle(&mut grid_hare, &mut rocks_hare);
        proof {
            lemma_spin_on(start, t0, (grid_tortoise@, rocks_tortoise@), i as nat);
            lemma_spin_on(twin, h0, h1, (2 * i) as nat);
            lemma_spin_on(twin, h1, (grid_hare@, rocks_hare@), (2 * i + 1) as nat);
        }
        i += 1;
    }
    let ghost met: State = (grid_tortoise@, rocks_tortoise@);
    let ghost hare: State = (grid_hare@, rocks_hare@);
    let remaining_cycles: u32 = TOTAL_CYCLES % i;
    let mut k: u32 = 0;
    proof {
        assert(spun(met, met, 0));
    }
    while k < remaining_cycles
        invariant
            k <= remaining_cycles,
            consistent(grid_tortoise@, rocks_tortoise@),
            spun(met, (grid_tortoise@, rocks_tortoise@), k as nat),
        decreases remaining_cycles - k,
    {
        let ghost t0: State = (grid_tortoise@, rocks_tortoise@);
        cycle(grid_tortoise, rocks_tortoise);
        proof {
            lemma_spin_on(met, t0, (grid_tortoise@, rocks_tortoise@), k as nat);
        }
        k += 1;
    }
    proof {
        lemma_twin_spun(start, twin, hare, (2 * i) as nat);
        assert(spun(start, met, i as nat) && spun(start, hare, 2 * (i as nat)));
        assert forall|m: int| 0 <= m < rocks_tortoise@.len() implies (#[trigger] rocks_tortoise@[m])[0]
            < grid_tortoise@.len() by {
            assert(inside(grid_tortoise@, cell_of(rocks_tortoise@[m])));
        }
    }
    total_load(rocks_tortoise, grid_tortoise.len())
}

} // verus!

verus! {

/// The round rocks among the first `c` bytes of line number `r`, an `O`
/// standing for a round rock.
pub open spec fn rocks_in(line: Seq<u8>, r: usize, c: int) -> Seq<Coord>
    decreases c,
{
    if c <= 0 {
        Seq::empty()
    } else if line[c - 1] == 79u8 {
        rocks_in(line, r, c - 1).push([r, (c - 1) as usize])
    } else {
        rocks_in(line, r, c - 1)
    }
}

/// The round rocks of the first `r` lines, in reading order.
pub open spec fn rocks_upto(ls: Seq<Seq<u8>>, r: int) -> Seq<Coord>
    decreases r,
{
    if r <= 0 {
        Seq::empty()
    } else {
        rocks_upto(ls, r - 1) + rocks_in(ls[r - 1], (r - 1) as usize, ls[r - 1].len() as int)
    }
}

/// The cells that the lines mark as taken: every byte but a dot.
pub open spec fn marked(ls: Seq<Seq<u8>>) -> Seq<Seq<bool>> {
    Seq::new(ls.len(), |r: int| Seq::new(ls[r].len(), |c: int| ls[r][c] != 46u8))
}

/// All lines are as long as the first.
pub open spec fn is_rect(ls: Seq<Seq<u8>>) -> bool {
    forall|r: int| 0 <= r < ls.len() ==> (#[trigger] ls[r]).len() == ls[0].len()
}

/// Reads a platform: one row per line, a dot for a free cell, an `O` for a
/// round rock, any other byte for a cube rock. `None` when the lines
/// differ in length.
pub fn parse_input(input: &str) -> (r: Option<(Grid, Vec<Coord>)>)
    ensures
        r is Some <==> is_rect(lines(input.spec_bytes())),
        r matches Some((grid, rocks)) ==> {
            let ls = lines(input.spec_bytes());
            &&& consistent(grid@, rocks@)
            &&& cells(grid@) == marked(ls)
            &&& rocks@ == rocks_upto(ls, ls.len() as int)
        },
{
    let all = lines_of(input.as_bytes());
    let ghost ls = lines(input.spec_bytes());
    let mut grid: Grid = Vec::new();
    let mut rocks: Vec<Coord> = Vec::new();
    let mut r: usize = 0;
    while r < all.len()
        invariant
            r <= all@.len(),
            ls == views(all@),
            ls == lines(input.spec_bytes()),
            grid@.len() == r,
            forall|i: int| 0 <= i < r ==> (#[trigger] ls[i]).len() == ls[0].len(),
            forall|i: int| 0 <= i < r ==> (#[trigger] grid@[i])@ == marked(ls)[i],
            rocks@ == rocks_upto(ls, r as int),
            forall|k: int|
                0 <= k < rocks@.len() ==> (#[trigger] rocks@[k])[0] < r && rocks@[k][1] < ls[0].len() && ls[rocks@[k][0] as int][rocks@[k][1] as int]
                    == 79u8,
            forall|j: int, k: int| 0 <= j < k < rocks@.len() ==> cell_of(rocks@[j]) != cell_of(rocks@[k]),
        decreases all@.len() - r,
    {
        let line = &all[r];
        assert(ls[r as int] == line@);
        assert(ls[0] == all@[0]@);
        if line.len() != all[0].len() {
            return None;
        }
        let ghost before = rocks@;
        let mut row: Vec<bool> = Vec::new();
        let mut c: usize = 0;
        while c < line.len()
            invariant
                c <= line@.len(),
                r < all@.len(),
                ls == views(all@),
                line@ == ls[r as int],
                line@.len() == ls[0].len(),
                row@.len() == c,
                forall|j: int| 0 <= j < c ==> #[trigger] row@[j] == (line@[j] != 46u8),
                rocks@ == before + rocks_in(line@, r, c as int),
                forall|k: int|
                    0 <= k < rocks@.len() ==> ((#[trigger] rocks@[k])[0] < r || (rocks@[k][0] == r && rocks@[k][1] < c))
                        && rocks@[k][1] < ls[0].len() && ls[rocks@[k][0] as int][rocks@[k][1] as int] == 79u8,
                forall|j: int, k: int| 0 <= j < k < rocks@.len() ==> cell_of(rocks@[j]) != cell_of(rocks@[k]),
            decreases line@.len() - c,
        {
            let b: u8 = line[c];
            row.push(b != 46);
            if b == 79 {
                let ghost old_rocks = rocks@;
                rocks.push([r, c]);
                proof {
                    assert(before + rocks_in(line@, r, c + 1) =~= (before + rocks_in(line@, r, c as int)).push([r, c]));
                    assert forall|j: int, k: int| 0 <= j < k < rocks@.len() implies cell_of(rocks@[j]) != cell_of(
                        rocks@[k],
                    ) by {
                        if k == old_rocks.len() {
                            assert(rocks@[j] == old_rocks[j]);
                        } else {
                            assert(cell_of(old_rocks[j]) != cell_of(old_rocks[k]));
                        }
                    }
                }
            }
            c += 1;
        }
        assert(row@ =~= marked(ls)[r as int]);
        grid.push(row);
        r += 1;
    }
    proof {
        assert(cells(grid@) =~= marked(ls));
        if grid@.len() > 0 {
            assert(grid@[0]@ == marked(ls)[0]);
        }
        assert forall|i: int| 0 <= i < height(grid@) implies (#[trigger] grid@[i])@.len() == width(grid@) by {
            assert(grid@[i]@ == marked(ls)[i]);
            assert(ls[i].len() == ls[0].len());
        }
        assert forall|k: int| 0 <= k < rocks@.len() implies inside(grid@, #[trigger] cell_of(rocks@[k])) && taken(
            grid@,
            cell_of(rocks@[k]),
        ) by {
            let rr = rocks@[k][0] as int;
            assert(grid@[rr]@ == marked(ls)[rr]);
            assert(ls[rr].len() == ls[0].len());
        }
    }
    Some((grid, rocks))
}

} // verus!
