//! A platform of round rocks that roll when it is tilted, and cube rocks
//! that stay.

pub mod spin;

use vstd::prelude::*;
use crate::order::lemma_swap_keeps_items;

verus! {

/// The cells of the platform, row by row: `true` where a rock of either
/// kind lies.
pub type Grid = Vec<Vec<bool>>;

/// The row and the column of a cell.
pub type Coord = [usize; 2];

/// The side towards which the platform is tilted.
#[derive(Clone, Copy, Debug, PartialEq, Eq, Structural)]
pub enum Tilt {
    North,
    West,
    South,
    East,
}

/// A cell by its row and column.
pub type Cell = (int, int);

/// The cell of a rock.
pub open spec fn cell_of(rock: Coord) -> Cell {
    (rock[0] as int, rock[1] as int)
}

/// Number of rows.
pub open spec fn height(grid: Seq<Vec<bool>>) -> int {
    grid.len() as int
}

/// Number of columns.
pub open spec fn width(grid: Seq<Vec<bool>>) -> int {
    if grid.len() == 0 {
        0
    } else {
        grid[0]@.len() as int
    }
}

/// The cell lies on the platform.
pub open spec fn inside(grid: Seq<Vec<bool>>, cell: Cell) -> bool {
    0 <= cell.0 < height(grid) && 0 <= cell.1 < width(grid)
}

/// A rock of either kind lies on the cell.
pub open spec fn taken(grid: Seq<Vec<bool>>, cell: Cell) -> bool {
    grid[cell.0]@[cell.1]
}

/// A round rock lies on the cell.
pub open spec fn round_at(rocks: Seq<Coord>, cell: Cell) -> bool {
    exists|k: int| 0 <= k < rocks.len() && #[trigger] cell_of(rocks[k]) == cell
}

/// A cube rock lies on the cell.
pub open spec fn cube_at(grid: Seq<Vec<bool>>, rocks: Seq<Coord>, cell: Cell) -> bool {
    taken(grid, cell) && !round_at(rocks, cell)
}

/// All rows are equally long, every round rock lies on a cell of the
/// platform that is marked as taken, and no two lie on the same cell.
pub open spec fn consistent(grid: Seq<Vec<bool>>, rocks: Seq<Coord>) -> bool {
    &&& forall|r: int| 0 <= r < height(grid) ==> (#[trigger] grid[r])@.len() == width(grid)
    &&& forall|k: int| 0 <= k < rocks.len() ==> inside(grid, #[trigger] cell_of(rocks[k])) && taken(grid, cell_of(rocks[k]))
    &&& forall|j: int, k: int| 0 <= j < k < rocks.len() ==> cell_of(rocks[j]) != cell_of(rocks[k])
}

/// The cell next to `cell` on the side of the tilt.
pub open spec fn toward(tilt: Tilt, cell: Cell) -> Cell {
    match tilt {
        Tilt::North => (cell.0 - 1, cell.1),
        Tilt::South => (cell.0 + 1, cell.1),
        Tilt::West => (cell.0, cell.1 - 1),
        Tilt::East => (cell.0, cell.1 + 1),
    }
}

/// The number of cells between `cell` and the edge on the side of the
/// tilt.
pub open spec fn to_edge(tilt: Tilt, grid: Seq<Vec<bool>>, cell: Cell) -> int {
    match tilt {
        Tilt::North => cell.0,
        Tilt::South => height(grid) - 1 - cell.0,
        Tilt::West => cell.1,
        Tilt::East => width(grid) - 1 - cell.1,
    }
}

/// The two cells lie in one lane of the tilt: in one column for north and
/// south, in one row for west and east.
pub open spec fn same_lane(tilt: Tilt, a: Cell, b: Cell) -> bool {
    match tilt {
        Tilt::North | Tilt::South => a.1 == b.1,
        Tilt::West | Tilt::East => a.0 == b.0,
    }
}

/// A round rock can have rolled from `from` to `to`: both lie in one lane,
/// `to` is no further from the edge, and no cube rock lies on the way.
pub open spec fn rolled(tilt: Tilt, grid: Seq<Vec<bool>>, rocks: Seq<Coord>, from: Cell, to: Cell) -> bool {
    &&& same_lane(tilt, from, to)
    &&& to_edge(tilt, grid, to) <= to_edge(tilt, grid, from)
    &&& forall|cell: Cell|
        inside(grid, cell) && same_lane(tilt, from, cell) && to_edge(tilt, grid, to) <= to_edge(tilt, grid, cell)
            <= to_edge(tilt, grid, from) ==> !#[trigger] cube_at(grid, rocks, cell)
}

/// The rock lies at the edge or against another rock.
pub open spec fn at_rest(tilt: Tilt, grid: Seq<Vec<bool>>, cell: Cell) -> bool {
    to_edge(tilt, grid, cell) == 0 || taken(grid, toward(tilt, cell))
}

/// Every round rock lies at the edge or against another rock.
pub open spec fn all_at_rest(tilt: Tilt, grid: Seq<Vec<bool>>, rocks: Seq<Coord>) -> bool {
    forall|k: int| 0 <= k < rocks.len() ==> at_rest(tilt, grid, #[trigger] cell_of(rocks[k]))
}

/// The platform `after` is what a tilt makes of the platform `before`: the
/// cube rocks stay, every round rock has rolled along its lane without
/// passing a cube rock, and all round rocks are at rest. The round rocks
/// of `after` are listed in the order `order`, which lists the round rocks
/// of `before` again.
pub open spec fn tilted(
    tilt: Tilt,
    before: (Seq<Vec<bool>>, Seq<Coord>),
    after: (Seq<Vec<bool>>, Seq<Coord>),
    order: Seq<Coord>,
) -> bool {
    &&& height(after.0) == height(before.0)
    &&& width(after.0) == width(before.0)
    &&& consistent(after.0, after.1)
    &&& forall|cell: Cell| inside(before.0, cell) ==> #[trigger] cube_at(after.0, after.1, cell) == cube_at(before.0, before.1, cell)
    &&& order.to_multiset() == before.1.to_multiset()
    &&& after.1.len() == order.len()
    &&& forall|k: int|
        0 <= k < order.len() ==> rolled(tilt, before.0, before.1, cell_of(order[k]), #[trigger] cell_of(after.1[k]))
    &&& all_at_rest(tilt, after.0, after.1)
}

/// The number of cells between a rock and the edge on the side of the
/// tilt.
fn distance(tilt: Tilt, rows: usize, cols: usize, rock: &Coord) -> (d: usize)
    requires
        rock[0] < rows,
        rock[1] < cols,
    ensures
        d == match tilt {
            Tilt::North => rock[0] as int,
            Tilt::South => rows - 1 - rock[0],
            Tilt::West => rock[1] as int,
            Tilt::East => cols - 1 - rock[1],
        },
{
    match tilt {
        Tilt::North => rock[0],
        Tilt::South => rows - 1 - rock[0],
        Tilt::West => rock[1],
        Tilt::East => cols - 1 - rock[1],
    }
}

/// Every rock lies on the platform.
pub open spec fn all_inside(grid: Seq<Vec<bool>>, rocks: Seq<Coord>) -> bool {
    forall|k: int| 0 <= k < rocks.len() ==> inside(grid, #[trigger] cell_of(rocks[k]))
}

/// Rock `k - 1` lies further from the edge than rock `k`.
fn further(tilt: Tilt, grid: &Grid, rows: usize, cols: usize, rocks: &Vec<Coord>, k: usize) -> (r: bool)
    requires
        0 < k < rocks@.len(),
        rows == height(grid@),
        cols == width(grid@),
        all_inside(grid@, rocks@),
    ensures
        r == (to_edge(tilt, grid@, cell_of(rocks@[k - 1])) > to_edge(tilt, grid@, cell_of(rocks@[k as int]))),
{
    assert(inside(grid@, cell_of(rocks@[k - 1])) && inside(grid@, cell_of(rocks@[k as int])));
    distance(tilt, rows, cols, &rocks[k - 1]) > distance(tilt, rows, cols, &rocks[k])
}

/// The rocks are listed from the edge on the side of the tilt outwards.
pub open spec fn edge_first(tilt: Tilt, grid: Seq<Vec<bool>>, rocks: Seq<Coord>) -> bool {
    forall|j: int, k: int|
        0 <= j <= k < rocks.len() ==> to_edge(tilt, grid, cell_of(rocks[j])) <= to_edge(tilt, grid, cell_of(rocks[k]))
}

/// Lists the rocks from the edge on the side of the tilt outwards.
fn sort_rocks(tilt: Tilt, grid: &Grid, rocks: &mut Vec<Coord>)
    requires
        all_inside(grid@, old(rocks)@),
    ensures
        edge_first(tilt, grid@, final(rocks)@),
        final(rocks)@.to_multiset() == old(rocks)@.to_multiset(),
        final(rocks)@.len() == old(rocks)@.len(),
        all_inside(grid@, final(rocks)@),
{
    let rows: usize = grid.len();
    let cols: usize = if rows == 0 {
        0
    } else {
        grid[0].len()
    };
    let n: usize = rocks.len();
    let mut i: usize = 1;
    while i < n
        invariant
            n == rocks@.len(),
            1 <= i,
            rows == height(grid@),
            cols == width(grid@),
            all_inside(grid@, rocks@),
            rocks@.to_multiset() == old(rocks)@.to_multiset(),
            forall|a: int, b: int|
                0 <= a <= b < i && b < n ==> to_edge(tilt, grid@, cell_of(rocks@[a])) <= to_edge(
                    tilt,
                    grid@,
                    cell_of(rocks@[b]),
                ),
        decreases n - i,
    {
        let mut k: usize = i;
        while k > 0 && further(tilt, grid, rows, cols, rocks, k)
            invariant
                k <= i < n,
                n == rocks@.len(),
                rows == height(grid@),
                cols == width(grid@),
                all_inside(grid@, rocks@),
                rocks@.to_multiset() == old(rocks)@.to_multiset(),
                forall|a: int, b: int|
                    0 <= a <= b <= i && a != k && b != k ==> to_edge(tilt, grid@, cell_of(rocks@[a])) <= to_edge(
                        tilt,
                        grid@,
                        cell_of(rocks@[b]),
                    ),
                forall|b: int|
                    k < b <= i ==> to_edge(tilt, grid@, cell_of(rocks@[k as int])) <= to_edge(
                        tilt,
                        grid@,
                        cell_of(rocks@[b]),
                    ),
            decreases k,
        {
            let ghost before = rocks@;
            let x: Coord = rocks[k - 1];
            let y: Coord = rocks[k];
            rocks.set(k - 1, y);
            rocks.set(k, x);
            proof {
                lemma_swap_keeps_items(before, k - 1, k as int);
                assert forall|m: int| 0 <= m < rocks@.len() implies inside(grid@, #[trigger] cell_of(rocks@[m])) by {
                    if m == k - 1 {
                        assert(inside(grid@, cell_of(before[k as int])));
                    } else if m == k {
                        assert(inside(grid@, cell_of(before[k - 1])));
                    } else {
                        assert(inside(grid@, cell_of(before[m])));
                    }
                }
            }
            k -= 1;
        }
        i += 1;
    }
}

} // verus!

verus! {

/// Two rocks on the same cell are the same rock.
pub proof fn lemma_same_cell(a: Coord, b: Coord)
    requires
        cell_of(a) == cell_of(b),
    ensures
        a == b,
{
    assert(a@ =~= b@);
    assert(a =~= b);
}

/// Lists of the same rocks have a round rock on the same cells.
pub proof fn lemma_same_rocks(a: Seq<Coord>, b: Seq<Coord>, cell: Cell)
    requires
        a.to_multiset() == b.to_multiset(),
    ensures
        round_at(a, cell) == round_at(b, cell),
{
    if round_at(a, cell) {
        let k = choose|k: int| 0 <= k < a.len() && #[trigger] cell_of(a[k]) == cell;
        assert(a.contains(a[k]));
        vstd::seq_lib::to_multiset_contains(a, a[k]);
        vstd::seq_lib::to_multiset_contains(b, a[k]);
        let j = choose|j: int| 0 <= j < b.len() && b[j] == a[k];
        assert(cell_of(b[j]) == cell);
    }
    if round_at(b, cell) {
        let k = choose|k: int| 0 <= k < b.len() && #[trigger] cell_of(b[k]) == cell;
        assert(b.contains(b[k]));
        vstd::seq_lib::to_multiset_contains(b, b[k]);
        vstd::seq_lib::to_multiset_contains(a, b[k]);
        let j = choose|j: int| 0 <= j < a.len() && a[j] == b[k];
        assert(cell_of(a[j]) == cell);
    }
}

/// A platform stays consistent when its round rocks are listed in another
/// order.
pub proof fn lemma_reordered(grid: Seq<Vec<bool>>, a: Seq<Coord>, b: Seq<Coord>)
    requires
        consistent(grid, a),
        a.to_multiset() == b.to_multiset(),
    ensures
        consistent(grid, b),
{
    assert forall|k: int| 0 <= k < b.len() implies inside(grid, #[trigger] cell_of(b[k])) && taken(
        grid,
        cell_of(b[k]),
    ) by {
        assert(b.contains(b[k]));
        vstd::seq_lib::to_multiset_contains(b, b[k]);
        vstd::seq_lib::to_multiset_contains(a, b[k]);
        let j = choose|j: int| 0 <= j < a.len() && a[j] == b[k];
        assert(inside(grid, cell_of(a[j])));
    }
    assert(a.no_duplicates()) by {
        assert forall|i: int, j: int| 0 <= i < a.len() && 0 <= j < a.len() && i != j implies a[i] != a[j] by {
            if i < j {
                assert(cell_of(a[i]) != cell_of(a[j]));
            } else {
                assert(cell_of(a[j]) != cell_of(a[i]));
            }
        }
    }
    a.lemma_multiset_has_no_duplicates();
    b.lemma_multiset_has_no_duplicates_conv();
    assert forall|j: int, k: int| 0 <= j < k < b.len() implies cell_of(b[j]) != cell_of(b[k]) by {
        if cell_of(b[j]) == cell_of(b[k]) {
            lemma_same_cell(b[j], b[k]);
        }
    }
}

/// Marks a cell as taken or free.
fn set_cell(grid: &mut Grid, r: usize, c: usize, value: bool)
    requires
        r < old(grid)@.len(),
        c < old(grid)@[r as int]@.len(),
    ensures
        final(grid)@.len() == old(grid)@.len(),
        forall|i: int| 0 <= i < old(grid)@.len() ==> (#[trigger] final(grid)@[i])@.len() == old(grid)@[i]@.len(),
        forall|i: int, j: int|
            0 <= i < old(grid)@.len() && 0 <= j < old(grid)@[i]@.len() ==> #[trigger] final(grid)@[i]@[j] == (if i == r
                && j == c {
                value
            } else {
                old(grid)@[i]@[j]
            }),
{
    let mut row: Vec<bool> = Vec::new();
    core::mem::swap(&mut grid[r], &mut row);
    row.set(c, value);
    core::mem::swap(&mut grid[r], &mut row);
}

/// The platform `after` is what a tilt can make of the platform `before`.
pub open spec fn tilts_to(tilt: Tilt, before: (Seq<Vec<bool>>, Seq<Coord>), after: (Seq<Vec<bool>>, Seq<Coord>)) -> bool {
    exists|order: Seq<Coord>| tilted(tilt, before, after, order)
}

/// Tilts the platform: lists the round rocks from the edge of the tilt
/// outwards and lets each in turn roll as far as it can.
pub fn roll(tilt: Tilt, grid: &mut Grid, rocks: &mut Vec<Coord>)
    requires
        consistent(old(grid)@, old(rocks)@),
    ensures
        tilts_to(tilt, (old(grid)@, old(rocks)@), (final(grid)@, final(rocks)@)),
{
    sort_rocks(tilt, grid, rocks);
    let ghost grid0 = grid@;
    let ghost order = rocks@;
    proof {
        lemma_reordered(grid0, old(rocks)@, order);
        assert forall|cell: Cell| cube_at(grid0, order, cell) == cube_at(grid0, old(rocks)@, cell) by {
            lemma_same_rocks(order, old(rocks)@, cell);
        }
    }
    let rows: usize = grid.len();
    let cols: usize = if rows == 0 {
        0
    } else {
        grid[0].len()
    };
    let n: usize = rocks.len();
    let mut i: usize = 0;
    while i < n
        invariant
            i <= n,
            n == rocks@.len(),
            n == order.len(),
            rows == height(grid@),
            cols == width(grid@),
            height(grid@) == height(grid0),
            width(grid@) == width(grid0),
            consistent(grid0, order),
            consistent(grid@, rocks@),
            edge_first(tilt, grid0, order),
            forall|cell: Cell|
                inside(grid0, cell) ==> #[trigger] taken(grid@, cell) == (cube_at(grid0, order, cell) || round_at(
                    rocks@,
                    cell,
                )),
            forall|cell: Cell| inside(grid0, cell) && cube_at(grid0, order, cell) ==> !#[trigger] round_at(rocks@, cell),
            forall|k: int| i <= k < n ==> #[trigger] rocks@[k] == order[k],
            forall|k: int|
                0 <= k < i ==> rolled(tilt, grid0, order, cell_of(order[k]), #[trigger] cell_of(rocks@[k])),
            forall|k: int| 0 <= k < i ==> at_rest(tilt, grid@, #[trigger] cell_of(rocks@[k])),
        decreases n - i,
    {
        let rock: Coord = rocks[i];
        let mut r: usize = rock[0];
        let mut c: usize = rock[1];
        proof {
            assert(inside(grid@, cell_of(rocks@[i as int])));
            assert(rocks@[i as int] == order[i as int]);
            assert forall|k: int| 0 <= k < i implies toward(tilt, #[trigger] cell_of(rocks@[k])) != (r as int, c as int) by {
                assert(rolled(tilt, grid0, order, cell_of(order[k]), cell_of(rocks@[k])));
                assert(to_edge(tilt, grid0, cell_of(order[k])) <= to_edge(tilt, grid0, cell_of(order[i as int])));
            }
            assert(!cube_at(grid0, order, (r as int, c as int))) by {
                assert(cell_of(order[i as int]) == (r as int, c as int));
            }
        }
        loop
            invariant
                i < n,
                n == rocks@.len(),
                n == order.len(),
                rows == height(grid@),
                cols == width(grid@),
                height(grid@) == height(grid0),
                width(grid@) == width(grid0),
                consistent(grid0, order),
                consistent(grid@, rocks@),
                edge_first(tilt, grid0, order),
                r < rows,
                c < cols,
                cell_of(rocks@[i as int]) == (r as int, c as int),
                forall|cell: Cell|
                    inside(grid0, cell) ==> #[trigger] taken(grid@, cell) == (cube_at(grid0, order, cell) || round_at(
                        rocks@,
                        cell,
                    )),
                forall|cell: Cell|
                    inside(grid0, cell) && cube_at(grid0, order, cell) ==> !#[trigger] round_at(rocks@, cell),
                forall|k: int| i < k < n ==> #[trigger] rocks@[k] == order[k],
                forall|k: int|
                    0 <= k < i ==> rolled(tilt, grid0, order, cell_of(order[k]), #[trigger] cell_of(rocks@[k])),
                forall|k: int| 0 <= k < i ==> at_rest(tilt, grid@, #[trigger] cell_of(rocks@[k])),
                forall|k: int| 0 <= k < i ==> toward(tilt, #[trigger] cell_of(rocks@[k])) != (r as int, c as int),
                rolled(tilt, grid0, order, cell_of(order[i as int]), (r as int, c as int)),
            ensures
                n == rocks@.len(),
                n == order.len(),
                rows == height(grid@),
                cols == width(grid@),
                height(grid@) == height(grid0),
                width(grid@) == width(grid0),
                consistent(grid@, rocks@),
                forall|cell: Cell|
                    inside(grid0, cell) ==> #[trigger] taken(grid@, cell) == (cube_at(grid0, order, cell) || round_at(
                        rocks@,
                        cell,
                    )),
                forall|cell: Cell|
                    inside(grid0, cell) && cube_at(grid0, order, cell) ==> !#[trigger] round_at(rocks@, cell),
                forall|k: int| i < k < n ==> #[trigger] rocks@[k] == order[k],
                forall|k: int|
                    0 <= k <= i ==> rolled(tilt, grid0, order, cell_of(order[k]), #[trigger] cell_of(rocks@[k])),
                forall|k: int| 0 <= k <= i ==> at_rest(tilt, grid@, #[trigger] cell_of(rocks@[k])),
            decreases to_edge(tilt, grid@, (r as int, c as int)),
        {
            let at_edge: bool = match tilt {
                Tilt::North => r == 0,
                Tilt::South => r == rows - 1,
                Tilt::West => c == 0,
                Tilt::East => c == cols - 1,
            };
            if at_edge {
                break;
            }
            let (nr, nc): (usize, usize) = match tilt {
                Tilt::North => (r - 1, c),
                Tilt::South => (r + 1, c),
                Tilt::West => (r, c - 1),
                Tilt::East => (r, c + 1),
            };
            assert(grid@[nr as int]@.len() == cols);
            assert(grid@[r as int]@.len() == cols);
            if grid[nr][nc] {
                assert(taken(grid@, toward(tilt, (r as int, c as int))));
                break;
            }
            let ghost grid1 = grid@;
            let ghost rocks1 = rocks@;
            let ghost here: Cell = (r as int, c as int);
            let ghost next: Cell = (nr as int, nc as int);
            set_cell(grid, r, c, false);
            set_cell(grid, nr, nc, true);
            rocks.set(i, [nr, nc]);
            proof {
                assert(next == toward(tilt, here));
                assert(!taken(grid1, next));
                assert(!round_at(rocks1, next) && !cube_at(grid0, order, next));
                assert(cell_of(rocks@[i as int]) == next);
                assert forall|k: int| 0 <= k < n && k != i implies #[trigger] cell_of(rocks@[k]) == cell_of(rocks1[k])
                    && cell_of(rocks@[k]) != next && cell_of(rocks@[k]) != here by {
                    assert(rocks@[k] == rocks1[k]);
                    if k < i {
                        assert(cell_of(rocks1[k]) != cell_of(rocks1[i as int]));
                    } else {
                        assert(cell_of(rocks1[i as int]) != cell_of(rocks1[k]));
                    }
                    if cell_of(rocks1[k]) == next {
                        assert(round_at(rocks1, next));
                    }
                }
                assert forall|cell: Cell| inside(grid0, cell) implies #[trigger] round_at(rocks@, cell) == ((round_at(
                    rocks1,
                    cell,
                ) && cell != here) || cell == next) by {
                    if round_at(rocks@, cell) {
                        let k = choose|k: int| 0 <= k < rocks@.len() && #[trigger] cell_of(rocks@[k]) == cell;
                        if k != i {
                            assert(cell_of(rocks1[k]) == cell);
                        }
                    }
                    if round_at(rocks1, cell) && cell != here {
                        let k = choose|k: int| 0 <= k < rocks1.len() && #[trigger] cell_of(rocks1[k]) == cell;
                        assert(k != i);
                        assert(cell_of(rocks@[k]) == cell);
                    }
                    if cell == next {
                        assert(cell_of(rocks@[i as int]) == cell);
                    }
                }
                assert forall|cell: Cell| inside(grid0, cell) implies #[trigger] taken(grid@, cell) == (cube_at(
                    grid0,
                    order,
                    cell,
                ) || round_at(rocks@, cell)) by {
                    assert(taken(grid1, cell) == (cube_at(grid0, order, cell) || round_at(rocks1, cell)));
                    assert(grid1[cell.0]@.len() == cols);
                    if cell == here {
                        assert(round_at(rocks1, here)) by {
                            assert(cell_of(rocks1[i as int]) == here);
                        }
                        assert(!cube_at(grid0, order, here));
                    }
                }
                assert(consistent(grid@, rocks@)) by {
                    assert forall|k: int| 0 <= k < rocks@.len() implies inside(grid@, #[trigger] cell_of(rocks@[k]))
                        && taken(grid@, cell_of(rocks@[k])) by {
                        if k != i {
                            assert(inside(grid1, cell_of(rocks1[k])));
                        }
                        assert(round_at(rocks@, cell_of(rocks@[k])));
                    }
                    assert forall|j: int, k: int| 0 <= j < k < rocks@.len() implies cell_of(rocks@[j]) != cell_of(
                        rocks@[k],
                    ) by {
                        if j != i && k != i {
                            assert(cell_of(rocks1[j]) != cell_of(rocks1[k]));
                        }
                    }
                }
                assert forall|k: int| 0 <= k < i implies at_rest(tilt, grid@, #[trigger] cell_of(rocks@[k])) by {
                    assert(at_rest(tilt, grid1, cell_of(rocks1[k])));
                    let ahead = toward(tilt, cell_of(rocks1[k]));
                    assert(ahead != here);
                    if to_edge(tilt, grid1, cell_of(rocks1[k])) != 0 {
                        assert(inside(grid1, cell_of(rocks1[k])));
                        assert(inside(grid0, ahead));
                        assert(taken(grid1, ahead));
                        assert(round_at(rocks1, ahead) ==> round_at(rocks@, ahead));
                    }
                }
                assert forall|k: int| 0 <= k < i implies toward(tilt, #[trigger] cell_of(rocks@[k])) != next by {
                    if toward(tilt, cell_of(rocks1[k])) == next {
                        assert(cell_of(rocks1[k]) == here);
                    }
                }
                assert(rolled(tilt, grid0, order, cell_of(order[i as int]), next)) by {
                    assert forall|cell: Cell|
                        inside(grid0, cell) && same_lane(tilt, cell_of(order[i as int]), cell) && to_edge(tilt, grid0, next)
                            <= to_edge(tilt, grid0, cell) <= to_edge(
                            tilt,
                            grid0,
                            cell_of(order[i as int]),
                        ) implies !#[trigger] cube_at(grid0, order, cell) by {
                        if to_edge(tilt, grid0, cell) == to_edge(tilt, grid0, next) {
                            assert(cell == next);
                        }
                    }
                }
            }
            r = nr;
            c = nc;
        }
        i += 1;
    }
    proof {
        let after = (grid@, rocks@);
        let before = (old(grid)@, old(rocks)@);
        assert forall|cell: Cell| inside(before.0, cell) implies #[trigger] cube_at(after.0, after.1, cell) == cube_at(
            before.0,
            before.1,
            cell,
        ) by {
            assert(taken(grid@, cell) == (cube_at(grid0, order, cell) || round_at(rocks@, cell)));
            lemma_same_rocks(order, old(rocks)@, cell);
        }
        assert forall|k: int| 0 <= k < order.len() implies rolled(
            tilt,
            before.0,
            before.1,
            cell_of(order[k]),
            #[trigger] cell_of(after.1[k]),
        ) by {
            assert(rolled(tilt, grid0, order, cell_of(order[k]), cell_of(rocks@[k])));
            assert forall|cell: Cell|
                inside(grid0, cell) && same_lane(tilt, cell_of(order[k]), cell) && to_edge(tilt, grid0, cell_of(rocks@[k]))
                    <= to_edge(tilt, grid0, cell) <= to_edge(tilt, grid0, cell_of(order[k])) implies !#[trigger] cube_at(
                before.0,
                before.1,
                cell,
            ) by {
                assert(!cube_at(grid0, order, cell));
                lemma_same_rocks(order, old(rocks)@, cell);
            }
        }
        assert(tilted(tilt, before, after, order));
    }
}

} // verus!

verus! {

/// Tilts the platform to the north.
pub fn roll_north(grid: &mut Grid, rocks: &mut Vec<Coord>)
    requires
        consistent(old(grid)@, old(rocks)@),
    ensures
        tilts_to(Tilt::North, (old(grid)@, old(rocks)@), (final(grid)@, final(rocks)@)),
{
    roll(Tilt::North, grid, rocks)
}

/// Tilts the platform to the east.
pub fn roll_east(grid: &mut Grid, rocks: &mut Vec<Coord>)
    requires
        consistent(old(grid)@, old(rocks)@),
    ensures
        tilts_to(Tilt::East, (old(grid)@, old(rocks)@), (final(grid)@, final(rocks)@)),
{
    roll(Tilt::East, grid, rocks)
}

/// Tilts the platform to the south.
pub fn roll_south(grid: &mut Grid, rocks: &mut Vec<Coord>)
    requires
        consistent(old(grid)@, old(rocks)@),
    ensures
        tilts_to(Tilt::South, (old(grid)@, old(rocks)@), (final(grid)@, final(rocks)@)),
{
    roll(Tilt::South, grid, rocks)
}

/// Tilts the platform to the west.
pub fn roll_west(grid: &mut Grid, rocks: &mut Vec<Coord>)
    requires
        consistent(old(grid)@, old(rocks)@),
    ensures
        tilts_to(Tilt::West, (old(grid)@, old(rocks)@), (final(grid)@, final(rocks)@)),
{
    roll(Tilt::West, grid, rocks)
}

/// The platform `after` is what one spin can make of the platform
/// `before`: a tilt to the north, one to the west, one to the south and
/// one to the east.
pub open spec fn cycled(before: (Seq<Vec<bool>>, Seq<Coord>), after: (Seq<Vec<bool>>, Seq<Coord>)) -> bool {
    exists|a: (Seq<Vec<bool>>, Seq<Coord>), b: (Seq<Vec<bool>>, Seq<Coord>), c: (Seq<Vec<bool>>, Seq<Coord>)|
        #![trigger tilts_to(Tilt::North, before, a), tilts_to(Tilt::West, a, b), tilts_to(Tilt::South, b, c)]
        tilts_to(Tilt::North, before, a) && tilts_to(Tilt::West, a, b) && tilts_to(Tilt::South, b, c) && tilts_to(
            Tilt::East,
            c,
            after,
        )
}

/// What a tilt makes of a consistent platform is consistent.
pub proof fn lemma_tilt_consistent(
    tilt: Tilt,
    before: (Seq<Vec<bool>>, Seq<Coord>),
    after: (Seq<Vec<bool>>, Seq<Coord>),
)
    requires
        tilts_to(tilt, before, after),
    ensures
        consistent(after.0, after.1),
        height(after.0) == height(before.0),
        width(after.0) == width(before.0),
        after.1.len() == before.1.len(),
{
    let order = choose|order: Seq<Coord>| tilted(tilt, before, after, order);
    vstd::seq_lib::to_multiset_len(order);
    vstd::seq_lib::to_multiset_len(before.1);
}

/// Spins the platform once: tilts it to the north, the west, the south
/// and the east.
pub fn cycle(grid: &mut Grid, rocks: &mut Vec<Coord>)
    requires
        consistent(old(grid)@, old(rocks)@),
    ensures
        cycled((old(grid)@, old(rocks)@), (final(grid)@, final(rocks)@)),
        consistent(final(grid)@, final(rocks)@),
        height(final(grid)@) == height(old(grid)@),
        width(final(grid)@) == width(old(grid)@),
        final(rocks)@.len() == old(rocks)@.len(),
{
    let ghost s0 = (grid@, rocks@);
    roll_north(grid, rocks);
    let ghost s1 = (grid@, rocks@);
    proof {
        lemma_tilt_consistent(Tilt::North, s0, s1);
    }
    roll_west(grid, rocks);
    let ghost s2 = (grid@, rocks@);
    proof {
        lemma_tilt_consistent(Tilt::West, s1, s2);
    }
    roll_south(grid, rocks);
    let ghost s3 = (grid@, rocks@);
    proof {
        lemma_tilt_consistent(Tilt::South, s2, s3);
    }
    roll_east(grid, rocks);
    proof {
        lemma_tilt_consistent(Tilt::East, s3, (grid@, rocks@));
        assert(tilts_to(Tilt::North, s0, s1) && tilts_to(Tilt::West, s1, s2) && tilts_to(Tilt::South, s2, s3));
    }
}

/// The load of the first `n` rocks on the northern support of a platform
/// of `rows` rows: for each rock the number of rows from the rock to the
/// southern edge, the row of the rock included.
pub open spec fn load(rocks: Seq<Coord>, rows: int, n: int) -> nat
    decreases n,
{
    if n <= 0 {
        0
    } else {
        load(rocks, rows, n - 1) + (rows - rocks[n - 1][0]) as nat
    }
}

/// The load of the first rocks is at most that of all.
pub proof fn lemma_load_grows(rocks: Seq<Coord>, rows: int, m: int, n: int)
    requires
        0 <= m <= n,
    ensures
        load(rocks, rows, m) <= load(rocks, rows, n),
    decreases n - m,
{
    if m < n {
        lemma_load_grows(rocks, rows, m, n - 1);
    }
}

/// The load of the rocks on the northern support of a platform of `rows`
/// rows. `None` when it does not fit in a `usize`.
pub fn total_load(rocks: &Vec<Coord>, rows: usize) -> (r: Option<usize>)
    requires
        forall|k: int| 0 <= k < rocks@.len() ==> (#[trigger] rocks@[k])[0] < rows,
    ensures
        r == if load(rocks@, rows as int, rocks@.len() as int) <= usize::MAX {
            Some(load(rocks@, rows as int, rocks@.len() as int) as usize)
        } else {
            None
        },
{
    let mut sum: usize = 0;
    let mut i: usize = 0;
    while i < rocks.len()
        invariant
            i <= rocks@.len(),
            forall|k: int| 0 <= k < rocks@.len() ==> (#[trigger] rocks@[k])[0] < rows,
            sum == load(rocks@, rows as int, i as int),
        decreases rocks@.len() - i,
    {
        let rock: Coord = rocks[i];
        assert(rocks@[i as int][0] < rows);
        match sum.checked_add(rows - rock[0]) {
            Some(v) => {
                sum = v;
            },
            None => {
                proof {
                    lemma_load_grows(rocks@, rows as int, i + 1, rocks@.len() as int);
                }
                return None;
            },
        }
        i += 1;
    }
    Some(sum)
}

/// Tilts the platform to the north and returns the load on the northern
/// support.
pub fn part_one(grid: &mut Grid, rocks: &mut Vec<Coord>) -> (r: Option<usize>)
    requires
        consistent(old(grid)@, old(rocks)@),
    ensures
        tilts_to(Tilt::North, (old(grid)@, old(rocks)@), (final(grid)@, final(rocks)@)),
        r == if load(final(rocks)@, height(final(grid)@), final(rocks)@.len() as int) <= usize::MAX {
            Some(load(final(rocks)@, height(final(grid)@), final(rocks)@.len() as int) as usize)
        } else {
            None
        },
{
    roll_north(grid, rocks);
    proof {
        lemma_tilt_consistent(Tilt::North, (old(grid)@, old(rocks)@), (grid@, rocks@));
        assert forall|k: int| 0 <= k < rocks@.len() implies (#[trigger] rocks@[k])[0] < grid@.len() by {
            assert(inside(grid@, cell_of(rocks@[k])));
        }
    }
    total_load(rocks, grid.len())
}

} // verus!
