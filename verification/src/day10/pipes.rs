//! The loop of pipes through the start, followed from both ends at once.

use vstd::prelude::*;
use vstd::string::StringSliceAdditionalSpecFns;
use crate::day10::flood::{adjacent_coords, cell_of, cells_of, is_outside, neighbours, outside, Coord};
use crate::day10::marks::{Cell, Marks};
use crate::text::{lines, lines_of, views};

verus! {

/// The tiles of the field, row by row.
pub type Grid = Vec<Vec<u8>>;

/// A walker in the loop: the tile it came from and the tile it stands on.
#[derive(Clone, Copy, Debug)]
pub struct Position {
    pub prev: Coord,
    pub curr: Coord,
}

/// A walker as a pair of cells: where it came from and where it stands.
pub type Walker = (Cell, Cell);

impl Position {
    /// The walker as a pair of cells.
    pub open spec fn view(&self) -> Walker {
        (cell_of(self.prev), cell_of(self.curr))
    }
}

/// Number of rows.
pub open spec fn height(grid: Seq<Vec<u8>>) -> int {
    grid.len() as int
}

/// Number of columns.
pub open spec fn width(grid: Seq<Vec<u8>>) -> int {
    if grid.len() == 0 {
        0
    } else {
        grid[0]@.len() as int
    }
}

/// All rows are equally long.
pub open spec fn rect(grid: Seq<Vec<u8>>) -> bool {
    forall|r: int| 0 <= r < height(grid) ==> (#[trigger] grid[r])@.len() == width(grid)
}

/// The cell lies in the field.
pub open spec fn inside(grid: Seq<Vec<u8>>, cell: Cell) -> bool {
    0 <= cell.0 < height(grid) && 0 <= cell.1 < width(grid)
}

/// The tile on a cell.
pub open spec fn tile(grid: Seq<Vec<u8>>, cell: Cell) -> u8 {
    grid[cell.0]@[cell.1]
}

/// The two cells that the pipe on `cell` joins, whether they lie in the
/// field or not. `None` where no pipe lies.
pub open spec fn raw_ends(grid: Seq<Vec<u8>>, cell: Cell) -> Option<(Cell, Cell)> {
    let (r, c) = cell;
    let t = tile(grid, cell);
    if t == 124u8 {
        Some(((r - 1, c), (r + 1, c)))
    } else if t == 45u8 {
        Some(((r, c - 1), (r, c + 1)))
    } else if t == 76u8 {
        Some(((r - 1, c), (r, c + 1)))
    } else if t == 74u8 {
        Some(((r - 1, c), (r, c - 1)))
    } else if t == 55u8 {
        Some(((r + 1, c), (r, c - 1)))
    } else if t == 70u8 {
        Some(((r + 1, c), (r, c + 1)))
    } else {
        None
    }
}

/// The two cells that the pipe on `cell` joins. `None` where no pipe lies
/// or the pipe leads off the field.
pub open spec fn ends(grid: Seq<Vec<u8>>, cell: Cell) -> Option<(Cell, Cell)> {
    match raw_ends(grid, cell) {
        Some((a, b)) => if inside(grid, a) && inside(grid, b) {
            Some((a, b))
        } else {
            None
        },
        None => None,
    }
}

/// The two tiles that the pipe on `coord` joins.
pub fn adjacent_pipes(grid: &Grid, coord: Coord) -> (r: Option<[Coord; 2]>)
    requires
        rect(grid@),
        inside(grid@, cell_of(coord)),
    ensures
        match r {
            Some(pair) => ends(grid@, cell_of(coord)) == Some((cell_of(pair[0]), cell_of(pair[1]))),
            None => ends(grid@, cell_of(coord)) is None,
        },
{
    let rows: usize = grid.len();
    let cols: usize = grid[0].len();
    let r: usize = coord[0];
    let c: usize = coord[1];
    assert(grid@[r as int]@.len() == cols);
    let t: u8 = grid[r][c];
    let up: bool = r >= 1;
    let down: bool = r < rows - 1;
    let left: bool = c >= 1;
    let right: bool = c < cols - 1;
    if t == 124 {
        if up && down {
            Some([[r - 1, c], [r + 1, c]])
        } else {
            None
        }
    } else if t == 45 {
        if left && right {
            Some([[r, c - 1], [r, c + 1]])
        } else {
            None
        }
    } else if t == 76 {
        if up && right {
            Some([[r - 1, c], [r, c + 1]])
        } else {
            None
        }
    } else if t == 74 {
        if up && left {
            Some([[r - 1, c], [r, c - 1]])
        } else {
            None
        }
    } else if t == 55 {
        if down && left {
            Some([[r + 1, c], [r, c - 1]])
        } else {
            None
        }
    } else if t == 70 {
        if down && right {
            Some([[r + 1, c], [r, c + 1]])
        } else {
            None
        }
    } else {
        None
    }
}

/// The tile `S` stands on `cell`, and on no cell before it in reading
/// order.
pub open spec fn is_start(grid: Seq<Vec<u8>>, cell: Cell) -> bool {
    &&& inside(grid, cell)
    &&& tile(grid, cell) == 83u8
    &&& forall|other: Cell|
        inside(grid, other) && (other.0 < cell.0 || (other.0 == cell.0 && other.1 < cell.1)) ==> #[trigger] tile(
            grid,
            other,
        ) != 83u8
}

/// The first tile `S` in reading order. `None` when the field has none.
pub fn start_coord(grid: &Grid) -> (r: Option<Coord>)
    requires
        rect(grid@),
    ensures
        match r {
            Some(coord) => is_start(grid@, cell_of(coord)),
            None => forall|cell: Cell| inside(grid@, cell) ==> #[trigger] tile(grid@, cell) != 83u8,
        },
{
    let mut y: usize = 0;
    while y < grid.len()
        invariant
            y <= grid@.len(),
            rect(grid@),
            forall|cell: Cell| inside(grid@, cell) && cell.0 < y ==> #[trigger] tile(grid@, cell) != 83u8,
        decreases grid@.len() - y,
    {
        let row = &grid[y];
        assert(row@.len() == width(grid@));
        let mut x: usize = 0;
        while x < row.len()
            invariant
                x <= row@.len(),
                y < grid@.len(),
                row@ == grid@[y as int]@,
                row@.len() == width(grid@),
                forall|cell: Cell| inside(grid@, cell) && cell.0 < y ==> #[trigger] tile(grid@, cell) != 83u8,
                forall|j: int| 0 <= j < x ==> row@[j] != 83u8,
            decreases row@.len() - x,
        {
            if row[x] == 83 {
                let found: Coord = [y, x];
                assert(is_start(grid@, cell_of(found))) by {
                    assert forall|other: Cell|
                        inside(grid@, other) && (other.0 < y || (other.0 == y && other.1 < x)) implies #[trigger] tile(
                        grid@,
                        other,
                    ) != 83u8 by {
                        if other.0 == y {
                            assert(row@[other.1] != 83u8);
                        }
                    }
                }
                return Some(found);
            }
            x += 1;
        }
        proof {
            assert forall|cell: Cell| inside(grid@, cell) && cell.0 < y + 1 implies #[trigger] tile(grid@, cell)
                != 83u8 by {
                if cell.0 == y {
                    assert(row@[cell.1] != 83u8);
                }
            }
        }
        y += 1;
    }
    None
}

/// The pipe on `cell` joins the cell `to`.
pub open spec fn joins(grid: Seq<Vec<u8>>, cell: Cell, to: Cell) -> bool {
    ends(grid, cell) matches Some(pair) && (pair.0 == to || pair.1 == to)
}

/// Those of the first `n` of `cells` whose pipe joins `to`, in order.
pub open spec fn joined(grid: Seq<Vec<u8>>, to: Cell, cells: Seq<Cell>, n: int) -> Seq<Cell>
    decreases n,
{
    if n <= 0 {
        Seq::empty()
    } else if joins(grid, cells[n - 1], to) {
        joined(grid, to, cells, n - 1).push(cells[n - 1])
    } else {
        joined(grid, to, cells, n - 1)
    }
}

/// The neighbours of the start whose pipe joins the start.
pub open spec fn exits(grid: Seq<Vec<u8>>, start: Cell) -> Seq<Cell> {
    let around = neighbours(start, height(grid), width(grid));
    joined(grid, start, around, around.len() as int)
}

/// The neighbours are cells of the rectangle.
pub proof fn lemma_neighbours_inside(cell: Cell, h: int, w: int, k: int)
    requires
        0 <= k < neighbours(cell, h, w).len(),
    ensures
        0 <= neighbours(cell, h, w)[k].0 < h,
        0 <= neighbours(cell, h, w)[k].1 < w,
{
    let a = if 0 <= cell.0 - 1 < h && 0 <= cell.1 < w {
        seq![(cell.0 - 1, cell.1)]
    } else {
        Seq::<Cell>::empty()
    };
    let b = if 0 <= cell.0 + 1 < h && 0 <= cell.1 < w {
        seq![(cell.0 + 1, cell.1)]
    } else {
        Seq::<Cell>::empty()
    };
    let c = if 0 <= cell.0 < h && 0 <= cell.1 + 1 < w {
        seq![(cell.0, cell.1 + 1)]
    } else {
        Seq::<Cell>::empty()
    };
    let d = if 0 <= cell.0 < h && 0 <= cell.1 - 1 < w {
        seq![(cell.0, cell.1 - 1)]
    } else {
        Seq::<Cell>::empty()
    };
    assert(neighbours(cell, h, w) =~= a + b + c + d);
}

impl Position {
    /// The two walkers that leave the start, one through each of the two
    /// pipes that join it, in the order above, below, right, left. `None`
    /// when there is no start or the pipes that join it are not two.
    pub fn start_pair(grid: &Grid) -> (r: Option<[Position; 2]>)
        requires
            rect(grid@),
        ensures
            match r {
                Some(pair) => exists|start: Cell|
                    #[trigger] is_start(grid@, start) && exits(grid@, start) == seq![pair[0]@.1, pair[1]@.1] && pair[0]@.0
                        == start && pair[1]@.0 == start && inside(grid@, pair[0]@.1) && inside(grid@, pair[1]@.1),
                None => forall|start: Cell| #[trigger] is_start(grid@, start) ==> exits(grid@, start).len() != 2,
            },
    {
        let prev: Coord = match start_coord(grid) {
            Some(c) => c,
            None => {
                return None;
            },
        };
        let ghost start = cell_of(prev);
        proof {
            lemma_start_unique(grid@, start);
        }
        let rows: usize = grid.len();
        let cols: usize = grid[0].len();
        let around = adjacent_coords(prev, rows, cols);
        let ghost cells = neighbours(start, rows as int, cols as int);
        let mut found: Vec<Coord> = Vec::new();
        let mut k: usize = 0;
        while k < around.len()
            invariant
                k <= around@.len(),
                start == cell_of(prev),
                rect(grid@),
                rows == height(grid@),
                cols == width(grid@),
                cells_of(around@) == cells,
                cells == neighbours(start, rows as int, cols as int),
                cells_of(found@) == joined(grid@, start, cells, k as int),
                forall|j: int| 0 <= j < found@.len() ==> inside(grid@, #[trigger] cell_of(found@[j])),
            decreases around@.len() - k,
        {
            let coord: Coord = around[k];
            proof {
                assert(cells[k as int] == cell_of(coord));
                lemma_neighbours_inside(start, rows as int, cols as int, k as int);
            }
            let meets: bool = match adjacent_pipes(grid, coord) {
                Some(pair) => (pair[0][0] == prev[0] && pair[0][1] == prev[1]) || (pair[1][0] == prev[0] && pair[1][1]
                    == prev[1]),
                None => false,
            };
            assert(meets == joins(grid@, cells[k as int], start));
            if meets {
                let ghost before = cells_of(found@);
                found.push(coord);
                assert(cells_of(found@) =~= before.push(cell_of(coord)));
            }
            k += 1;
        }
        if found.len() != 2 {
            return None;
        }
        let pair: [Position; 2] = [Position { prev, curr: found[0] }, Position { prev, curr: found[1] }];
        proof {
            assert(cells_of(found@)[0] == cell_of(found@[0]));
            assert(cells_of(found@)[1] == cell_of(found@[1]));
            assert(exits(grid@, start) =~= seq![pair[0]@.1, pair[1]@.1]);
        }
        Some(pair)
    }

    /// Lets the walker follow the pipe it stands on to the tile it has not
    /// come from. Returns `false`, leaving the walker where it is, when it
    /// stands on no pipe or the pipe leads nowhere else.
    pub fn increment(&mut self, grid: &Grid) -> (ok: bool)
        requires
            rect(grid@),
            inside(grid@, old(self)@.1),
        ensures
            match step(grid@, old(self)@) {
                Some(next) => ok && final(self)@ == next && inside(grid@, next.1),
                None => !ok && *final(self) == *old(self),
            },
    {
        match adjacent_pipes(grid, self.curr) {
            Some(adjacent) => {
                let first: Coord = adjacent[0];
                let second: Coord = adjacent[1];
                if first[0] != self.prev[0] || first[1] != self.prev[1] {
                    self.prev = self.curr;
                    self.curr = first;
                    true
                } else if second[0] != self.prev[0] || second[1] != self.prev[1] {
                    self.prev = self.curr;
                    self.curr = second;
                    true
                } else {
                    false
                }
            },
            None => false,
        }
    }
}

/// There is one start at most.
pub proof fn lemma_start_unique(grid: Seq<Vec<u8>>, start: Cell)
    requires
        is_start(grid, start),
    ensures
        forall|other: Cell| #[trigger] is_start(grid, other) ==> other == start,
{
    assert forall|other: Cell| #[trigger] is_start(grid, other) implies other == start by {
        if other.0 < start.0 || (other.0 == start.0 && other.1 < start.1) {
            assert(tile(grid, other) != 83u8);
        } else if start.0 < other.0 || (start.0 == other.0 && start.1 < other.1) {
            assert(tile(grid, start) != 83u8);
        }
    }
}

/// The walker after one step: on the first end of its pipe that is not
/// where it came from, having come from where it stood.
pub open spec fn step(grid: Seq<Vec<u8>>, w: Walker) -> Option<Walker> {
    match ends(grid, w.1) {
        Some((a, b)) => if a != w.0 {
            Some((w.1, a))
        } else if b != w.0 {
            Some((w.1, b))
        } else {
            None
        },
        None => None,
    }
}

/// The walker after `k` steps.
pub open spec fn walk(grid: Seq<Vec<u8>>, w: Walker, k: nat) -> Option<Walker>
    decreases k,
{
    if k == 0 {
        Some(w)
    } else {
        match walk(grid, w, (k - 1) as nat) {
            Some(before) => step(grid, before),
            None => None,
        }
    }
}

} // verus!

verus! {

/// The cell that stands for `cell` in the field drawn at twice the size.
pub open spec fn doubled(cell: Cell) -> Cell {
    (2 * cell.0, 2 * cell.1)
}

/// The cell between the two cells of a walker in the field drawn at twice
/// the size.
pub open spec fn between(w: Walker) -> Cell {
    (w.0.0 + w.1.0, w.0.1 + w.1.1)
}

/// Marks, in the field drawn at twice the size, the tile the walker stands
/// on and the cell between it and the tile the walker came from.
pub fn insert_pipe_coords(position: &Position, pipe_coords: &mut Marks)
    requires
        old(pipe_coords).wf(),
        old(pipe_coords).holds(doubled(position@.1)),
        old(pipe_coords).holds(between(position@)),
    ensures
        final(pipe_coords).wf(),
        final(pipe_coords).height() == old(pipe_coords).height(),
        final(pipe_coords).width() == old(pipe_coords).width(),
        forall|cell: Cell|
            old(pipe_coords).holds(cell) ==> #[trigger] final(pipe_coords).marked(cell) == (old(pipe_coords).marked(cell)
                || cell == doubled(position@.1) || cell == between(position@)),
{
    let rows: usize = pipe_coords.cells.len();
    let cols: usize = pipe_coords.cells[0].len();
    let r: usize = position.curr[0] * 2;
    let c: usize = position.curr[1] * 2;
    let mid_r: usize = position.prev[0] + position.curr[0];
    let mid_c: usize = position.prev[1] + position.curr[1];
    let ghost first = *pipe_coords;
    pipe_coords.set(mid_r, mid_c);
    let ghost second = *pipe_coords;
    pipe_coords.set(r, c);
    proof {
        assert forall|cell: Cell| first.holds(cell) implies #[trigger] pipe_coords.marked(cell) == (first.marked(cell)
            || cell == doubled(position@.1) || cell == between(position@)) by {
            assert(second.marked(cell) == (first.marked(cell) || cell == between(position@)));
        }
    }
}

/// The cell is one that the walker `w` marks after `j` steps: the tile it
/// stands on then, or the cell between that tile and the one before.
pub open spec fn marks_at(grid: Seq<Vec<u8>>, w: Walker, j: nat, cell: Cell) -> bool {
    walk(grid, w, j) matches Some(x) && (cell == doubled(x.1) || cell == between(x))
}

/// The cell is one that the walker `w` marks on its first `k` steps, the
/// one before the first step included.
pub open spec fn on_trail(grid: Seq<Vec<u8>>, w: Walker, k: int, cell: Cell) -> bool {
    exists|j: nat| j <= k && #[trigger] marks_at(grid, w, j, cell)
}

/// The two walkers stand on the same tile after `k` steps.
pub open spec fn meet_at(grid: Seq<Vec<u8>>, a: Walker, b: Walker, k: nat) -> bool {
    match (walk(grid, a, k), walk(grid, b, k)) {
        (Some(x), Some(y)) => x.1 == y.1,
        _ => false,
    }
}

/// The number of steps after which the walk is given up: the number of
/// tiles, or one less than the largest `u32` if that is less.
pub open spec fn patience(grid: Seq<Vec<u8>>) -> nat {
    if height(grid) * width(grid) < u32::MAX {
        (height(grid) * width(grid)) as nat
    } else {
        (u32::MAX - 1) as nat
    }
}

/// A walker that cannot go on has no later place.
pub proof fn lemma_walk_stops(grid: Seq<Vec<u8>>, w: Walker, i: nat, k: nat)
    requires
        i <= k,
        walk(grid, w, i) is None,
    ensures
        walk(grid, w, k) is None,
    decreases k - i,
{
    if i < k {
        lemma_walk_stops(grid, w, i, (k - 1) as nat);
    }
}

/// Follows the loop from the start in both directions at once until the
/// two walkers meet, marking the loop in the field drawn at twice the size.
/// Returns one more than the number of steps each walker took: the number
/// of steps from the start to the far point of the loop. `None` when the
/// start has not two pipes joining it, a walker cannot go on, or the
/// walkers have not met within `patience` steps; the marks made by then
/// stay.
pub fn part_one(grid: &Grid, pipe_coords: &mut Marks) -> (r: Option<u32>)
    requires
        rect(grid@),
        old(pipe_coords).wf(),
        old(pipe_coords).height() == 2 * height(grid@),
        old(pipe_coords).width() == 2 * width(grid@),
    ensures
        final(pipe_coords).wf(),
        final(pipe_coords).height() == old(pipe_coords).height(),
        final(pipe_coords).width() == old(pipe_coords).width(),
        match r {
            Some(steps) => exists|start: Cell|
                #![trigger is_start(grid@, start)]
                {
                    let a: Walker = (start, exits(grid@, start)[0]);
                    let b: Walker = (start, exits(grid@, start)[1]);
                    let k = (steps - 1) as nat;
                    &&& is_start(grid@, start)
                    &&& exits(grid@, start).len() == 2
                    &&& steps >= 1
                    &&& k <= patience(grid@)
                    &&& meet_at(grid@, a, b, k)
                    &&& forall|j: nat| j < k ==> !#[trigger] meet_at(grid@, a, b, j)
                    &&& forall|cell: Cell|
                        old(pipe_coords).holds(cell) ==> #[trigger] final(pipe_coords).marked(cell) == (old(
                            pipe_coords,
                        ).marked(cell) || cell == doubled(start) || on_trail(grid@, a, k as int, cell) || on_trail(
                            grid@,
                            b,
                            k as int,
                            cell,
                        ))
                },
            None => forall|start: Cell|
                #![trigger is_start(grid@, start)]
                is_start(grid@, start) && exits(grid@, start).len() == 2 ==> forall|j: nat|
                    j <= patience(grid@) ==> !#[trigger] meet_at(
                        grid@,
                        (start, exits(grid@, start)[0]),
                        (start, exits(grid@, start)[1]),
                        j,
                    ),
        },
{
    let rows: usize = grid.len();
    let cols: usize = if rows == 0 {
        0
    } else {
        grid[0].len()
    };
    let mut positions: [Position; 2] = match Position::start_pair(grid) {
        Some(pair) => pair,
        None => {
            return None;
        },
    };
    let ghost start: Cell = positions[0]@.0;
    let ghost a: Walker = positions[0]@;
    let ghost b: Walker = positions[1]@;
    proof {
        let s = choose|s: Cell|
            #[trigger] is_start(grid@, s) && exits(grid@, s) == seq![positions[0]@.1, positions[1]@.1] && positions[0]@.0
                == s && positions[1]@.0 == s && inside(grid@, positions[0]@.1) && inside(grid@, positions[1]@.1);
        assert(s == start);
        lemma_start_unique(grid@, start);
        assert(exits(grid@, start)[0] == a.1 && exits(grid@, start)[1] == b.1);
    }
    assert(rows * cols <= 0xffff_ffff_ffff_ffff * 0xffff_ffff_ffff_ffff) by (nonlinear_arith)
        requires
            0 <= rows <= 0xffff_ffff_ffff_ffff,
            0 <= cols <= 0xffff_ffff_ffff_ffff,
    ;
    let product: u128 = rows as u128 * cols as u128;
    let limit: u32 = if product < 0xffff_ffff {
        product as u32
    } else {
        0xffff_fffe
    };
    let mut steps: u32 = 1;
    let high: usize = pipe_coords.cells.len();
    let wide: usize = pipe_coords.cells[0].len();
    assert(inside(grid@, start));
    let start_row: usize = positions[0].prev[0] * 2;
    let start_col: usize = positions[0].prev[1] * 2;
    pipe_coords.set(start_row, start_col);
    loop
        invariant
            rect(grid@),
            rows == height(grid@),
            cols == width(grid@),
            pipe_coords.wf(),
            pipe_coords.height() == old(pipe_coords).height(),
            pipe_coords.width() == old(pipe_coords).width(),
            pipe_coords.height() == 2 * height(grid@),
            pipe_coords.width() == 2 * width(grid@),
            is_start(grid@, start),
            exits(grid@, start).len() == 2,
            a == (start, exits(grid@, start)[0]),
            b == (start, exits(grid@, start)[1]),
            limit == patience(grid@),
            1 <= steps <= limit + 1,
            walk(grid@, a, (steps - 1) as nat) == Some(positions[0]@),
            walk(grid@, b, (steps - 1) as nat) == Some(positions[1]@),
            inside(grid@, positions[0]@.0) && inside(grid@, positions[0]@.1),
            inside(grid@, positions[1]@.0) && inside(grid@, positions[1]@.1),
            forall|j: nat| j < steps - 1 ==> !#[trigger] meet_at(grid@, a, b, j),
            forall|cell: Cell|
                old(pipe_coords).holds(cell) ==> #[trigger] pipe_coords.marked(cell) == (old(pipe_coords).marked(cell)
                    || cell == doubled(start) || on_trail(grid@, a, steps - 2, cell) || on_trail(
                    grid@,
                    b,
                    steps - 2,
                    cell,
                )),
        decreases limit + 1 - steps,
    {
        let ghost k = (steps - 1) as nat;
                let ghost before = *pipe_coords;
        let met: bool = positions[0].curr[0] == positions[1].curr[0] && positions[0].curr[1] == positions[1].curr[1];
        assert(met == meet_at(grid@, a, b, k));
        if !met && steps > limit {
            proof {
                lemma_start_unique(grid@, start);
            }
            return None;
        }
        insert_pipe_coords(&positions[0], pipe_coords);
        insert_pipe_coords(&positions[1], pipe_coords);
        proof {
            assert forall|cell: Cell| old(pipe_coords).holds(cell) implies #[trigger] pipe_coords.marked(cell) == (old(
                pipe_coords,
            ).marked(cell) || cell == doubled(start) || on_trail(grid@, a, k as int, cell) || on_trail(
                grid@,
                b,
                k as int,
                cell,
            )) by {
                lemma_trail_step(grid@, a, k, cell);
                lemma_trail_step(grid@, b, k, cell);
            }
        }
        if met {
            proof {
                lemma_start_unique(grid@, start);
            }
            return Some(steps);
        }
        let mut first: Position = positions[0];
        let mut second: Position = positions[1];
        if !first.increment(grid) || !second.increment(grid) {
            proof {
                lemma_start_unique(grid@, start);
                assert(walk(grid@, a, k + 1) is None || walk(grid@, b, k + 1) is None);
                assert forall|j: nat| j <= patience(grid@) implies !#[trigger] meet_at(grid@, a, b, j) by {
                    if j > k {
                        if walk(grid@, a, k + 1) is None {
                            lemma_walk_stops(grid@, a, k + 1, j);
                        } else {
                            lemma_walk_stops(grid@, b, k + 1, j);
                        }
                    }
                }
            }
            return None;
        }
        positions = [first, second];
        steps += 1;
    }
}

/// The trail up to step `k` is the trail up to the step before and what is
/// marked at step `k`.
pub proof fn lemma_trail_step(grid: Seq<Vec<u8>>, w: Walker, k: nat, cell: Cell)
    ensures
        on_trail(grid, w, k as int, cell) == (on_trail(grid, w, k - 1, cell) || marks_at(grid, w, k, cell)),
{
    if on_trail(grid, w, k as int, cell) {
        let j = choose|j: nat| j <= k && #[trigger] marks_at(grid, w, j, cell);
        if j < k {
            assert(on_trail(grid, w, k - 1, cell));
        }
    }
    if on_trail(grid, w, k - 1, cell) {
        let j = choose|j: nat| j <= k - 1 && #[trigger] marks_at(grid, w, j, cell);
        assert(j <= k);
    }
    if marks_at(grid, w, k, cell) {
        assert(on_trail(grid, w, k as int, cell));
    }
}

/// The tile in row `r` and column `c` is enclosed: in the field drawn at
/// twice the size it bears no mark and is not joined to the edge by cells
/// without a mark.
pub open spec fn enclosed(pipe_coords: &Marks, r: int, c: int) -> bool {
    !pipe_coords.marked((2 * r, 2 * c)) && !outside(pipe_coords, (2 * r, 2 * c))
}

/// The number of enclosed tiles among the first `m` of row `r`.
pub open spec fn enclosed_in_row(pipe_coords: &Marks, r: int, m: int) -> nat
    decreases m,
{
    if m <= 0 {
        0
    } else {
        enclosed_in_row(pipe_coords, r, m - 1) + if enclosed(pipe_coords, r, m - 1) {
            1nat
        } else {
            0nat
        }
    }
}

/// The number of enclosed tiles in the first `n` rows of `cols` tiles.
pub open spec fn enclosed_count(pipe_coords: &Marks, n: int, cols: int) -> nat
    decreases n,
{
    if n <= 0 {
        0
    } else {
        enclosed_count(pipe_coords, n - 1, cols) + enclosed_in_row(pipe_coords, n - 1, cols)
    }
}

/// The number of tiles of a field of `rows` by `cols` tiles that the
/// marked loop encloses.
pub fn part_two(pipe_coords: &Marks, rows: usize, cols: usize) -> (count: usize)
    requires
        pipe_coords.wf(),
        pipe_coords.height() == 2 * rows,
        pipe_coords.width() == 2 * cols,
        rows * cols <= usize::MAX,
    ensures
        count == enclosed_count(pipe_coords, rows as int, cols as int),
{
    let high: usize = pipe_coords.cells.len();
    let wide: usize = if high == 0 {
        0
    } else {
        pipe_coords.cells[0].len()
    };
    let mut count: usize = 0;
    let mut y: usize = 0;
    while y < rows
        invariant
            y <= rows,
            pipe_coords.wf(),
            pipe_coords.height() == 2 * rows,
            pipe_coords.width() == 2 * cols,
            high == 2 * rows,
            wide == 2 * cols,
            rows * cols <= usize::MAX,
            count == enclosed_count(pipe_coords, y as int, cols as int),
            count <= y * cols,
        decreases rows - y,
    {
        let mut in_row: usize = 0;
        let mut x: usize = 0;
        while x < cols
            invariant
                x <= cols,
                y < rows,
                pipe_coords.wf(),
                pipe_coords.height() == 2 * rows,
                pipe_coords.width() == 2 * cols,
                high == 2 * rows,
                wide == 2 * cols,
                in_row == enclosed_in_row(pipe_coords, y as int, x as int),
                in_row <= x,
            decreases cols - x,
        {
            let coord: Coord = [y * 2, x * 2];
            if !pipe_coords.get(y * 2, x * 2) && !is_outside(&coord, pipe_coords) {
                in_row += 1;
            }
            x += 1;
        }
        assert(y * cols + cols == (y + 1) * cols && (y + 1) * cols <= rows * cols) by (nonlinear_arith)
            requires
                y < rows,
                cols >= 0,
        ;
        count = count + in_row;
        y += 1;
    }
    count
}

/// All lines are as long as the first.
pub open spec fn is_rect(ls: Seq<Seq<u8>>) -> bool {
    forall|r: int| 0 <= r < ls.len() ==> (#[trigger] ls[r]).len() == ls[0].len()
}

/// Reads the field, one row of tiles per line. `None` when the lines
/// differ in length.
pub fn parse_input(input: &str) -> (r: Option<Grid>)
    ensures
        r is Some <==> is_rect(lines(input.spec_bytes())),
        r matches Some(grid) ==> rect(grid@) && views(grid@) == lines(input.spec_bytes()),
{
    let all = lines_of(input.as_bytes());
    let mut i: usize = 0;
    while i < all.len()
        invariant
            i <= all@.len(),
            views(all@) == lines(input.spec_bytes()),
            forall|k: int| 0 <= k < i ==> (#[trigger] views(all@)[k]).len() == views(all@)[0].len(),
        decreases all@.len() - i,
    {
        assert(views(all@)[i as int] == all@[i as int]@ && views(all@)[0] == all@[0]@);
        if all[i].len() != all[0].len() {
            return None;
        }
        i += 1;
    }
    proof {
        assert forall|r: int| 0 <= r < height(all@) implies (#[trigger] all@[r])@.len() == width(all@) by {
            assert(views(all@)[r] == all@[r]@ && views(all@)[0] == all@[0]@);
        }
    }
    Some(all)
}

} // verus!
