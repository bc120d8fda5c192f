//! Which cells of a marked rectangle can be reached from its edge.

use vstd::prelude::*;
use crate::day10::marks::{Cell, Marks};

verus! {

/// The row and the column of a cell.
pub type Coord = [usize; 2];

/// The cell of a coordinate.
pub open spec fn cell_of(coord: Coord) -> Cell {
    (coord[0] as int, coord[1] as int)
}

/// The two cells share a side.
pub open spec fn is_next(a: Cell, b: Cell) -> bool {
    (a.0 == b.0 && (a.1 == b.1 + 1 || b.1 == a.1 + 1)) || (a.1 == b.1 && (a.0 == b.0 + 1 || b.0 == a.0 + 1))
}

/// The cell lies in the rectangle and bears no mark.
pub open spec fn free(marks: &Marks, cell: Cell) -> bool {
    marks.holds(cell) && !marks.marked(cell)
}

/// The cell lies on the edge from which the flood comes: in the first row
/// or the first column, or beyond the last.
pub open spec fn edge(cell: Cell, height: int, width: int) -> bool {
    cell.0 < 1 || cell.0 >= height || cell.1 < 1 || cell.1 >= width
}

/// Both cells are free and share a side.
pub open spec fn hop(marks: &Marks, mid: Cell, to: Cell) -> bool {
    free(marks, mid) && free(marks, to) && is_next(mid, to)
}

/// The cell `to` is reached from `from` in `n` steps over free cells.
pub open spec fn reach_in(marks: &Marks, from: Cell, to: Cell, n: nat) -> bool
    decreases n,
{
    if n == 0 {
        from == to
    } else {
        exists|mid: Cell| reach_in(marks, from, mid, (n - 1) as nat) && #[trigger] hop(marks, mid, to)
    }
}

/// The cell is free and joined to the edge by free cells.
pub open spec fn outside(marks: &Marks, cell: Cell) -> bool {
    free(marks, cell) && exists|e: Cell, n: nat|
        #[trigger] reach_in(marks, cell, e, n) && edge(e, marks.height(), marks.width())
}

/// What is reached from a free neighbour is reached from the cell.
pub proof fn lemma_reach_prepend(marks: &Marks, from: Cell, next: Cell, to: Cell, n: nat)
    requires
        hop(marks, from, next),
        reach_in(marks, next, to, n),
    ensures
        reach_in(marks, from, to, n + 1),
    decreases n,
{
    if n == 0 {
        assert(reach_in(marks, from, from, 0));
        assert(hop(marks, from, to));
    } else {
        let mid = choose|mid: Cell| reach_in(marks, next, mid, (n - 1) as nat) && #[trigger] hop(marks, mid, to);
        lemma_reach_prepend(marks, from, next, mid, (n - 1) as nat);
        assert(hop(marks, mid, to));
    }
}

/// The neighbours of a cell within a rectangle of the given size, in the
/// order above, below, right, left.
pub open spec fn neighbours(cell: Cell, height: int, width: int) -> Seq<Cell> {
    (if 0 <= cell.0 - 1 < height && 0 <= cell.1 < width {
        seq![(cell.0 - 1, cell.1)]
    } else {
        Seq::empty()
    }) + (if 0 <= cell.0 + 1 < height && 0 <= cell.1 < width {
        seq![(cell.0 + 1, cell.1)]
    } else {
        Seq::empty()
    }) + (if 0 <= cell.0 < height && 0 <= cell.1 + 1 < width {
        seq![(cell.0, cell.1 + 1)]
    } else {
        Seq::empty()
    }) + (if 0 <= cell.0 < height && 0 <= cell.1 - 1 < width {
        seq![(cell.0, cell.1 - 1)]
    } else {
        Seq::empty()
    })
}

/// The cells of the coordinates.
pub open spec fn cells_of(coords: Seq<Coord>) -> Seq<Cell> {
    Seq::new(coords.len(), |i: int| cell_of(coords[i]))
}

/// The neighbours of a cell that lie within `height` rows and `width`
/// columns, in the order above, below, right, left.
pub fn adjacent_coords(coord: Coord, height: usize, width: usize) -> (r: Vec<Coord>)
    ensures
        cells_of(r@) == neighbours(cell_of(coord), height as int, width as int),
{
    let mut out: Vec<Coord> = Vec::new();
    let row: usize = coord[0];
    let col: usize = coord[1];
    let ghost cell = cell_of(coord);
    let ghost h = height as int;
    let ghost w = width as int;
    let ghost a = if 0 <= cell.0 - 1 < h && 0 <= cell.1 < w {
        seq![(cell.0 - 1, cell.1)]
    } else {
        Seq::<Cell>::empty()
    };
    let ghost b = if 0 <= cell.0 + 1 < h && 0 <= cell.1 < w {
        seq![(cell.0 + 1, cell.1)]
    } else {
        Seq::<Cell>::empty()
    };
    let ghost c = if 0 <= cell.0 < h && 0 <= cell.1 + 1 < w {
        seq![(cell.0, cell.1 + 1)]
    } else {
        Seq::<Cell>::empty()
    };
    let ghost d = if 0 <= cell.0 < h && 0 <= cell.1 - 1 < w {
        seq![(cell.0, cell.1 - 1)]
    } else {
        Seq::<Cell>::empty()
    };
    if row >= 1 && row - 1 < height && col < width {
        out.push([row - 1, col]);
    }
    assert(cells_of(out@) =~= a);
    if row < height && height - row > 1 && col < width {
        out.push([row + 1, col]);
    }
    assert(cells_of(out@) =~= a + b);
    if row < height && col < width && width - col > 1 {
        out.push([row, col + 1]);
    }
    assert(cells_of(out@) =~= a + b + c);
    if row < height && col >= 1 && col - 1 < width {
        out.push([row, col - 1]);
    }
    assert(cells_of(out@) =~= a + b + c + d);
    out
}

/// The neighbours are the cells of the rectangle that share a side with
/// the cell.
pub proof fn lemma_neighbours(cell: Cell, height: int, width: int, t: Cell)
    requires
        0 <= cell.0 < height,
        0 <= cell.1 < width,
    ensures
        neighbours(cell, height, width).contains(t) <==> is_next(cell, t) && 0 <= t.0 < height && 0 <= t.1 < width,
{
    let a = if 0 <= cell.0 - 1 < height && 0 <= cell.1 < width {
        seq![(cell.0 - 1, cell.1)]
    } else {
        Seq::<Cell>::empty()
    };
    let b = if 0 <= cell.0 + 1 < height && 0 <= cell.1 < width {
        seq![(cell.0 + 1, cell.1)]
    } else {
        Seq::<Cell>::empty()
    };
    let c = if 0 <= cell.0 < height && 0 <= cell.1 + 1 < width {
        seq![(cell.0, cell.1 + 1)]
    } else {
        Seq::<Cell>::empty()
    };
    let d = if 0 <= cell.0 < height && 0 <= cell.1 - 1 < width {
        seq![(cell.0, cell.1 - 1)]
    } else {
        Seq::<Cell>::empty()
    };
    let all = neighbours(cell, height, width);
    assert(all =~= a + b + c + d);
    if all.contains(t) {
        let k = choose|k: int| 0 <= k < all.len() && all[k] == t;
        assert(is_next(cell, t));
    }
    if is_next(cell, t) && 0 <= t.0 < height && 0 <= t.1 < width {
        if t == (cell.0 - 1, cell.1) {
            assert(all[0] == t);
        } else if t == (cell.0 + 1, cell.1) {
            assert(all[a.len() as int] == t);
        } else if t == (cell.0, cell.1 + 1) {
            assert(all[(a.len() + b.len()) as int] == t);
        } else {
            assert(t == (cell.0, cell.1 - 1));
            assert(all[(a.len() + b.len() + c.len()) as int] == t);
        }
    }
}

/// The coordinate lies on the edge from which the flood comes.
pub fn on_edge(coord: Coord, height: usize, width: usize) -> (r: bool)
    ensures
        r == edge(cell_of(coord), height as int, width as int),
{
    coord[0] < 1 || coord[0] >= height || coord[1] < 1 || coord[1] >= width
}

/// The cell is free, off the edge, and every neighbour of it bears a mark
/// or has been visited.
pub open spec fn closed(pipe_coords: &Marks, visited: &Marks, q: Cell) -> bool {
    &&& free(pipe_coords, q)
    &&& !edge(q, pipe_coords.height(), pipe_coords.width())
    &&& forall|t: Cell|
        pipe_coords.holds(t) && #[trigger] is_next(q, t) ==> pipe_coords.marked(t) || visited.marked(t)
}

/// Floods on from `coord` over the cells that bear no mark and have not
/// been visited, and returns whether the flood has come to the edge.
pub fn is_outside_recursive(coord: Coord, pipe_coords: &Marks, visited: &mut Marks) -> (r: bool)
    requires
        pipe_coords.wf(),
        old(visited).wf(),
        old(visited).height() == pipe_coords.height(),
        old(visited).width() == pipe_coords.width(),
        pipe_coords.holds(cell_of(coord)),
    ensures
        final(visited).wf(),
        final(visited).height() == pipe_coords.height(),
        final(visited).width() == pipe_coords.width(),
        final(visited).blank() <= old(visited).blank(),
        forall|q: Cell| pipe_coords.holds(q) && old(visited).marked(q) ==> #[trigger] final(visited).marked(q),
        r ==> outside(pipe_coords, cell_of(coord)),
        !r ==> !free(pipe_coords, cell_of(coord)) || final(visited).marked(cell_of(coord)),
        !r ==> forall|q: Cell|
            pipe_coords.holds(q) && #[trigger] final(visited).marked(q) && !old(visited).marked(q) ==> closed(
                pipe_coords,
                final(visited),
                q,
            ),
    decreases old(visited).blank(),
{
    let ghost here = cell_of(coord);
    let height: usize = pipe_coords.cells.len();
    let width: usize = pipe_coords.cells[0].len();
    if visited.get(coord[0], coord[1]) {
        return false;
    }
    if pipe_coords.get(coord[0], coord[1]) {
        return false;
    }
    if on_edge(coord, height, width) {
        assert(reach_in(pipe_coords, here, here, 0));
        return true;
    }
    visited.set(coord[0], coord[1]);
    let ghost started = *visited;
    let around = adjacent_coords(coord, height, width);
    let ghost cells = neighbours(here, height as int, width as int);
    let mut k: usize = 0;
    while k < around.len()
        invariant
            k <= around@.len(),
            here == cell_of(coord),
            cells_of(around@) == cells,
            cells == neighbours(here, height as int, width as int),
            height == pipe_coords.height(),
            width == pipe_coords.width(),
            pipe_coords.wf(),
            pipe_coords.holds(here),
            free(pipe_coords, here),
            !edge(here, height as int, width as int),
            visited.wf(),
            visited.height() == pipe_coords.height(),
            visited.width() == pipe_coords.width(),
            visited.blank() <= started.blank(),
            started.blank() < old(visited).blank(),
            visited.marked(here),
            forall|q: Cell| pipe_coords.holds(q) && started.marked(q) ==> #[trigger] visited.marked(q),
            forall|q: Cell| pipe_coords.holds(q) && old(visited).marked(q) ==> #[trigger] started.marked(q),
            forall|q: Cell| pipe_coords.holds(q) ==> #[trigger] started.marked(q) == (old(visited).marked(q) || q == here),
            forall|j: int| 0 <= j < k ==> pipe_coords.marked(#[trigger] cells[j]) || visited.marked(cells[j]),
            forall|q: Cell|
                pipe_coords.holds(q) && #[trigger] visited.marked(q) && !started.marked(q) ==> closed(
                    pipe_coords,
                    visited,
                    q,
                ),
        decreases around@.len() - k,
    {
        let next: Coord = around[k];
        let ghost before = *visited;
        proof {
            assert(cells[k as int] == cell_of(around@[k as int]));
            assert(cells.contains(cells[k as int]));
            lemma_neighbours(here, height as int, width as int, cells[k as int]);
        }
        if is_outside_recursive(next, pipe_coords, visited) {
            proof {
                let t = cell_of(next);
                let (e, n) = choose|e: Cell, n: nat|
                    #[trigger] reach_in(pipe_coords, t, e, n) && edge(e, pipe_coords.height(), pipe_coords.width());
                assert(hop(pipe_coords, here, t));
                lemma_reach_prepend(pipe_coords, here, t, e, n);
                assert(reach_in(pipe_coords, here, e, n + 1) && edge(e, pipe_coords.height(), pipe_coords.width()));
            }
            return true;
        }
        proof {
            assert forall|j: int| 0 <= j < k + 1 implies pipe_coords.marked(#[trigger] cells[j]) || visited.marked(
                cells[j],
            ) by {
                if j < k {
                    assert(cells.contains(cells[j]));
                    lemma_neighbours(here, height as int, width as int, cells[j]);
                    assert(pipe_coords.marked(cells[j]) || before.marked(cells[j]));
                }
            }
            assert forall|q: Cell|
                pipe_coords.holds(q) && #[trigger] visited.marked(q) && !started.marked(q) implies closed(
                pipe_coords,
                visited,
                q,
            ) by {
                if before.marked(q) {
                    assert(closed(pipe_coords, &before, q));
                    assert forall|t: Cell| pipe_coords.holds(t) && #[trigger] is_next(q, t) implies pipe_coords.marked(
                        t,
                    ) || visited.marked(t) by {
                        assert(pipe_coords.marked(t) || before.marked(t));
                    }
                }
            }
        }
        k += 1;
    }
    proof {
        assert forall|q: Cell|
            pipe_coords.holds(q) && #[trigger] visited.marked(q) && !old(visited).marked(q) implies closed(
            pipe_coords,
            visited,
            q,
        ) by {
            if q == here {
                assert forall|t: Cell| pipe_coords.holds(t) && #[trigger] is_next(q, t) implies pipe_coords.marked(t)
                    || visited.marked(t) by {
                    lemma_neighbours(here, height as int, width as int, t);
                    let j = choose|j: int| 0 <= j < cells.len() && cells[j] == t;
                    assert(pipe_coords.marked(cells[j]) || visited.marked(cells[j]));
                }
            } else {
                assert(!started.marked(q));
            }
        }
    }
    false
}

/// In a rectangle of visits where the start is visited and every visited
/// cell is closed, every cell reached from the start is visited too.
pub proof fn lemma_flood_complete(pipe_coords: &Marks, visited: &Marks, start: Cell, q: Cell, n: nat)
    requires
        pipe_coords.holds(start),
        visited.height() == pipe_coords.height(),
        visited.width() == pipe_coords.width(),
        visited.marked(start),
        forall|p: Cell| pipe_coords.holds(p) && #[trigger] visited.marked(p) ==> closed(pipe_coords, visited, p),
        reach_in(pipe_coords, start, q, n),
    ensures
        pipe_coords.holds(q),
        visited.marked(q),
    decreases n,
{
    if n > 0 {
        let mid = choose|mid: Cell| reach_in(pipe_coords, start, mid, (n - 1) as nat) && #[trigger] hop(pipe_coords, mid, q);
        lemma_flood_complete(pipe_coords, visited, start, mid, (n - 1) as nat);
        assert(closed(pipe_coords, visited, mid));
        assert(is_next(mid, q));
    }
}

/// Whether the cell of `coord` is free and joined to the edge by free
/// cells.
pub fn is_outside(coord: &Coord, pipe_coords: &Marks) -> (r: bool)
    requires
        pipe_coords.wf(),
        pipe_coords.holds(cell_of(*coord)),
    ensures
        r == outside(pipe_coords, cell_of(*coord)),
{
    let height: usize = pipe_coords.cells.len();
    let width: usize = pipe_coords.cells[0].len();
    let mut visited = Marks::new(height, width);
    let r = is_outside_recursive(*coord, pipe_coords, &mut visited);
    proof {
        let start = cell_of(*coord);
        if !r && outside(pipe_coords, start) {
            let (e, n) = choose|e: Cell, n: nat|
                #[trigger] reach_in(pipe_coords, start, e, n) && edge(e, pipe_coords.height(), pipe_coords.width());
            lemma_flood_complete(pipe_coords, &visited, start, e, n);
            assert(closed(pipe_coords, &visited, e));
        }
    }
    r
}

} // verus!
