//! The mathematical model of the search: grids, headings, search states,
//! legal steps, paths and their cost.

use vstd::prelude::*;

verus! {

/// One of the four compass headings a walker can have.
#[derive(Clone, Copy, Debug, PartialEq, Eq, Structural)]
pub enum Heading {
    Down,
    Right,
    Up,
    Left,
}

impl Heading {
    /// Change of the row index made by one step in this heading.
    pub open spec fn row_delta(self) -> int {
        match self {
            Heading::Down => 1,
            Heading::Up => -1,
            _ => 0,
        }
    }

    /// Change of the column index made by one step in this heading.
    pub open spec fn col_delta(self) -> int {
        match self {
            Heading::Right => 1,
            Heading::Left => -1,
            _ => 0,
        }
    }

    /// The heading that exactly reverses this one.
    pub open spec fn opposite(self) -> Heading {
        match self {
            Heading::Down => Heading::Up,
            Heading::Up => Heading::Down,
            Heading::Right => Heading::Left,
            Heading::Left => Heading::Right,
        }
    }

    /// Position of this heading in the fixed order down, right, up, left.
    pub open spec fn ordinal(self) -> int {
        match self {
            Heading::Down => 0,
            Heading::Right => 1,
            Heading::Up => 2,
            Heading::Left => 3,
        }
    }

    /// The heading at position `i` of the fixed order.
    pub fn from_ordinal(i: usize) -> (h: Heading)
        requires
            i < 4,
        ensures
            h.ordinal() == i,
    {
        if i == 0 {
            Heading::Down
        } else if i == 1 {
            Heading::Right
        } else if i == 2 {
            Heading::Up
        } else {
            Heading::Left
        }
    }

    /// Position of this heading in the fixed order.
    pub fn to_ordinal(self) -> (i: usize)
        ensures
            i == self.ordinal(),
            i < 4,
    {
        match self {
            Heading::Down => 0,
            Heading::Right => 1,
            Heading::Up => 2,
            Heading::Left => 3,
        }
    }

    /// The heading that exactly reverses this one.
    pub fn reversed(self) -> (h: Heading)
        ensures
            h == self.opposite(),
    {
        match self {
            Heading::Down => Heading::Up,
            Heading::Up => Heading::Down,
            Heading::Right => Heading::Left,
            Heading::Left => Heading::Right,
        }
    }
}

/// A node of the search: a cell, the heading the walker arrived with, and
/// the number of consecutive steps already taken in that heading.
#[derive(Clone, Copy, Debug, PartialEq, Eq, Structural)]
pub struct SearchState {
    pub row: usize,
    pub col: usize,
    pub dir: Heading,
    pub run: usize,
}

impl SearchState {
    /// A state the search starts from: on the top-left cell, with any
    /// heading and a run of one.
    pub open spec fn is_seed(self) -> bool {
        self.row == 0 && self.col == 0 && self.run == 1
    }

    /// The state reached from `self` by one step in heading `h`.
    pub open spec fn moved(self, h: Heading) -> SearchState {
        SearchState {
            row: (self.row + h.row_delta()) as usize,
            col: (self.col + h.col_delta()) as usize,
            dir: h,
            run: if h == self.dir {
                (self.run + 1) as usize
            } else {
                1
            },
        }
    }
}

/// A search state together with the cost of one path that reaches it.
#[derive(Clone, Copy, Debug, PartialEq, Eq, Structural)]
pub struct Node {
    pub state: SearchState,
    pub dist: u64,
}

/// A rectangular grid of cell weights with at least one row and one column.
pub struct Grid {
    cells: Vec<Vec<u8>>,
}

impl Grid {
    /// The weights, row by row.
    pub closed spec fn view(&self) -> Seq<Seq<u8>> {
        Seq::new(self.cells@.len(), |r: int| self.cells@[r]@)
    }

    /// There is at least one cell and all rows have the same length.
    pub open spec fn wf(&self) -> bool {
        &&& 1 <= self@.len() <= usize::MAX
        &&& 1 <= self@[0].len() <= usize::MAX
        &&& forall|r: int| 0 <= r < self@.len() ==> (#[trigger] self@[r]).len() == self@[0].len()
    }

    /// Number of rows.
    pub open spec fn height(&self) -> int {
        self@.len() as int
    }

    /// Number of columns.
    pub open spec fn width(&self) -> int {
        self@[0].len() as int
    }

    /// Weight of the cell at `(row, col)`.
    pub open spec fn weight(&self, row: int, col: int) -> nat {
        self@[row][col] as nat
    }

    /// Builds a grid from its rows; `None` when there is no cell or the rows
    /// differ in length.
    pub fn new(cells: Vec<Vec<u8>>) -> (g: Option<Grid>)
        ensures
            g is Some <==> {
                &&& cells@.len() >= 1
                &&& cells@[0]@.len() >= 1
                &&& forall|r: int| 0 <= r < cells@.len() ==> (#[trigger] cells@[r])@.len() == cells@[0]@.len()
            },
            g matches Some(grid) ==> grid.wf() && grid@ == Seq::new(cells@.len(), |r: int| cells@[r]@),
    {
        if cells.len() == 0 || cells[0].len() == 0 {
            return None;
        }
        let width: usize = cells[0].len();
        let mut r: usize = 1;
        while r < cells.len()
            invariant
                1 <= r <= cells@.len(),
                width == cells@[0]@.len(),
                forall|k: int| 0 <= k < r ==> (#[trigger] cells@[k])@.len() == width,
            decreases cells@.len() - r,
        {
            if cells[r].len() != width {
                return None;
            }
            r += 1;
        }
        let grid = Grid { cells };
        proof {
            assert(grid@ =~= Seq::new(cells@.len(), |r: int| cells@[r]@));
        }
        Some(grid)
    }

    /// Number of rows.
    pub fn rows(&self) -> (n: usize)
        ensures
            n == self.height(),
    {
        self.cells.len()
    }

    /// Number of columns.
    pub fn cols(&self) -> (n: usize)
        requires
            self.wf(),
        ensures
            n == self.width(),
    {
        self.cells[0].len()
    }

    /// Weight of the cell at `(row, col)`.
    pub fn get(&self, row: usize, col: usize) -> (w: u8)
        requires
            self.wf(),
            row < self.height(),
            col < self.width(),
        ensures
            w == self.weight(row as int, col as int),
    {
        assert(self@[row as int].len() == self@[0].len());
        self.cells[row][col]
    }

    /// One step in heading `h` from `s` is allowed: it does not reverse,
    /// respects both run limits, and stays on the grid.
    pub open spec fn can_move(&self, min_run: usize, max_run: usize, s: SearchState, h: Heading) -> bool {
        &&& h != s.dir.opposite()
        &&& (h == s.dir ==> s.run + 1 <= max_run)
        &&& (h != s.dir ==> min_run <= s.run <= max_run)
        &&& 0 <= s.row + h.row_delta() < self.height()
        &&& 0 <= s.col + h.col_delta() < self.width()
    }

    /// `s` lies on the grid with a run length between one and `max_run`.
    pub open spec fn valid(&self, max_run: usize, s: SearchState) -> bool {
        &&& s.row < self.height()
        &&& s.col < self.width()
        &&& 1 <= s.run <= max_run
    }

    /// `t` follows `s` by one allowed step.
    pub open spec fn is_step(&self, min_run: usize, max_run: usize, s: SearchState, t: SearchState) -> bool {
        self.can_move(min_run, max_run, s, t.dir) && t == s.moved(t.dir)
    }

    /// The states `p[i]` and `p[i + 1]` are joined by an allowed step.
    pub open spec fn step_at(&self, min_run: usize, max_run: usize, p: Seq<SearchState>, i: int) -> bool {
        self.is_step(min_run, max_run, p[i], p[i + 1])
    }

    /// `p` is a path: it starts in a seed state and each state follows the
    /// one before it by an allowed step.
    pub open spec fn is_path(&self, min_run: usize, max_run: usize, p: Seq<SearchState>) -> bool {
        &&& p.len() >= 1
        &&& p[0].is_seed()
        &&& forall|i: int| 0 <= i < p.len() - 1 ==> #[trigger] self.step_at(min_run, max_run, p, i)
    }

    /// Sum of the weights of the cells that `p` enters; the first cell is
    /// where the walker already stands and costs nothing.
    pub open spec fn path_cost(&self, p: Seq<SearchState>) -> nat
        decreases p.len(),
    {
        if p.len() <= 1 {
            0
        } else {
            self.path_cost(p.drop_last()) + self.weight(p.last().row as int, p.last().col as int)
        }
    }

    /// `p` is a path that ends on the bottom-right cell, with any heading
    /// and any run length.
    pub open spec fn is_goal_path(&self, min_run: usize, max_run: usize, p: Seq<SearchState>) -> bool {
        &&& self.is_path(min_run, max_run, p)
        &&& p.last().row == self.height() - 1
        &&& p.last().col == self.width() - 1
    }

    /// `c` is the cost of some path to the goal, and no path to the goal is
    /// cheaper.
    pub open spec fn is_min_cost(&self, min_run: usize, max_run: usize, c: nat) -> bool {
        &&& exists|p: Seq<SearchState>| #[trigger] self.is_goal_path(min_run, max_run, p) && self.path_cost(p) == c
        &&& forall|p: Seq<SearchState>| #[trigger] self.is_goal_path(min_run, max_run, p) ==> c <= self.path_cost(p)
    }

    /// The cost of a cheapest path to the goal, or `None` when no path
    /// reaches it.
    pub open spec fn min_cost(&self, min_run: usize, max_run: usize) -> Option<nat> {
        if exists|p: Seq<SearchState>| #[trigger] self.is_goal_path(min_run, max_run, p) {
            Some(choose|c: nat| self.is_min_cost(min_run, max_run, c))
        } else {
            None
        }
    }
}

} // verus!

verus! {

impl Node {
    /// The four entries the search starts from: the top-left cell with each
    /// heading in turn, a run of one, and no cost.
    pub fn start() -> (seeds: [Node; 4])
        ensures
            forall|i: int|
                0 <= i < 4 ==> {
                    &&& (#[trigger] seeds[i]).state.is_seed()
                    &&& seeds[i].state.dir.ordinal() == i
                    &&& seeds[i].dist == 0
                },
    {
        [
            Node { state: SearchState { row: 0, col: 0, dir: Heading::Down, run: 1 }, dist: 0 },
            Node { state: SearchState { row: 0, col: 0, dir: Heading::Right, run: 1 }, dist: 0 },
            Node { state: SearchState { row: 0, col: 0, dir: Heading::Up, run: 1 }, dist: 0 },
            Node { state: SearchState { row: 0, col: 0, dir: Heading::Left, run: 1 }, dist: 0 },
        ]
    }

    /// The entry reached by one step in heading `dir`, at the cost of this
    /// entry plus the weight of the cell entered. `None` when the step is not
    /// allowed, or when the cost would not fit in a `u64`.
    pub fn next(&self, dir: Heading, min_run: usize, max_run: usize, grid: &Grid) -> (r: Option<Node>)
        requires
            grid.wf(),
            self.state.row < grid.height(),
            self.state.col < grid.width(),
        ensures
            r == if grid.can_move(min_run, max_run, self.state, dir) && self.dist + grid.weight(
                self.state.moved(dir).row as int,
                self.state.moved(dir).col as int,
            ) <= u64::MAX {
                Some(
                    Node {
                        state: self.state.moved(dir),
                        dist: (self.dist + grid.weight(
                            self.state.moved(dir).row as int,
                            self.state.moved(dir).col as int,
                        )) as u64,
                    },
                )
            } else {
                None
            },
    {
        let s = self.state;
        if dir == s.dir.reversed() {
            return None;
        }
        let run: usize = if dir == s.dir {
            if s.run >= max_run {
                return None;
            }
            s.run + 1
        } else {
            if s.run < min_run || s.run > max_run {
                return None;
            }
            1
        };
        let (row, col): (usize, usize) = match dir {
            Heading::Down => {
                if s.row >= grid.rows() - 1 {
                    return None;
                }
                (s.row + 1, s.col)
            },
            Heading::Up => {
                if s.row == 0 {
                    return None;
                }
                (s.row - 1, s.col)
            },
            Heading::Right => {
                if s.col >= grid.cols() - 1 {
                    return None;
                }
                (s.row, s.col + 1)
            },
            Heading::Left => {
                if s.col == 0 {
                    return None;
                }
                (s.row, s.col - 1)
            },
        };
        let w: u8 = grid.get(row, col);
        if self.dist > u64::MAX - (w as u64) {
            return None;
        }
        Some(Node { state: SearchState { row, col, dir, run }, dist: self.dist + w as u64 })
    }
}

} // verus!
