//! A beam of light among mirrors and splitters, and the tiles it passes.

use vstd::prelude::*;
use vstd::string::StringSliceAdditionalSpecFns;
use crate::text::{lines, lines_of, views};

verus! {

/// The heading of a beam.
#[derive(Clone, Copy, Debug, PartialEq, Eq, Structural)]
pub enum Dir {
    Up,
    Down,
    Left,
    Right,
}

/// What stands on a tile.
#[derive(Clone, Copy, Debug, PartialEq, Eq, Structural)]
pub enum TileType {
    Empty,
    /// A mirror leaning like `/`.
    MirrorFS,
    /// A mirror leaning like `\`.
    MirrorBS,
    /// A splitter lying level, `-`.
    SplitH,
    /// A splitter standing upright, `|`.
    SplitV,
}

/// A tile and the headings with which a beam has passed it, one bit each.
#[derive(Clone, Copy, Debug, PartialEq, Eq, Structural)]
pub struct Tile {
    pub ty: TileType,
    pub visited_bitmask: u8,
}

/// A beam on a tile: the row and column of the tile and the heading.
#[derive(Clone, Copy, Debug, PartialEq, Eq, Structural)]
pub struct Position {
    pub row: usize,
    pub col: usize,
    pub dir: Dir,
}

/// A rectangle of tiles.
#[derive(Clone, Debug)]
pub struct Grid {
    pub tiles: Vec<Vec<Tile>>,
}

impl Dir {
    /// The bit that stands for this heading.
    pub open spec fn bit(self) -> u8 {
        match self {
            Dir::Up => 1,
            Dir::Down => 2,
            Dir::Left => 4,
            Dir::Right => 8,
        }
    }

    /// The bit that stands for this heading.
    pub fn mask(self) -> (b: u8)
        ensures
            b == self.bit(),
    {
        match self {
            Dir::Up => 1,
            Dir::Down => 2,
            Dir::Left => 4,
            Dir::Right => 8,
        }
    }
}

/// The mask holds the bit of `dir`.
pub open spec fn seen(mask: u8, dir: Dir) -> bool {
    mask & dir.bit() > 0
}

/// The number of headings whose bit the mask does not hold.
pub open spec fn free(mask: u8) -> nat {
    (if seen(mask, Dir::Up) {
        0nat
    } else {
        1nat
    }) + (if seen(mask, Dir::Down) {
        0nat
    } else {
        1nat
    }) + (if seen(mask, Dir::Left) {
        0nat
    } else {
        1nat
    }) + (if seen(mask, Dir::Right) {
        0nat
    } else {
        1nat
    })
}

/// Setting the bit of a heading adds that heading and no other.
pub proof fn lemma_set_bit(mask: u8, dir: Dir, other: Dir)
    ensures
        seen(mask | dir.bit(), other) == (seen(mask, other) || other == dir),
        (mask | dir.bit() != 0),
        mask < 16 ==> (mask | dir.bit()) < 16,
{
    assert(mask < 16 ==> (mask | 1u8) < 16 && (mask | 2u8) < 16 && (mask | 4u8) < 16 && (mask | 8u8) < 16)
        by (bit_vector);
    let m = mask;
    assert(((m | 1u8) & 1u8 > 0) && ((m | 1u8) & 2u8 > 0) == (m & 2u8 > 0) && ((m | 1u8) & 4u8 > 0) == (m & 4u8 > 0)
        && ((m | 1u8) & 8u8 > 0) == (m & 8u8 > 0) && (m | 1u8) != 0) by (bit_vector);
    assert(((m | 2u8) & 2u8 > 0) && ((m | 2u8) & 1u8 > 0) == (m & 1u8 > 0) && ((m | 2u8) & 4u8 > 0) == (m & 4u8 > 0)
        && ((m | 2u8) & 8u8 > 0) == (m & 8u8 > 0) && (m | 2u8) != 0) by (bit_vector);
    assert(((m | 4u8) & 4u8 > 0) && ((m | 4u8) & 1u8 > 0) == (m & 1u8 > 0) && ((m | 4u8) & 2u8 > 0) == (m & 2u8 > 0)
        && ((m | 4u8) & 8u8 > 0) == (m & 8u8 > 0) && (m | 4u8) != 0) by (bit_vector);
    assert(((m | 8u8) & 8u8 > 0) && ((m | 8u8) & 1u8 > 0) == (m & 1u8 > 0) && ((m | 8u8) & 2u8 > 0) == (m & 2u8 > 0)
        && ((m | 8u8) & 4u8 > 0) == (m & 4u8 > 0) && (m | 8u8) != 0) by (bit_vector);
}

/// A mask that holds the bit of a heading is not zero, and the mask zero
/// holds none.
pub proof fn lemma_seen_nonzero(mask: u8, dir: Dir)
    ensures
        seen(mask, dir) ==> mask != 0,
        !seen(0u8, dir),
        mask < 16 && mask != 0 ==> seen(mask, Dir::Up) || seen(mask, Dir::Down) || seen(mask, Dir::Left) || seen(
            mask,
            Dir::Right,
        ),
{
    assert(mask < 16 && mask != 0 ==> (mask & 1u8 > 0) || (mask & 2u8 > 0) || (mask & 4u8 > 0) || (mask & 8u8 > 0))
        by (bit_vector);
    let m = mask;
    assert((m & 1u8 > 0 ==> m != 0) && (m & 2u8 > 0 ==> m != 0) && (m & 4u8 > 0 ==> m != 0) && (m & 8u8 > 0 ==> m
        != 0)) by (bit_vector);
    assert(!(0u8 & 1u8 > 0) && !(0u8 & 2u8 > 0) && !(0u8 & 4u8 > 0) && !(0u8 & 8u8 > 0)) by (bit_vector);
}

impl Grid {
    /// Number of rows.
    pub open spec fn height(&self) -> int {
        self.tiles@.len() as int
    }

    /// Number of columns.
    pub open spec fn width(&self) -> int {
        if self.tiles@.len() == 0 {
            0
        } else {
            self.tiles@[0]@.len() as int
        }
    }

    /// All rows are equally long, and no mask holds a bit that stands for
    /// no heading.
    pub open spec fn wf(&self) -> bool {
        &&& forall|r: int| 0 <= r < self.height() ==> (#[trigger] self.tiles@[r])@.len() == self.width()
        &&& forall|r: int, c: int|
            0 <= r < self.height() && 0 <= c < self.width() ==> (#[trigger] self.tile(r, c)).visited_bitmask < 16
    }

    /// What stands on each tile.
    pub open spec fn layout(&self) -> Seq<Seq<TileType>> {
        Seq::new(self.tiles@.len(), |r: int| Seq::new(self.tiles@[r]@.len(), |c: int| self.tiles@[r]@[c].ty))
    }

    /// The tile in row `r` and column `c`.
    pub open spec fn tile(&self, r: int, c: int) -> Tile {
        self.tiles@[r]@[c]
    }

    /// The beam `p` lies on the grid.
    pub open spec fn holds(&self, p: Position) -> bool {
        p.row < self.height() && p.col < self.width()
    }

    /// A beam has passed the tile of `p` with the heading of `p`.
    pub open spec fn visited(&self, p: Position) -> bool {
        seen(self.tile(p.row as int, p.col as int).visited_bitmask, p.dir)
    }

    /// The two grids have the same size and the same things on every tile.
    pub open spec fn same_tiles(&self, other: &Grid) -> bool {
        &&& self.height() == other.height()
        &&& self.width() == other.width()
        &&& forall|r: int, c: int|
            0 <= r < self.height() && 0 <= c < self.width() ==> (#[trigger] self.tile(r, c)).ty == other.tile(r, c).ty
    }

    /// The headings not yet seen on the first `m` tiles of row `r`.
    pub open spec fn row_free(&self, r: int, m: int) -> nat
        decreases m,
    {
        if m <= 0 {
            0
        } else {
            self.row_free(r, m - 1) + free(self.tile(r, m - 1).visited_bitmask)
        }
    }

    /// The headings not yet seen on the tiles of the first `n` rows.
    pub open spec fn rows_free(&self, n: int) -> nat
        decreases n,
    {
        if n <= 0 {
            0
        } else {
            self.rows_free(n - 1) + self.row_free(n - 1, self.width())
        }
    }

    /// The headings not yet seen on all tiles.
    pub open spec fn unvisited(&self) -> nat {
        self.rows_free(self.height())
    }
}

/// Two grids that differ only in the mask of one tile differ in the number
/// of headings not yet seen by what that tile makes up.
pub proof fn lemma_row_free_change(a: &Grid, b: &Grid, r: int, c: int, m: int)
    requires
        0 <= r < a.height(),
        a.height() == b.height(),
        0 <= m <= a.width(),
        a.width() == b.width(),
        a.wf(),
        b.wf(),
        forall|j: int| 0 <= j < m && j != c ==> #[trigger] a.tile(r, j) == b.tile(r, j),
    ensures
        a.row_free(r, m) + (if 0 <= c < m {
            free(b.tile(r, c).visited_bitmask)
        } else {
            0nat
        }) == b.row_free(r, m) + (if 0 <= c < m {
            free(a.tile(r, c).visited_bitmask)
        } else {
            0nat
        }),
    decreases m,
{
    if m > 0 {
        lemma_row_free_change(a, b, r, c, m - 1);
        if m - 1 != c {
            assert(a.tile(r, m - 1) == b.tile(r, m - 1));
        }
    }
}

/// The same over all rows.
pub proof fn lemma_rows_free_change(a: &Grid, b: &Grid, r: int, c: int, n: int)
    requires
        0 <= n <= a.height(),
        a.height() == b.height(),
        a.width() == b.width(),
        0 <= c < a.width(),
        a.wf(),
        b.wf(),
        forall|i: int, j: int|
            0 <= i < n && 0 <= j < a.width() && !(i == r && j == c) ==> #[trigger] a.tile(i, j) == b.tile(i, j),
    ensures
        a.rows_free(n) + (if 0 <= r < n {
            free(b.tile(r, c).visited_bitmask)
        } else {
            0nat
        }) == b.rows_free(n) + (if 0 <= r < n {
            free(a.tile(r, c).visited_bitmask)
        } else {
            0nat
        }),
    decreases n,
{
    if n > 0 {
        lemma_rows_free_change(a, b, r, c, n - 1);
        if n - 1 == r {
            lemma_row_free_change(a, b, r, c, a.width());
        } else {
            lemma_row_free_change(a, b, n - 1, -1, a.width());
        }
    }
}

/// Notes on the tile of `p` that a beam has passed with the heading of `p`.
fn mark(grid: &mut Grid, p: &Position)
    requires
        old(grid).wf(),
        old(grid).holds(*p),
        !old(grid).visited(*p),
    ensures
        final(grid).wf(),
        final(grid).same_tiles(old(grid)),
        final(grid).layout() == old(grid).layout(),
        final(grid).visited(*p),
        forall|q: Position| old(grid).holds(q) ==> #[trigger] final(grid).visited(q) == (old(grid).visited(q) || q == *p),
        final(grid).unvisited() + 1 == old(grid).unvisited(),
{
    let r: usize = p.row;
    let c: usize = p.col;
    assert(grid.tiles@[r as int]@.len() == grid.width());
    let mut tile: Tile = grid.tiles[r][c];
    let ghost before = tile.visited_bitmask;
    tile.visited_bitmask = tile.visited_bitmask | p.dir.mask();
    let mut row: Vec<Tile> = Vec::new();
    core::mem::swap(&mut grid.tiles[r], &mut row);
    row.set(c, tile);
    core::mem::swap(&mut grid.tiles[r], &mut row);
    proof {
        lemma_set_bit(before, p.dir, Dir::Up);
        lemma_set_bit(before, p.dir, Dir::Down);
        lemma_set_bit(before, p.dir, Dir::Left);
        lemma_set_bit(before, p.dir, Dir::Right);
        assert(grid.height() == old(grid).height());
        assert(grid.tiles@[0]@.len() == old(grid).tiles@[0]@.len());
        assert forall|i: int| 0 <= i < grid.height() implies (#[trigger] grid.tiles@[i])@.len() == grid.width() by {
            assert(old(grid).tiles@[i]@.len() == old(grid).width());
        }
        assert forall|i: int, j: int|
            0 <= i < grid.height() && 0 <= j < grid.width() && !(i == r && j == c) implies #[trigger] grid.tile(i, j)
            == old(grid).tile(i, j) by {
            assert(old(grid).tiles@[i]@.len() == old(grid).width());
        }
        assert(grid.tile(r as int, c as int) == tile);
        assert(old(grid).tile(r as int, c as int).visited_bitmask < 16);
        assert forall|i: int, j: int| 0 <= i < grid.height() && 0 <= j < grid.width() implies (#[trigger] grid.tile(
            i,
            j,
        )).visited_bitmask < 16 by {
            if !(i == r && j == c) {
                assert(old(grid).tile(i, j).visited_bitmask < 16);
            }
        }
        assert(grid.layout() =~= old(grid).layout()) by {
            assert forall|i: int| 0 <= i < grid.height() implies #[trigger] grid.layout()[i] =~= old(grid).layout()[i] by {
                assert(old(grid).tiles@[i]@.len() == old(grid).width());
                assert(grid.tiles@[i]@.len() == grid.width());
                assert forall|j: int| 0 <= j < grid.width() implies grid.layout()[i][j] == old(grid).layout()[i][j] by {
                    if !(i == r && j == c) {
                        assert(grid.tile(i, j) == old(grid).tile(i, j));
                    }
                }
            }
        }
        lemma_rows_free_change(grid, old(grid), r as int, c as int, grid.height());
        assert forall|q: Position| old(grid).holds(q) implies #[trigger] grid.visited(q) == (old(grid).visited(q) || q
            == *p) by {
            lemma_set_bit(before, p.dir, q.dir);
            if q.row == r && q.col == c {
            } else {
                assert(grid.tile(q.row as int, q.col as int) == old(grid).tile(
                    q.row as int,
                    q.col as int,
                ));
            }
        }
    }
}

} // verus!

verus! {

/// The heading with which a beam leaves a mirror.
pub open spec fn mirrored(ty: TileType, dir: Dir) -> Dir {
    match ty {
        TileType::MirrorFS => match dir {
            Dir::Up => Dir::Right,
            Dir::Down => Dir::Left,
            Dir::Left => Dir::Down,
            Dir::Right => Dir::Up,
        },
        _ => match dir {
            Dir::Up => Dir::Left,
            Dir::Down => Dir::Right,
            Dir::Left => Dir::Up,
            Dir::Right => Dir::Down,
        },
    }
}

/// The headings with which a beam that arrives with heading `dir` leaves a
/// tile: one, or two where a splitter lies across its way.
pub open spec fn outgoing(ty: TileType, dir: Dir) -> (Dir, Option<Dir>) {
    match ty {
        TileType::MirrorFS | TileType::MirrorBS => (mirrored(ty, dir), None),
        TileType::SplitH => if dir == Dir::Up || dir == Dir::Down {
            (Dir::Left, Some(Dir::Right))
        } else {
            (dir, None)
        },
        TileType::SplitV => if dir == Dir::Left || dir == Dir::Right {
            (Dir::Up, Some(Dir::Down))
        } else {
            (dir, None)
        },
        TileType::Empty => (dir, None),
    }
}

impl Position {
    /// The beam one tile further along its heading, on a grid of the given
    /// size; `None` where that leaves the grid.
    pub open spec fn ahead(self, height: int, width: int) -> Option<Position> {
        match self.dir {
            Dir::Up => if self.row == 0 {
                None
            } else {
                Some(Position { row: (self.row - 1) as usize, col: self.col, dir: self.dir })
            },
            Dir::Down => if self.row + 1 >= height {
                None
            } else {
                Some(Position { row: (self.row + 1) as usize, col: self.col, dir: self.dir })
            },
            Dir::Left => if self.col == 0 {
                None
            } else {
                Some(Position { row: self.row, col: (self.col - 1) as usize, dir: self.dir })
            },
            Dir::Right => if self.col + 1 >= width {
                None
            } else {
                Some(Position { row: self.row, col: (self.col + 1) as usize, dir: self.dir })
            },
        }
    }

    /// The same beam with another heading.
    pub open spec fn facing(self, dir: Dir) -> Position {
        Position { row: self.row, col: self.col, dir }
    }

    /// The beam one tile further along its heading; `None` where that
    /// leaves the grid.
    pub fn next(&self, grid: &Grid) -> (r: Option<Position>)
        requires
            grid.wf(),
            grid.holds(*self),
        ensures
            r == self.ahead(grid.height(), grid.width()),
            r matches Some(p) ==> grid.holds(p),
    {
        let height: usize = grid.tiles.len();
        let width: usize = grid.tiles[0].len();
        match self.dir {
            Dir::Up => if self.row == 0 {
                None
            } else {
                Some(Position { row: self.row - 1, col: self.col, dir: self.dir })
            },
            Dir::Down => if self.row >= height - 1 {
                None
            } else {
                Some(Position { row: self.row + 1, col: self.col, dir: self.dir })
            },
            Dir::Left => if self.col == 0 {
                None
            } else {
                Some(Position { row: self.row, col: self.col - 1, dir: self.dir })
            },
            Dir::Right => if self.col >= width - 1 {
                None
            } else {
                Some(Position { row: self.row, col: self.col + 1, dir: self.dir })
            },
        }
    }

    /// The beam as it leaves a mirror on its tile.
    pub fn reflect(&self, tile_type: TileType) -> (r: Position)
        requires
            tile_type == TileType::MirrorFS || tile_type == TileType::MirrorBS,
        ensures
            r == self.facing(mirrored(tile_type, self.dir)),
    {
        let dir = match tile_type {
            TileType::MirrorFS => match self.dir {
                Dir::Up => Dir::Right,
                Dir::Down => Dir::Left,
                Dir::Left => Dir::Down,
                Dir::Right => Dir::Up,
            },
            _ => match self.dir {
                Dir::Up => Dir::Left,
                Dir::Down => Dir::Right,
                Dir::Left => Dir::Up,
                Dir::Right => Dir::Down,
            },
        };
        Position { row: self.row, col: self.col, dir }
    }
}

/// What stands on the tile of `p`.
pub open spec fn kind_at(layout: Seq<Seq<TileType>>, p: Position) -> TileType {
    layout[p.row as int][p.col as int]
}

/// The number of rows of a layout.
pub open spec fn layout_height(layout: Seq<Seq<TileType>>) -> int {
    layout.len() as int
}

/// The number of columns of a layout.
pub open spec fn layout_width(layout: Seq<Seq<TileType>>) -> int {
    if layout.len() == 0 {
        0
    } else {
        layout[0].len() as int
    }
}

/// The beam `p` lies on the layout.
pub open spec fn on_layout(layout: Seq<Seq<TileType>>, p: Position) -> bool {
    p.row < layout_height(layout) && p.col < layout_width(layout)
}

/// The first beam that follows `s`: along the first of its outgoing
/// headings.
pub open spec fn first_after(layout: Seq<Seq<TileType>>, s: Position) -> Option<Position> {
    s.facing(outgoing(kind_at(layout, s), s.dir).0).ahead(layout_height(layout), layout_width(layout))
}

/// The second beam that follows `s`, where a splitter sends out two.
pub open spec fn second_after(layout: Seq<Seq<TileType>>, s: Position) -> Option<Position> {
    match outgoing(kind_at(layout, s), s.dir).1 {
        Some(d) => s.facing(d).ahead(layout_height(layout), layout_width(layout)),
        None => None,
    }
}

/// The beam `t` follows the beam `s` directly.
pub open spec fn is_succ(layout: Seq<Seq<TileType>>, s: Position, t: Position) -> bool {
    first_after(layout, s) == Some(t) || second_after(layout, s) == Some(t)
}

/// The beam `mid` lies on the layout and `to` follows it directly.
pub open spec fn hop(layout: Seq<Seq<TileType>>, mid: Position, to: Position) -> bool {
    on_layout(layout, mid) && is_succ(layout, mid, to)
}

/// The beam `to` follows from the beam `from` in exactly `n` steps.
pub open spec fn reach_in(layout: Seq<Seq<TileType>>, from: Position, to: Position, n: nat) -> bool
    decreases n,
{
    if n == 0 {
        from == to
    } else {
        exists|mid: Position| reach_in(layout, from, mid, (n - 1) as nat) && #[trigger] hop(layout, mid, to)
    }
}

/// The beam `to` follows from the beam `from`.
pub open spec fn reaches(layout: Seq<Seq<TileType>>, from: Position, to: Position) -> bool {
    exists|n: nat| reach_in(layout, from, to, n)
}

/// What follows from a beam that follows `from` directly follows from
/// `from`.
pub proof fn lemma_reach_prepend(layout: Seq<Seq<TileType>>, from: Position, next: Position, to: Position, n: nat)
    requires
        on_layout(layout, from),
        is_succ(layout, from, next),
        reach_in(layout, next, to, n),
    ensures
        reach_in(layout, from, to, n + 1),
    decreases n,
{
    if n == 0 {
        assert(reach_in(layout, from, from, 0));
        assert(hop(layout, from, to));
    } else {
        let mid = choose|mid: Position| reach_in(layout, next, mid, (n - 1) as nat) && #[trigger] hop(layout, mid, to);
        lemma_reach_prepend(layout, from, next, mid, (n - 1) as nat);
        assert(hop(layout, mid, to));
    }
}

impl Grid {
    /// Both beams that follow `q`, as far as they stay on the grid, have
    /// been noted.
    pub open spec fn closed_at(&self, q: Position) -> bool {
        &&& first_after(self.layout(), q) matches Some(t) ==> self.visited(t)
        &&& second_after(self.layout(), q) matches Some(t) ==> self.visited(t)
    }

    /// The layout has the size of the grid and shows its tiles.
    pub proof fn lemma_layout(&self)
        requires
            self.wf(),
        ensures
            layout_height(self.layout()) == self.height(),
            layout_width(self.layout()) == self.width(),
            forall|p: Position| self.holds(p) ==> #[trigger] kind_at(self.layout(), p) == self.tile(
                p.row as int,
                p.col as int,
            ).ty,
            forall|p: Position| self.holds(p) == on_layout(self.layout(), p),
    {
        assert forall|p: Position| self.holds(p) implies #[trigger] kind_at(self.layout(), p) == self.tile(
            p.row as int,
            p.col as int,
        ).ty by {
            assert(self.tiles@[p.row as int]@.len() == self.width());
        }
    }
}

/// Lets a beam run on from `position`: notes it on its tile and follows it
/// through mirrors and splitters, until it leaves the grid or meets a tile
/// that a beam has passed with the same heading.
///
/// In the end every beam noted before is still noted, `position` is noted,
/// and every beam newly noted follows from `position` and has the beams
/// that follow it noted too.
pub fn propogate(grid: &mut Grid, position: &Position)
    requires
        old(grid).wf(),
        old(grid).holds(*position),
    ensures
        final(grid).wf(),
        final(grid).layout() == old(grid).layout(),
        final(grid).height() == old(grid).height(),
        final(grid).width() == old(grid).width(),
        final(grid).unvisited() <= old(grid).unvisited(),
        final(grid).visited(*position),
        forall|q: Position| old(grid).holds(q) && old(grid).visited(q) ==> #[trigger] final(grid).visited(q),
        forall|q: Position|
            old(grid).holds(q) && #[trigger] final(grid).visited(q) && !old(grid).visited(q) ==> reaches(
                old(grid).layout(),
                *position,
                q,
            ) && final(grid).closed_at(q),
    decreases old(grid).unvisited(),
{
    let ghost layout = grid.layout();
    proof {
        grid.lemma_layout();
    }
    assert(grid.tiles@[position.row as int]@.len() == grid.width());
    let tile: Tile = grid.tiles[position.row][position.col];
    if tile.visited_bitmask & position.dir.mask() > 0 {
        return;
    }
    mark(grid, position);
    let ghost marked = *grid;
    proof {
        grid.lemma_layout();
        assert(reach_in(layout, *position, *position, 0));
    }
    let (first, second): (Position, Option<Position>) = match tile.ty {
        TileType::MirrorFS | TileType::MirrorBS => (position.reflect(tile.ty), None),
        TileType::SplitH => if position.dir == Dir::Up || position.dir == Dir::Down {
            (
                Position { row: position.row, col: position.col, dir: Dir::Left },
                Some(Position { row: position.row, col: position.col, dir: Dir::Right }),
            )
        } else {
            (*position, None)
        },
        TileType::SplitV => if position.dir == Dir::Right || position.dir == Dir::Left {
            (
                Position { row: position.row, col: position.col, dir: Dir::Up },
                Some(Position { row: position.row, col: position.col, dir: Dir::Down }),
            )
        } else {
            (*position, None)
        },
        TileType::Empty => (*position, None),
    };
    assert(first == position.facing(outgoing(kind_at(layout, *position), position.dir).0));
    assert(second == match outgoing(kind_at(layout, *position), position.dir).1 {
        Some(d) => Some(position.facing(d)),
        None => None,
    });
    let one = first.next(grid);
    assert(one == first_after(layout, *position));
    match one {
        Some(p) => {
            propogate(grid, &p);
        },
        None => {},
    }
    let ghost middle = *grid;
    proof {
        grid.lemma_layout();
    }
    let two = match second {
        Some(s) => s.next(grid),
        None => None,
    };
    assert(two == second_after(layout, *position));
    match two {
        Some(p) => {
            propogate(grid, &p);
        },
        None => {},
    }
    proof {
        grid.lemma_layout();
        assert forall|q: Position|
            old(grid).holds(q) && #[trigger] grid.visited(q) && !old(grid).visited(q) implies reaches(
            layout,
            *position,
            q,
        ) && grid.closed_at(q) by {
            if q == *position {
                if let Some(p) = one {
                    assert(middle.visited(p));
                }
            } else if middle.visited(q) {
                assert(!marked.visited(q));
                let p = one.unwrap();
                assert(reaches(layout, p, q));
                let n = choose|n: nat| reach_in(layout, p, q, n);
                lemma_reach_prepend(layout, *position, p, q, n);
                assert(middle.closed_at(q));
                if let Some(t) = first_after(layout, q) {
                    assert(middle.holds(t));
                }
                if let Some(t) = second_after(layout, q) {
                    assert(middle.holds(t));
                }
            } else {
                let p = two.unwrap();
                assert(reaches(layout, p, q));
                let n = choose|n: nat| reach_in(layout, p, q, n);
                lemma_reach_prepend(layout, *position, p, q, n);
            }
        }
    }
}

} // verus!

verus! {

/// A beam has passed the tile in row `r` and column `c` of the layout,
/// when a beam starts as `start`.
pub open spec fn lit(layout: Seq<Seq<TileType>>, start: Position, r: int, c: int) -> bool {
    on_layout(layout, start) && {
        ||| reaches(layout, start, Position { row: r as usize, col: c as usize, dir: Dir::Up })
        ||| reaches(layout, start, Position { row: r as usize, col: c as usize, dir: Dir::Down })
        ||| reaches(layout, start, Position { row: r as usize, col: c as usize, dir: Dir::Left })
        ||| reaches(layout, start, Position { row: r as usize, col: c as usize, dir: Dir::Right })
    }
}

/// The number of tiles among the first `m` of row `r` that a beam has
/// passed.
pub open spec fn lit_in_row(layout: Seq<Seq<TileType>>, start: Position, r: int, m: int) -> nat
    decreases m,
{
    if m <= 0 {
        0
    } else {
        lit_in_row(layout, start, r, m - 1) + if lit(layout, start, r, m - 1) {
            1nat
        } else {
            0nat
        }
    }
}

/// The number of tiles in the first `n` rows that a beam has passed.
pub open spec fn lit_count(layout: Seq<Seq<TileType>>, start: Position, n: int) -> nat
    decreases n,
{
    if n <= 0 {
        0
    } else {
        lit_count(layout, start, n - 1) + lit_in_row(layout, start, n - 1, layout_width(layout))
    }
}

/// The number of tiles that a beam starting as `start` passes.
pub open spec fn energy(layout: Seq<Seq<TileType>>, start: Position) -> nat {
    lit_count(layout, start, layout_height(layout))
}

impl Grid {
    /// All rows are equally long.
    pub open spec fn rect(&self) -> bool {
        forall|r: int| 0 <= r < self.height() ==> (#[trigger] self.tiles@[r])@.len() == self.width()
    }

    /// The number of tiles fits in a `usize`, as it does for every grid that
    /// fits in memory.
    pub open spec fn countable(&self) -> bool {
        self.height() * self.width() <= usize::MAX
    }

    /// No beam has been noted on any tile.
    pub open spec fn fresh(&self) -> bool {
        forall|r: int, c: int|
            0 <= r < self.height() && 0 <= c < self.width() ==> (#[trigger] self.tile(r, c)).visited_bitmask == 0
    }

    /// In a grid where the start is noted and every noted beam has its
    /// followers noted, every beam that follows from the start is noted.
    pub proof fn lemma_closed_reach(&self, start: Position, q: Position, n: nat)
        requires
            self.wf(),
            self.holds(start),
            self.visited(start),
            forall|p: Position| self.holds(p) && #[trigger] self.visited(p) ==> self.closed_at(p),
            reach_in(self.layout(), start, q, n),
        ensures
            self.holds(q),
            self.visited(q),
        decreases n,
    {
        self.lemma_layout();
        if n > 0 {
            let layout = self.layout();
            let mid = choose|mid: Position|
                reach_in(layout, start, mid, (n - 1) as nat) && #[trigger] hop(layout, mid, q);
            self.lemma_closed_reach(start, mid, (n - 1) as nat);
            assert(self.closed_at(mid));
        }
    }
}

/// A grid with the same things on its tiles and no beam noted.
pub fn fresh_copy(grid: &Grid) -> (copy: Grid)
    requires
        grid.rect(),
    ensures
        copy.wf(),
        copy.fresh(),
        copy.layout() == grid.layout(),
        copy.height() == grid.height(),
        copy.width() == grid.width(),
{
    let mut tiles: Vec<Vec<Tile>> = Vec::new();
    let mut r: usize = 0;
    while r < grid.tiles.len()
        invariant
            r <= grid.tiles@.len(),
            grid.rect(),
            tiles@.len() == r,
            forall|i: int| 0 <= i < r ==> (#[trigger] tiles@[i])@.len() == grid.width(),
            forall|i: int, j: int|
                0 <= i < r && 0 <= j < grid.width() ==> (#[trigger] tiles@[i]@[j]) == (Tile {
                    ty: grid.tile(i, j).ty,
                    visited_bitmask: 0,
                }),
        decreases grid.tiles@.len() - r,
    {
        let source = &grid.tiles[r];
        assert(source@.len() == grid.width());
        let mut row: Vec<Tile> = Vec::new();
        let mut c: usize = 0;
        while c < source.len()
            invariant
                c <= source@.len(),
                r < grid.tiles@.len(),
                source@ == grid.tiles@[r as int]@,
                row@.len() == c,
                forall|j: int|
                    0 <= j < c ==> (#[trigger] row@[j]) == (Tile { ty: grid.tile(r as int, j).ty, visited_bitmask: 0 }),
            decreases source@.len() - c,
        {
            row.push(Tile { ty: source[c].ty, visited_bitmask: 0 });
            c += 1;
        }
        tiles.push(row);
        r += 1;
    }
    let copy = Grid { tiles };
    proof {
        assert(copy.height() == grid.height());
        if copy.height() > 0 {
            assert(copy.tiles@[0]@.len() == grid.width());
        }
        assert forall|i: int, j: int| 0 <= i < copy.height() && 0 <= j < copy.width() implies (#[trigger] copy.tile(
            i,
            j,
        )).visited_bitmask == 0 by {
            assert(copy.tiles@[i]@[j].visited_bitmask == 0);
        }
        assert(copy.layout() =~= grid.layout()) by {
            assert forall|i: int| 0 <= i < copy.height() implies #[trigger] copy.layout()[i] =~= grid.layout()[i] by {
                assert(copy.tiles@[i]@.len() == grid.width());
                assert(grid.tiles@[i]@.len() == grid.width());
                assert forall|j: int| 0 <= j < grid.width() implies copy.layout()[i][j] == grid.layout()[i][j] by {
                    assert(copy.tiles@[i]@[j].ty == grid.tile(i, j).ty);
                }
            }
        }
    }
    copy
}

/// The number of tiles that a beam starting as `start` passes; none when
/// `start` does not lie on the grid.
pub fn energized(grid: &Grid, start: Position) -> (count: usize)
    requires
        grid.rect(),
        grid.countable(),
    ensures
        count == energy(grid.layout(), start),
{
    let mut g = fresh_copy(grid);
    let ghost layout = grid.layout();
    let height: usize = g.tiles.len();
    let width: usize = if height == 0 {
        0
    } else {
        g.tiles[0].len()
    };
    proof {
        g.lemma_layout();
    }
    let inside: bool = start.row < height && start.col < width;
    let ghost blank = g;
    if inside {
        propogate(&mut g, &start);
    }
    proof {
        g.lemma_layout();
        assert forall|q: Position| g.holds(q) implies (#[trigger] g.visited(q) <==> inside && reaches(layout, start, q)) by {
            lemma_seen_nonzero(blank.tile(q.row as int, q.col as int).visited_bitmask, q.dir);
            assert(!blank.visited(q));
            if inside && reaches(layout, start, q) {
                let n = choose|n: nat| reach_in(layout, start, q, n);
                assert forall|p: Position| g.holds(p) && #[trigger] g.visited(p) implies g.closed_at(p) by {
                    lemma_seen_nonzero(blank.tile(p.row as int, p.col as int).visited_bitmask, p.dir);
                    assert(!blank.visited(p));
                }
                g.lemma_closed_reach(start, q, n);
            }
        }
    }
    let mut count: usize = 0;
    let mut r: usize = 0;
    while r < height
        invariant
            r <= height,
            height == g.height(),
            width == g.width(),
            g.wf(),
            layout == g.layout(),
            layout_width(layout) == width,
            inside == on_layout(layout, start),
            forall|q: Position| g.holds(q) ==> (#[trigger] g.visited(q) <==> inside && reaches(layout, start, q)),
            count == lit_count(layout, start, r as int),
            count <= r * width,
            height * width <= usize::MAX,
        decreases height - r,
    {
        let row = &g.tiles[r];
        assert(row@.len() == width);
        let mut in_row: usize = 0;
        let mut c: usize = 0;
        while c < width
            invariant
                c <= width,
                r < height,
                height == g.height(),
                width == g.width(),
                g.wf(),
                row@ == g.tiles@[r as int]@,
                row@.len() == width,
                layout == g.layout(),
                inside == on_layout(layout, start),
                forall|q: Position| g.holds(q) ==> (#[trigger] g.visited(q) <==> inside && reaches(layout, start, q)),
                in_row == lit_in_row(layout, start, r as int, c as int),
                in_row <= c,
            decreases width - c,
        {
            let mask: u8 = row[c].visited_bitmask;
            proof {
                assert(mask == g.tile(r as int, c as int).visited_bitmask);
                lemma_seen_nonzero(mask, Dir::Up);
                lemma_seen_nonzero(mask, Dir::Down);
                lemma_seen_nonzero(mask, Dir::Left);
                lemma_seen_nonzero(mask, Dir::Right);
                assert(g.visited(Position { row: r, col: c, dir: Dir::Up }) == seen(mask, Dir::Up));
                assert(g.visited(Position { row: r, col: c, dir: Dir::Down }) == seen(mask, Dir::Down));
                assert(g.visited(Position { row: r, col: c, dir: Dir::Left }) == seen(mask, Dir::Left));
                assert(g.visited(Position { row: r, col: c, dir: Dir::Right }) == seen(mask, Dir::Right));
                assert((mask != 0) == lit(layout, start, r as int, c as int));
            }
            if mask != 0 {
                in_row += 1;
            }
            c += 1;
        }
        assert((r + 1) * width == r * width + width) by (nonlinear_arith);
        assert(r * width + width <= height * width) by (nonlinear_arith)
            requires
                r < height,
                width >= 0,
        ;
        count = count + in_row;
        r += 1;
    }
    count
}

} // verus!

verus! {

/// The number of tiles passed by a beam that enters the top-left tile
/// heading right.
pub fn part_one(grid: Grid) -> (count: usize)
    requires
        grid.rect(),
        grid.countable(),
    ensures
        count == energy(grid.layout(), Position { row: 0, col: 0, dir: Dir::Right }),
{
    energized(&grid, Position { row: 0, col: 0, dir: Dir::Right })
}

/// The beam `p` enters the grid from outside: on a tile of the edge,
/// heading away from that edge.
pub open spec fn enters(height: int, width: int, p: Position) -> bool {
    &&& p.row < height
    &&& p.col < width
    &&& match p.dir {
        Dir::Left => p.col == width - 1,
        Dir::Right => p.col == 0,
        Dir::Up => p.row == height - 1,
        Dir::Down => p.row == 0,
    }
}

/// `best` is the energy of some beam that enters the grid, and no entering
/// beam has more.
pub open spec fn is_best(layout: Seq<Seq<TileType>>, best: nat) -> bool {
    &&& exists|p: Position| #[trigger]
        enters(layout_height(layout), layout_width(layout), p) && energy(layout, p) == best
    &&& forall|p: Position| #[trigger]
        enters(layout_height(layout), layout_width(layout), p) ==> energy(layout, p) <= best
}

/// The largest number of tiles that a beam entering the grid from any edge
/// passes. `None` when the grid has no tile.
pub fn part_two(grid: Grid) -> (r: Option<usize>)
    requires
        grid.rect(),
        grid.countable(),
    ensures
        match r {
            Some(best) => is_best(grid.layout(), best as nat),
            None => grid.height() == 0 || grid.width() == 0,
        },
{
    let height: usize = grid.tiles.len();
    if height == 0 {
        return None;
    }
    let width: usize = grid.tiles[0].len();
    if width == 0 {
        return None;
    }
    let ghost layout = grid.layout();
    proof {
        assert(layout_height(layout) == height);
        assert(layout_width(layout) == width);
    }
    let first = Position { row: 0, col: 0, dir: Dir::Right };
    let mut best: usize = energized(&grid, first);
    let ghost mut witness: Position = first;
    let mut i: usize = 0;
    while i < height
        invariant
            i <= height,
            height == grid.height(),
            width == grid.width(),
            width > 0,
            grid.rect(),
            grid.countable(),
            layout == grid.layout(),
            layout_height(layout) == height,
            layout_width(layout) == width,
            enters(height as int, width as int, witness),
            energy(layout, witness) == best,
            forall|p: Position|
                #[trigger] enters(height as int, width as int, p) && (p.dir == Dir::Left || p.dir == Dir::Right)
                    && p.row < i ==> energy(layout, p) <= best,
        decreases height - i,
    {
        let left = Position { row: i, col: width - 1, dir: Dir::Left };
        let right = Position { row: i, col: 0, dir: Dir::Right };
        let a: usize = energized(&grid, left);
        let b: usize = energized(&grid, right);
        if a > best {
            best = a;
            proof {
                witness = left;
            }
        }
        if b > best {
            best = b;
            proof {
                witness = right;
            }
        }
        proof {
            assert forall|p: Position|
                #[trigger] enters(height as int, width as int, p) && (p.dir == Dir::Left || p.dir == Dir::Right)
                    && p.row < i + 1 implies energy(layout, p) <= best by {
                if p.row == i {
                    assert(p == left || p == right);
                }
            }
        }
        i += 1;
    }
    let mut j: usize = 0;
    while j < width
        invariant
            j <= width,
            height == grid.height(),
            width == grid.width(),
            height > 0,
            grid.rect(),
            grid.countable(),
            layout == grid.layout(),
            layout_height(layout) == height,
            layout_width(layout) == width,
            enters(height as int, width as int, witness),
            energy(layout, witness) == best,
            forall|p: Position|
                #[trigger] enters(height as int, width as int, p) && (p.dir == Dir::Left || p.dir == Dir::Right)
                    ==> energy(layout, p) <= best,
            forall|p: Position|
                #[trigger] enters(height as int, width as int, p) && (p.dir == Dir::Up || p.dir == Dir::Down) && p.col
                    < j ==> energy(layout, p) <= best,
        decreases width - j,
    {
        let up = Position { row: height - 1, col: j, dir: Dir::Up };
        let down = Position { row: 0, col: j, dir: Dir::Down };
        let a: usize = energized(&grid, up);
        let b: usize = energized(&grid, down);
        if a > best {
            best = a;
            proof {
                witness = up;
            }
        }
        if b > best {
            best = b;
            proof {
                witness = down;
            }
        }
        proof {
            assert forall|p: Position|
                #[trigger] enters(height as int, width as int, p) && (p.dir == Dir::Up || p.dir == Dir::Down) && p.col
                    < j + 1 implies energy(layout, p) <= best by {
                if p.col == j {
                    assert(p == up || p == down);
                }
            }
        }
        j += 1;
    }
    proof {
        assert(enters(layout_height(layout), layout_width(layout), witness) && energy(layout, witness) == best);
    }
    Some(best)
}

/// What a byte of the text puts on a tile.
pub open spec fn kind_of(b: u8) -> TileType {
    if b == 47u8 {
        TileType::MirrorFS
    } else if b == 92u8 {
        TileType::MirrorBS
    } else if b == 45u8 {
        TileType::SplitH
    } else if b == 124u8 {
        TileType::SplitV
    } else {
        TileType::Empty
    }
}

/// What the lines of the text put on the tiles.
pub open spec fn kinds(ls: Seq<Seq<u8>>) -> Seq<Seq<TileType>> {
    Seq::new(ls.len(), |r: int| Seq::new(ls[r].len(), |c: int| kind_of(ls[r][c])))
}

/// All lines are as long as the first.
pub open spec fn is_rect(ls: Seq<Seq<u8>>) -> bool {
    forall|r: int| 0 <= r < ls.len() ==> (#[trigger] ls[r]).len() == ls[0].len()
}

/// Reads a grid: one row of tiles per line, `/` and `\` for mirrors, `-`
/// and `|` for splitters, any other byte for an empty tile. `None` when the
/// lines differ in length.
pub fn parse_input(input: &str) -> (r: Option<Grid>)
    ensures
        r is Some <==> is_rect(lines(input.spec_bytes())),
        r matches Some(grid) ==> grid.wf() && grid.fresh() && grid.layout() == kinds(lines(input.spec_bytes())),
{
    let all = lines_of(input.as_bytes());
    let ghost ls = lines(input.spec_bytes());
    let mut tiles: Vec<Vec<Tile>> = Vec::new();
    let mut r: usize = 0;
    while r < all.len()
        invariant
            r <= all@.len(),
            ls == views(all@),
            ls == lines(input.spec_bytes()),
            tiles@.len() == r,
            forall|i: int| 0 <= i < r ==> (#[trigger] ls[i]).len() == ls[0].len(),
            forall|i: int| 0 <= i < r ==> (#[trigger] tiles@[i])@.len() == ls[i].len(),
            forall|i: int, j: int|
                0 <= i < r && 0 <= j < ls[i].len() ==> (#[trigger] tiles@[i]@[j]) == (Tile {
                    ty: kind_of(ls[i][j]),
                    visited_bitmask: 0,
                }),
        decreases all@.len() - r,
    {
        let line = &all[r];
        assert(ls[r as int] == line@);
        assert(ls[0] == all@[0]@);
        if line.len() != all[0].len() {
            return None;
        }
        let mut row: Vec<Tile> = Vec::new();
        let mut c: usize = 0;
        while c < line.len()
            invariant
                c <= line@.len(),
                row@.len() == c,
                forall|j: int|
                    0 <= j < c ==> (#[trigger] row@[j]) == (Tile { ty: kind_of(line@[j]), visited_bitmask: 0 }),
            decreases line@.len() - c,
        {
            let b: u8 = line[c];
            let ty = if b == 47 {
                TileType::MirrorFS
            } else if b == 92 {
                TileType::MirrorBS
            } else if b == 45 {
                TileType::SplitH
            } else if b == 124 {
                TileType::SplitV
            } else {
                TileType::Empty
            };
            row.push(Tile { ty, visited_bitmask: 0 });
            c += 1;
        }
        tiles.push(row);
        r += 1;
    }
    let grid = Grid { tiles };
    proof {
        if grid.height() > 0 {
            assert(grid.tiles@[0]@.len() == ls[0].len());
        }
        assert forall|i: int| 0 <= i < grid.height() implies (#[trigger] grid.tiles@[i])@.len() == grid.width() by {
            assert(ls[i].len() == ls[0].len());
        }
        assert forall|i: int, j: int| 0 <= i < grid.height() && 0 <= j < grid.width() implies (#[trigger] grid.tile(
            i,
            j,
        )).visited_bitmask == 0 by {
            assert(ls[i].len() == ls[0].len());
            assert(grid.tiles@[i]@[j].visited_bitmask == 0);
        }
        assert(grid.layout() =~= kinds(ls)) by {
            assert forall|i: int| 0 <= i < grid.height() implies #[trigger] grid.layout()[i] =~= kinds(ls)[i] by {
                assert(grid.tiles@[i]@.len() == ls[i].len());
                assert forall|j: int| 0 <= j < ls[i].len() implies grid.layout()[i][j] == kinds(ls)[i][j] by {
                    assert(grid.tiles@[i]@[j].ty == kind_of(ls[i][j]));
                }
            }
        }
    }
    Some(grid)
}

} // verus!
