use vstd::prelude::*;

use crate::util::{Rect, Vec2};

verus! {

/// Side length of the square occupancy grid.
pub const GRID_SIZE: u16 = 64;

/// One cell of the occupancy grid; everything but `Wall` can be walked on.
#[derive(Debug, Clone, Copy, PartialEq, Eq, Structural)]
pub enum Cell {
    Blank,
    Wall,
    Coin,
    DPath,
    APath,
    BothPath,
}

pub open spec fn cell_walkable(c: Cell) -> bool {
    !(c is Wall)
}

impl Cell {
    pub fn walkable(&self) -> (r: bool)
        ensures
            r == cell_walkable(*self),
    {
        match self {
            Cell::Wall => false,
            _ => true,
        }
    }

    /// One printable character per cell, for a textual dump of a grid.
    pub fn as_char(&self) -> (r: char)
        ensures
            *self is Blank ==> r == '.',
            *self is Wall ==> r == 'X',
            *self is Coin ==> r == 'o',
            *self is DPath ==> r == '-',
            *self is APath ==> r == '_',
            *self is BothPath ==> r == '+',
    {
        match self {
            Cell::Blank => '.',
            Cell::Wall => 'X',
            Cell::Coin => 'o',
            Cell::DPath => '-',
            Cell::APath => '_',
            Cell::BothPath => '+',
        }
    }
}

/// The cell of a grid view at column `x`, row `y`; the view is stored
/// row-major, one `Seq` of `GRID_SIZE * GRID_SIZE` cells.
pub open spec fn at(s: Seq<Cell>, x: int, y: int) -> Cell {
    s[y * 64 + x]
}

/// Walkability of the cell at `(x, y)` of a grid view.
pub open spec fn walk_at(s: Seq<Cell>, x: int, y: int) -> bool {
    cell_walkable(at(s, x, y))
}

/// Writing one cell changes `at` exactly at that position.
proof fn lemma_at_update(s: Seq<Cell>, x: int, y: int, c: Cell)
    requires
        s.len() == 4096,
        0 <= x < 64,
        0 <= y < 64,
    ensures
        at(s.update(y * 64 + x, c), x, y) == c,
        forall|x2: int, y2: int|
            0 <= x2 < 64 && 0 <= y2 < 64 && !(x2 == x && y2 == y) ==> #[trigger] at(
                s.update(y * 64 + x, c),
                x2,
                y2,
            ) == at(s, x2, y2),
{
    assert forall|x2: int, y2: int|
        0 <= x2 < 64 && 0 <= y2 < 64 && !(x2 == x && y2 == y) implies #[trigger] at(
        s.update(y * 64 + x, c),
        x2,
        y2,
    ) == at(s, x2, y2) by {
        assert(y2 * 64 + x2 != y * 64 + x);
    }
}

/// `(x, y)` comes strictly before `(x2, y2)` in row-major order.
pub open spec fn row_major_lt(x: int, y: int, x2: int, y2: int) -> bool {
    y < y2 || (y == y2 && x < x2)
}

/// A fixed `GRID_SIZE x GRID_SIZE` occupancy grid, stored row-major.
pub struct Grid {
    data: Vec<Cell>,
}

impl View for Grid {
    type V = Seq<Cell>;

    closed spec fn view(&self) -> Seq<Cell> {
        self.data@
    }
}

impl Grid {
    pub open spec fn wf(&self) -> bool {
        self@.len() == 4096
    }

    fn contains(&self, x: u16, y: u16) -> (r: bool)
        ensures
            r == (x < GRID_SIZE && y < GRID_SIZE),
    {
        x < GRID_SIZE && y < GRID_SIZE
    }

    /// A fresh grid, every cell a `Wall`.
    pub fn new() -> (g: Self)
        ensures
            g.wf(),
            forall|x: int, y: int|
                0 <= x < 64 && 0 <= y < 64 ==> #[trigger] at(g@, x, y) == Cell::Wall,
    {
        let mut data: Vec<Cell> = Vec::new();
        let mut i: usize = 0;
        while i < 4096
            invariant
                i <= 4096,
                data@.len() == i,
                forall|j: int| 0 <= j < i ==> data@[j] == Cell::Wall,
            decreases 4096 - i,
        {
            data.push(Cell::Wall);
            i += 1;
        }
        Grid { data }
    }

    /// Reset every cell to `Wall`.
    pub fn clear(&mut self)
        requires
            old(self).wf(),
        ensures
            final(self).wf(),
            forall|x: int, y: int|
                0 <= x < 64 && 0 <= y < 64 ==> #[trigger] at(final(self)@, x, y) == Cell::Wall,
    {
        let mut i: usize = 0;
        while i < 4096
            invariant
                i <= 4096,
                self@.len() == 4096,
                forall|j: int| 0 <= j < i ==> self@[j] == Cell::Wall,
            decreases 4096 - i,
        {
            self.data[i] = Cell::Wall;
            i += 1;
        }
    }

    pub fn walkable(&self, x: u16, y: u16) -> (r: bool)
        requires
            self.wf(),
            x < GRID_SIZE,
            y < GRID_SIZE,
        ensures
            r == walk_at(self@, x as int, y as int),
    {
        self.data[(y as usize) * 64 + (x as usize)].walkable()
    }

    pub fn size(&self) -> (r: (u16, u16))
        ensures
            r.0 == GRID_SIZE,
            r.1 == GRID_SIZE,
    {
        (GRID_SIZE, GRID_SIZE)
    }

    pub fn get(&self, x: u16, y: u16) -> (r: &Cell)
        requires
            self.wf(),
            x < GRID_SIZE,
            y < GRID_SIZE,
        ensures
            *r == at(self@, x as int, y as int),
    {
        &self.data[(y as usize) * 64 + (x as usize)]
    }

    pub fn put(&mut self, c: Cell, x: u16, y: u16)
        requires
            old(self).wf(),
            x < GRID_SIZE,
            y < GRID_SIZE,
        ensures
            final(self).wf(),
            at(final(self)@, x as int, y as int) == c,
            forall|x2: int, y2: int|
                0 <= x2 < 64 && 0 <= y2 < 64 && !(x2 == x as int && y2 == y as int)
                    ==> #[trigger] at(final(self)@, x2, y2) == at(old(self)@, x2, y2),
    {
        self.data[(y as usize) * 64 + (x as usize)] = c;
    }

    /// Fill the vertical segment at column `x` between rows `y` and `yy`
    /// (in either order, both ends included) with `cell`.
    pub fn put_vert_line(&mut self, x: u16, y: u16, yy: u16, cell: Cell)
        requires
            old(self).wf(),
            x < GRID_SIZE,
            y < GRID_SIZE,
            yy < GRID_SIZE,
        ensures
            final(self).wf(),
            forall|x2: int, y2: int|
                0 <= x2 < 64 && 0 <= y2 < 64
                    ==> #[trigger] at(final(self)@, x2, y2) == if x2 == x as int && min_int(
                    y as int,
                    yy as int,
                ) <= y2 <= max_int2(y as int, yy as int) {
                    cell
                } else {
                    at(old(self)@, x2, y2)
                },
    {
        let lo = if y < yy { y } else { yy };
        let hi = if y < yy { yy } else { y };
        let mut j: u16 = lo;
        while j <= hi
            invariant
                self@.len() == 4096,
                lo <= j <= hi + 1,
                hi < 64,
                x < 64,
                forall|x2: int, y2: int|
                    0 <= x2 < 64 && 0 <= y2 < 64
                        ==> #[trigger] at(self@, x2, y2) == if x2 == x as int && lo as int <= y2
                        < j as int {
                        cell
                    } else {
                        at(old(self)@, x2, y2)
                    },
            decreases hi + 1 - j,
        {
            let ghost prev = self@;
            self.data[(j as usize) * 64 + (x as usize)] = cell;
            proof {
                lemma_at_update(prev, x as int, j as int, cell);
            }
            j += 1;
        }
    }

    /// Fill the horizontal segment at row `y` between columns `x` and `xx`
    /// (in either order, both ends included) with `cell`.
    pub fn put_hor_line(&mut self, x: u16, y: u16, xx: u16, cell: Cell)
        requires
            old(self).wf(),
            x < GRID_SIZE,
            y < GRID_SIZE,
            xx < GRID_SIZE,
        ensures
            final(self).wf(),
            forall|x2: int, y2: int|
                0 <= x2 < 64 && 0 <= y2 < 64
                    ==> #[trigger] at(final(self)@, x2, y2) == if y2 == y as int && min_int(
                    x as int,
                    xx as int,
                ) <= x2 <= max_int2(x as int, xx as int) {
                    cell
                } else {
                    at(old(self)@, x2, y2)
                },
    {
        let lo = if x < xx { x } else { xx };
        let hi = if x < xx { xx } else { x };
        let mut i: u16 = lo;
        while i <= hi
            invariant
                self@.len() == 4096,
                lo <= i <= hi + 1,
                hi < 64,
                y < 64,
                forall|x2: int, y2: int|
                    0 <= x2 < 64 && 0 <= y2 < 64
                        ==> #[trigger] at(self@, x2, y2) == if y2 == y as int && lo as int <= x2
                        < i as int {
                        cell
                    } else {
                        at(old(self)@, x2, y2)
                    },
            decreases hi + 1 - i,
        {
            let ghost prev = self@;
            self.data[(y as usize) * 64 + (i as usize)] = cell;
            proof {
                lemma_at_update(prev, i as int, y as int, cell);
            }
            i += 1;
        }
    }

    /// Carve a room: every cell of `r`, both edges included, becomes `Blank`.
    pub fn put_box(&mut self, r: &Rect)
        requires
            old(self).wf(),
            r.wf(),
            r.right < GRID_SIZE,
            r.bottom < GRID_SIZE,
        ensures
            final(self).wf(),
            forall|x2: int, y2: int|
                0 <= x2 < 64 && 0 <= y2 < 64
                    ==> #[trigger] at(final(self)@, x2, y2) == if r.left <= x2 <= r.right
                    && r.top <= y2 <= r.bottom {
                    Cell::Blank
                } else {
                    at(old(self)@, x2, y2)
                },
    {
        let mut j: u16 = r.top;
        while j <= r.bottom
            invariant
                self@.len() == 4096,
                r.top <= j <= r.bottom + 1,
                r.wf(),
                r.right < 64,
                r.bottom < 64,
                forall|x2: int, y2: int|
                    0 <= x2 < 64 && 0 <= y2 < 64
                        ==> #[trigger] at(self@, x2, y2) == if r.left <= x2 <= r.right
                        && r.top <= y2 < j as int {
                        Cell::Blank
                    } else {
                        at(old(self)@, x2, y2)
                    },
            decreases r.bottom + 1 - j,
        {
            let mut i: u16 = r.left;
            while i <= r.right
                invariant
                    self@.len() == 4096,
                    r.top <= j <= r.bottom,
                    r.left <= i <= r.right + 1,
                    r.wf(),
                    r.right < 64,
                    r.bottom < 64,
                    forall|x2: int, y2: int|
                        0 <= x2 < 64 && 0 <= y2 < 64
                            ==> #[trigger] at(self@, x2, y2) == if r.left <= x2 <= r.right
                            && r.top <= y2 < j as int || y2 == j as int && r.left <= x2
                            < i as int {
                            Cell::Blank
                        } else {
                            at(old(self)@, x2, y2)
                        },
                decreases r.right + 1 - i,
            {
                let ghost prev = self@;
                self.data[(j as usize) * 64 + (i as usize)] = Cell::Blank;
                proof {
                    lemma_at_update(prev, i as int, j as int, Cell::Blank);
                }
                i += 1;
            }
            j += 1;
        }
    }

    /// The first walkable cell in row-major order, if any.
    pub fn first(&self) -> (r: Option<Vec2>)
        requires
            self.wf(),
        ensures
            match r {
                Some(v) => v.x < 64 && v.y < 64 && walk_at(self@, v.x as int, v.y as int)
                    && forall|x2: int, y2: int|
                    0 <= x2 < 64 && 0 <= y2 < 64 && row_major_lt(x2, y2, v.x as int, v.y as int)
                        ==> !#[trigger] walk_at(self@, x2, y2),
                None => forall|x2: int, y2: int|
                    0 <= x2 < 64 && 0 <= y2 < 64 ==> !#[trigger] walk_at(self@, x2, y2),
            },
    {
        let mut y: u16 = 0;
        while y < GRID_SIZE
            invariant
                self.wf(),
                y <= 64,
                forall|x2: int, y2: int|
                    0 <= x2 < 64 && 0 <= y2 < y as int ==> !#[trigger] walk_at(self@, x2, y2),
            decreases 64 - y,
        {
            let mut x: u16 = 0;
            while x < GRID_SIZE
                invariant
                    self.wf(),
                    y < 64,
                    x <= 64,
                    forall|x2: int, y2: int|
                        0 <= x2 < 64 && 0 <= y2 < y as int ==> !#[trigger] walk_at(self@, x2, y2),
                    forall|x2: int| 0 <= x2 < x as int ==> !#[trigger] walk_at(self@, x2, y as int),
                decreases 64 - x,
            {
                if self.walkable(x, y) {
                    return Some(Vec2 { x, y });
                }
                x += 1;
            }
            y += 1;
        }
        None
    }

    /// The last walkable cell in row-major order, if any.
    pub fn last(&self) -> (r: Option<Vec2>)
        requires
            self.wf(),
        ensures
            match r {
                Some(v) => v.x < 64 && v.y < 64 && walk_at(self@, v.x as int, v.y as int)
                    && forall|x2: int, y2: int|
                    0 <= x2 < 64 && 0 <= y2 < 64 && row_major_lt(v.x as int, v.y as int, x2, y2)
                        ==> !#[trigger] walk_at(self@, x2, y2),
                None => forall|x2: int, y2: int|
                    0 <= x2 < 64 && 0 <= y2 < 64 ==> !#[trigger] walk_at(self@, x2, y2),
            },
    {
        let mut y: u16 = GRID_SIZE;
        while y > 0
            invariant
                self.wf(),
                y <= 64,
                forall|x2: int, y2: int|
                    0 <= x2 < 64 && (y as int) <= y2 < 64 ==> !#[trigger] walk_at(self@, x2, y2),
            decreases y,
        {
            y -= 1;
            let mut x: u16 = GRID_SIZE;
            while x > 0
                invariant
                    self.wf(),
                    y < 64,
                    x <= 64,
                    forall|x2: int, y2: int|
                        0 <= x2 < 64 && (y as int) < y2 < 64 ==> !#[trigger] walk_at(self@, x2, y2),
                    forall|x2: int|
                        (x as int) <= x2 < 64 ==> !#[trigger] walk_at(self@, x2, y as int),
                decreases x,
            {
                x -= 1;
                if self.walkable(x, y) {
                    return Some(Vec2 { x, y });
                }
            }
        }
        None
    }
}

pub open spec fn min_int(a: int, b: int) -> int {
    if a <= b { a } else { b }
}

pub open spec fn max_int2(a: int, b: int) -> int {
    if a >= b { a } else { b }
}

/// Carve an L-shaped corridor of `Blank` cells between the centers of two
/// rooms: first horizontally at `p`'s center row, then vertically at `q`'s
/// center column.
pub fn connect_rooms(grid: &mut Grid, p: &Rect, q: &Rect)
    requires
        old(grid).wf(),
        p.left + p.right < 128,
        p.top + p.bottom < 128,
        q.left + q.right < 128,
        q.top + q.bottom < 128,
    ensures
        final(grid).wf(),
        forall|x2: int, y2: int|
            0 <= x2 < 64 && 0 <= y2 < 64 ==> #[trigger] at(final(grid)@, x2, y2) == {
                let px = (p.left + p.right) as int / 2;
                let py = (p.top + p.bottom) as int / 2;
                let qx = (q.left + q.right) as int / 2;
                let qy = (q.top + q.bottom) as int / 2;
                if x2 == qx && min_int(qy, py) <= y2 <= max_int2(qy, py) {
                    Cell::Blank
                } else if y2 == py && min_int(px, qx) <= x2 <= max_int2(px, qx) {
                    Cell::Blank
                } else {
                    at(old(grid)@, x2, y2)
                }
            },
{
    let (px, py) = p.center();
    let (qx, qy) = q.center();
    grid.put_hor_line(px, py, qx, Cell::Blank);
    grid.put_vert_line(qx, qy, py, Cell::Blank);
}

} // verus!
