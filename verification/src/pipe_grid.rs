//! The pipe maze grid: a rectangular store of connector symbols with
//! bounds-checked access by coordinate.

use vstd::prelude::*;
use crate::pipe_route::Direction;

verus! {

/// A grid coordinate: `x` is the column, `y` the row, both counted from zero.
#[derive(Debug, Clone, Copy, PartialEq, Eq, Hash, Structural)]
pub struct Point {
    pub x: usize,
    pub y: usize,
}

impl From<(usize, usize)> for Point {
    fn from(pair: (usize, usize)) -> (p: Point) {
        Point { x: pair.0, y: pair.1 }
    }
}

impl vstd::std_specs::convert::FromSpecImpl<(usize, usize)> for Point {
    open spec fn obeys_from_spec() -> bool {
        true
    }

    open spec fn from_spec(pair: (usize, usize)) -> Point {
        Point { x: pair.0, y: pair.1 }
    }
}

/// What can go wrong between reading a maze and counting its enclosed cells.
#[derive(Debug, Clone, Copy, PartialEq, Eq, Structural)]
pub enum PipeError {
    /// The grid has no rows or no columns.
    EmptyGrid,
    /// The rows of the grid differ in length.
    RaggedRows,
    /// The start cell does not have exactly two neighbours that connect to it.
    MalformedStart,
    /// The walk reached a cell that does not route it onwards inside the grid.
    BrokenConnection,
    /// The walk used up its step allowance before closing the loop.
    TraceOverrun,
}

/// The cell that lies one step from `p` towards `d`, when its coordinates are
/// representable.
pub open spec fn shift(p: Point, d: Direction) -> Option<Point> {
    match d {
        Direction::N => if p.y > 0 {
            Some(Point { x: p.x, y: (p.y - 1) as usize })
        } else {
            None
        },
        Direction::S => if p.y < usize::MAX {
            Some(Point { x: p.x, y: (p.y + 1) as usize })
        } else {
            None
        },
        Direction::E => if p.x < usize::MAX {
            Some(Point { x: (p.x + 1) as usize, y: p.y })
        } else {
            None
        },
        Direction::W => if p.x > 0 {
            Some(Point { x: (p.x - 1) as usize, y: p.y })
        } else {
            None
        },
    }
}

/// The direction in which `adjacent` lies as seen from `origin`, when the two
/// are orthogonal neighbours.
pub open spec fn direction_to(origin: Point, adjacent: Point) -> Option<Direction> {
    if adjacent.x == origin.x && adjacent.y == origin.y + 1 {
        Some(Direction::S)
    } else if adjacent.x == origin.x && adjacent.y + 1 == origin.y {
        Some(Direction::N)
    } else if adjacent.x == origin.x + 1 && adjacent.y == origin.y {
        Some(Direction::E)
    } else if adjacent.x + 1 == origin.x && adjacent.y == origin.y {
        Some(Direction::W)
    } else {
        None
    }
}

/// Whether every row has the length of the first one.
pub open spec fn rectangular(rows: Seq<Seq<char>>) -> bool {
    forall|y: int| 0 <= y < rows.len() ==> (#[trigger] rows[y]).len() == rows[0].len()
}

/// The views of the rows of a nested vector.
pub open spec fn rows_view(rows: Seq<Vec<char>>) -> Seq<Seq<char>> {
    Seq::new(rows.len(), |y: int| rows[y]@)
}

/// A rectangular grid of symbols together with the coordinate of its start
/// cell.
#[derive(Clone)]
pub struct Grid {
    pub start: Point,
    pub grid: Vec<Vec<char>>,
}

impl Grid {
    /// The symbols of the grid, row by row.
    pub open spec fn rows(&self) -> Seq<Seq<char>> {
        rows_view(self.grid@)
    }

    /// The coordinate of the start cell.
    pub open spec fn origin(&self) -> Point {
        self.start
    }

    /// Number of rows.
    pub open spec fn spec_height(&self) -> nat {
        self.rows().len()
    }

    /// Number of columns.
    pub open spec fn spec_width(&self) -> nat {
        if self.rows().len() > 0 {
            self.rows()[0].len()
        } else {
            0
        }
    }

    /// The symbol at `p`, or `None` when `p` lies outside the grid.
    pub open spec fn cell(&self, p: Point) -> Option<char> {
        if p.y < self.rows().len() && p.x < self.rows()[p.y as int].len() {
            Some(self.rows()[p.y as int][p.x as int])
        } else {
            None
        }
    }

    /// Whether `p` lies inside the grid.
    pub open spec fn contains(&self, p: Point) -> bool {
        self.cell(p) is Some
    }

    /// The grid has at least one row and one column, all rows are equally
    /// long, and the start coordinate lies inside.
    pub open spec fn wf(&self) -> bool {
        &&& self.rows().len() > 0
        &&& self.rows()[0].len() > 0
        &&& rectangular(self.rows())
        &&& self.contains(self.origin())
    }

    /// The neighbour of `origin` towards `d`, when it lies inside the grid.
    pub open spec fn neighbor(&self, origin: Point, d: Direction) -> Option<Point> {
        match shift(origin, d) {
            Some(p) => if self.contains(p) {
                Some(p)
            } else {
                None
            },
            None => None,
        }
    }

    /// In a well-formed grid a coordinate is inside exactly when it is within
    /// the width and the height.
    pub proof fn lemma_contains(&self, p: Point)
        requires
            self.wf(),
        ensures
            self.contains(p) <==> (p.x < self.spec_width() && p.y < self.spec_height()),
    {
    }

    /// Builds a grid from its rows. The start is the last cell in reading
    /// order that holds `'S'`, or the origin when there is none.
    pub fn new(rows: Vec<Vec<char>>) -> (r: Result<Grid, PipeError>)
        ensures
            match r {
                Ok(g) => {
                    &&& g.wf()
                    &&& g.rows() == rows_view(rows@)
                    &&& g.origin() == last_start(g.rows())
                },
                Err(e) => {
                    &&& e == PipeError::EmptyGrid || e == PipeError::RaggedRows
                    &&& e == PipeError::EmptyGrid <==> (rows.len() == 0 || rows[0].len() == 0)
                    &&& e == PipeError::RaggedRows ==> !rectangular(rows_view(rows@))
                },
            },
            r is Ok <==> (rows.len() > 0 && rows[0].len() > 0 && rectangular(rows_view(rows@))),
    {
        if rows.len() == 0 || rows[0].len() == 0 {
            return Err(PipeError::EmptyGrid);
        }
        let width = rows[0].len();
        let mut start = Point { x: 0, y: 0 };
        let ghost view = rows_view(rows@);
        let mut y: usize = 0;
        while y < rows.len()
            invariant
                y <= rows.len(),
                rows.len() > 0,
                width == rows[0].len(),
                width > 0,
                view == rows_view(rows@),
                forall|k: int| 0 <= k < y ==> (#[trigger] view[k]).len() == width,
                start == last_start(view.take(y as int)),
                start.x < width,
                start.y < rows.len(),
            decreases rows.len() - y,
        {
            if rows[y].len() != width {
                assert(view[y as int].len() != view[0].len());
                return Err(PipeError::RaggedRows);
            }
            let ghost before = start;
            let mut x: usize = 0;
            while x < width
                invariant
                    x <= width,
                    y < rows.len(),
                    rows[y as int].len() == width,
                    view == rows_view(rows@),
                    start == last_start_in_row(view[y as int].take(x as int), y as int, before),
                    start.x < width,
                    start.y < rows.len(),
                decreases width - x,
            {
                proof {
                    let row = view[y as int];
                    assert(row.take(x + 1).drop_last() =~= row.take(x as int));
                }
                if rows[y][x] == 'S' {
                    start = Point { x, y };
                }
                x += 1;
            }
            proof {
                assert(view[y as int].take(width as int) =~= view[y as int]);
                assert(view.take(y + 1).drop_last() =~= view.take(y as int));
            }
            y += 1;
        }
        proof {
            assert(view.take(rows.len() as int) =~= view);
        }
        let g = Grid { start, grid: rows };
        Ok(g)
    }

    /// Puts a grid together from rows that are known to be well formed.
    pub(crate) fn assemble(start: Point, rows: Vec<Vec<char>>) -> (g: Grid)
        requires
            rows.len() > 0,
            rows[0].len() > 0,
            rectangular(rows_view(rows@)),
            start.y < rows.len(),
            start.x < rows[0].len(),
        ensures
            g.wf(),
            g.rows() == rows_view(rows@),
            g.origin() == start,
    {
        assert(rows_view(rows@)[start.y as int].len() == rows_view(rows@)[0].len());
        Grid { start, grid: rows }
    }

    /// Number of columns.
    pub fn width(&self) -> (w: usize)
        requires
            self.wf(),
        ensures
            w == self.spec_width(),
            w > 0,
    {
        self.grid[0].len()
    }

    /// Number of rows.
    pub fn height(&self) -> (h: usize)
        requires
            self.wf(),
        ensures
            h == self.spec_height(),
            h > 0,
    {
        self.grid.len()
    }

    /// Number of cells.
    pub fn size(&self) -> (n: usize)
        requires
            self.wf(),
            self.spec_width() * self.spec_height() <= usize::MAX,
        ensures
            n == self.spec_width() * self.spec_height(),
    {
        self.width() * self.height()
    }

    /// The symbol at column `x` of row `y`, or `None` outside the grid.
    pub fn get(&self, x: usize, y: usize) -> (r: Option<char>)
        ensures
            r == self.cell(Point { x, y }),
    {
        if y < self.grid.len() {
            if x < self.grid[y].len() {
                return Some(self.grid[y][x]);
            }
        }
        None
    }

    /// A mutable reference to the symbol at column `x` of row `y`, or `None`
    /// outside the grid. Writing through it changes that one cell.
    pub fn get_mut(&mut self, x: usize, y: usize) -> (r: Option<&mut char>)
        ensures
            match r {
                Some(c) => {
                    &&& old(self).cell(Point { x, y }) == Some(*c)
                    &&& final(self).rows() == old(self).rows().update(
                        y as int,
                        old(self).rows()[y as int].update(x as int, *final(c)),
                    )
                    &&& final(self).origin() == old(self).origin()
                },
                None => old(self).cell(Point { x, y }) is None && *final(self) == *old(self),
            },
    {
        if y < self.grid.len() {
            if x < self.grid[y].len() {
                let row = &mut self.grid[y];
                let c = &mut row[x];
                return Some(c);
            }
        }
        None
    }

    /// The coordinate of the start cell.
    pub fn start_point(&self) -> (p: Point)
        ensures
            p == self.origin(),
    {
        self.start
    }

    /// The direction in which `adjacent` lies as seen from `origin`, or
    /// `None` when the two cells are not orthogonal neighbours.
    pub fn rel_direction(&self, origin: Point, adjacent: Point) -> (r: Option<Direction>)
        ensures
            r == direction_to(origin, adjacent),
    {
        if adjacent.x == origin.x {
            if origin.y < usize::MAX && adjacent.y == origin.y + 1 {
                Some(Direction::S)
            } else if adjacent.y < usize::MAX && adjacent.y + 1 == origin.y {
                Some(Direction::N)
            } else {
                None
            }
        } else if adjacent.y == origin.y {
            if origin.x < usize::MAX && adjacent.x == origin.x + 1 {
                Some(Direction::E)
            } else if adjacent.x < usize::MAX && adjacent.x + 1 == origin.x {
                Some(Direction::W)
            } else {
                None
            }
        } else {
            None
        }
    }

    /// The neighbour of `origin` towards `direction`, or `None` when that
    /// would leave the grid.
    pub fn rel_pt(&self, origin: Point, direction: Direction) -> (r: Option<Point>)
        ensures
            r == self.neighbor(origin, direction),
    {
        let pt = match direction {
            Direction::N => if origin.y > 0 {
                Some(Point { x: origin.x, y: origin.y - 1 })
            } else {
                None
            },
            Direction::S => if origin.y < usize::MAX {
                Some(Point { x: origin.x, y: origin.y + 1 })
            } else {
                None
            },
            Direction::E => if origin.x < usize::MAX {
                Some(Point { x: origin.x + 1, y: origin.y })
            } else {
                None
            },
            Direction::W => if origin.x > 0 {
                Some(Point { x: origin.x - 1, y: origin.y })
            } else {
                None
            },
        };
        match pt {
            Some(p) => if self.get(p.x, p.y).is_some() {
                Some(p)
            } else {
                None
            },
            None => None,
        }
    }
}

/// The start found in one row: the last `'S'` of the row, or `before` when
/// the row has none.
pub open spec fn last_start_in_row(row: Seq<char>, y: int, before: Point) -> Point
    decreases row.len(),
{
    if row.len() == 0 {
        before
    } else if row.last() == 'S' {
        Point { x: (row.len() - 1) as usize, y: y as usize }
    } else {
        last_start_in_row(row.drop_last(), y, before)
    }
}

/// The last cell in reading order that holds `'S'`, or the origin when no
/// cell does.
pub open spec fn last_start(rows: Seq<Seq<char>>) -> Point
    decreases rows.len(),
{
    if rows.len() == 0 {
        Point { x: 0, y: 0 }
    } else {
        last_start_in_row(rows.last(), rows.len() - 1, last_start(rows.drop_last()))
    }
}

} // verus!
