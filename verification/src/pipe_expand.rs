//! The threefold enlargement of the maze, in which every loop cell is drawn
//! with its connecting strokes, so that loop cells which only touch by a
//! corner come apart.

use vstd::prelude::*;
use std::collections::HashSet;
use crate::pipe_grid::{Grid, Point};
use crate::pipe_route::{has_opening, opens, Direction};

verus! {

broadcast use vstd::std_specs::hash::group_hash_axioms;

/// The direction of the stroke drawn at offset (`dx`, `dy`) inside a block of
/// three by three cells: the middle of each side has one, the centre and the
/// corners have none.
pub open spec fn stroke_towards(dx: int, dy: int) -> Option<Direction> {
    if dx == 1 && dy == 0 {
        Some(Direction::N)
    } else if dx == 1 && dy == 2 {
        Some(Direction::S)
    } else if dx == 0 && dy == 1 {
        Some(Direction::W)
    } else if dx == 2 && dy == 1 {
        Some(Direction::E)
    } else {
        None
    }
}

/// The symbol of a stroke towards `d`: upright for north and south, level for
/// east and west.
pub open spec fn stroke_symbol(d: Direction) -> char {
    match d {
        Direction::N | Direction::S => '|',
        Direction::E | Direction::W => '-',
    }
}

/// Whether the cell (`x`, `y`) is one of `members`.
pub open spec fn member_at(members: Set<Point>, x: int, y: int) -> bool {
    members.contains(Point { x: x as usize, y: y as usize })
}

/// Whether `cells` holds, of the cells of a grid of the given size, the
/// numbers of those in `members`, the cells counted row by row.
pub open spec fn numbers_of(cells: Set<usize>, members: Set<Point>, width: int, height: int) -> bool {
    forall|x: int, y: int|
        0 <= y < height && 0 <= x < width ==> #[trigger] member_at(members, x, y) == cells.contains(
            (y * width + x) as usize,
        )
}

/// The mask of the given size that marks the positions whose numbers are in
/// `cells`. The position (`x`, `y`) has the number `y * width + x`.
pub open spec fn marks(cells: Set<usize>, width: int, height: int) -> Seq<Seq<bool>> {
    Seq::new(
        height as nat,
        |y: int| Seq::new(width as nat, |x: int| cells.contains((y * width + x) as usize)),
    )
}

/// The number of a position is below the number of positions.
pub proof fn lemma_position_number(width: int, height: int, x: int, y: int)
    requires
        0 <= x < width,
        0 <= y < height,
    ensures
        0 <= y * width + x < width * height,
{
    assert(y * width + width <= height * width) by (nonlinear_arith)
        requires
            0 <= y < height,
            0 < width,
    ;
    assert(0 <= y * width) by (nonlinear_arith)
        requires
            0 <= y,
            0 < width,
    ;
    assert(height * width == width * height) by (nonlinear_arith);
}

/// Two positions of a row-by-row count with the same number are the same.
pub proof fn lemma_position_numbers_differ(width: int, a: int, b: int, x: int, y: int)
    requires
        0 <= a < width,
        0 <= x < width,
        b * width + a == y * width + x,
    ensures
        a == x,
        b == y,
{
    assert(b == y) by (nonlinear_arith)
        requires
            0 <= a < width,
            0 <= x < width,
            b * width + a == y * width + x,
    ;
}

impl Grid {
    /// Whether the loop cell `p` has an edge towards `d`. The start cell has
    /// the edges towards the neighbours that connect to it; every other cell
    /// has those of its shape.
    pub open spec fn has_edge(&self, p: Point, d: Direction) -> bool {
        if p == self.origin() {
            self.accepts(p, d)
        } else {
            match self.cell(p) {
                Some(symbol) => opens(symbol, d),
                None => false,
            }
        }
    }

    /// Whether the cell (`ex`, `ey`) of the enlarged grid belongs to the
    /// enlarged loop: it is the centre of the block of a loop cell, or the
    /// stroke of one of that cell's edges.
    pub open spec fn on_expanded_loop(&self, members: Set<Point>, ex: int, ey: int) -> bool {
        let p = Point { x: (ex / 3) as usize, y: (ey / 3) as usize };
        &&& 0 <= ex
        &&& 0 <= ey
        &&& members.contains(p)
        &&& self.contains(p)
        &&& if ex % 3 == 1 && ey % 3 == 1 {
            true
        } else {
            match stroke_towards(ex % 3, ey % 3) {
                Some(d) => self.has_edge(p, d),
                None => false,
            }
        }
    }

    /// The symbol at (`ex`, `ey`) of the enlarged grid. The centre of the
    /// block of a loop cell holds the cell's own symbol, or `'S'` for the
    /// start cell; the strokes of its edges hold `'|'` or `'-'`; everything
    /// else is empty ground.
    pub open spec fn expanded_symbol(&self, members: Set<Point>, ex: int, ey: int) -> char {
        let p = Point { x: (ex / 3) as usize, y: (ey / 3) as usize };
        if !self.on_expanded_loop(members, ex, ey) {
            '.'
        } else if ex % 3 == 1 && ey % 3 == 1 {
            if p == self.origin() {
                'S'
            } else {
                self.cell(p)->0
            }
        } else {
            stroke_symbol(stroke_towards(ex % 3, ey % 3)->0)
        }
    }

    /// The numbers of the cells of the grid that occur in `path`, the cells
    /// counted row by row.
    pub fn loop_set(&self, path: &Vec<Point>) -> (cells: HashSet<usize>)
        requires
            self.wf(),
            self.spec_width() * self.spec_height() <= usize::MAX,
        ensures
            numbers_of(
                cells@,
                path@.to_set(),
                self.spec_width() as int,
                self.spec_height() as int,
            ),
            forall|k: usize| #[trigger]
                cells@.contains(k) ==> k < self.spec_width() * self.spec_height(),
    {
        let width = self.width();
        let height = self.height();
        let mut cells: HashSet<usize> = HashSet::new();
        let mut i: usize = 0;
        while i < path.len()
            invariant
                i <= path.len(),
                width * height <= usize::MAX,
                numbers_of(cells@, path@.take(i as int).to_set(), width as int, height as int),
                forall|k: usize| #[trigger] cells@.contains(k) ==> k < width * height,
            decreases path.len() - i,
        {
            let p = path[i];
            let ghost before = cells@;
            let ghost seen = path@.take(i as int);
            let ghost more = path@.take(i + 1);
            if p.y < height && p.x < width {
                proof {
                    lemma_position_number(width as int, height as int, p.x as int, p.y as int);
                }
                cells.insert(p.y * width + p.x);
            }
            proof {
                assert(more =~= seen.push(p));
                assert forall|x: int, y: int| 0 <= y < height && 0 <= x < width implies
                    #[trigger] member_at(more.to_set(), x, y) == cells@.contains(
                    (y * width + x) as usize,
                ) by {
                    let q = Point { x: x as usize, y: y as usize };
                    lemma_position_number(width as int, height as int, x, y);
                    assert(member_at(seen.to_set(), x, y) == before.contains(
                        (y * width + x) as usize,
                    ));
                    if p.y < height && p.x < width && y * width + x == p.y * width + p.x {
                        lemma_position_numbers_differ(width as int, x, y, p.x as int, p.y as int);
                    }
                    if seen.contains(q) {
                        let k = choose|k: int| 0 <= k < seen.len() && seen[k] == q;
                        assert(more[k] == q);
                    }
                    if q == p {
                        assert(more[i as int] == q);
                    }
                    if more.contains(q) && q != p {
                        let k = choose|k: int| 0 <= k < more.len() && more[k] == q;
                        assert(seen[k] == q);
                    }
                }
            }
            i += 1;
        }
        assert(path@.take(path.len() as int) =~= path@);
        cells
    }

    /// Whether the loop cell `p` has an edge towards `d`.
    fn edge(&self, p: Point, d: Direction) -> (r: bool)
        requires
            self.contains(p),
        ensures
            r == self.has_edge(p, d),
    {
        let start = self.start_point();
        if p.x == start.x && p.y == start.y {
            match self.rel_pt(p, d) {
                Some(q) => match self.get(q.x, q.y) {
                    Some(symbol) => has_opening(symbol, d.opposite()),
                    None => false,
                },
                None => false,
            }
        } else {
            match self.get(p.x, p.y) {
                Some(symbol) => has_opening(symbol, d),
                None => false,
            }
        }
    }

    /// The symbol at (`ex`, `ey`) of the enlarged grid, given the numbers
    /// of the loop cells, and whether the position is on the enlarged loop.
    fn symbol_at(&self, cells: &HashSet<usize>, members: Ghost<Set<Point>>, ex: usize, ey: usize) -> (r:
        (char, bool))
        requires
            self.wf(),
            self.spec_width() * self.spec_height() <= usize::MAX,
            numbers_of(cells@, members@, self.spec_width() as int, self.spec_height() as int),
            ex < 3 * self.spec_width(),
            ey < 3 * self.spec_height(),
        ensures
            r.0 == self.expanded_symbol(members@, ex as int, ey as int),
            r.1 == self.on_expanded_loop(members@, ex as int, ey as int),
    {
        let x = ex / 3;
        let y = ey / 3;
        let dx = ex % 3;
        let dy = ey % 3;
        let p = Point { x, y };
        let width = self.width();
        proof {
            self.lemma_contains(p);
            lemma_position_number(
                self.spec_width() as int,
                self.spec_height() as int,
                x as int,
                y as int,
            );
            assert(member_at(members@, x as int, y as int) == cells@.contains(
                (y * width + x) as usize,
            ));
        }
        if !cells.contains(&(y * width + x)) {
            return ('.', false);
        }
        let start = self.start_point();
        if dx == 1 && dy == 1 {
            if x == start.x && y == start.y {
                ('S', true)
            } else {
                match self.get(x, y) {
                    Some(symbol) => (symbol, true),
                    None => ('.', true),
                }
            }
        } else if dx == 1 && dy == 0 {
            if self.edge(p, Direction::N) {
                ('|', true)
            } else {
                ('.', false)
            }
        } else if dx == 1 && dy == 2 {
            if self.edge(p, Direction::S) {
                ('|', true)
            } else {
                ('.', false)
            }
        } else if dx == 0 && dy == 1 {
            if self.edge(p, Direction::W) {
                ('-', true)
            } else {
                ('.', false)
            }
        } else if dx == 2 && dy == 1 {
            if self.edge(p, Direction::E) {
                ('-', true)
            } else {
                ('.', false)
            }
        } else {
            ('.', false)
        }
    }

    /// The enlarged loop as a mask: one entry for each cell of the enlarged
    /// grid, `true` where the cell belongs to the enlarged loop.
    pub open spec fn expanded_loop(&self, members: Set<Point>) -> Seq<Seq<bool>> {
        Seq::new(
            3 * self.spec_height(),
            |ey: int| Seq::new(3 * self.spec_width(), |ex: int| self.on_expanded_loop(members, ex, ey)),
        )
    }

    /// Whether `big` is the enlargement of this grid for the loop cells
    /// `members`: three times as wide and as high, with the start at the
    /// centre of the start cell's block and every cell holding its enlarged
    /// symbol.
    pub open spec fn expands_to(&self, members: Set<Point>, big: Grid) -> bool {
        &&& big.wf()
        &&& big.spec_width() == 3 * self.spec_width()
        &&& big.spec_height() == 3 * self.spec_height()
        &&& big.origin() == Point {
            x: (3 * self.origin().x + 1) as usize,
            y: (3 * self.origin().y + 1) as usize,
        }
        &&& forall|ex: int, ey: int|
            0 <= ex < 3 * self.spec_width() && 0 <= ey < 3 * self.spec_height() ==> #[trigger] big.cell(
                Point { x: ex as usize, y: ey as usize },
            ) == Some(self.expanded_symbol(members, ex, ey))
    }

    /// Builds the enlarged grid and, in the same pass, the set of the
    /// positions of the enlarged loop. The positions of the enlarged grid
    /// are numbered row by row.
    pub fn expand_with_loop(&self, path: &Vec<Point>) -> (r: (Grid, HashSet<usize>))
        requires
            self.wf(),
            9 * self.spec_width() * self.spec_height() <= usize::MAX,
        ensures
            self.expands_to(path@.to_set(), r.0),
            marks(r.1@, 3 * self.spec_width() as int, 3 * self.spec_height() as int)
                == self.expanded_loop(
                path@.to_set(),
            ),
            forall|k: usize| #[trigger]
                r.1@.contains(k) ==> k < 9 * self.spec_width() * self.spec_height(),
    {
        let ghost members = path@.to_set();
        let width = self.width();
        let height = self.height();
        proof {
            assert(3 * width <= usize::MAX && 3 * height <= usize::MAX && (3 * width) * (3 * height)
                == 9 * width * height && width * height <= usize::MAX) by (nonlinear_arith)
                requires
                    9 * width * height <= usize::MAX,
                    width > 0,
                    height > 0,
            ;
        }
        let cells = self.loop_set(path);
        let big_width = 3 * width;
        let big_height = 3 * height;
        let mut rows: Vec<Vec<char>> = Vec::new();
        let mut drawn: HashSet<usize> = HashSet::new();
        let mut ey: usize = 0;
        while ey < big_height
            invariant
                self.wf(),
                width == self.spec_width(),
                height == self.spec_height(),
                big_width == 3 * width,
                big_height == 3 * height,
                members == path@.to_set(),
                width * height <= usize::MAX,
                numbers_of(cells@, members, width as int, height as int),
                ey <= big_height,
                rows.len() == ey,
                big_width * big_height <= usize::MAX,
                forall|n: usize| #[trigger] drawn@.contains(n) ==> n < ey * big_width,
                forall|k: int| 0 <= k < ey ==> (#[trigger] rows[k]).len() == big_width,
                forall|x: int, k: int|
                    0 <= k < ey && 0 <= x < big_width ==> #[trigger] rows[k][x]
                        == self.expanded_symbol(members, x, k),
                forall|x: int, k: int|
                    0 <= k < ey && 0 <= x < big_width ==> #[trigger] self.on_expanded_loop(
                        members,
                        x,
                        k,
                    ) == drawn@.contains((k * big_width + x) as usize),
            decreases big_height - ey,
        {
            let mut row: Vec<char> = Vec::new();
            let ghost above = drawn@;
            let mut ex: usize = 0;
            proof {
                assert(ey * big_width + big_width <= big_width * big_height) by (nonlinear_arith)
                    requires
                        ey < big_height,
                ;
            }
            while ex < big_width
                invariant
                    self.wf(),
                    width == self.spec_width(),
                    height == self.spec_height(),
                    big_width == 3 * width,
                    big_height == 3 * height,
                    width * height <= usize::MAX,
                    numbers_of(cells@, members, width as int, height as int),
                    ey < big_height,
                    ex <= big_width,
                    row.len() == ex,
                    big_width * big_height <= usize::MAX,
                    ey * big_width + big_width <= big_width * big_height,
                    forall|n: usize| #[trigger]
                        drawn@.contains(n) ==> above.contains(n) || ey * big_width <= n < ey
                            * big_width + ex,
                    forall|n: usize| above.contains(n) ==> #[trigger] drawn@.contains(n),
                    forall|n: usize| #[trigger] above.contains(n) ==> n < ey * big_width,
                    forall|x: int|
                        0 <= x < ex ==> #[trigger] row[x] == self.expanded_symbol(
                            members,
                            x,
                            ey as int,
                        ),
                    forall|x: int|
                        0 <= x < ex ==> #[trigger] self.on_expanded_loop(members, x, ey as int)
                            == drawn@.contains((ey * big_width + x) as usize),
                decreases big_width - ex,
            {
                let (symbol, on_loop) = self.symbol_at(&cells, Ghost(members), ex, ey);
                row.push(symbol);
                if on_loop {
                    drawn.insert(ey * big_width + ex);
                }
                ex += 1;
            }
            proof {
                assert((ey + 1) * big_width == ey * big_width + big_width) by (nonlinear_arith);
                assert forall|x: int, k: int| 0 <= k < ey + 1 && 0 <= x < big_width implies
                    #[trigger] self.on_expanded_loop(members, x, k) == drawn@.contains(
                    (k * big_width + x) as usize,
                ) by {
                    if k < ey {
                        lemma_position_number(big_width as int, ey as int, x, k);
                        assert(above.contains((k * big_width + x) as usize) == drawn@.contains(
                            (k * big_width + x) as usize,
                        ));
                    }
                }
            }
            rows.push(row);
            ey += 1;
        }
        let origin = self.start_point();
        proof {
            self.lemma_contains(origin);
            assert(rows@[0].len() == big_width);
            assert(crate::pipe_grid::rectangular(crate::pipe_grid::rows_view(rows@))) by {
                assert forall|y: int| 0 <= y < rows.len() implies (
                #[trigger] crate::pipe_grid::rows_view(rows@)[y]).len()
                    == crate::pipe_grid::rows_view(rows@)[0].len() by {
                    assert(rows[y].len() == big_width);
                }
            }
        }
        let start = Point { x: 3 * origin.x + 1, y: 3 * origin.y + 1 };
        let big = Grid::assemble(start, rows);
        proof {
            assert forall|x: int, y: int|
                0 <= x < 3 * self.spec_width() && 0 <= y < 3 * self.spec_height() implies
                #[trigger] big.cell(Point { x: x as usize, y: y as usize }) == Some(
                self.expanded_symbol(members, x, y),
            ) by {
                assert(rows[y].len() == big_width);
                assert(big.rows()[y][x] == rows[y][x]);
            }
            let cells = marks(drawn@, big_width as int, big_height as int);
            assert(cells =~= self.expanded_loop(members)) by {
                assert forall|y: int| 0 <= y < big_height implies (#[trigger] cells[y])
                    =~= self.expanded_loop(members)[y] by {
                    assert forall|x: int| 0 <= x < big_width implies cells[y][x]
                        == self.on_expanded_loop(members, x, y) by {
                        lemma_position_number(big_width as int, big_height as int, x, y);
                        assert(self.on_expanded_loop(members, x, y) == drawn@.contains(
                            (y * big_width + x) as usize,
                        ));
                    }
                }
            }
        }
        (big, drawn)
    }

    /// The threefold enlargement of the grid for the loop whose cells are
    /// those of `path`. The block of a loop cell shows its symbol at the
    /// centre and a stroke for each of its edges; the block of any other cell
    /// is empty ground.
    pub fn expand(&self, path: &Vec<Point>) -> (big: Grid)
        requires
            self.wf(),
            9 * self.spec_width() * self.spec_height() <= usize::MAX,
        ensures
            self.expands_to(path@.to_set(), big),
    {
        self.expand_with_loop(path).0
    }
}

} // verus!
