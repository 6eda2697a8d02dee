//! Reading a maze from text and writing it back, and the list of its
//! coordinates.

use vstd::prelude::*;
use crate::pipe_grid::{last_start, rectangular, rows_view, Grid, PipeError, Point};
use crate::text::{chars_of, lines, lines_of, string_of, texts_view, trim, trimmed};

verus! {

/// The rows of a maze among the lines of a text: each line without the white
/// space at its ends, lines that are empty then left out.
pub open spec fn maze_rows(lines: Seq<Seq<char>>) -> Seq<Seq<char>>
    decreases lines.len(),
{
    if lines.len() == 0 {
        seq![]
    } else {
        let row = trimmed(lines.last());
        if row.len() > 0 {
            maze_rows(lines.drop_last()).push(row)
        } else {
            maze_rows(lines.drop_last())
        }
    }
}

/// No row of a maze is empty.
pub proof fn lemma_maze_rows_filled(lines: Seq<Seq<char>>, y: int)
    requires
        0 <= y < maze_rows(lines).len(),
    ensures
        maze_rows(lines)[y].len() > 0,
    decreases lines.len(),
{
    if lines.len() > 0 {
        let row = trimmed(lines.last());
        if row.len() > 0 {
            if y < maze_rows(lines.drop_last()).len() {
                lemma_maze_rows_filled(lines.drop_last(), y);
            }
        } else {
            lemma_maze_rows_filled(lines.drop_last(), y);
        }
    }
}

/// The symbol that shows a connector as a line drawing.
pub open spec fn drawn(symbol: char) -> char {
    if symbol == 'F' {
        '┌'
    } else if symbol == '7' {
        '┐'
    } else if symbol == 'J' {
        '┘'
    } else if symbol == 'L' {
        '└'
    } else if symbol == '|' {
        '│'
    } else if symbol == '-' {
        '─'
    } else {
        symbol
    }
}

/// The rows one after the other with a line feed between every two.
pub open spec fn joined(rows: Seq<Seq<char>>) -> Seq<char>
    decreases rows.len(),
{
    if rows.len() == 0 {
        seq![]
    } else if rows.len() == 1 {
        rows[0]
    } else {
        joined(rows.drop_last()) + seq!['\n'] + rows.last()
    }
}

/// The coordinates of row `y` from column zero up to column `x_end`.
pub open spec fn row_points(y: int, x_end: int) -> Seq<Point> {
    Seq::new(x_end as nat, |x: int| Point { x: x as usize, y: y as usize })
}

/// The coordinates of the first `height` rows of a grid of the given width,
/// in reading order.
pub open spec fn reading_order(width: int, height: int) -> Seq<Point>
    decreases height,
{
    if height <= 0 {
        seq![]
    } else {
        reading_order(width, height - 1) + row_points(height - 1, width)
    }
}

impl Grid {
    /// Reads a maze from text, one row to a line. White space around a line
    /// is dropped, and so are lines that hold nothing else. The start is the
    /// last cell in reading order that holds `'S'`, or the origin when there
    /// is none.
    pub fn parse(text: &str) -> (r: Result<Grid, PipeError>)
        ensures
            match r {
                Ok(g) => {
                    &&& g.wf()
                    &&& g.rows() == maze_rows(lines_of(text@))
                    &&& g.origin() == last_start(g.rows())
                },
                Err(e) => {
                    &&& e == PipeError::EmptyGrid || e == PipeError::RaggedRows
                    &&& e == PipeError::EmptyGrid <==> maze_rows(lines_of(text@)).len() == 0
                },
            },
            r is Ok <==> (maze_rows(lines_of(text@)).len() > 0 && rectangular(
                maze_rows(lines_of(text@)),
            )),
    {
        let chars = chars_of(text);
        let all = lines(&chars);
        let ghost source = texts_view(all@);
        let mut rows: Vec<Vec<char>> = Vec::new();
        let mut i: usize = 0;
        assert(source.take(0) =~= Seq::<Seq<char>>::empty());
        assert(rows_view(rows@) =~= Seq::<Seq<char>>::empty());
        while i < all.len()
            invariant
                i <= all.len(),
                source == texts_view(all@),
                rows_view(rows@) == maze_rows(source.take(i as int)),
            decreases all.len() - i,
        {
            let ghost before = rows_view(rows@);
            let row = trim(&all[i]);
            proof {
                assert(source.take(i + 1).drop_last() =~= source.take(i as int));
                assert(source.take(i + 1).last() == all[i as int]@);
            }
            if row.len() > 0 {
                rows.push(row);
                assert(rows_view(rows@) =~= before.push(row@));
            }
            i += 1;
        }
        proof {
            assert(source.take(all.len() as int) =~= source);
            if rows.len() > 0 {
                lemma_maze_rows_filled(source, 0);
                assert(rows_view(rows@)[0] == rows[0]@);
            }
        }
        Grid::new(rows)
    }

    /// The coordinates of the grid in reading order, all but the origin: the
    /// rest of the first row from column one on, then each further row.
    pub open spec fn spec_iter(&self) -> Seq<Point> {
        reading_order(self.spec_width() as int, self.spec_height() as int).drop_first()
    }

    /// The coordinates of the grid in reading order, all but the origin.
    pub fn iter(&self) -> (points: Vec<Point>)
        requires
            self.wf(),
        ensures
            points@ == self.spec_iter(),
    {
        let width = self.width();
        let height = self.height();
        let mut points: Vec<Point> = Vec::new();
        let ghost first = Point { x: 0, y: 0 };
        let mut x: usize = 1;
        assert(seq![first] + points@ =~= row_points(0, 1));
        while x < width
            invariant
                1 <= x <= width,
                seq![first] + points@ == row_points(0, x as int),
            decreases width - x,
        {
            let ghost before = seq![first] + points@;
            points.push(Point { x, y: 0 });
            assert(seq![first] + points@ =~= before.push(Point { x, y: 0 }));
            assert(row_points(0, x as int).push(Point { x, y: 0 }) =~= row_points(0, x + 1));
            x += 1;
        }
        assert(reading_order(width as int, 0) + row_points(0, width as int) =~= row_points(
            0,
            width as int,
        ));
        let mut y: usize = 1;
        while y < height
            invariant
                1 <= y <= height,
                width > 0,
                seq![first] + points@ == reading_order(width as int, y as int),
            decreases height - y,
        {
            let ghost done = seq![first] + points@;
            let mut x: usize = 0;
            assert(done + row_points(y as int, 0) =~= done);
            while x < width
                invariant
                    x <= width,
                    seq![first] + points@ == done + row_points(y as int, x as int),
                decreases width - x,
            {
                let ghost before = seq![first] + points@;
                points.push(Point { x, y });
                assert(seq![first] + points@ =~= before.push(Point { x, y }));
                assert(row_points(y as int, x as int).push(Point { x, y }) =~= row_points(
                    y as int,
                    x + 1,
                ));
                assert((done + row_points(y as int, x as int)).push(Point { x, y }) =~= done
                    + row_points(y as int, x + 1));
                x += 1;
            }
            y += 1;
        }
        assert(points@ =~= (seq![first] + points@).drop_first());
        points
    }

    /// The rows of the grid as text, with a line feed between every two.
    pub fn to_text(&self) -> (s: String)
        requires
            self.wf(),
        ensures
            s@ == joined(self.rows()),
    {
        let width = self.width();
        let height = self.height();
        let mut out: Vec<char> = Vec::new();
        let mut y: usize = 0;
        assert(self.rows().take(0) =~= Seq::<Seq<char>>::empty());
        while y < height
            invariant
                self.wf(),
                width == self.spec_width(),
                height == self.spec_height(),
                y <= height,
                out@ == joined(self.rows().take(y as int)),
            decreases height - y,
        {
            let ghost done = out@;
            if y > 0 {
                out.push('\n');
            }
            let ghost lead = out@;
            let mut x: usize = 0;
            assert(self.rows()[y as int].take(0) =~= Seq::<char>::empty());
            assert(lead + Seq::<char>::empty() =~= lead);
            while x < width
                invariant
                    self.wf(),
                    width == self.spec_width(),
                    y < self.spec_height(),
                    x <= width,
                    out@ == lead + self.rows()[y as int].take(x as int),
                decreases width - x,
            {
                proof {
                    self.lemma_contains(Point { x, y });
                }
                match self.get(x, y) {
                    Some(symbol) => {
                        out.push(symbol);
                    },
                    None => {},
                }
                assert(out@ =~= lead + self.rows()[y as int].take(x + 1));
                x += 1;
            }
            proof {
                let upto = self.rows().take(y + 1);
                assert(self.rows()[y as int].len() == self.rows()[0].len());
                assert(self.rows()[y as int].take(width as int) =~= self.rows()[y as int]);
                assert(upto.drop_last() =~= self.rows().take(y as int));
                assert(upto.last() == self.rows()[y as int]);
                if y == 0 {
                    assert(lead =~= Seq::<char>::empty());
                    assert(out@ =~= self.rows()[0]);
                }
            }
            y += 1;
        }
        assert(self.rows().take(height as int) =~= self.rows());
        string_of(&out)
    }

    /// The rows of the grid with each connector shown as a line drawing.
    pub open spec fn drawn_rows(&self) -> Seq<Seq<char>> {
        Seq::new(
            self.rows().len(),
            |y: int| Seq::new(self.rows()[y].len(), |x: int| drawn(self.rows()[y][x])),
        )
    }

    /// The grid as text in which the connectors are shown as line drawings,
    /// with a line feed between every two rows.
    pub fn pp(&self) -> (s: String)
        requires
            self.wf(),
        ensures
            s@ == joined(self.drawn_rows()),
    {
        let width = self.width();
        let height = self.height();
        let mut out: Vec<char> = Vec::new();
        let ghost shown = self.drawn_rows();
        let mut y: usize = 0;
        assert(shown.take(0) =~= Seq::<Seq<char>>::empty());
        while y < height
            invariant
                self.wf(),
                shown == self.drawn_rows(),
                width == self.spec_width(),
                height == self.spec_height(),
                y <= height,
                out@ == joined(shown.take(y as int)),
            decreases height - y,
        {
            if y > 0 {
                out.push('\n');
            }
            let ghost lead = out@;
            let mut x: usize = 0;
            assert(shown[y as int].take(0) =~= Seq::<char>::empty());
            assert(lead + Seq::<char>::empty() =~= lead);
            while x < width
                invariant
                    self.wf(),
                    shown == self.drawn_rows(),
                    width == self.spec_width(),
                    y < self.spec_height(),
                    x <= width,
                    out@ == lead + shown[y as int].take(x as int),
                decreases width - x,
            {
                proof {
                    self.lemma_contains(Point { x, y });
                    assert(self.rows()[y as int].len() == self.rows()[0].len());
                }
                match self.get(x, y) {
                    Some(symbol) => {
                        let shape = if symbol == 'F' {
                            '┌'
                        } else if symbol == '7' {
                            '┐'
                        } else if symbol == 'J' {
                            '┘'
                        } else if symbol == 'L' {
                            '└'
                        } else if symbol == '|' {
                            '│'
                        } else if symbol == '-' {
                            '─'
                        } else {
                            symbol
                        };
                        out.push(shape);
                    },
                    None => {},
                }
                assert(out@ =~= lead + shown[y as int].take(x + 1));
                x += 1;
            }
            proof {
                let upto = shown.take(y + 1);
                assert(self.rows()[y as int].len() == self.rows()[0].len());
                assert(shown[y as int].take(width as int) =~= shown[y as int]);
                assert(upto.drop_last() =~= shown.take(y as int));
                assert(upto.last() == shown[y as int]);
                if y == 0 {
                    assert(lead =~= Seq::<char>::empty());
                    assert(out@ =~= shown[0]);
                }
            }
            y += 1;
        }
        assert(shown.take(height as int) =~= shown);
        string_of(&out)
    }
}

impl std::str::FromStr for Grid {
    type Err = PipeError;

    fn from_str(s: &str) -> (r: Result<Grid, PipeError>)
        ensures
            match r {
                Ok(g) => {
                    &&& g.wf()
                    &&& g.rows() == maze_rows(lines_of(s@))
                    &&& g.origin() == last_start(g.rows())
                },
                Err(e) => {
                    &&& e == PipeError::EmptyGrid || e == PipeError::RaggedRows
                    &&& e == PipeError::EmptyGrid <==> maze_rows(lines_of(s@)).len() == 0
                },
            },
            r is Ok <==> (maze_rows(lines_of(s@)).len() > 0 && rectangular(
                maze_rows(lines_of(s@)),
            )),
    {
        Grid::parse(s)
    }
}

} // verus!
