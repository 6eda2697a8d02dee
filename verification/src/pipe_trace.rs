//! Finding the loop: which neighbours the start cell connects to, the step
//! from one loop cell to the next, and the walk around the whole loop.

use vstd::prelude::*;
use crate::pipe_grid::{direction_to, Grid, PipeError, Point};
use crate::pipe_laws::{law_trace_fits_the_grid, law_trace_visits_each_cell_once};
use crate::pipe_route::{has_opening, opens, route, step, Direction};

verus! {

/// The step allowance used where the caller gives none.
pub const MAX_STEPS: usize = 1000000;

/// Puts `prefix` in front of a successful walk and passes an error through.
pub open spec fn prepend(prefix: Seq<Point>, tail: Result<Seq<Point>, PipeError>) -> Result<
    Seq<Point>,
    PipeError,
> {
    match tail {
        Ok(rest) => Ok(prefix + rest),
        Err(e) => Err(e),
    }
}

impl Grid {
    /// Whether the neighbour of `start` towards `d` exists and has an edge
    /// facing back towards `start`.
    pub open spec fn accepts(&self, start: Point, d: Direction) -> bool {
        match self.neighbor(start, d) {
            Some(q) => opens(self.cell(q)->0, d.spec_opposite()),
            None => false,
        }
    }

    /// The neighbour towards `d` as a one-element list when it is accepted,
    /// the empty list when it is not.
    pub open spec fn accepted_towards(&self, start: Point, d: Direction) -> Seq<Point> {
        if self.accepts(start, d) {
            seq![self.neighbor(start, d)->0]
        } else {
            seq![]
        }
    }

    /// The neighbours of `start` that connect to it, in the order north,
    /// south, east, west.
    pub open spec fn spec_start_points(&self, start: Point) -> Seq<Point> {
        self.accepted_towards(start, Direction::N) + self.accepted_towards(start, Direction::S)
            + self.accepted_towards(start, Direction::E) + self.accepted_towards(
            start,
            Direction::W,
        )
    }

    /// The cell that follows `cur` for a traveller who stepped onto it from
    /// `prev`: the neighbour of `cur` that its shape routes to. `None` when
    /// `prev` is no neighbour of `cur`, when `cur` lies outside the grid, when
    /// its shape has no edge towards `prev`, or when the way on leaves the
    /// grid.
    pub open spec fn next_cell(&self, prev: Point, cur: Point) -> Option<Point> {
        match direction_to(cur, prev) {
            Some(from) => match self.cell(cur) {
                Some(symbol) => match route(from, symbol) {
                    Some(out) => self.neighbor(cur, out),
                    None => None,
                },
                None => None,
            },
            None => None,
        }
    }

    /// The cells visited from `cur` on, by a traveller who stepped onto `cur`
    /// from `prev` and follows the pipes until the next cell would be
    /// `start`. Each step costs one unit of `fuel`.
    pub open spec fn walk(&self, start: Point, prev: Point, cur: Point, fuel: nat) -> Result<
        Seq<Point>,
        PipeError,
    >
        decreases fuel,
    {
        if fuel == 0 {
            Err(PipeError::TraceOverrun)
        } else {
            match self.next_cell(prev, cur) {
                None => Err(PipeError::BrokenConnection),
                Some(next) => if next == start {
                    Ok(seq![cur])
                } else {
                    prepend(seq![cur], self.walk(start, cur, next, (fuel - 1) as nat))
                },
            }
        }
    }

    /// The loop through the start cell that leaves it towards `first`: the
    /// start, then every cell walked until the walk is back at the start.
    pub open spec fn spec_trace_from(&self, first: Point, max_steps: nat) -> Result<
        Seq<Point>,
        PipeError,
    > {
        prepend(seq![self.origin()], self.walk(self.origin(), self.origin(), first, max_steps))
    }

    /// The loop through the start cell, walked towards the first of the two
    /// neighbours that connect to it.
    pub open spec fn spec_trace_loop(&self, max_steps: nat) -> Result<Seq<Point>, PipeError> {
        let firsts = self.spec_start_points(self.origin());
        if firsts.len() == 2 {
            self.spec_trace_from(firsts[0], max_steps)
        } else {
            Err(PipeError::MalformedStart)
        }
    }

    /// Whether the neighbour of `start` towards `d` connects to it.
    fn connects(&self, start: Point, d: Direction) -> (r: Option<Point>)
        ensures
            r is Some <==> self.accepts(start, d),
            r is Some ==> r == self.neighbor(start, d),
    {
        match self.rel_pt(start, d) {
            Some(q) => match self.get(q.x, q.y) {
                Some(symbol) => if has_opening(symbol, d.opposite()) {
                    Some(q)
                } else {
                    None
                },
                None => None,
            },
            None => None,
        }
    }

    /// The neighbours of `start` whose shape connects back to it, in the
    /// order north, south, east, west.
    fn connecting(&self, start: Point) -> (points: Vec<Point>)
        ensures
            points@ == self.spec_start_points(start),
    {
        let mut points: Vec<Point> = Vec::new();
        if let Some(q) = self.connects(start, Direction::N) {
            points.push(q);
        }
        assert(points@ =~= self.accepted_towards(start, Direction::N));
        if let Some(q) = self.connects(start, Direction::S) {
            points.push(q);
        }
        assert(points@ =~= self.accepted_towards(start, Direction::N) + self.accepted_towards(
            start,
            Direction::S,
        ));
        if let Some(q) = self.connects(start, Direction::E) {
            points.push(q);
        }
        assert(points@ =~= self.accepted_towards(start, Direction::N) + self.accepted_towards(
            start,
            Direction::S,
        ) + self.accepted_towards(start, Direction::E));
        if let Some(q) = self.connects(start, Direction::W) {
            points.push(q);
        }
        assert(points@ =~= self.spec_start_points(start));
        points
    }

    /// The two neighbours of `start` whose shape connects back to it, in the
    /// order north, south, east, west. Fails with `MalformedStart` unless
    /// exactly two neighbours connect.
    pub fn start_points(&self, start: Point) -> (r: Result<Vec<Point>, PipeError>)
        ensures
            match r {
                Ok(points) => points@ == self.spec_start_points(start) && points@.len() == 2,
                Err(e) => e == PipeError::MalformedStart && self.spec_start_points(start).len()
                    != 2,
            },
    {
        let points = self.connecting(start);
        if points.len() == 2 {
            Ok(points)
        } else {
            Err(PipeError::MalformedStart)
        }
    }

    /// The two cells the start cell connects to. Fails with `MalformedStart`
    /// unless exactly two neighbours of the start connect back to it.
    pub fn resolve_start(&self) -> (r: Result<(Point, Point), PipeError>)
        ensures
            match r {
                Ok((a, b)) => self.spec_start_points(self.origin()) == seq![a, b],
                Err(e) => e == PipeError::MalformedStart && self.spec_start_points(
                    self.origin(),
                ).len() != 2,
            },
    {
        match self.start_points(self.start_point()) {
            Ok(points) => {
                assert(points@ =~= seq![points[0], points[1]]);
                Ok((points[0], points[1]))
            },
            Err(e) => Err(e),
        }
    }

    /// The cell after `current` for a traveller who came from `prev`; `None`
    /// where the pipes do not lead on inside the grid.
    pub fn get_next(&self, prev: Point, current: Point) -> (r: Option<Point>)
        ensures
            r == self.next_cell(prev, current),
    {
        match self.rel_direction(current, prev) {
            Some(from) => match self.get(current.x, current.y) {
                Some(symbol) => match step(from, symbol) {
                    Some(out) => self.rel_pt(current, out),
                    None => None,
                },
                None => None,
            },
            None => None,
        }
    }

    /// The loop through `start` that leaves it towards `first`: `start`,
    /// then every cell walked until the walk is back at `start`.
    pub open spec fn spec_walk_from(&self, start: Point, first: Point, max_steps: nat) -> Result<
        Seq<Point>,
        PipeError,
    > {
        prepend(seq![start], self.walk(start, start, first, max_steps))
    }

    /// Walks from `start` towards `first` until the walk is back at `start`.
    fn walk_from(&self, start: Point, first: Point, max_steps: usize) -> (r: Result<
        Vec<Point>,
        PipeError,
    >)
        ensures
            match r {
                Ok(path) => self.spec_walk_from(start, first, max_steps as nat) == Ok::<
                    Seq<Point>,
                    PipeError,
                >(path@),
                Err(e) => self.spec_walk_from(start, first, max_steps as nat) == Err::<
                    Seq<Point>,
                    PipeError,
                >(e),
            },
            r is Ok && self.contains(start) ==> r->Ok_0@.no_duplicates(),
            r is Ok && self.contains(start) && self.wf() ==> r->Ok_0@.len() <= self.spec_width()
                * self.spec_height(),
    {
        proof {
            if self.spec_walk_from(start, first, max_steps as nat) is Ok && self.contains(start) {
                law_trace_visits_each_cell_once(*self, start, first, max_steps as nat);
                if self.wf() {
                    law_trace_fits_the_grid(*self, start, first, max_steps as nat);
                }
            }
        }
        let mut path: Vec<Point> = Vec::new();
        path.push(start);
        let mut prev = start;
        let mut cur = first;
        let mut steps: usize = 0;
        assert(path@ =~= seq![start]);
        loop
            invariant
                steps <= max_steps,
                path@.len() >= 1,
                self.spec_walk_from(start, first, max_steps as nat) == prepend(
                    path@,
                    self.walk(start, prev, cur, (max_steps - steps) as nat),
                ),
                self.spec_walk_from(start, first, max_steps as nat) is Ok && self.contains(start)
                    ==> self.spec_walk_from(start, first, max_steps as nat)->Ok_0.no_duplicates(),
                self.spec_walk_from(start, first, max_steps as nat) is Ok && self.contains(start)
                    && self.wf() ==> self.spec_walk_from(start, first, max_steps as nat)->Ok_0.len()
                    <= self.spec_width() * self.spec_height(),
            decreases max_steps - steps,
        {
            if steps == max_steps {
                return Err(PipeError::TraceOverrun);
            }
            match self.get_next(prev, cur) {
                None => {
                    return Err(PipeError::BrokenConnection);
                },
                Some(next) => {
                    let ghost before = path@;
                    path.push(cur);
                    if next == start {
                        assert(before + seq![cur] =~= path@);
                        return Ok(path);
                    }
                    proof {
                        let rest = self.walk(start, cur, next, (max_steps - steps - 1) as nat);
                        if let Ok(tail) = rest {
                            assert(before + (seq![cur] + tail) =~= path@ + tail);
                        }
                    }
                    prev = cur;
                    cur = next;
                    steps += 1;
                },
            }
        }
    }

    /// Walks the loop from the start cell towards `first` until it closes.
    /// Fails with `BrokenConnection` where the pipes do not lead on, and with
    /// `TraceOverrun` when `max_steps` steps did not close the loop.
    pub fn trace_from(&self, first: Point, max_steps: usize) -> (r: Result<Vec<Point>, PipeError>)
        ensures
            match r {
                Ok(path) => self.spec_trace_from(first, max_steps as nat) == Ok::<
                    Seq<Point>,
                    PipeError,
                >(path@),
                Err(e) => self.spec_trace_from(first, max_steps as nat) == Err::<
                    Seq<Point>,
                    PipeError,
                >(e),
            },
            r is Ok && self.wf() ==> r->Ok_0@.no_duplicates() && r->Ok_0@.len()
                <= self.spec_width() * self.spec_height(),
    {
        self.walk_from(self.start_point(), first, max_steps)
    }

    /// Walks the loop through the start cell, leaving it towards the first of
    /// the two neighbours that connect to it, and returns the cells in the
    /// order visited, the start first.
    pub fn trace_loop(&self, max_steps: usize) -> (r: Result<Vec<Point>, PipeError>)
        ensures
            match r {
                Ok(path) => self.spec_trace_loop(max_steps as nat) == Ok::<Seq<Point>, PipeError>(
                    path@,
                ),
                Err(e) => self.spec_trace_loop(max_steps as nat) == Err::<Seq<Point>, PipeError>(e),
            },
            r is Ok && self.wf() ==> r->Ok_0@.no_duplicates() && r->Ok_0@.len()
                <= self.spec_width() * self.spec_height(),
    {
        match self.resolve_start() {
            Ok((first, _)) => self.trace_from(first, max_steps),
            Err(e) => Err(e),
        }
    }

    /// The number of steps from the start to the cell of the loop that is
    /// farthest from it along the loop: half the length of the loop, rounded
    /// up.
    pub fn count_steps_to_farthest_point(&self, max_steps: usize) -> (r: Result<usize, PipeError>)
        ensures
            match self.spec_trace_loop(max_steps as nat) {
                Ok(path) => r == Ok::<usize, PipeError>(((path.len() + 1) / 2) as usize),
                Err(e) => r == Err::<usize, PipeError>(e),
            },
            r is Ok ==> {
                let length = self.spec_trace_loop(max_steps as nat)->Ok_0.len();
                &&& length % 2 == 0 ==> 2 * r->Ok_0 == length
                &&& length % 2 == 1 ==> 2 * r->Ok_0 == length + 1
            },
    {
        match self.trace_loop(max_steps) {
            Ok(path) => {
                let n = path.len();
                Ok(n / 2 + n % 2)
            },
            Err(e) => Err(e),
        }
    }

    /// Walks the loop through `start`, leaving it towards the first of the
    /// two neighbours that connect to it, and returns the cells in the order
    /// visited, `start` first. Fails with `MalformedStart` unless exactly two
    /// neighbours connect to `start`, with `BrokenConnection` where the pipes
    /// do not lead on, and with `TraceOverrun` when `MAX_STEPS` steps did not
    /// close the loop.
    pub fn path(&self, start: Point) -> (r: Result<Vec<Point>, PipeError>)
        ensures
            self.spec_start_points(start).len() != 2 ==> r == Err::<Vec<Point>, PipeError>(
                PipeError::MalformedStart,
            ),
            self.spec_start_points(start).len() == 2 ==> match r {
                Ok(path) => prepend(
                    seq![start],
                    self.walk(start, start, self.spec_start_points(start)[0], MAX_STEPS as nat),
                ) == Ok::<Seq<Point>, PipeError>(path@),
                Err(e) => prepend(
                    seq![start],
                    self.walk(start, start, self.spec_start_points(start)[0], MAX_STEPS as nat),
                ) == Err::<Seq<Point>, PipeError>(e),
            },
            r is Ok && self.contains(start) ==> r->Ok_0@.no_duplicates(),
            r is Ok && self.contains(start) && self.wf() ==> r->Ok_0@.len() <= self.spec_width()
                * self.spec_height(),
    {
        match self.start_points(start) {
            Ok(firsts) => self.walk_from(start, firsts[0], MAX_STEPS),
            Err(e) => Err(e),
        }
    }
}

/// The number of steps from the start of the grid to the farthest cell of
/// its loop, within `MAX_STEPS` steps of tracing: half the length of the
/// loop, rounded up, whether that length is even or odd.
pub fn solve(grid: &Grid) -> (r: Result<usize, PipeError>)
    ensures
        match grid.spec_trace_loop(MAX_STEPS as nat) {
            Ok(path) => r == Ok::<usize, PipeError>(((path.len() + 1) / 2) as usize),
            Err(e) => r == Err::<usize, PipeError>(e),
        },
        r is Ok ==> {
            let length = grid.spec_trace_loop(MAX_STEPS as nat)->Ok_0.len();
            &&& length % 2 == 0 ==> 2 * r->Ok_0 == length
            &&& length % 2 == 1 ==> 2 * r->Ok_0 == length + 1
        },
{
    grid.count_steps_to_farthest_point(MAX_STEPS)
}

} // verus!
