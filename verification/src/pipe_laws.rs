//! What holds of every traced loop: no cell is visited twice, and walking
//! the loop from the other neighbour of the start visits the same cells in
//! the opposite order.

use vstd::prelude::*;
use crate::pipe_grid::{direction_to, shift, Grid, PipeError, Point};
use crate::pipe_route::{lemma_route_reversible, lemma_two_openings, route, Direction};

verus! {

/// The cell at position `i` of a closed path, where the position after the
/// last one is the first again.
pub open spec fn around(p: Seq<Point>, i: int) -> Point {
    if i == p.len() {
        p[0]
    } else {
        p[i]
    }
}

/// The pipes lead from the cell at position `k - 1` through the cell at
/// position `k` to the one after it.
pub open spec fn linked(g: Grid, p: Seq<Point>, k: int) -> bool {
    g.next_cell(p[k - 1], p[k]) == Some(around(p, k + 1))
}

/// `p` is a closed walk along the pipes that starts at `p[0]` and meets it
/// again only at the end.
pub open spec fn closed_walk(g: Grid, p: Seq<Point>) -> bool {
    &&& p.len() >= 2
    &&& forall|k: int| 1 <= k < p.len() ==> #[trigger] linked(g, p, k)
    &&& forall|k: int| 1 <= k < p.len() ==> #[trigger] p[k] != p[0]
}

/// The same closed path walked the other way round: the first cell stays
/// first, the others come in opposite order.
pub open spec fn reverse_loop(p: Seq<Point>) -> Seq<Point> {
    Seq::new(
        p.len(),
        |k: int|
            if k == 0 {
                p[0]
            } else {
                p[p.len() - k]
            },
    )
}

/// One step along the pipes: the three cells are distinct, lie in the grid,
/// and the step can be taken back.
pub proof fn lemma_step(g: Grid, a: Point, b: Point, c: Point)
    requires
        g.next_cell(a, b) == Some(c),
        g.contains(a),
    ensures
        a != b,
        b != c,
        a != c,
        g.contains(b),
        g.contains(c),
        g.next_cell(c, b) == Some(a),
{
    let from = direction_to(b, a)->0;
    let symbol = g.cell(b)->0;
    lemma_route_reversible(from, symbol);
    let out = route(from, symbol)->0;
    assert(shift(b, out) == Some(c));
    assert(direction_to(b, c) == Some(out));
    assert(shift(b, from) == Some(a));
}

/// A cell is entered from one of its two openings only: whoever passes
/// through `b` comes from `a` or from `c`.
pub proof fn lemma_step_sides(g: Grid, a: Point, b: Point, c: Point, q: Point)
    requires
        g.next_cell(a, b) == Some(c),
        g.next_cell(q, b) is Some,
    ensures
        q == a || q == c,
{
    let from = direction_to(b, a)->0;
    let other = direction_to(b, q)->0;
    let symbol = g.cell(b)->0;
    lemma_two_openings(from, other, symbol);
    let out = route(from, symbol)->0;
    assert(shift(b, out) == Some(c));
}

/// Two travellers who leave `b` towards the same cell entered it from the
/// same cell.
pub proof fn lemma_step_back(g: Grid, a: Point, b: Point, c: Point, q: Point)
    requires
        g.next_cell(a, b) == Some(c),
        g.next_cell(q, b) == Some(c),
        g.contains(a),
    ensures
        q == a,
{
    lemma_step(g, a, b, c);
    lemma_step_sides(g, a, b, c, q);
    if q == c {
        lemma_step(g, c, b, a);
    }
}

/// Every cell of a closed walk lies in the grid.
pub proof fn lemma_closed_walk_inside(g: Grid, p: Seq<Point>, k: int)
    requires
        closed_walk(g, p),
        g.contains(p[0]),
        0 <= k < p.len(),
    ensures
        g.contains(p[k]),
    decreases k,
{
    if k > 0 {
        lemma_closed_walk_inside(g, p, k - 1);
        assert(linked(g, p, k));
        lemma_step(g, p[k - 1], p[k], around(p, k + 1));
    }
}

/// A closed walk does not pass twice through a cell in the same sense.
proof fn lemma_no_repeat_same_sense(g: Grid, p: Seq<Point>, i: int, j: int)
    requires
        closed_walk(g, p),
        g.contains(p[0]),
        1 <= i < j < p.len(),
    ensures
        !(p[i] == p[j] && p[i - 1] == p[j - 1]),
    decreases i,
{
    if p[i] == p[j] && p[i - 1] == p[j - 1] {
        if i == 1 {
            assert(p[j - 1] != p[0]);
        } else {
            assert(linked(g, p, i - 1));
            assert(linked(g, p, j - 1));
            lemma_closed_walk_inside(g, p, i - 2);
            lemma_step_back(g, p[i - 2], p[i - 1], p[i], p[j - 2]);
            lemma_no_repeat_same_sense(g, p, i - 1, j - 1);
        }
    }
}

/// A closed walk does not pass twice through a cell in opposite senses.
proof fn lemma_no_repeat_opposite_sense(g: Grid, p: Seq<Point>, i: int, j: int)
    requires
        closed_walk(g, p),
        g.contains(p[0]),
        0 <= i < j < p.len(),
    ensures
        !(p[i] == p[j] && p[i + 1] == p[j - 1]),
    decreases j - i,
{
    if p[i] == p[j] && p[i + 1] == p[j - 1] {
        lemma_closed_walk_inside(g, p, i);
        assert(linked(g, p, i + 1));
        if j == i + 1 {
            lemma_step(g, p[i], p[i + 1], around(p, i + 2));
        } else if j == i + 2 {
            lemma_step(g, p[i], p[i + 1], p[i + 2]);
        } else {
            assert(linked(g, p, j - 1));
            lemma_step(g, p[i], p[i + 1], p[i + 2]);
            lemma_step_back(g, p[i + 2], p[i + 1], p[i], p[j - 2]);
            lemma_no_repeat_opposite_sense(g, p, i + 1, j - 1);
        }
    }
}

/// No cell occurs twice in a closed walk.
pub proof fn lemma_closed_walk_distinct(g: Grid, p: Seq<Point>)
    requires
        closed_walk(g, p),
        g.contains(p[0]),
    ensures
        p.no_duplicates(),
{
    assert forall|i: int, j: int| 0 <= i < p.len() && 0 <= j < p.len() && i != j implies p[i]
        != p[j] by {
        let lo = if i < j {
            i
        } else {
            j
        };
        let hi = if i < j {
            j
        } else {
            i
        };
        if lo == 0 {
            assert(p[hi] != p[0]);
        } else if p[lo] == p[hi] {
            assert(linked(g, p, lo));
            assert(linked(g, p, hi));
            lemma_step_sides(g, p[lo - 1], p[lo], around(p, lo + 1), p[hi - 1]);
            lemma_no_repeat_same_sense(g, p, lo, hi);
            lemma_no_repeat_opposite_sense(g, p, lo, hi);
        }
    }
}

/// A closed walk has at least three cells.
pub proof fn lemma_closed_walk_length(g: Grid, p: Seq<Point>)
    requires
        closed_walk(g, p),
        g.contains(p[0]),
    ensures
        p.len() >= 3,
{
    assert(linked(g, p, 1));
    if p.len() == 2 {
        lemma_step(g, p[0], p[1], p[0]);
    }
}

/// A closed walk taken the other way round is a closed walk again.
pub proof fn lemma_reverse_closed_walk(g: Grid, p: Seq<Point>)
    requires
        closed_walk(g, p),
        g.contains(p[0]),
    ensures
        closed_walk(g, reverse_loop(p)),
{
    let q = reverse_loop(p);
    let n = p.len() as int;
    assert forall|k: int| 1 <= k < q.len() implies #[trigger] linked(g, q, k) by {
        let m = n - k;
        assert(linked(g, p, m));
        lemma_closed_walk_inside(g, p, m - 1);
        lemma_step(g, p[m - 1], p[m], around(p, m + 1));
        assert(q[k] == p[m]);
        assert(q[k - 1] == around(p, m + 1));
        assert(around(q, k + 1) == p[m - 1]);
    }
    assert forall|k: int| 1 <= k < q.len() implies #[trigger] q[k] != q[0] by {
        assert(p[n - k] != p[0]);
    }
}

/// A successful walk, with the cell it was entered from in front, is a
/// closed walk when it started at the start cell, and it used no more fuel
/// than it has cells.
proof fn lemma_walk_links(g: Grid, start: Point, prev: Point, cur: Point, fuel: nat)
    requires
        g.walk(start, prev, cur, fuel) is Ok,
    ensures
        ({
            let rest = g.walk(start, prev, cur, fuel)->Ok_0;
            &&& 1 <= rest.len() <= fuel
            &&& rest[0] == cur
            &&& g.next_cell(prev, cur) == Some(
                if rest.len() == 1 {
                    start
                } else {
                    rest[1]
                },
            )
            &&& forall|k: int|
                1 <= k < rest.len() ==> #[trigger] g.next_cell(rest[k - 1], rest[k]) == Some(
                    if k + 1 == rest.len() {
                        start
                    } else {
                        rest[k + 1]
                    },
                )
            &&& forall|k: int| 1 <= k < rest.len() ==> #[trigger] rest[k] != start
        }),
    decreases fuel,
{
    let rest = g.walk(start, prev, cur, fuel)->Ok_0;
    let next = g.next_cell(prev, cur)->0;
    if next != start {
        lemma_walk_links(g, start, cur, next, (fuel - 1) as nat);
        let tail = g.walk(start, cur, next, (fuel - 1) as nat)->Ok_0;
        assert(rest =~= seq![cur] + tail);
        assert forall|k: int| 1 <= k < rest.len() implies #[trigger] g.next_cell(
            rest[k - 1],
            rest[k],
        ) == Some(
            if k + 1 == rest.len() {
                start
            } else {
                rest[k + 1]
            },
        ) by {
            if k >= 2 {
                assert(g.next_cell(tail[k - 2], tail[k - 1]) == Some(
                    if k == tail.len() {
                        start
                    } else {
                        tail[k]
                    },
                ));
            }
        }
        assert forall|k: int| 1 <= k < rest.len() implies #[trigger] rest[k] != start by {
            if k >= 2 {
                assert(tail[k - 1] != start);
            }
        }
    }
}

/// The cells of a closed walk from position `k` on are what the walk
/// computes when it enters the cell at `k` from the one before.
proof fn lemma_links_walk(g: Grid, p: Seq<Point>, k: int, fuel: nat)
    requires
        closed_walk(g, p),
        1 <= k < p.len(),
        fuel >= p.len() - k,
    ensures
        g.walk(p[0], p[k - 1], p[k], fuel) == Ok::<Seq<Point>, PipeError>(
            p.subrange(k, p.len() as int),
        ),
    decreases p.len() - k,
{
    assert(linked(g, p, k));
    if k + 1 == p.len() {
        assert(p.subrange(k, p.len() as int) =~= seq![p[k]]);
    } else {
        assert(p[k + 1] != p[0]);
        lemma_links_walk(g, p, k + 1, (fuel - 1) as nat);
        assert(p.subrange(k, p.len() as int) =~= seq![p[k]] + p.subrange(k + 1, p.len() as int));
    }
}

/// A traced loop is a closed walk from the start cell.
pub proof fn lemma_trace_is_closed_walk(g: Grid, start: Point, first: Point, max_steps: nat)
    requires
        g.spec_walk_from(start, first, max_steps) is Ok,
    ensures
        ({
            let p = g.spec_walk_from(start, first, max_steps)->Ok_0;
            &&& closed_walk(g, p)
            &&& p[0] == start
            &&& p[1] == first
            &&& p.len() <= max_steps + 1
        }),
{
    lemma_walk_links(g, start, start, first, max_steps);
    let rest = g.walk(start, start, first, max_steps)->Ok_0;
    let p = g.spec_walk_from(start, first, max_steps)->Ok_0;
    assert(p =~= seq![start] + rest);
    assert forall|k: int| 1 <= k < p.len() implies #[trigger] linked(g, p, k) by {
        if k >= 2 {
            assert(g.next_cell(rest[k - 2], rest[k - 1]) == Some(
                if k == rest.len() {
                    start
                } else {
                    rest[k]
                },
            ));
        }
    }
    assert forall|k: int| 1 <= k < p.len() implies #[trigger] p[k] != p[0] by {
        if k >= 2 {
            assert(rest[k - 1] != start);
        } else {
            assert(linked(g, p, 1));
        }
    }
}

/// A closed walk from the start cell is what tracing from its second cell
/// returns, whenever the step allowance covers it.
pub proof fn lemma_closed_walk_is_trace(g: Grid, p: Seq<Point>, max_steps: nat)
    requires
        closed_walk(g, p),
        max_steps + 1 >= p.len(),
    ensures
        g.spec_walk_from(p[0], p[1], max_steps) == Ok::<Seq<Point>, PipeError>(p),
{
    lemma_links_walk(g, p, 1, max_steps);
    assert(seq![p[0]] + p.subrange(1, p.len() as int) =~= p);
}

/// The last cell of a closed walk connects to its first cell.
proof fn lemma_last_cell_connects(g: Grid, p: Seq<Point>) -> (d: Direction)
    requires
        closed_walk(g, p),
        g.contains(p[0]),
    ensures
        g.accepts(p[0], d),
        g.neighbor(p[0], d) == Some(p.last()),
{
    let n = p.len() as int;
    assert(linked(g, p, n - 1));
    lemma_closed_walk_inside(g, p, n - 2);
    lemma_step(g, p[n - 2], p[n - 1], p[0]);
    let last = p[n - 1];
    let from = direction_to(last, p[n - 2])->0;
    let symbol = g.cell(last)->0;
    lemma_route_reversible(from, symbol);
    let out = route(from, symbol)->0;
    assert(shift(last, out) == Some(p[0]));
    let d = out.spec_opposite();
    assert(shift(p[0], d) == Some(last));
    d
}

/// A neighbour that connects to the start is listed among the start points.
proof fn lemma_accepted_listed(g: Grid, start: Point, d: Direction)
    requires
        g.accepts(start, d),
    ensures
        g.spec_start_points(start).contains(g.neighbor(start, d)->0),
{
    let n = g.accepted_towards(start, Direction::N);
    let s = g.accepted_towards(start, Direction::S);
    let e = g.accepted_towards(start, Direction::E);
    let w = g.accepted_towards(start, Direction::W);
    let all = g.spec_start_points(start);
    let q = g.neighbor(start, d)->0;
    match d {
        Direction::N => {
            assert(all[0] == q);
        },
        Direction::S => {
            assert(all[n.len() as int] == q);
        },
        Direction::E => {
            assert(all[(n.len() + s.len()) as int] == q);
        },
        Direction::W => {
            assert(all[(n.len() + s.len() + e.len()) as int] == q);
        },
    }
}

/// Tracing visits no cell twice: the traced loop has as many cells as it has
/// distinct coordinates.
pub proof fn law_trace_visits_each_cell_once(
    g: Grid,
    start: Point,
    first: Point,
    max_steps: nat,
)
    requires
        g.contains(start),
        g.spec_walk_from(start, first, max_steps) is Ok,
    ensures
        g.spec_walk_from(start, first, max_steps)->Ok_0.no_duplicates(),
        g.spec_walk_from(start, first, max_steps)->Ok_0.to_set().len() == g.spec_walk_from(
            start,
            first,
            max_steps,
        )->Ok_0.len(),
{
    let p = g.spec_walk_from(start, first, max_steps)->Ok_0;
    lemma_trace_is_closed_walk(g, start, first, max_steps);
    lemma_closed_walk_distinct(g, p);
    p.unique_seq_to_set();
}

/// The number that a cell of the grid has in reading order.
pub open spec fn cell_number(g: Grid, p: Point) -> int {
    p.y * g.spec_width() + p.x
}

/// Cells of a well-formed grid have numbers below its size, and different
/// cells have different numbers.
proof fn lemma_cell_numbers(g: Grid, p: Point, q: Point)
    requires
        g.wf(),
        g.contains(p),
        g.contains(q),
    ensures
        0 <= cell_number(g, p) < g.spec_width() * g.spec_height(),
        cell_number(g, p) == cell_number(g, q) ==> p == q,
{
    let w = g.spec_width() as int;
    let h = g.spec_height() as int;
    g.lemma_contains(p);
    g.lemma_contains(q);
    assert(p.y * w + p.x < w * h) by (nonlinear_arith)
        requires
            0 <= p.x < w,
            0 <= p.y < h,
    ;
    assert(0 <= p.y * w) by (nonlinear_arith)
        requires
            0 <= p.y,
            0 <= w,
    ;
    if cell_number(g, p) == cell_number(g, q) {
        vstd::arithmetic::div_mod::lemma_fundamental_div_mod_converse(
            cell_number(g, p),
            w,
            p.y as int,
            p.x as int,
        );
        vstd::arithmetic::div_mod::lemma_fundamental_div_mod_converse(
            cell_number(g, q),
            w,
            q.y as int,
            q.x as int,
        );
    }
}

/// A list of cells of the grid without repeats is no longer than the grid
/// has cells.
pub proof fn lemma_distinct_cells_bound(g: Grid, p: Seq<Point>)
    requires
        g.wf(),
        p.no_duplicates(),
        forall|i: int| 0 <= i < p.len() ==> g.contains(#[trigger] p[i]),
    ensures
        p.len() <= g.spec_width() * g.spec_height(),
{
    let size = g.spec_width() * g.spec_height();
    let numbers = Seq::new(p.len(), |i: int| cell_number(g, p[i]));
    assert forall|i: int, j: int| 0 <= i < numbers.len() && 0 <= j < numbers.len() && i
        != j implies numbers[i] != numbers[j] by {
        lemma_cell_numbers(g, p[i], p[j]);
    }
    numbers.unique_seq_to_set();
    vstd::set_lib::lemma_int_range(0, size as int);
    assert forall|n: int| numbers.to_set().contains(n) implies vstd::set_lib::set_int_range(
        0,
        size as int,
    ).contains(n) by {
        let i = choose|i: int| 0 <= i < numbers.len() && numbers[i] == n;
        lemma_cell_numbers(g, p[i], p[i]);
    }
    vstd::set_lib::lemma_len_subset(
        numbers.to_set(),
        vstd::set_lib::set_int_range(0, size as int),
    );
}

/// A traced loop has no more cells than the grid: tracing ends after at most
/// width times height cells.
pub proof fn law_trace_fits_the_grid(g: Grid, start: Point, first: Point, max_steps: nat)
    requires
        g.wf(),
        g.contains(start),
        g.spec_walk_from(start, first, max_steps) is Ok,
    ensures
        g.spec_walk_from(start, first, max_steps)->Ok_0.len() <= g.spec_width()
            * g.spec_height(),
{
    let p = g.spec_walk_from(start, first, max_steps)->Ok_0;
    lemma_trace_is_closed_walk(g, start, first, max_steps);
    lemma_closed_walk_distinct(g, p);
    assert forall|i: int| 0 <= i < p.len() implies g.contains(#[trigger] p[i]) by {
        lemma_closed_walk_inside(g, p, i);
    }
    lemma_distinct_cells_bound(g, p);
}

/// The loop traced by [`Grid::trace_loop`] has as many cells as it has
/// distinct coordinates.
pub proof fn law_loop_visits_each_cell_once(g: Grid, max_steps: nat)
    requires
        g.wf(),
        g.spec_trace_loop(max_steps) is Ok,
    ensures
        g.spec_trace_loop(max_steps)->Ok_0.no_duplicates(),
        g.spec_trace_loop(max_steps)->Ok_0.to_set().len() == g.spec_trace_loop(
            max_steps,
        )->Ok_0.len(),
{
    law_trace_visits_each_cell_once(
        g,
        g.origin(),
        g.spec_start_points(g.origin())[0],
        max_steps,
    );
}

/// When the start has exactly the two connecting neighbours `first` and
/// `other`, and tracing towards `first` closes the loop, tracing towards
/// `other` closes it too and visits the same cells in the opposite order.
pub proof fn law_trace_directions_are_reverses(
    g: Grid,
    start: Point,
    first: Point,
    other: Point,
    max_steps: nat,
)
    requires
        g.contains(start),
        g.spec_start_points(start) == seq![first, other] || g.spec_start_points(start) == seq![
            other,
            first,
        ],
        g.spec_walk_from(start, first, max_steps) is Ok,
    ensures
        g.spec_walk_from(start, other, max_steps) == Ok::<Seq<Point>, PipeError>(
            reverse_loop(g.spec_walk_from(start, first, max_steps)->Ok_0),
        ),
{
    let p = g.spec_walk_from(start, first, max_steps)->Ok_0;
    lemma_trace_is_closed_walk(g, start, first, max_steps);
    lemma_closed_walk_length(g, p);
    lemma_closed_walk_distinct(g, p);
    lemma_reverse_closed_walk(g, p);
    let q = reverse_loop(p);
    let d = lemma_last_cell_connects(g, p);
    lemma_accepted_listed(g, start, d);
    let firsts = g.spec_start_points(start);
    let at = choose|i: int| 0 <= i < firsts.len() && firsts[i] == p.last();
    assert(p.last() == first || p.last() == other);
    assert(p[1] == first);
    assert(p.last() == p[p.len() - 1]);
    assert(q[1] == other);
    lemma_closed_walk_is_trace(g, q, max_steps);
}

} // verus!
