//! Telling inside from outside: a flood from the border of the enlarged grid
//! that never crosses the enlarged loop, and the count of the cells it does
//! not reach.
//!
//! The positions still to spread from wait in a `VecDeque`. The enlarged
//! loop and what the flood has reached are each a `HashSet` of the numbers
//! of the positions, counted row by row: what vstd states of a hash set
//! holds for keys whose hashing it models, which are the integers. The
//! contracts read such a set as a mask, one boolean for each position.

use vstd::prelude::*;
use std::collections::{HashSet, VecDeque};
use crate::pipe_expand::{lemma_position_number, lemma_position_numbers_differ, marks};
use crate::pipe_grid::{Grid, PipeError, Point};
use crate::pipe_laws::{law_trace_directions_are_reverses, reverse_loop};
use crate::pipe_route::Direction;
use crate::pipe_trace::MAX_STEPS;

verus! {

broadcast use {
    vstd::std_specs::vecdeque::group_vec_dequeue_axioms,
    vstd::std_specs::hash::group_hash_axioms,
};

/// Whether (`x`, `y`) is a position of the mask.
pub open spec fn inside(mask: Seq<Seq<bool>>, x: int, y: int) -> bool {
    0 <= y < mask.len() && 0 <= x < mask[y].len()
}

/// The entry of the mask at (`x`, `y`).
pub open spec fn at(mask: Seq<Seq<bool>>, x: int, y: int) -> bool {
    mask[y][x]
}

/// Whether the flood may enter (`x`, `y`): the position exists and is not
/// blocked.
pub open spec fn passable(blocked: Seq<Seq<bool>>, x: int, y: int) -> bool {
    inside(blocked, x, y) && !at(blocked, x, y)
}

/// Whether (`x`, `y`) lies in the first or last row or column.
pub open spec fn on_border(mask: Seq<Seq<bool>>, x: int, y: int) -> bool {
    inside(mask, x, y) && (x == 0 || y == 0 || y == mask.len() - 1 || x == mask[y].len() - 1)
}

/// Whether two positions are orthogonal neighbours.
pub open spec fn adjacent(a: (int, int), b: (int, int)) -> bool {
    (a.0 == b.0 && (a.1 == b.1 + 1 || a.1 + 1 == b.1)) || (a.1 == b.1 && (a.0 == b.0 + 1 || a.0
        + 1 == b.0))
}

/// Whether `way` leads from the border over unblocked positions, each an
/// orthogonal neighbour of the one before.
pub open spec fn seeps(blocked: Seq<Seq<bool>>, way: Seq<(int, int)>) -> bool {
    &&& way.len() >= 1
    &&& on_border(blocked, way[0].0, way[0].1)
    &&& forall|i: int| 0 <= i < way.len() ==> passable(blocked, (#[trigger] way[i]).0, way[i].1)
    &&& forall|i: int| 1 <= i < way.len() ==> adjacent(way[i - 1], #[trigger] way[i])
}

/// Whether the flood from the border reaches (`x`, `y`).
pub open spec fn reachable(blocked: Seq<Seq<bool>>, x: int, y: int) -> bool {
    exists|way: Seq<(int, int)>| #[trigger] seeps(blocked, way) && way.last() == (x, y)
}

/// Whether two masks have rows of the same lengths.
pub open spec fn same_shape(a: Seq<Seq<bool>>, b: Seq<Seq<bool>>) -> bool {
    &&& a.len() == b.len()
    &&& forall|y: int| #![trigger a[y]] #![trigger b[y]] 0 <= y < a.len() ==> a[y].len() == b[y].len()
}

/// Number of `false` entries in a row.
pub open spec fn unmarked_in_row(row: Seq<bool>) -> nat
    decreases row.len(),
{
    if row.len() == 0 {
        0
    } else {
        unmarked_in_row(row.drop_last()) + if row.last() {
            0nat
        } else {
            1nat
        }
    }
}

/// Number of `false` entries in a mask.
pub open spec fn unmarked(mask: Seq<Seq<bool>>) -> nat
    decreases mask.len(),
{
    if mask.len() == 0 {
        0
    } else {
        unmarked(mask.drop_last()) + unmarked_in_row(mask.last())
    }
}

/// Marking an unmarked entry of a row leaves one unmarked entry less.
proof fn lemma_mark_row(row: Seq<bool>, x: int)
    requires
        0 <= x < row.len(),
        !row[x],
    ensures
        unmarked_in_row(row.update(x, true)) + 1 == unmarked_in_row(row),
    decreases row.len(),
{
    let marked = row.update(x, true);
    if x == row.len() - 1 {
        assert(marked.drop_last() =~= row.drop_last());
    } else {
        lemma_mark_row(row.drop_last(), x);
        assert(marked.drop_last() =~= row.drop_last().update(x, true));
    }
}

/// Marking an unmarked entry of a mask leaves one unmarked entry less.
proof fn lemma_mark(mask: Seq<Seq<bool>>, x: int, y: int)
    requires
        inside(mask, x, y),
        !at(mask, x, y),
    ensures
        unmarked(mask.update(y, mask[y].update(x, true))) + 1 == unmarked(mask),
    decreases mask.len(),
{
    let marked = mask.update(y, mask[y].update(x, true));
    if y == mask.len() - 1 {
        assert(marked.drop_last() =~= mask.drop_last());
        lemma_mark_row(mask[y], x);
    } else {
        lemma_mark(mask.drop_last(), x, y);
        assert(marked.drop_last() =~= mask.drop_last().update(y, mask[y].update(x, true)));
    }
}

/// What holds of the flood at every moment: each marked position is
/// unblocked, reachable from the border, and has been queued.
#[verifier::opaque]
pub open spec fn flood_state(blocked: Seq<Seq<bool>>, outside: Seq<Seq<bool>>, queue: Seq<Point>) -> bool {
    &&& same_shape(blocked, outside)
    &&& forall|k: int|
        0 <= k < queue.len() ==> inside(blocked, (#[trigger] queue[k]).x as int, queue[k].y as int)
            && at(outside, queue[k].x as int, queue[k].y as int)
    &&& forall|x: int, y: int|
        inside(blocked, x, y) && #[trigger] at(outside, x, y) ==> !at(blocked, x, y) && reachable(
            blocked,
            x,
            y,
        ) && queue.contains(Point { x: x as usize, y: y as usize })
}

/// A marked position was reached from the border and has been queued.
proof fn lemma_flood_state_mark(
    blocked: Seq<Seq<bool>>,
    outside: Seq<Seq<bool>>,
    queue: Seq<Point>,
    x: int,
    y: int,
)
    requires
        flood_state(blocked, outside, queue),
        inside(blocked, x, y),
        at(outside, x, y),
    ensures
        same_shape(blocked, outside),
        !at(blocked, x, y),
        reachable(blocked, x, y),
        queue.contains(Point { x: x as usize, y: y as usize }),
{
    reveal(flood_state);
}

/// A queued position is marked.
proof fn lemma_flood_state_queued(
    blocked: Seq<Seq<bool>>,
    outside: Seq<Seq<bool>>,
    queue: Seq<Point>,
    k: int,
)
    requires
        flood_state(blocked, outside, queue),
        0 <= k < queue.len(),
    ensures
        same_shape(blocked, outside),
        inside(blocked, queue[k].x as int, queue[k].y as int),
        at(outside, queue[k].x as int, queue[k].y as int),
{
    reveal(flood_state);
}

/// Whether every unblocked neighbour of `p` is marked.
pub open spec fn settled(blocked: Seq<Seq<bool>>, outside: Seq<Seq<bool>>, p: (int, int)) -> bool {
    forall|n: (int, int)| #[trigger] adjacent(p, n) && passable(blocked, n.0, n.1) ==> at(outside, n.0, n.1)
}

/// A mark on every unblocked border position, together with marks that
/// spread to every unblocked neighbour, covers every way in from the border.
proof fn lemma_flood_complete(
    blocked: Seq<Seq<bool>>,
    outside: Seq<Seq<bool>>,
    way: Seq<(int, int)>,
    i: int,
)
    requires
        same_shape(blocked, outside),
        seeps(blocked, way),
        0 <= i < way.len(),
        forall|x: int, y: int| #[trigger]
            on_border(blocked, x, y) && passable(blocked, x, y) ==> at(outside, x, y),
        forall|x: int, y: int|
            inside(blocked, x, y) && #[trigger] at(outside, x, y) ==> settled(blocked, outside, (x, y)),
    ensures
        at(outside, way[i].0, way[i].1),
    decreases i,
{
    if i == 0 {
        assert(on_border(blocked, way[0].0, way[0].1));
        assert(passable(blocked, way[0].0, way[0].1));
    } else {
        lemma_flood_complete(blocked, outside, way, i - 1);
        let p = way[i - 1];
        let n = way[i];
        assert(passable(blocked, p.0, p.1));
        assert(at(outside, p.0, p.1));
        assert(settled(blocked, outside, (p.0, p.1)));
        assert(adjacent(p, n));
        assert(passable(blocked, n.0, n.1));
    }
}

/// A way in from the border can be continued to an unblocked neighbour.
proof fn lemma_reach_on(blocked: Seq<Seq<bool>>, p: (int, int), n: (int, int))
    requires
        reachable(blocked, p.0, p.1),
        adjacent(p, n),
        passable(blocked, n.0, n.1),
    ensures
        reachable(blocked, n.0, n.1),
{
    let way = choose|way: Seq<(int, int)>| #[trigger] seeps(blocked, way) && way.last() == p;
    let longer = way.push(n);
    assert forall|i: int| 0 <= i < longer.len() implies passable(
        blocked,
        (#[trigger] longer[i]).0,
        longer[i].1,
    ) by {
        if i < way.len() {
            assert(longer[i] == way[i]);
        }
    }
    assert forall|i: int| 1 <= i < longer.len() implies adjacent(
        longer[i - 1],
        #[trigger] longer[i],
    ) by {
        if i < way.len() {
            assert(longer[i] == way[i]);
            assert(longer[i - 1] == way[i - 1]);
        }
    }
    assert(longer[0] == way[0]);
    assert(seeps(blocked, longer));
    assert(longer.last() == n);
}

/// An unblocked border position is reachable.
proof fn lemma_reach_border(blocked: Seq<Seq<bool>>, x: int, y: int)
    requires
        on_border(blocked, x, y),
        passable(blocked, x, y),
    ensures
        reachable(blocked, x, y),
{
    let way = seq![(x, y)];
    assert(seeps(blocked, way));
    assert(way.last() == (x, y));
}

/// Marks (`x`, `y`) and queues it, unless it is blocked or marked already.
/// The positions in `done` have left the queue.
fn visit(
    blocked: &HashSet<usize>,
    width: usize,
    height: usize,
    outside: &mut HashSet<usize>,
    queue: &mut VecDeque<Point>,
    Ghost(done): Ghost<Seq<Point>>,
    x: usize,
    y: usize,
)
    requires
        width * height <= usize::MAX,
        inside(marks(blocked@, width as int, height as int), x as int, y as int),
        flood_state(marks(blocked@, width as int, height as int), marks(old(outside)@, width as int, height as int), done + old(queue)@),
        passable(marks(blocked@, width as int, height as int), x as int, y as int) ==> reachable(
            marks(blocked@, width as int, height as int),
            x as int,
            y as int,
        ),
    ensures
        flood_state(marks(blocked@, width as int, height as int), marks(final(outside)@, width as int, height as int), done + final(queue)@),
        final(queue)@.len() >= old(queue)@.len(),
        unmarked(marks(final(outside)@, width as int, height as int)) + final(queue)@.len() == unmarked(
            marks(old(outside)@, width as int, height as int),
        ) + old(queue)@.len(),
        forall|a: int, b: int|
            inside(marks(blocked@, width as int, height as int), a, b) ==> #[trigger] at(
                marks(final(outside)@, width as int, height as int),
                a,
                b,
            ) == (at(marks(old(outside)@, width as int, height as int), a, b) || (a == x && b
                == y && !at(marks(blocked@, width as int, height as int), a, b))),
        forall|k: usize| #[trigger]
            final(outside)@.contains(k) ==> old(outside)@.contains(k) || k < width * height,
{
    let ghost mask = marks(blocked@, width as int, height as int);
    let ghost before = marks(outside@, width as int, height as int);
    let ghost queued = done + queue@;
    let ghost numbers = outside@;
    reveal(flood_state);
    proof {
        lemma_position_number(width as int, height as int, x as int, y as int);
    }
    let number = y * width + x;
    assert(before[y as int][x as int] == numbers.contains(number));
    assert(mask[y as int][x as int] == blocked@.contains(number));
    if !blocked.contains(&number) && !outside.contains(&number) {
        outside.insert(number);
        queue.push_back(Point { x, y });
        proof {
            let after = marks(outside@, width as int, height as int);
            let all = done + queue@;
            let marked = before.update(y as int, before[y as int].update(x as int, true));
            assert(all =~= queued.push(Point { x, y }));
            assert forall|b: int| 0 <= b < height implies #[trigger] after[b] =~= marked[b] by {
                assert forall|a: int| 0 <= a < width implies after[b][a] == marked[b][a] by {
                    lemma_position_number(width as int, height as int, a, b);
                    if b * width + a == y * width + x {
                        lemma_position_numbers_differ(width as int, a, b, x as int, y as int);
                    }
                    assert(before[b][a] == numbers.contains((b * width + a) as usize));
                }
            }
            assert(after =~= marked);
            lemma_mark(before, x as int, y as int);
            assert forall|k: int| 0 <= k < all.len() implies inside(
                mask,
                (#[trigger] all[k]).x as int,
                all[k].y as int,
            ) && at(after, all[k].x as int, all[k].y as int) by {
                if k < queued.len() {
                    assert(all[k] == queued[k]);
                    assert(at(before, queued[k].x as int, queued[k].y as int));
                }
            }
            assert forall|a: int, b: int| inside(mask, a, b) && #[trigger] at(after, a, b) implies !at(
                mask,
                a,
                b,
            ) && reachable(mask, a, b) && all.contains(Point { x: a as usize, y: b as usize }) by {
                if a == x && b == y {
                    assert(all[queued.len() as int] == Point { x, y });
                } else {
                    assert(at(before, a, b));
                    let q = Point { x: a as usize, y: b as usize };
                    let k = choose|k: int| 0 <= k < queued.len() && queued[k] == q;
                    assert(all[k] == q);
                }
            }
        }
    }
}

/// Whether every mark of `before` is a mark of `after`.
pub open spec fn grown(before: Seq<Seq<bool>>, after: Seq<Seq<bool>>) -> bool {
    forall|x: int, y: int| inside(before, x, y) && at(before, x, y) ==> #[trigger] at(after, x, y)
}

/// A settled position stays settled when marks are added.
proof fn lemma_settled_grows(
    blocked: Seq<Seq<bool>>,
    before: Seq<Seq<bool>>,
    after: Seq<Seq<bool>>,
    p: (int, int),
)
    requires
        same_shape(blocked, before),
        settled(blocked, before, p),
        grown(before, after),
    ensures
        settled(blocked, after, p),
{
    assert forall|n: (int, int)| #[trigger] adjacent(p, n) && passable(blocked, n.0, n.1) implies at(
        after,
        n.0,
        n.1,
    ) by {
        assert(at(before, n.0, n.1));
        assert(inside(before, n.0, n.1));
    }
}

/// The position one step from `p` towards `d`.
pub open spec fn toward(p: (int, int), d: Direction) -> (int, int) {
    match d {
        Direction::N => (p.0, p.1 - 1),
        Direction::S => (p.0, p.1 + 1),
        Direction::E => (p.0 + 1, p.1),
        Direction::W => (p.0 - 1, p.1),
    }
}

/// Whether the neighbour of `p` towards `d` is marked, should the flood be
/// able to enter it.
pub open spec fn spread_towards(
    blocked: Seq<Seq<bool>>,
    outside: Seq<Seq<bool>>,
    p: (int, int),
    d: Direction,
) -> bool {
    passable(blocked, toward(p, d).0, toward(p, d).1) ==> at(outside, toward(p, d).0, toward(p, d).1)
}

/// A neighbour that the flood has spread to stays marked when marks are
/// added.
proof fn lemma_grown_keeps(
    blocked: Seq<Seq<bool>>,
    before: Seq<Seq<bool>>,
    after: Seq<Seq<bool>>,
    p: (int, int),
    d: Direction,
)
    requires
        same_shape(blocked, before),
        spread_towards(blocked, before, p, d),
        grown(before, after),
    ensures
        spread_towards(blocked, after, p, d),
{
    let n = toward(p, d);
    if passable(blocked, n.0, n.1) {
        assert(inside(before, n.0, n.1));
        assert(at(before, n.0, n.1));
    }
}

/// Marks added twice are marks added.
proof fn lemma_grown_twice(a: Seq<Seq<bool>>, b: Seq<Seq<bool>>, c: Seq<Seq<bool>>)
    requires
        same_shape(a, b),
        grown(a, b),
        grown(b, c),
    ensures
        grown(a, c),
{
    assert forall|x: int, y: int| inside(a, x, y) && at(a, x, y) implies #[trigger] at(c, x, y) by {
        assert(at(b, x, y));
        assert(inside(b, x, y));
    }
}

/// A position whose four neighbours the flood has spread to is settled.
proof fn lemma_settled(blocked: Seq<Seq<bool>>, outside: Seq<Seq<bool>>, p: (int, int))
    requires
        spread_towards(blocked, outside, p, Direction::N),
        spread_towards(blocked, outside, p, Direction::S),
        spread_towards(blocked, outside, p, Direction::E),
        spread_towards(blocked, outside, p, Direction::W),
    ensures
        settled(blocked, outside, p),
{
    assert forall|n: (int, int)| #[trigger] adjacent(p, n) && passable(blocked, n.0, n.1) implies at(
        outside,
        n.0,
        n.1,
    ) by {
        assert(n == toward(p, Direction::N) || n == toward(p, Direction::S) || n == toward(
            p,
            Direction::E,
        ) || n == toward(p, Direction::W));
    }
}

/// Lets the flood spread from the marked position `p` to its neighbour
/// towards `d`.
fn spread_to(
    blocked: &HashSet<usize>,
    width: usize,
    height: usize,
    outside: &mut HashSet<usize>,
    queue: &mut VecDeque<Point>,
    Ghost(done): Ghost<Seq<Point>>,
    p: Point,
    d: Direction,
)
    requires
        width * height <= usize::MAX,
        inside(marks(blocked@, width as int, height as int), p.x as int, p.y as int),
        at(marks(old(outside)@, width as int, height as int), p.x as int, p.y as int),
        flood_state(marks(blocked@, width as int, height as int), marks(old(outside)@, width as int, height as int), done + old(queue)@),
    ensures
        flood_state(marks(blocked@, width as int, height as int), marks(final(outside)@, width as int, height as int), done + final(queue)@),
        same_shape(marks(blocked@, width as int, height as int), marks(old(outside)@, width as int, height as int)),
        same_shape(marks(blocked@, width as int, height as int), marks(final(outside)@, width as int, height as int)),
        final(queue)@.len() >= old(queue)@.len(),
        unmarked(marks(final(outside)@, width as int, height as int)) + final(queue)@.len() == unmarked(
            marks(old(outside)@, width as int, height as int),
        ) + old(queue)@.len(),
        grown(marks(old(outside)@, width as int, height as int), marks(final(outside)@, width as int, height as int)),
        spread_towards(
            marks(blocked@, width as int, height as int),
            marks(final(outside)@, width as int, height as int),
            (p.x as int, p.y as int),
            d,
        ),
        forall|k: usize| #[trigger]
            final(outside)@.contains(k) ==> old(outside)@.contains(k) || k < width * height,
{
    let ghost mask = marks(blocked@, width as int, height as int);
    let ghost here = (p.x as int, p.y as int);
    let ghost before = marks(outside@, width as int, height as int);
    let ghost queued = done + queue@;
    proof {
        lemma_flood_state_mark(mask, before, queued, here.0, here.1);
    }
    let target: Option<(usize, usize)> = match d {
        Direction::N => if p.y > 0 {
            Some((p.x, p.y - 1))
        } else {
            None
        },
        Direction::S => if p.y + 1 < height {
            Some((p.x, p.y + 1))
        } else {
            None
        },
        Direction::E => if p.x + 1 < width {
            Some((p.x + 1, p.y))
        } else {
            None
        },
        Direction::W => if p.x > 0 {
            Some((p.x - 1, p.y))
        } else {
            None
        },
    };
    if let Some((x, y)) = target {
        if y < height {
            if x < width {
                proof {
                    if passable(mask, x as int, y as int) {
                        lemma_reach_on(mask, here, (x as int, y as int));
                    }
                }
                visit(blocked, width, height, outside, queue, Ghost(done), x, y);
                proof {
                    let after = marks(outside@, width as int, height as int);
                    lemma_flood_state_mark(mask, after, done + queue@, here.0, here.1);
                    assert(at(after, x as int, y as int) || !passable(mask, x as int, y as int));
                    assert forall|a: int, b: int| inside(before, a, b) && at(before, a, b) implies
                        #[trigger] at(after, a, b) by {
                        assert(inside(mask, a, b));
                    }
                }
            }
        }
    }
}

/// Lets the flood spread from the marked position `p` to its four
/// neighbours.
fn spread(
    blocked: &HashSet<usize>,
    width: usize,
    height: usize,
    outside: &mut HashSet<usize>,
    queue: &mut VecDeque<Point>,
    Ghost(done): Ghost<Seq<Point>>,
    p: Point,
)
    requires
        width * height <= usize::MAX,
        inside(marks(blocked@, width as int, height as int), p.x as int, p.y as int),
        at(marks(old(outside)@, width as int, height as int), p.x as int, p.y as int),
        flood_state(marks(blocked@, width as int, height as int), marks(old(outside)@, width as int, height as int), done + old(queue)@),
    ensures
        flood_state(marks(blocked@, width as int, height as int), marks(final(outside)@, width as int, height as int), done + final(queue)@),
        final(queue)@.len() >= old(queue)@.len(),
        unmarked(marks(final(outside)@, width as int, height as int)) + final(queue)@.len() == unmarked(
            marks(old(outside)@, width as int, height as int),
        ) + old(queue)@.len(),
        grown(marks(old(outside)@, width as int, height as int), marks(final(outside)@, width as int, height as int)),
        settled(
            marks(blocked@, width as int, height as int),
            marks(final(outside)@, width as int, height as int),
            (p.x as int, p.y as int),
        ),
        forall|k: usize| #[trigger]
            final(outside)@.contains(k) ==> old(outside)@.contains(k) || k < width * height,
{
    let ghost mask = marks(blocked@, width as int, height as int);
    let ghost here = (p.x as int, p.y as int);
    let ghost marks0 = marks(outside@, width as int, height as int);
    spread_to(blocked, width, height, outside, queue, Ghost(done), p, Direction::N);
    let ghost marks1 = marks(outside@, width as int, height as int);
    assert(at(marks1, here.0, here.1)) by {
        assert(inside(marks0, here.0, here.1));
    }
    spread_to(blocked, width, height, outside, queue, Ghost(done), p, Direction::S);
    let ghost marks2 = marks(outside@, width as int, height as int);
    assert(at(marks2, here.0, here.1)) by {
        assert(inside(marks1, here.0, here.1));
    }
    spread_to(blocked, width, height, outside, queue, Ghost(done), p, Direction::E);
    let ghost marks3 = marks(outside@, width as int, height as int);
    assert(at(marks3, here.0, here.1)) by {
        assert(inside(marks2, here.0, here.1));
    }
    spread_to(blocked, width, height, outside, queue, Ghost(done), p, Direction::W);
    proof {
        let marks = marks(outside@, width as int, height as int);
        lemma_grown_twice(marks2, marks3, marks);
        lemma_grown_twice(marks1, marks2, marks);
        lemma_grown_twice(marks0, marks1, marks);
        lemma_grown_keeps(mask, marks1, marks, here, Direction::N);
        lemma_grown_keeps(mask, marks2, marks, here, Direction::S);
        lemma_grown_keeps(mask, marks3, marks, here, Direction::E);
        lemma_settled(mask, marks, here);
    }
}

/// The positions of the first and last row of a grid of the given size,
/// column by column, the upper one first.
pub open spec fn row_edges(width: int, height: int) -> Seq<Point> {
    Seq::new(
        (2 * width) as nat,
        |k: int|
            Point {
                x: (k / 2) as usize,
                y: if k % 2 == 0 {
                    0
                } else {
                    (height - 1) as usize
                },
            },
    )
}

/// The positions of the first and last column of a grid of the given size,
/// row by row, the left one first.
pub open spec fn column_edges(width: int, height: int) -> Seq<Point> {
    Seq::new(
        (2 * height) as nat,
        |k: int|
            Point {
                x: if k % 2 == 0 {
                    0
                } else {
                    (width - 1) as usize
                },
                y: (k / 2) as usize,
            },
    )
}

/// Whether (`x`, `y`) lies in the first or last row or column of a grid of
/// the given size.
pub open spec fn on_edge(width: int, height: int, x: int, y: int) -> bool {
    0 <= x < width && 0 <= y < height && (x == 0 || y == 0 || x == width - 1 || y == height - 1)
}

/// The border of a grid of the given size: the positions of the first and
/// last row, then those of the first and last column. A corner is listed
/// twice.
pub fn edges(width: usize, height: usize) -> (border: Vec<Point>)
    requires
        width > 0,
        height > 0,
    ensures
        border@ == row_edges(width as int, height as int) + column_edges(
            width as int,
            height as int,
        ),
        forall|k: int|
            0 <= k < border.len() ==> on_edge(
                width as int,
                height as int,
                (#[trigger] border[k]).x as int,
                border[k].y as int,
            ),
        forall|x: int, y: int| #[trigger]
            on_edge(width as int, height as int, x, y) ==> border@.contains(
                Point { x: x as usize, y: y as usize },
            ),
{
    let ghost rows = row_edges(width as int, height as int);
    let ghost columns = column_edges(width as int, height as int);
    let mut border: Vec<Point> = Vec::new();
    let mut x: usize = 0;
    while x < width
        invariant
            x <= width,
            height > 0,
            rows == row_edges(width as int, height as int),
            border@ == rows.take(2 * x),
        decreases width - x,
    {
        border.push(Point { x, y: 0 });
        border.push(Point { x, y: height - 1 });
        assert(border@ =~= rows.take(2 * (x + 1)));
        x += 1;
    }
    assert(border@ =~= rows);
    let mut y: usize = 0;
    while y < height
        invariant
            y <= height,
            width > 0,
            columns == column_edges(width as int, height as int),
            border@ == rows + columns.take(2 * y),
        decreases height - y,
    {
        border.push(Point { x: 0, y });
        border.push(Point { x: width - 1, y });
        assert(border@ =~= rows + columns.take(2 * (y + 1)));
        y += 1;
    }
    assert(border@ =~= rows + columns);
    proof {
        assert forall|x: int, y: int| #[trigger]
            on_edge(width as int, height as int, x, y) implies border@.contains(
            Point { x: x as usize, y: y as usize },
        ) by {
            let p = Point { x: x as usize, y: y as usize };
            if y == 0 {
                assert(border@[2 * x] == p);
            } else if y == height - 1 {
                assert(border@[2 * x + 1] == p);
            } else if x == 0 {
                assert(border@[2 * width + 2 * y] == p);
            } else {
                assert(border@[2 * width + 2 * y + 1] == p);
            }
        }
    }
    border
}

/// Floods a grid of the given size from its border. The positions are
/// numbered row by row, (`x`, `y`) having the number `y * width + x`, and
/// `blocked` holds the numbers of those that the flood may not enter. The
/// flood starts at every other position of the first and last row and
/// column and spreads to orthogonal neighbours that are not blocked. The
/// result holds the numbers of the positions that it reached.
pub fn flood_outside(blocked: &HashSet<usize>, width: usize, height: usize) -> (outside: HashSet<
    usize,
>)
    requires
        width > 0,
        height > 0,
        width * height <= usize::MAX,
    ensures
        forall|x: int, y: int|
            0 <= y < height && 0 <= x < width ==> (#[trigger] reachable(
                marks(blocked@, width as int, height as int),
                x,
                y,
            ) == outside@.contains((y * width + x) as usize)),
        forall|k: usize| #[trigger] outside@.contains(k) ==> k < width * height,
{
    let ghost mask = marks(blocked@, width as int, height as int);
    let mut outside: HashSet<usize> = HashSet::new();
    let mut queue: VecDeque<Point> = VecDeque::new();
    let ghost mut done: Seq<Point> = Seq::empty();
    proof {
        reveal(flood_state);
        assert(done + queue@ =~= Seq::<Point>::empty());
        assert(same_shape(mask, marks(outside@, width as int, height as int))) by {
            assert forall|y: int| 0 <= y < mask.len() implies (#[trigger] mask[y]).len()
                == marks(outside@, width as int, height as int)[y].len() by {
            }
        }
        assert forall|x: int, y: int| inside(mask, x, y) implies !#[trigger] at(
            marks(outside@, width as int, height as int),
            x,
            y,
        ) by {
        }
    }
    let border = edges(width, height);
    let mut i: usize = 0;
    while i < border.len()
        invariant
            i <= border.len(),
            mask == marks(blocked@, width as int, height as int),
            done.len() == 0,
            width * height <= usize::MAX,
            forall|k: usize| #[trigger] outside@.contains(k) ==> k < width * height,
            flood_state(mask, marks(outside@, width as int, height as int), done + queue@),
            forall|k: int|
                0 <= k < border.len() ==> on_edge(
                    width as int,
                    height as int,
                    (#[trigger] border[k]).x as int,
                    border[k].y as int,
                ),
            forall|k: int|
                0 <= k < i && passable(mask, (#[trigger] border[k]).x as int, border[k].y as int)
                    ==> at(marks(outside@, width as int, height as int), border[k].x as int, border[k].y as int),
        decreases border.len() - i,
    {
        let p = border[i];
        let ghost before = marks(outside@, width as int, height as int);
        proof {
            assert(on_edge(width as int, height as int, p.x as int, p.y as int));
            if passable(mask, p.x as int, p.y as int) {
                lemma_reach_border(mask, p.x as int, p.y as int);
            }
        }
        visit(blocked, width, height, &mut outside, &mut queue, Ghost(done), p.x, p.y);
        proof {
            let marks = marks(outside@, width as int, height as int);
            assert forall|k: int|
                0 <= k < i + 1 && passable(
                    mask,
                    (#[trigger] border[k]).x as int,
                    border[k].y as int,
                ) implies at(marks, border[k].x as int, border[k].y as int) by {
                assert(inside(mask, border[k].x as int, border[k].y as int));
                if k < i {
                    assert(at(before, border[k].x as int, border[k].y as int));
                }
            }
        }
        i += 1;
    }
    proof {
        assert forall|a: int, b: int| #[trigger]
            on_border(mask, a, b) && passable(mask, a, b) implies at(
            marks(outside@, width as int, height as int),
            a,
            b,
        ) by {
            assert(on_edge(width as int, height as int, a, b));
            let q = Point { x: a as usize, y: b as usize };
            let k = choose|k: int| 0 <= k < border@.len() && border@[k] == q;
            assert(border[k] == q);
        }
    }
    while queue.len() > 0
        invariant
            mask == marks(blocked@, width as int, height as int),
            width * height <= usize::MAX,
            forall|k: usize| #[trigger] outside@.contains(k) ==> k < width * height,
            flood_state(mask, marks(outside@, width as int, height as int), done + queue@),
            forall|a: int, b: int| #[trigger]
                on_border(mask, a, b) && passable(mask, a, b) ==> at(
                    marks(outside@, width as int, height as int),
                    a,
                    b,
                ),
            forall|k: int|
                0 <= k < done.len() ==> settled(
                    mask,
                    marks(outside@, width as int, height as int),
                    ((#[trigger] done[k]).x as int, done[k].y as int),
                ),
        decreases unmarked(marks(outside@, width as int, height as int)) + queue@.len(),
    {
        let ghost queued = done + queue@;
        let ghost before = marks(outside@, width as int, height as int);
        let ghost settled_before = done;
        let p = queue.pop_front().unwrap();
        proof {
            done = settled_before.push(p);
            assert(done + queue@ =~= queued);
            assert(queued[settled_before.len() as int] == p);
            lemma_flood_state_queued(mask, before, queued, settled_before.len() as int);
        }
        spread(blocked, width, height, &mut outside, &mut queue, Ghost(done), p);
        proof {
            let marks = marks(outside@, width as int, height as int);
            assert forall|k: int| 0 <= k < done.len() implies settled(
                mask,
                marks,
                ((#[trigger] done[k]).x as int, done[k].y as int),
            ) by {
                if k < settled_before.len() {
                    assert(done[k] == settled_before[k]);
                    lemma_settled_grows(
                        mask,
                        before,
                        marks,
                        (done[k].x as int, done[k].y as int),
                    );
                }
            }
            assert forall|a: int, b: int| #[trigger]
                on_border(mask, a, b) && passable(mask, a, b) implies at(marks, a, b) by {
                assert(at(before, a, b));
                assert(inside(before, a, b));
            }
        }
    }
    proof {
        let marks = marks(outside@, width as int, height as int);
        reveal(flood_state);
        assert(done + queue@ =~= done);
        assert forall|a: int, b: int| inside(mask, a, b) && #[trigger] at(marks, a, b) implies settled(
            mask,
            marks,
            (a, b),
        ) by {
            let q = Point { x: a as usize, y: b as usize };
            let k = choose|k: int| 0 <= k < done.len() && done[k] == q;
            assert(settled(mask, marks, (done[k].x as int, done[k].y as int)));
        }
        assert forall|x: int, y: int| 0 <= y < height && 0 <= x < width implies (
        #[trigger] reachable(mask, x, y) == outside@.contains((y * width + x) as usize)) by {
            assert(inside(mask, x, y));
            assert(outside@.contains((y * width + x) as usize) == at(marks, x, y));
            if reachable(mask, x, y) {
                let way = choose|way: Seq<(int, int)>| #[trigger]
                    seeps(mask, way) && way.last() == (x, y);
                lemma_flood_complete(mask, marks, way, way.len() - 1);
            }
        }
    }
    outside
}

impl Grid {
    /// Whether the cell `p` is enclosed by the loop whose cells are
    /// `members`: it lies in the grid, is no loop cell, and the flood from the
    /// border of the enlarged grid does not reach the centre of its block.
    pub open spec fn encloses(&self, members: Set<Point>, p: Point) -> bool {
        &&& self.contains(p)
        &&& !members.contains(p)
        &&& !reachable(self.expanded_loop(members), 3 * p.x + 1, 3 * p.y + 1)
    }

    /// Number of enclosed cells among the first `x_end` cells of row `y`.
    pub open spec fn enclosed_in_row(&self, members: Set<Point>, y: int, x_end: int) -> nat
        decreases x_end,
    {
        if x_end <= 0 {
            0
        } else {
            self.enclosed_in_row(members, y, x_end - 1) + if self.encloses(
                members,
                Point { x: (x_end - 1) as usize, y: y as usize },
            ) {
                1nat
            } else {
                0nat
            }
        }
    }

    /// Number of enclosed cells in the first `y_end` rows.
    pub open spec fn enclosed_in_rows(&self, members: Set<Point>, y_end: int) -> nat
        decreases y_end,
    {
        if y_end <= 0 {
            0
        } else {
            self.enclosed_in_rows(members, y_end - 1) + self.enclosed_in_row(
                members,
                y_end - 1,
                self.spec_width() as int,
            )
        }
    }

    /// Number of cells of the grid that the loop encloses.
    pub open spec fn spec_count_enclosed(&self, members: Set<Point>) -> nat {
        self.enclosed_in_rows(members, self.spec_height() as int)
    }

    /// A row holds no more enclosed cells than cells.
    pub proof fn lemma_enclosed_in_row_bound(&self, members: Set<Point>, y: int, x_end: int)
        requires
            0 <= x_end,
        ensures
            self.enclosed_in_row(members, y, x_end) <= x_end,
        decreases x_end,
    {
        if x_end > 0 {
            self.lemma_enclosed_in_row_bound(members, y, x_end - 1);
        }
    }

    /// The first rows hold no more enclosed cells than cells.
    pub proof fn lemma_enclosed_in_rows_bound(&self, members: Set<Point>, y_end: int)
        requires
            0 <= y_end,
        ensures
            self.enclosed_in_rows(members, y_end) <= y_end * self.spec_width(),
        decreases y_end,
    {
        if y_end > 0 {
            self.lemma_enclosed_in_rows_bound(members, y_end - 1);
            self.lemma_enclosed_in_row_bound(members, y_end - 1, self.spec_width() as int);
            assert(y_end * self.spec_width() == (y_end - 1) * self.spec_width()
                + self.spec_width()) by (nonlinear_arith);
        }
    }

    /// Counts the cells that the loop through the cells of `path` encloses.
    /// The enlarged grid is flooded from its border without crossing the
    /// enlarged loop; a cell counts when the centre of its block is not on
    /// the enlarged loop, which it is for the loop cells alone, and the
    /// flood did not reach it.
    pub fn count_enclosed(&self, path: &Vec<Point>) -> (count: usize)
        requires
            self.wf(),
            9 * self.spec_width() * self.spec_height() <= usize::MAX,
        ensures
            count == self.spec_count_enclosed(path@.to_set()),
    {
        let ghost members = path@.to_set();
        let width = self.width();
        let height = self.height();
        proof {
            assert(3 * width <= usize::MAX && 3 * height <= usize::MAX && width * height
                <= usize::MAX) by (nonlinear_arith)
                requires
                    9 * width * height <= usize::MAX,
                    width > 0,
                    height > 0,
            ;
        }
        let (_, blocked) = self.expand_with_loop(path);
        proof {
            assert((3 * width) * (3 * height) <= usize::MAX) by (nonlinear_arith)
                requires
                    9 * width * height <= usize::MAX,
            ;
        }
        let outside = flood_outside(&blocked, 3 * width, 3 * height);
        let ghost big = marks(blocked@, 3 * width, 3 * height);
        let mut count: usize = 0;
        let mut y: usize = 0;
        while y < height
            invariant
                self.wf(),
                width == self.spec_width(),
                height == self.spec_height(),
                width * height <= usize::MAX,
                3 * width <= usize::MAX,
                3 * height <= usize::MAX,
                members == path@.to_set(),
                big == self.expanded_loop(members),
                big == marks(blocked@, 3 * width, 3 * height),
                (3 * width) * (3 * height) <= usize::MAX,
                forall|a: int, b: int|
                    0 <= b < 3 * height && 0 <= a < 3 * width ==> (#[trigger] reachable(big, a, b)
                        == outside@.contains((b * (3 * width) + a) as usize)),
                y <= height,
                count == self.enclosed_in_rows(members, y as int),
            decreases height - y,
        {
            let ghost so_far = count;
            let mut x: usize = 0;
            proof {
                self.lemma_enclosed_in_rows_bound(members, y as int);
                assert(y * width + width <= height * width) by (nonlinear_arith)
                    requires
                        y < height,
                ;
            }
            while x < width
                invariant
                    self.wf(),
                    width == self.spec_width(),
                    height == self.spec_height(),
                    3 * width <= usize::MAX,
                    3 * height <= usize::MAX,
                    members == path@.to_set(),
                    big == marks(blocked@, 3 * width, 3 * height),
                    (3 * width) * (3 * height) <= usize::MAX,
                    forall|a: int, b: int|
                        0 <= b < 3 * height && 0 <= a < 3 * width ==> (#[trigger] reachable(
                            big,
                            a,
                            b,
                        ) == outside@.contains((b * (3 * width) + a) as usize)),
                    big == self.expanded_loop(members),
                    y < height,
                    x <= width,
                    so_far + width <= usize::MAX,
                    count == so_far + self.enclosed_in_row(members, y as int, x as int),
                decreases width - x,
            {
                proof {
                    self.lemma_enclosed_in_row_bound(members, y as int, x as int);
                    self.lemma_contains(Point { x, y });
                    lemma_position_number(3 * width, 3 * height, 3 * x + 1, 3 * y + 1);
                    assert(big[3 * y + 1][3 * x + 1] == blocked@.contains(
                        ((3 * y + 1) * (3 * width) + (3 * x + 1)) as usize,
                    ));
                    assert(big[3 * y + 1][3 * x + 1] == self.on_expanded_loop(
                        members,
                        3 * x + 1,
                        3 * y + 1,
                    ));
                    assert((3 * x + 1) / 3 == x && (3 * y + 1) / 3 == y);
                    assert(self.on_expanded_loop(members, 3 * x + 1, 3 * y + 1) == members.contains(
                        Point { x, y },
                    ));
                    assert(reachable(big, 3 * x + 1, 3 * y + 1) == outside@.contains(
                        ((3 * y + 1) * (3 * width) + (3 * x + 1)) as usize,
                    ));
                }
                let centre = (3 * y + 1) * (3 * width) + (3 * x + 1);
                if !blocked.contains(&centre) && !outside.contains(&centre) {
                    count += 1;
                }
                x += 1;
            }
            y += 1;
        }
        count
    }

    /// Traces the loop through the start cell and counts the cells it
    /// encloses.
    pub fn count_enclosed_by_loop(&self, max_steps: usize) -> (r: Result<usize, PipeError>)
        requires
            self.wf(),
            9 * self.spec_width() * self.spec_height() <= usize::MAX,
        ensures
            match self.spec_trace_loop(max_steps as nat) {
                Ok(path) => r == Ok::<usize, PipeError>(
                    self.spec_count_enclosed(path.to_set()) as usize,
                ),
                Err(e) => r == Err::<usize, PipeError>(e),
            },
    {
        match self.trace_loop(max_steps) {
            Ok(path) => Ok(self.count_enclosed(&path)),
            Err(e) => Err(e),
        }
    }
}

/// The number of cells that the loop through the start of the grid
/// encloses, the loop traced within `MAX_STEPS` steps.
pub fn solve(grid: &Grid) -> (r: Result<usize, PipeError>)
    requires
        grid.wf(),
        9 * grid.spec_width() * grid.spec_height() <= usize::MAX,
    ensures
        match grid.spec_trace_loop(MAX_STEPS as nat) {
            Ok(path) => r == Ok::<usize, PipeError>(
                grid.spec_count_enclosed(path.to_set()) as usize,
            ) && grid.spec_count_enclosed(path.to_set()) <= grid.spec_width() * grid.spec_height(),
            Err(e) => r == Err::<usize, PipeError>(e),
        },
{
    proof {
        if grid.spec_trace_loop(MAX_STEPS as nat) is Ok {
            grid.lemma_enclosed_in_rows_bound(
                grid.spec_trace_loop(MAX_STEPS as nat)->Ok_0.to_set(),
                grid.spec_height() as int,
            );
            assert(grid.spec_height() * grid.spec_width() == grid.spec_width()
                * grid.spec_height()) by (nonlinear_arith);
        }
    }
    grid.count_enclosed_by_loop(MAX_STEPS)
}

/// A closed path and the same path walked the other way round have the same
/// cells.
pub proof fn lemma_reverse_same_cells(p: Seq<Point>)
    requires
        p.len() >= 1,
    ensures
        reverse_loop(p).to_set() == p.to_set(),
{
    let q = reverse_loop(p);
    assert forall|c: Point| q.to_set().contains(c) <==> p.to_set().contains(c) by {
        if q.contains(c) {
            let k = choose|k: int| 0 <= k < q.len() && q[k] == c;
            if k == 0 {
                assert(p[0] == c);
            } else {
                assert(p[p.len() - k] == c);
            }
        }
        if p.contains(c) {
            let k = choose|k: int| 0 <= k < p.len() && p[k] == c;
            if k == 0 {
                assert(q[0] == c);
            } else {
                assert(q[p.len() - k] == c);
            }
        }
    }
    assert(q.to_set() =~= p.to_set());
}

/// The number of enclosed cells does not depend on the direction in which
/// the loop was traced: when the start has exactly the two connecting
/// neighbours `first` and `other` and the trace towards `first` closes, the
/// trace towards `other` closes too and encloses as many cells.
pub proof fn law_enclosure_ignores_direction(g: Grid, first: Point, other: Point, max_steps: nat)
    requires
        g.wf(),
        g.spec_start_points(g.origin()) == seq![first, other] || g.spec_start_points(g.origin())
            == seq![other, first],
        g.spec_trace_from(first, max_steps) is Ok,
    ensures
        g.spec_trace_from(other, max_steps) is Ok,
        g.spec_count_enclosed(g.spec_trace_from(other, max_steps)->Ok_0.to_set())
            == g.spec_count_enclosed(g.spec_trace_from(first, max_steps)->Ok_0.to_set()),
{
    law_trace_directions_are_reverses(g, g.origin(), first, other, max_steps);
    lemma_reverse_same_cells(g.spec_trace_from(first, max_steps)->Ok_0);
}

/// The flood reaches both of two unblocked neighbours or neither.
proof fn lemma_reach_both(blocked: Seq<Seq<bool>>, a: (int, int), b: (int, int))
    requires
        adjacent(a, b),
        passable(blocked, a.0, a.1),
        passable(blocked, b.0, b.1),
    ensures
        reachable(blocked, a.0, a.1) == reachable(blocked, b.0, b.1),
{
    if reachable(blocked, a.0, a.1) {
        lemma_reach_on(blocked, a, b);
    }
    if reachable(blocked, b.0, b.1) {
        lemma_reach_on(blocked, b, a);
    }
}

/// Folding the enlarged grid back loses nothing: the block of a cell off
/// the loop holds no stroke, and the flood reaches the centre of the block
/// exactly when it reaches any other of its nine positions. So the count
/// does not depend on which position of a block stands for the cell.
pub proof fn law_block_floods_as_one(g: Grid, members: Set<Point>, p: Point, dx: int, dy: int)
    requires
        g.wf(),
        g.contains(p),
        !members.contains(p),
        0 <= dx < 3,
        0 <= dy < 3,
    ensures
        passable(g.expanded_loop(members), 3 * p.x + dx, 3 * p.y + dy),
        reachable(g.expanded_loop(members), 3 * p.x + dx, 3 * p.y + dy) == reachable(
            g.expanded_loop(members),
            3 * p.x + 1,
            3 * p.y + 1,
        ),
{
    let big = g.expanded_loop(members);
    g.lemma_contains(p);
    assert forall|a: int, b: int| 0 <= a < 3 && 0 <= b < 3 implies #[trigger] passable(
        big,
        3 * p.x + a,
        3 * p.y + b,
    ) by {
        let ex = 3 * p.x + a;
        let ey = 3 * p.y + b;
        assert(ex / 3 == p.x && ey / 3 == p.y);
        assert(Point { x: (ex / 3) as usize, y: (ey / 3) as usize } == p);
        assert(big[ey].len() == 3 * g.spec_width());
        assert(big[ey][ex] == g.on_expanded_loop(members, ex, ey));
    }
    assert(passable(big, 3 * p.x + dx, 3 * p.y + dy));
    assert(passable(big, 3 * p.x + 1, 3 * p.y + dy));
    assert(passable(big, 3 * p.x + 1, 3 * p.y + 1));
    if dx != 1 {
        lemma_reach_both(big, (3 * p.x + dx, 3 * p.y + dy), (3 * p.x + 1, 3 * p.y + dy));
    }
    if dy != 1 {
        lemma_reach_both(big, (3 * p.x + 1, 3 * p.y + dy), (3 * p.x + 1, 3 * p.y + 1));
    }
}

/// A cell off the loop that lies in the first or last row or column of the
/// grid is not enclosed.
pub proof fn law_border_cells_are_outside(g: Grid, members: Set<Point>, p: Point)
    requires
        g.wf(),
        g.contains(p),
        !members.contains(p),
        p.x == 0 || p.y == 0 || p.x == g.spec_width() - 1 || p.y == g.spec_height() - 1,
    ensures
        !g.encloses(members, p),
{
    let big = g.expanded_loop(members);
    g.lemma_contains(p);
    let dx: int = if p.x == 0 {
        0
    } else if p.x == g.spec_width() - 1 {
        2
    } else {
        1
    };
    let dy: int = if p.x == 0 || p.x == g.spec_width() - 1 {
        1
    } else if p.y == 0 {
        0
    } else {
        2
    };
    law_block_floods_as_one(g, members, p, dx, dy);
    assert(big[3 * p.y + dy].len() == 3 * g.spec_width());
    lemma_reach_border(big, 3 * p.x + dx, 3 * p.y + dy);
}

/// Two cells off the loop that are orthogonal neighbours are both enclosed
/// or both not: nothing of the loop lies between them.
pub proof fn law_neighbours_off_the_loop_agree(g: Grid, members: Set<Point>, p: Point, q: Point)
    requires
        g.wf(),
        g.contains(p),
        g.contains(q),
        !members.contains(p),
        !members.contains(q),
        adjacent((p.x as int, p.y as int), (q.x as int, q.y as int)),
    ensures
        g.encloses(members, p) == g.encloses(members, q),
{
    let big = g.expanded_loop(members);
    let px: int = if q.x == p.x + 1 {
        2
    } else if p.x == q.x + 1 {
        0
    } else {
        1
    };
    let py: int = if q.y == p.y + 1 {
        2
    } else if p.y == q.y + 1 {
        0
    } else {
        1
    };
    law_block_floods_as_one(g, members, p, px, py);
    law_block_floods_as_one(g, members, q, 2 - px, 2 - py);
    lemma_reach_both(
        big,
        (3 * p.x + px, 3 * p.y + py),
        (3 * q.x + (2 - px), 3 * q.y + (2 - py)),
    );
}

/// Whether `bare` is the grid `g` with every cell off the loop `members`
/// replaced by empty ground, and no cell off the loop connects to the start
/// of `g`.
pub open spec fn without_decoys(g: Grid, members: Set<Point>, bare: Grid) -> bool {
    &&& g.wf()
    &&& bare.wf()
    &&& bare.spec_width() == g.spec_width()
    &&& bare.spec_height() == g.spec_height()
    &&& bare.origin() == g.origin()
    &&& forall|p: Point|
        g.contains(p) ==> #[trigger] bare.cell(p) == if members.contains(p) {
            g.cell(p)
        } else {
            Some('.')
        }
    &&& forall|d: Direction| #[trigger]
        g.accepts(g.origin(), d) ==> members.contains(g.neighbor(g.origin(), d)->0)
}

/// The same cells lie in a grid and in the grid without its decoys, and the
/// same neighbours connect to the start.
proof fn lemma_without_decoys(g: Grid, members: Set<Point>, bare: Grid, p: Point, d: Direction)
    requires
        without_decoys(g, members, bare),
    ensures
        bare.contains(p) == g.contains(p),
        bare.neighbor(p, d) == g.neighbor(p, d),
        bare.accepts(g.origin(), d) == g.accepts(g.origin(), d),
        members.contains(p) ==> bare.has_edge(p, d) == g.has_edge(p, d),
{
    g.lemma_contains(p);
    bare.lemma_contains(p);
    match crate::pipe_grid::shift(p, d) {
        Some(q) => {
            g.lemma_contains(q);
            bare.lemma_contains(q);
        },
        None => {},
    }
    match crate::pipe_grid::shift(g.origin(), d) {
        Some(q) => {
            g.lemma_contains(q);
            bare.lemma_contains(q);
            if g.contains(q) {
                assert(bare.cell(q) == if members.contains(q) {
                    g.cell(q)
                } else {
                    Some('.')
                });
                if !members.contains(q) {
                    assert(!g.accepts(g.origin(), d));
                }
            }
        },
        None => {},
    }
    if members.contains(p) && g.contains(p) {
        assert(bare.cell(p) == g.cell(p));
    }
}

/// A walk that stays on the loop is the same walk in the grid without its
/// decoys.
proof fn lemma_walk_without_decoys(
    g: Grid,
    members: Set<Point>,
    bare: Grid,
    start: Point,
    prev: Point,
    cur: Point,
    fuel: nat,
)
    requires
        without_decoys(g, members, bare),
        g.walk(start, prev, cur, fuel) is Ok,
        forall|k: int|
            0 <= k < g.walk(start, prev, cur, fuel)->Ok_0.len() ==> members.contains(
                #[trigger] g.walk(start, prev, cur, fuel)->Ok_0[k],
            ),
    ensures
        bare.walk(start, prev, cur, fuel) == g.walk(start, prev, cur, fuel),
    decreases fuel,
{
    let rest = g.walk(start, prev, cur, fuel)->Ok_0;
    let next = g.next_cell(prev, cur)->0;
    assert(rest[0] == cur);
    assert(members.contains(cur));
    assert(bare.cell(cur) == g.cell(cur));
    match crate::pipe_grid::direction_to(cur, prev) {
        Some(from) => match g.cell(cur) {
            Some(symbol) => match crate::pipe_route::route(from, symbol) {
                Some(out) => {
                    lemma_without_decoys(g, members, bare, cur, out);
                },
                None => {},
            },
            None => {},
        },
        None => {},
    }
    assert(bare.next_cell(prev, cur) == g.next_cell(prev, cur));
    if next != start {
        let tail = g.walk(start, cur, next, (fuel - 1) as nat)->Ok_0;
        assert(rest =~= seq![cur] + tail);
        assert forall|k: int| 0 <= k < tail.len() implies members.contains(#[trigger] tail[k]) by {
            assert(rest[k + 1] == tail[k]);
        }
        lemma_walk_without_decoys(g, members, bare, start, cur, next, (fuel - 1) as nat);
    }
}

/// The cells off the loop do not matter to the count: a grid and the same
/// grid with its decoys replaced by empty ground enclose as many cells.
pub proof fn law_count_ignores_decoys(g: Grid, members: Set<Point>, bare: Grid)
    requires
        without_decoys(g, members, bare),
    ensures
        bare.spec_count_enclosed(members) == g.spec_count_enclosed(members),
{
    let big = g.expanded_loop(members);
    let other = bare.expanded_loop(members);
    assert forall|ex: int, ey: int| bare.on_expanded_loop(members, ex, ey) == g.on_expanded_loop(
        members,
        ex,
        ey,
    ) by {
        let p = Point { x: (ex / 3) as usize, y: (ey / 3) as usize };
        lemma_without_decoys(g, members, bare, p, Direction::N);
        lemma_without_decoys(g, members, bare, p, Direction::S);
        lemma_without_decoys(g, members, bare, p, Direction::E);
        lemma_without_decoys(g, members, bare, p, Direction::W);
    }
    assert(other =~= big) by {
        assert forall|ey: int| 0 <= ey < big.len() implies #[trigger] other[ey] =~= big[ey] by {}
    }
    assert forall|p: Point| bare.encloses(members, p) == g.encloses(members, p) by {
        lemma_without_decoys(g, members, bare, p, Direction::N);
    }
    lemma_same_count_rows(g, bare, members, g.spec_height() as int);
}

/// Grids that enclose the same cells have the same counts row by row.
proof fn lemma_same_count_row(g: Grid, bare: Grid, members: Set<Point>, y: int, x_end: int)
    requires
        forall|p: Point| bare.encloses(members, p) == g.encloses(members, p),
    ensures
        bare.enclosed_in_row(members, y, x_end) == g.enclosed_in_row(members, y, x_end),
    decreases x_end,
{
    if x_end > 0 {
        lemma_same_count_row(g, bare, members, y, x_end - 1);
    }
}

/// Grids of one width that enclose the same cells have the same counts.
proof fn lemma_same_count_rows(g: Grid, bare: Grid, members: Set<Point>, y_end: int)
    requires
        bare.spec_width() == g.spec_width(),
        forall|p: Point| bare.encloses(members, p) == g.encloses(members, p),
    ensures
        bare.enclosed_in_rows(members, y_end) == g.enclosed_in_rows(members, y_end),
    decreases y_end,
{
    if y_end > 0 {
        lemma_same_count_rows(g, bare, members, y_end - 1);
        lemma_same_count_row(g, bare, members, y_end - 1, g.spec_width() as int);
    }
}

/// Decoys change neither the loop nor the count: where tracing closes the
/// loop of a grid, it closes the same loop in the grid without its decoys,
/// and both enclose as many cells.
pub proof fn law_decoys_do_not_matter(g: Grid, bare: Grid, max_steps: nat)
    requires
        g.spec_trace_loop(max_steps) is Ok,
        without_decoys(g, g.spec_trace_loop(max_steps)->Ok_0.to_set(), bare),
    ensures
        bare.spec_trace_loop(max_steps) == g.spec_trace_loop(max_steps),
        bare.spec_count_enclosed(bare.spec_trace_loop(max_steps)->Ok_0.to_set())
            == g.spec_count_enclosed(g.spec_trace_loop(max_steps)->Ok_0.to_set()),
{
    let path = g.spec_trace_loop(max_steps)->Ok_0;
    let members = path.to_set();
    let start = g.origin();
    lemma_without_decoys(g, members, bare, start, Direction::N);
    lemma_without_decoys(g, members, bare, start, Direction::S);
    lemma_without_decoys(g, members, bare, start, Direction::E);
    lemma_without_decoys(g, members, bare, start, Direction::W);
    assert(bare.spec_start_points(start) =~= g.spec_start_points(start));
    let first = g.spec_start_points(start)[0];
    let rest = g.walk(start, start, first, max_steps)->Ok_0;
    assert(path =~= seq![start] + rest);
    assert forall|k: int| 0 <= k < rest.len() implies members.contains(#[trigger] rest[k]) by {
        assert(path[k + 1] == rest[k]);
        assert(path.contains(rest[k]));
    }
    lemma_walk_without_decoys(g, members, bare, start, start, first, max_steps);
    law_count_ignores_decoys(g, members, bare);
}

} // verus!
