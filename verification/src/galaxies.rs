//! The galaxy map: the coordinates of the galaxies of an image, an index
//! from coordinate to galaxy, and the expansion of the empty rows and
//! columns between them.

use std::collections::{BTreeMap, BTreeSet};
use itertools::Itertools;
use vstd::prelude::*;
use vstd::std_specs::cmp::OrdSpec;
use vstd::std_specs::iter::IteratorSpec;
use crate::text::{string_of, chars_of, lines, lines_of, texts_view, trim, trimmed};

verus! {

broadcast use {vstd::laws_cmp::group_laws_cmp, vstd::std_specs::btree::group_btree_axioms};

/// Why a galaxy could not be moved.
#[derive(Debug, Clone, Copy, PartialEq, Eq, Structural)]
pub enum GalaxyError {
    /// No galaxy has this number.
    InvalidLocationId,
}

/// The index that comes of entering the first `n` galaxies one after the
/// other: each coordinate leads to the last galaxy entered there.
pub open spec fn indexed(locations: Seq<(usize, usize)>, n: int) -> Map<(usize, usize), usize>
    decreases n,
{
    if n <= 0 {
        Map::empty()
    } else {
        indexed(locations, n - 1).insert(locations[n - 1], (n - 1) as usize)
    }
}

/// The galaxies of one line: the coordinates of its `'#'` signs among the
/// first `n` characters, from left to right.
pub open spec fn galaxies_in_line(line: Seq<char>, y: int, n: int) -> Seq<(usize, usize)>
    decreases n,
{
    if n <= 0 {
        seq![]
    } else if line[n - 1] == '#' {
        galaxies_in_line(line, y, n - 1).push(((n - 1) as usize, y as usize))
    } else {
        galaxies_in_line(line, y, n - 1)
    }
}

/// The galaxies of the first `n` lines, in reading order.
pub open spec fn galaxies_in(lines: Seq<Seq<char>>, n: int) -> Seq<(usize, usize)>
    decreases n,
{
    if n <= 0 {
        seq![]
    } else {
        galaxies_in(lines, n - 1) + galaxies_in_line(lines[n - 1], n - 1, lines[n - 1].len() as int)
    }
}

/// The number of bytes that a line takes in a string.
pub open spec fn bytes_of(line: Seq<char>) -> usize {
    vstd::utf8::encode_utf8(line).len() as usize
}

/// The largest number of bytes among the first `n` lines.
pub open spec fn widest(lines: Seq<Seq<char>>, n: int) -> usize
    decreases n,
{
    if n <= 0 {
        0
    } else {
        let before = widest(lines, n - 1);
        let here = bytes_of(lines[n - 1]);
        if here > before {
            here
        } else {
            before
        }
    }
}

/// Whether a galaxy lies in column `c`.
pub open spec fn column_occupied(locations: Seq<(usize, usize)>, c: int) -> bool {
    exists|i: int| 0 <= i < locations.len() && (#[trigger] locations[i]).0 == c
}

/// Whether a galaxy lies in row `r`.
pub open spec fn row_occupied(locations: Seq<(usize, usize)>, r: int) -> bool {
    exists|i: int| 0 <= i < locations.len() && (#[trigger] locations[i]).1 == r
}

/// Number of columns below `x` in which a galaxy lies.
pub open spec fn columns_below(locations: Seq<(usize, usize)>, x: int) -> nat
    decreases x,
{
    if x <= 0 {
        0
    } else {
        columns_below(locations, x - 1) + if column_occupied(locations, x - 1) {
            1nat
        } else {
            0nat
        }
    }
}

/// Number of rows below `y` in which a galaxy lies.
pub open spec fn rows_below(locations: Seq<(usize, usize)>, y: int) -> nat
    decreases y,
{
    if y <= 0 {
        0
    } else {
        rows_below(locations, y - 1) + if row_occupied(locations, y - 1) {
            1nat
        } else {
            0nat
        }
    }
}

/// Where a coordinate lands when every empty line before it becomes `n`
/// lines: `occupied` of the lines before it hold a galaxy and stay single.
pub open spec fn stretched(at: int, occupied: int, n: int) -> int {
    (at - occupied) * n + occupied
}

/// The galaxy `p` after the expansion of the empty rows and columns of
/// `locations`.
pub open spec fn expanded_location(locations: Seq<(usize, usize)>, p: (usize, usize), n: int) -> (
    int,
    int,
) {
    (
        stretched(p.0 as int, columns_below(locations, p.0 as int) as int, n),
        stretched(p.1 as int, rows_below(locations, p.1 as int) as int, n),
    )
}

/// The galaxies after the expansion of the empty rows and columns between
/// them.
pub open spec fn expanded_locations(locations: Seq<(usize, usize)>, n: int) -> Seq<(usize, usize)> {
    Seq::new(
        locations.len(),
        |i: int|
            (
                expanded_location(locations, locations[i], n).0 as usize,
                expanded_location(locations, locations[i], n).1 as usize,
            ),
    )
}

/// Number of entries at the front of `list` that lie below `x`.
pub open spec fn entries_below(list: Seq<usize>, x: int) -> nat
    decreases list.len(),
{
    if list.len() > 0 && list[0] < x {
        1 + entries_below(list.drop_first(), x)
    } else {
        0
    }
}

/// Whether each entry is larger than the one before.
pub open spec fn rising(list: Seq<usize>) -> bool {
    forall|a: int, b: int| 0 <= a < b < list.len() ==> list[a] < list[b]
}

/// In a rising list the entries below `x` are the first `k` ones, where the
/// entry at `k` is the first that is not below `x`.
proof fn lemma_entries_below(list: Seq<usize>, x: int, k: int)
    requires
        rising(list),
        0 <= k <= list.len(),
        forall|a: int| 0 <= a < k ==> (#[trigger] list[a]) < x,
        k == list.len() || list[k] >= x,
    ensures
        entries_below(list, x) == k,
    decreases list.len(),
{
    if list.len() > 0 && k > 0 {
        let rest = list.drop_first();
        assert(list[0] < x);
        assert forall|a: int, b: int| 0 <= a < b < rest.len() implies rest[a] < rest[b] by {
            assert(rest[a] == list[a + 1]);
            assert(rest[b] == list[b + 1]);
        }
        assert forall|a: int| 0 <= a < k - 1 implies (#[trigger] rest[a]) < x by {
            assert(rest[a] == list[a + 1]);
        }
        if k < list.len() {
            assert(rest[k - 1] == list[k]);
        }
        lemma_entries_below(rest, x, k - 1);
    }
}

/// The entries below `x` of a rising list are its first ones.
proof fn lemma_entries_below_split(list: Seq<usize>, x: int) -> (k: int)
    requires
        rising(list),
    ensures
        k == entries_below(list, x),
        0 <= k <= list.len(),
        forall|a: int| 0 <= a < k ==> (#[trigger] list[a]) < x,
        forall|a: int| k <= a < list.len() ==> (#[trigger] list[a]) >= x,
    decreases list.len(),
{
    if list.len() > 0 && list[0] < x {
        let rest = list.drop_first();
        assert forall|a: int, b: int| 0 <= a < b < rest.len() implies rest[a] < rest[b] by {
            assert(rest[a] == list[a + 1]);
            assert(rest[b] == list[b + 1]);
        }
        let k = lemma_entries_below_split(rest, x);
        assert forall|a: int| 0 <= a < k + 1 implies (#[trigger] list[a]) < x by {
            if a > 0 {
                assert(rest[a - 1] == list[a]);
            }
        }
        assert forall|a: int| k + 1 <= a < list.len() implies (#[trigger] list[a]) >= x by {
            assert(rest[a - 1] == list[a]);
        }
        k + 1
    } else {
        assert forall|a: int| 0 <= a < list.len() implies (#[trigger] list[a]) >= x by {
            if a > 0 {
                assert(list[0] < list[a]);
            }
        }
        0
    }
}

/// A rising list of the occupied columns has as many entries below `x` as
/// there are occupied columns below `x`.
proof fn lemma_columns_below(locations: Seq<(usize, usize)>, list: Seq<usize>, x: int)
    requires
        rising(list),
        forall|c: int| 0 <= c <= usize::MAX ==> (list.contains(c as usize) <==> #[trigger] column_occupied(locations, c)),
        0 <= x <= usize::MAX + 1,
    ensures
        columns_below(locations, x) == entries_below(list, x),
    decreases x,
{
    if x > 0 {
        lemma_columns_below(locations, list, x - 1);
        let k = lemma_entries_below_split(list, x - 1);
        if column_occupied(locations, x - 1) {
            assert(list.contains((x - 1) as usize));
            let at = choose|at: int| 0 <= at < list.len() && list[at] == (x - 1) as usize;
            assert(at >= k);
            if at > k {
                assert(list[k] < list[at]);
            }
            assert forall|a: int| 0 <= a < k + 1 implies (#[trigger] list[a]) < x by {
                if a < k {
                    assert(list[a] < x - 1);
                }
            }
            if k + 1 < list.len() {
                assert(list[k] < list[k + 1]);
            }
            lemma_entries_below(list, x, k + 1);
        } else {
            if k < list.len() {
                assert(list.contains(list[k]));
                assert(column_occupied(locations, list[k] as int));
            }
            assert forall|a: int| 0 <= a < k implies (#[trigger] list[a]) < x by {
                assert(list[a] < x - 1);
            }
            lemma_entries_below(list, x, k);
        }
    } else {
        let k = lemma_entries_below_split(list, 0);
    }
}

/// The same for rows.
proof fn lemma_rows_below(locations: Seq<(usize, usize)>, list: Seq<usize>, y: int)
    requires
        rising(list),
        forall|r: int| 0 <= r <= usize::MAX ==> (list.contains(r as usize) <==> #[trigger] row_occupied(locations, r)),
        0 <= y <= usize::MAX + 1,
    ensures
        rows_below(locations, y) == entries_below(list, y),
    decreases y,
{
    if y > 0 {
        lemma_rows_below(locations, list, y - 1);
        let k = lemma_entries_below_split(list, y - 1);
        if row_occupied(locations, y - 1) {
            assert(list.contains((y - 1) as usize));
            let at = choose|at: int| 0 <= at < list.len() && list[at] == (y - 1) as usize;
            assert(at >= k);
            if at > k {
                assert(list[k] < list[at]);
            }
            assert forall|a: int| 0 <= a < k + 1 implies (#[trigger] list[a]) < y by {
                if a < k {
                    assert(list[a] < y - 1);
                }
            }
            if k + 1 < list.len() {
                assert(list[k] < list[k + 1]);
            }
            lemma_entries_below(list, y, k + 1);
        } else {
            if k < list.len() {
                assert(list.contains(list[k]));
                assert(row_occupied(locations, list[k] as int));
            }
            assert forall|a: int| 0 <= a < k implies (#[trigger] list[a]) < y by {
                assert(list[a] < y - 1);
            }
            lemma_entries_below(list, y, k);
        }
    } else {
        let k = lemma_entries_below_split(list, 0);
    }
}

/// Number of entries of the rising list that lie below `x`.
fn count_below(list: &Vec<usize>, x: usize) -> (k: usize)
    requires
        rising(list@),
    ensures
        k == entries_below(list@, x as int),
        k <= list.len(),
        k < list.len() ==> list[k as int] >= x,
        forall|a: int| 0 <= a < k ==> (#[trigger] list[a]) < x,
{
    let mut lo: usize = 0;
    let mut hi: usize = list.len();
    while lo < hi
        invariant
            0 <= lo <= hi <= list.len(),
            rising(list@),
            forall|a: int| 0 <= a < lo ==> (#[trigger] list[a]) < x,
            hi == list.len() || list[hi as int] >= x,
        decreases hi - lo,
    {
        let mid = lo + (hi - lo) / 2;
        if list[mid] < x {
            assert forall|a: int| 0 <= a < mid + 1 implies (#[trigger] list[a]) < x by {
                if a < mid {
                    assert(list[a] < list[mid as int]);
                }
            }
            lo = mid + 1;
        } else {
            hi = mid;
        }
    }
    proof {
        lemma_entries_below(list@, x as int, lo as int);
    }
    lo
}

/// The members of the set, from the smallest to the largest.
fn in_order(set: &BTreeSet<usize>) -> (list: Vec<usize>)
    ensures
        rising(list@),
        forall|x: usize| list@.contains(x) <==> set@.contains(x),
{
    let mut list: Vec<usize> = Vec::new();
    for x in walk: set.iter()
        invariant
            list.len() == walk.index(),
            forall|i: int| 0 <= i < list.len() ==> list@[i] == *walk.seq()[i],
            walk.seq() == set.iter().remaining(),
    {
        list.push(*x);
    }
    proof {
        let all = set.iter().remaining();
        vstd::std_specs::btree::axiom_increasing_seq_meaning::<&usize>(all);
        assert forall|a: int, b: int| 0 <= a < b < list.len() implies list[a] < list[b] by {
            assert(list[a] == *all[a]);
            assert(list[b] == *all[b]);
            assert(OrdSpec::cmp_spec(&all[a], &all[b]) is Less);
            assert(OrdSpec::cmp_spec(all[a], all[b]) is Less);
        }
        assert(all.unref().to_set() == set@);
        assert(all.unref() =~= list@);
        assert forall|x: usize| list@.contains(x) <==> set@.contains(x) by {
            assert(list@.to_set().contains(x) == list@.contains(x));
        }
    }
    list
}

/// The distance between two galaxies along the rows and columns.
pub open spec fn spec_distance(a: (usize, usize), b: (usize, usize)) -> int {
    (if a.0 >= b.0 {
        a.0 - b.0
    } else {
        b.0 - a.0
    }) + (if a.1 >= b.1 {
        a.1 - b.1
    } else {
        b.1 - a.1
    })
}

/// The distance between two galaxies along the rows and columns.
pub fn distance(a: (usize, usize), b: (usize, usize)) -> (d: usize)
    requires
        spec_distance(a, b) <= usize::MAX,
    ensures
        d == spec_distance(a, b),
{
    let dx = if a.0 >= b.0 {
        a.0 - b.0
    } else {
        b.0 - a.0
    };
    let dy = if a.1 >= b.1 {
        a.1 - b.1
    } else {
        b.1 - a.1
    };
    dx + dy
}

/// The map of the galaxies of an image.
#[derive(Clone)]
pub struct GalaxyMap {
    pub locations: Vec<(usize, usize)>,
    pub index: BTreeMap<(usize, usize), usize>,
    pub width: usize,
    pub height: usize,
}

impl GalaxyMap {
    /// The coordinates of the galaxies, by number.
    pub open spec fn locations(&self) -> Seq<(usize, usize)> {
        self.locations@
    }

    /// The index from coordinate to galaxy.
    pub open spec fn index(&self) -> Map<(usize, usize), usize> {
        self.index@
    }

    /// Number of columns of the image.
    pub open spec fn spec_width(&self) -> usize {
        self.width
    }

    /// Number of rows of the image.
    pub open spec fn spec_height(&self) -> usize {
        self.height
    }

    /// Number of columns of the image.
    pub fn get_width(&self) -> (w: usize)
        ensures
            w == self.spec_width(),
    {
        self.width
    }

    /// Number of rows of the image.
    pub fn get_height(&self) -> (h: usize)
        ensures
            h == self.spec_height(),
    {
        self.height
    }

    /// Reads the image: a galaxy for every `'#'`, numbered in reading order.
    /// White space around the whole text is dropped first. The width is the
    /// length of the longest line in bytes, the height the number of lines.
    pub fn parse(s: &str) -> (map: GalaxyMap)
        ensures
            ({
                let rows = lines_of(trimmed(s@));
                &&& map.locations() == galaxies_in(rows, rows.len() as int)
                &&& map.index() == indexed(map.locations(), map.locations().len() as int)
                &&& map.spec_width() == widest(rows, rows.len() as int)
                &&& map.spec_height() == rows.len()
            }),
    {
        let chars = chars_of(s);
        let body = trim(&chars);
        let all = lines(&body);
        let ghost rows = texts_view(all@);
        let mut locations: Vec<(usize, usize)> = Vec::new();
        let mut index: BTreeMap<(usize, usize), usize> = BTreeMap::new();
        let mut width: usize = 0;
        let mut y: usize = 0;
        assert(index@ =~= indexed(locations@, 0));
        while y < all.len()
            invariant
                y <= all.len(),
                rows == texts_view(all@),
                locations@ == galaxies_in(rows, y as int),
                index@ == indexed(locations@, locations@.len() as int),
                width == widest(rows, y as int),
            decreases all.len() - y,
        {
            let line = &all[y];
            let ghost done = locations@;
            let text = string_of(line);
            let bytes = text.as_str().len();
            let mut x: usize = 0;
            assert(rows[y as int] == line@);
            assert(line@.take(0) =~= Seq::<char>::empty());
            assert(done + galaxies_in_line(line@, y as int, 0) =~= done);
            while x < line.len()
                invariant
                    x <= line.len(),
                    locations@ == done + galaxies_in_line(line@, y as int, x as int),
                    index@ == indexed(locations@, locations@.len() as int),
                decreases line.len() - x,
            {
                let c = line[x];
                if c == '#' {
                    let ghost before = locations@;
                    index.insert((x, y), locations.len());
                    locations.push((x, y));
                    proof {
                        assert(locations@ =~= done + galaxies_in_line(line@, y as int, x + 1));
                        assert(locations@ == before.push((x, y)));
                        lemma_indexed_prefix(locations@, before, before.len() as int);
                    }
                }
                x += 1;
            }
            assert(line@.take(line.len() as int) =~= line@);
            if bytes > width {
                width = bytes;
            }
            y += 1;
        }
        let height = all.len();
        GalaxyMap { locations, index, width, height }
    }

    /// The number of the galaxy entered at column `x` of row `y`.
    pub fn get_by_coord(&self, x: usize, y: usize) -> (r: Option<usize>)
        ensures
            r == if self.index().contains_key((x, y)) {
                Some(self.index()[(x, y)])
            } else {
                None
            },
    {
        match self.index.get(&(x, y)) {
            Some(id) => Some(*id),
            None => None,
        }
    }

    /// The coordinate of the galaxy with the number `id`.
    pub fn get_by_id(&self, id: usize) -> (r: Option<(usize, usize)>)
        ensures
            r == if id < self.locations().len() {
                Some(self.locations()[id as int])
            } else {
                None
            },
    {
        if id < self.locations.len() {
            Some(self.locations[id])
        } else {
            None
        }
    }

    /// Moves the galaxy with the number `loc_id` to column `x` of row `y`.
    /// The index forgets the old coordinate of the galaxy and enters the new
    /// one.
    pub fn set(&mut self, loc_id: usize, x: usize, y: usize) -> (r: Result<(), GalaxyError>)
        ensures
            final(self).spec_width() == old(self).spec_width(),
            final(self).spec_height() == old(self).spec_height(),
            match r {
                Ok(_) => {
                    &&& loc_id < old(self).locations().len()
                    &&& final(self).locations() == old(self).locations().update(
                        loc_id as int,
                        (x, y),
                    )
                    &&& final(self).index() == old(self).index().remove(
                        old(self).locations()[loc_id as int],
                    ).insert((x, y), loc_id)
                },
                Err(e) => {
                    &&& e == GalaxyError::InvalidLocationId
                    &&& loc_id >= old(self).locations().len()
                    &&& final(self).locations() == old(self).locations()
                    &&& final(self).index() == old(self).index()
                },
            },
    {
        if loc_id >= self.locations.len() {
            return Err(GalaxyError::InvalidLocationId);
        }
        let current = self.locations[loc_id];
        self.index.remove(&current);
        self.index.insert((x, y), loc_id);
        self.locations[loc_id] = (x, y);
        Ok(())
    }

    /// For each row of the image, the galaxy entered in column `x` of it.
    pub fn col(&self, x: usize) -> (output: Vec<Option<usize>>)
        ensures
            output.len() == self.spec_height(),
            forall|y: int|
                0 <= y < output.len() ==> #[trigger] output[y] == if self.index().contains_key(
                    (x, y as usize),
                ) {
                    Some(self.index()[(x, y as usize)])
                } else {
                    None
                },
    {
        let mut output: Vec<Option<usize>> = Vec::new();
        let mut y: usize = 0;
        while y < self.height
            invariant
                y <= self.height,
                output.len() == y,
                forall|k: int|
                    0 <= k < y ==> #[trigger] output[k] == if self.index().contains_key(
                        (x, k as usize),
                    ) {
                        Some(self.index()[(x, k as usize)])
                    } else {
                        None
                    },
            decreases self.height - y,
        {
            output.push(self.get_by_coord(x, y));
            y += 1;
        }
        output
    }

    /// For each column of the image, the galaxy entered in row `y` of it.
    pub fn row(&self, y: usize) -> (output: Vec<Option<usize>>)
        ensures
            output.len() == self.spec_width(),
            forall|x: int|
                0 <= x < output.len() ==> #[trigger] output[x] == if self.index().contains_key(
                    (x as usize, y),
                ) {
                    Some(self.index()[(x as usize, y)])
                } else {
                    None
                },
    {
        let mut output: Vec<Option<usize>> = Vec::new();
        let mut x: usize = 0;
        while x < self.width
            invariant
                x <= self.width,
                output.len() == x,
                forall|k: int|
                    0 <= k < x ==> #[trigger] output[k] == if self.index().contains_key(
                        (k as usize, y),
                    ) {
                        Some(self.index()[(k as usize, y)])
                    } else {
                        None
                    },
            decreases self.width - x,
        {
            output.push(self.get_by_coord(x, y));
            x += 1;
        }
        output
    }

    /// The coordinates of the galaxies, by number.
    pub fn iter_locations(&self) -> (r: &Vec<(usize, usize)>)
        ensures
            r@ == self.locations(),
    {
        &self.locations
    }

    /// Whether the expansion by `n` stays within the numbers of the machine:
    /// no more rows and columns hold a galaxy than the image has, and the
    /// new size and every new coordinate are representable.
    pub open spec fn expandable(&self, n: int) -> bool {
        let locations = self.locations();
        let columns = columns_below(locations, usize::MAX + 1);
        let rows = rows_below(locations, usize::MAX + 1);
        &&& columns <= self.spec_width()
        &&& rows <= self.spec_height()
        &&& stretched(self.spec_width() as int, columns as int, n) <= usize::MAX
        &&& stretched(self.spec_height() as int, rows as int, n) <= usize::MAX
        &&& forall|i: int|
            0 <= i < locations.len() ==> expanded_location(locations, #[trigger] locations[i], n).0
                <= usize::MAX && expanded_location(locations, locations[i], n).1 <= usize::MAX
    }

    /// The columns and the rows in which a galaxy lies, each list rising.
    fn occupied_lines(&self) -> (r: (Vec<usize>, Vec<usize>))
        ensures
            rising(r.0@),
            rising(r.1@),
            forall|c: int|
                0 <= c <= usize::MAX ==> (r.0@.contains(c as usize) <==> #[trigger] column_occupied(
                    self.locations(),
                    c,
                )),
            forall|y: int|
                0 <= y <= usize::MAX ==> (r.1@.contains(y as usize) <==> #[trigger] row_occupied(
                    self.locations(),
                    y,
                )),
            r.0@.len() == columns_below(self.locations(), usize::MAX + 1),
            r.1@.len() == rows_below(self.locations(), usize::MAX + 1),
    {
        let ghost before = self.locations@;
        let mut occupied_columns: BTreeSet<usize> = BTreeSet::new();
        let mut occupied_rows: BTreeSet<usize> = BTreeSet::new();
        let mut i: usize = 0;
        while i < self.locations.len()
            invariant
                i <= self.locations.len(),
                before == self.locations@,
                forall|c: usize|
                    occupied_columns@.contains(c) <==> exists|j: int|
                        0 <= j < i && (#[trigger] before[j]).0 == c,
                forall|r: usize|
                    occupied_rows@.contains(r) <==> exists|j: int|
                        0 <= j < i && (#[trigger] before[j]).1 == r,
            decreases self.locations.len() - i,
        {
            let (x, y) = self.locations[i];
            let ghost columns_before = occupied_columns@;
            let ghost rows_before = occupied_rows@;
            occupied_columns.insert(x);
            occupied_rows.insert(y);
            proof {
                assert forall|c: usize| occupied_columns@.contains(c) <==> exists|j: int|
                    0 <= j < i + 1 && (#[trigger] before[j]).0 == c by {
                    if columns_before.contains(c) {
                        let j = choose|j: int| 0 <= j < i && (#[trigger] before[j]).0 == c;
                        assert(0 <= j < i + 1);
                    }
                    if c == x {
                        assert(before[i as int].0 == c);
                    }
                    if exists|j: int| 0 <= j < i + 1 && (#[trigger] before[j]).0 == c {
                        let j = choose|j: int| 0 <= j < i + 1 && (#[trigger] before[j]).0 == c;
                        if j < i {
                            assert(columns_before.contains(c));
                        }
                    }
                }
                assert forall|r: usize| occupied_rows@.contains(r) <==> exists|j: int|
                    0 <= j < i + 1 && (#[trigger] before[j]).1 == r by {
                    if rows_before.contains(r) {
                        let j = choose|j: int| 0 <= j < i && (#[trigger] before[j]).1 == r;
                        assert(0 <= j < i + 1);
                    }
                    if r == y {
                        assert(before[i as int].1 == r);
                    }
                    if exists|j: int| 0 <= j < i + 1 && (#[trigger] before[j]).1 == r {
                        let j = choose|j: int| 0 <= j < i + 1 && (#[trigger] before[j]).1 == r;
                        if j < i {
                            assert(rows_before.contains(r));
                        }
                    }
                }
            }
            i += 1;
        }
        let columns = in_order(&occupied_columns);
        let rows = in_order(&occupied_rows);
        proof {
            assert forall|c: int| 0 <= c <= usize::MAX implies (columns@.contains(c as usize)
                <==> #[trigger] column_occupied(before, c)) by {
                if columns@.contains(c as usize) {
                    let j = choose|j: int| 0 <= j < before.len() && (#[trigger] before[j]).0 == c as usize;
                    assert(before[j].0 == c);
                }
                if column_occupied(before, c) {
                    let j = choose|j: int| 0 <= j < before.len() && (#[trigger] before[j]).0 == c;
                    assert(before[j].0 == c as usize);
                }
            }
            assert forall|r: int| 0 <= r <= usize::MAX implies (rows@.contains(r as usize)
                <==> #[trigger] row_occupied(before, r)) by {
                if rows@.contains(r as usize) {
                    let j = choose|j: int| 0 <= j < before.len() && (#[trigger] before[j]).1 == r as usize;
                    assert(before[j].1 == r);
                }
                if row_occupied(before, r) {
                    let j = choose|j: int| 0 <= j < before.len() && (#[trigger] before[j]).1 == r;
                    assert(before[j].1 == r as usize);
                }
            }
            lemma_columns_below(before, columns@, usize::MAX + 1);
            lemma_rows_below(before, rows@, usize::MAX + 1);
            let kc = lemma_entries_below_split(columns@, usize::MAX + 1);
            let kr = lemma_entries_below_split(rows@, usize::MAX + 1);
            if kc < columns@.len() {
                assert(columns@[kc] >= usize::MAX + 1);
            }
            if kr < rows@.len() {
                assert(rows@[kr] >= usize::MAX + 1);
            }
            assert(rows@.len() == entries_below(rows@, usize::MAX + 1));
            assert(columns@.len() == entries_below(columns@, usize::MAX + 1));
        }
        (columns, rows)
    }

    /// Lets every row and every column without a galaxy become `n` rows or
    /// columns. The galaxies keep their numbers, and the index is made anew.
    pub fn expand(&mut self, n: usize)
        requires
            old(self).expandable(n as int),
        ensures
            final(self).locations() == expanded_locations(old(self).locations(), n as int),
            final(self).index() == indexed(
                final(self).locations(),
                final(self).locations().len() as int,
            ),
            final(self).spec_width() == stretched(
                old(self).spec_width() as int,
                columns_below(old(self).locations(), usize::MAX + 1) as int,
                n as int,
            ),
            final(self).spec_height() == stretched(
                old(self).spec_height() as int,
                rows_below(old(self).locations(), usize::MAX + 1) as int,
                n as int,
            ),
    {
        let ghost before = self.locations@;
        let (columns, rows) = self.occupied_lines();
        let mut index: BTreeMap<(usize, usize), usize> = BTreeMap::new();
        let mut k: usize = 0;
        assert(index@ =~= indexed(self.locations@, 0));
        while k < self.locations.len()
            invariant
                k <= self.locations.len(),
                self.locations@.len() == before.len(),
                old(self).expandable(n as int),
                before == old(self).locations(),
                self.width == old(self).width,
                self.height == old(self).height,
                rising(columns@),
                rising(rows@),
                columns@.len() == columns_below(before, usize::MAX + 1),
                rows@.len() == rows_below(before, usize::MAX + 1),
                forall|c: int|
                    0 <= c <= usize::MAX ==> (columns@.contains(c as usize)
                        <==> #[trigger] column_occupied(before, c)),
                forall|r: int|
                    0 <= r <= usize::MAX ==> (rows@.contains(r as usize) <==> #[trigger] row_occupied(
                        before,
                        r,
                    )),
                forall|j: int| k <= j < before.len() ==> self.locations@[j] == before[j],
                forall|j: int|
                    0 <= j < k ==> (#[trigger] self.locations@[j]).0 == expanded_location(
                        before,
                        before[j],
                        n as int,
                    ).0 && self.locations@[j].1 == expanded_location(before, before[j], n as int).1,
                index@ == indexed(self.locations@, k as int),
            decreases self.locations.len() - k,
        {
            let (x, y) = self.locations[k];
            let occupied_columns = count_below(&columns, x);
            let occupied_rows = count_below(&rows, y);
            proof {
                lemma_columns_below(before, columns@, x as int);
                lemma_rows_below(before, rows@, y as int);
                lemma_below_bound_columns(before, x as int);
                lemma_below_bound_rows(before, y as int);
                assert(before[k as int] == (x, y));
                let target = expanded_location(before, before[k as int], n as int);
                assert(target.0 <= usize::MAX && target.1 <= usize::MAX);
                assert((x - occupied_columns) * n <= target.0) by (nonlinear_arith)
                    requires
                        target.0 == (x - occupied_columns) * n + occupied_columns,
                        occupied_columns >= 0,
                ;
                assert((y - occupied_rows) * n <= target.1) by (nonlinear_arith)
                    requires
                        target.1 == (y - occupied_rows) * n + occupied_rows,
                        occupied_rows >= 0,
                ;
            }
            let new_x = (x - occupied_columns) * n + occupied_columns;
            let new_y = (y - occupied_rows) * n + occupied_rows;
            let ghost moved = self.locations@;
            self.locations[k] = (new_x, new_y);
            index.insert((new_x, new_y), k);
            proof {
                lemma_indexed_same(self.locations@, moved, k as int);
            }
            k += 1;
        }
        proof {
            let rows_total = rows@.len() as int;
            let columns_total = columns@.len() as int;
            assert((self.height - rows_total) * n <= stretched(self.height as int, rows_total, n as int))
                by (nonlinear_arith)
                requires
                    rows_total >= 0,
            ;
            assert((self.width - columns_total) * n <= stretched(
                self.width as int,
                columns_total,
                n as int,
            )) by (nonlinear_arith)
                requires
                    columns_total >= 0,
            ;
        }
        self.height = (self.height - rows.len()) * n + rows.len();
        self.width = (self.width - columns.len()) * n + columns.len();
        self.index = index;
        assert(self.locations@ =~= expanded_locations(before, n as int));
    }
}

/// The index of the first `n` galaxies does not depend on the later ones.
proof fn lemma_indexed_same(a: Seq<(usize, usize)>, b: Seq<(usize, usize)>, n: int)
    requires
        0 <= n <= a.len(),
        n <= b.len(),
        forall|j: int| 0 <= j < n ==> a[j] == b[j],
    ensures
        indexed(a, n) == indexed(b, n),
    decreases n,
{
    if n > 0 {
        lemma_indexed_same(a, b, n - 1);
    }
}

/// The index of a list of galaxies with one more at its end.
proof fn lemma_indexed_prefix(longer: Seq<(usize, usize)>, shorter: Seq<(usize, usize)>, n: int)
    requires
        0 <= n <= shorter.len(),
        shorter.len() <= longer.len(),
        forall|j: int| 0 <= j < shorter.len() ==> longer[j] == shorter[j],
    ensures
        indexed(longer, n) == indexed(shorter, n),
{
    lemma_indexed_same(longer, shorter, n);
}

/// No more columns below `x` hold a galaxy than there are columns below `x`.
proof fn lemma_below_bound_columns(locations: Seq<(usize, usize)>, x: int)
    requires
        0 <= x,
    ensures
        columns_below(locations, x) <= x,
    decreases x,
{
    if x > 0 {
        lemma_below_bound_columns(locations, x - 1);
    }
}

/// No more rows below `y` hold a galaxy than there are rows below `y`.
proof fn lemma_below_bound_rows(locations: Seq<(usize, usize)>, y: int)
    requires
        0 <= y,
    ensures
        rows_below(locations, y) <= y,
    decreases y,
{
    if y > 0 {
        lemma_below_bound_rows(locations, y - 1);
    }
}

/// How many galaxies the drawing of the image has passed when it comes to
/// column `x` of row `y`. The drawing goes through the cells in reading
/// order and through the galaxies by number, and passes a galaxy when it
/// comes to the cell where the galaxy lies.
pub open spec fn drawn_before(locations: Seq<(usize, usize)>, width: int, x: int, y: int) -> int
    decreases y, x,
{
    if x <= 0 {
        if y <= 0 || width <= 0 {
            0
        } else {
            drawn_before(locations, width, width, y - 1)
        }
    } else {
        let before = drawn_before(locations, width, x - 1, y);
        if 0 <= before < locations.len() && locations[before] == ((x - 1) as usize, y as usize) {
            before + 1
        } else {
            before
        }
    }
}

/// The sign drawn for column `x` of row `y`: `'#'` where the next galaxy to
/// draw lies, `'.'` elsewhere.
pub open spec fn drawn_sign(locations: Seq<(usize, usize)>, width: int, x: int, y: int) -> char {
    let next = drawn_before(locations, width, x, y);
    if 0 <= next < locations.len() && locations[next] == (x as usize, y as usize) {
        '#'
    } else {
        '.'
    }
}

/// The drawing of the first `rows` rows, each ended by a line feed.
pub open spec fn drawing(locations: Seq<(usize, usize)>, width: int, rows: int) -> Seq<char>
    decreases rows,
{
    if rows <= 0 {
        seq![]
    } else {
        drawing(locations, width, rows - 1) + Seq::new(
            width as nat,
            |x: int| drawn_sign(locations, width, x, rows - 1),
        ) + seq!['\n']
    }
}

impl GalaxyMap {
    /// The image as text: a `'#'` for a galaxy and a `'.'` for empty space,
    /// every row ended by a line feed. The galaxies are drawn by number, so
    /// one that lies before the one drawn last is left out.
    pub fn to_text(&self) -> (s: String)
        ensures
            s@ == drawing(self.locations(), self.spec_width() as int, self.spec_height() as int),
    {
        let mut out: Vec<char> = Vec::new();
        let mut next: usize = 0;
        let ghost locations = self.locations@;
        let ghost width = self.width as int;
        let mut y: usize = 0;
        while y < self.height
            invariant
                y <= self.height,
                locations == self.locations@,
                width == self.width as int,
                next <= self.locations.len(),
                next == drawn_before(locations, width, 0, y as int),
                out@ == drawing(locations, width, y as int),
            decreases self.height - y,
        {
            let ghost done = out@;
            let mut x: usize = 0;
            let ghost row = Seq::new(width as nat, |x: int| drawn_sign(locations, width, x, y as int));
            assert(row.take(0) =~= Seq::<char>::empty());
            assert(done + row.take(0) =~= done);
            while x < self.width
                invariant
                    x <= self.width,
                    locations == self.locations@,
                    width == self.width as int,
                    next <= self.locations.len(),
                    next == drawn_before(locations, width, x as int, y as int),
                    row == Seq::new(width as nat, |x: int| drawn_sign(locations, width, x, y as int)),
                    out@ == done + row.take(x as int),
                decreases self.width - x,
            {
                let here = next < self.locations.len() && self.locations[next].0 == x
                    && self.locations[next].1 == y;
                if here {
                    out.push('#');
                    next += 1;
                } else {
                    out.push('.');
                }
                assert(out@ =~= done + row.take(x + 1));
                x += 1;
            }
            out.push('\n');
            proof {
                assert(row.take(width) =~= row);
                assert(out@ =~= done + row + seq!['\n']);
            }
            y += 1;
        }
        string_of(&out)
    }
}

/// The pairs of a list: each entry with each later one, in the order of the
/// first and then of the second.
pub open spec fn pairs_of(items: Seq<(usize, usize)>) -> Seq<Seq<(usize, usize)>>
    decreases items.len(),
{
    if items.len() < 2 {
        seq![]
    } else {
        Seq::new((items.len() - 1) as nat, |j: int| seq![items[0], items[j + 1]]) + pairs_of(
            items.drop_first(),
        )
    }
}

/// The views of a list of lists of coordinates.
pub open spec fn lists_view(lists: Seq<Vec<(usize, usize)>>) -> Seq<Seq<(usize, usize)>> {
    Seq::new(lists.len(), |i: int| lists[i]@)
}

/// Every pair holds two entries.
pub proof fn lemma_pairs_are_pairs(items: Seq<(usize, usize)>, k: int)
    requires
        0 <= k < pairs_of(items).len(),
    ensures
        pairs_of(items)[k].len() == 2,
    decreases items.len(),
{
    if items.len() >= 2 {
        if k >= items.len() - 1 {
            lemma_pairs_are_pairs(items.drop_first(), k - (items.len() - 1));
        }
    }
}

/// All pairs of entries of the list, by `itertools::Itertools::combinations`
/// with a length of two.
///
/// The contract claims what the crate documents and its source shows: the
/// combinations come in the order of the positions of their entries, so
/// each entry is paired with each later one, first by the first entry and
/// then by the second.
#[verifier::external_body]
pub(crate) fn combinations_of_two(items: Vec<(usize, usize)>) -> (pairs: Vec<Vec<(usize, usize)>>)
    ensures
        lists_view(pairs@) == pairs_of(items@),
{
    items.into_iter().combinations(2).collect()
}

/// The sum of the distances of the first `n` pairs.
pub open spec fn distances(pairs: Seq<Seq<(usize, usize)>>, n: int) -> int
    decreases n,
{
    if n <= 0 {
        0
    } else {
        distances(pairs, n - 1) + spec_distance(pairs[n - 1][0], pairs[n - 1][1])
    }
}

/// A sum of distances is not negative.
pub proof fn lemma_distances_positive(pairs: Seq<Seq<(usize, usize)>>, n: int)
    ensures
        0 <= distances(pairs, n),
    decreases n,
{
    if n > 0 {
        lemma_distances_positive(pairs, n - 1);
    }
}

/// The sum over fewer pairs is no larger.
pub proof fn lemma_distances_grow(pairs: Seq<Seq<(usize, usize)>>, a: int, b: int)
    requires
        a <= b,
    ensures
        distances(pairs, a) <= distances(pairs, b),
    decreases b - a,
{
    if a < b {
        lemma_distances_grow(pairs, a, b - 1);
    }
}

/// The sum of the distances between the two galaxies of each pair.
pub fn sum_of_distances(pairs: &Vec<Vec<(usize, usize)>>) -> (sum: usize)
    requires
        forall|k: int| 0 <= k < pairs.len() ==> (#[trigger] pairs[k]).len() == 2,
        distances(lists_view(pairs@), pairs.len() as int) <= usize::MAX,
    ensures
        sum == distances(lists_view(pairs@), pairs.len() as int),
{
    let mut sum: usize = 0;
    let mut k: usize = 0;
    let ghost all = lists_view(pairs@);
    while k < pairs.len()
        invariant
            k <= pairs.len(),
            all == lists_view(pairs@),
            forall|j: int| 0 <= j < pairs.len() ==> (#[trigger] pairs[j]).len() == 2,
            distances(all, pairs.len() as int) <= usize::MAX,
            sum == distances(all, k as int),
        decreases pairs.len() - k,
    {
        let pair = &pairs[k];
        proof {
            assert(pairs[k as int].len() == 2);
            assert(all[k as int] == pair@);
            lemma_distances_grow(all, k + 1, pairs.len() as int);
            lemma_distances_positive(all, k as int);
        }
        sum = sum + distance(pair[0], pair[1]);
        k += 1;
    }
    sum
}

/// The sum of the distances between every two galaxies of the map.
pub open spec fn all_distances(locations: Seq<(usize, usize)>) -> int {
    distances(pairs_of(locations), pairs_of(locations).len() as int)
}

/// Expands the map by `expansion` and adds up the distances between every
/// two of its galaxies.
pub fn solve(map: GalaxyMap, expansion: usize) -> (sum: usize)
    requires
        map.expandable(expansion as int),
        all_distances(expanded_locations(map.locations(), expansion as int)) <= usize::MAX,
    ensures
        sum == all_distances(expanded_locations(map.locations(), expansion as int)),
{
    let mut map = map;
    map.expand(expansion);
    let locations = copy_locations(map.iter_locations());
    let ghost after = locations@;
    let pairs = combinations_of_two(locations);
    proof {
        assert forall|k: int| 0 <= k < pairs.len() implies (#[trigger] pairs[k]).len() == 2 by {
            lemma_pairs_are_pairs(after, k);
            assert(lists_view(pairs@)[k] == pairs[k]@);
        }
    }
    sum_of_distances(&pairs)
}

/// A copy of the list.
fn copy_locations(list: &Vec<(usize, usize)>) -> (copy: Vec<(usize, usize)>)
    ensures
        copy@ == list@,
{
    let mut copy: Vec<(usize, usize)> = Vec::new();
    let mut i: usize = 0;
    while i < list.len()
        invariant
            i <= list.len(),
            copy@ == list@.take(i as int),
        decreases list.len() - i,
    {
        copy.push(list[i]);
        assert(copy@ =~= list@.take(i + 1));
        i += 1;
    }
    assert(list@.take(list.len() as int) =~= list@);
    copy
}

/// Whether the place where `at` lands, when `occupied` of the lines before
/// it hold a galaxy and every other one becomes `n` lines, is a number of
/// the machine.
fn stretches(at: usize, occupied: usize, n: usize) -> (r: bool)
    requires
        occupied <= at,
    ensures
        r == (stretched(at as int, occupied as int, n as int) <= usize::MAX),
{
    match (at - occupied).checked_mul(n) {
        Some(product) => product.checked_add(occupied).is_some(),
        None => false,
    }
}

impl GalaxyMap {
    /// Whether the expansion by `n` stays within the numbers of the machine.
    pub fn can_expand(&self, n: usize) -> (r: bool)
        ensures
            r == self.expandable(n as int),
    {
        let (columns, rows) = self.occupied_lines();
        if columns.len() > self.width || rows.len() > self.height {
            return false;
        }
        if !stretches(self.width, columns.len(), n) || !stretches(self.height, rows.len(), n) {
            return false;
        }
        let ghost locations = self.locations@;
        let mut k: usize = 0;
        while k < self.locations.len()
            invariant
                k <= self.locations.len(),
                locations == self.locations@,
                rising(columns@),
                rising(rows@),
                forall|c: int|
                    0 <= c <= usize::MAX ==> (columns@.contains(c as usize)
                        <==> #[trigger] column_occupied(locations, c)),
                forall|y: int|
                    0 <= y <= usize::MAX ==> (rows@.contains(y as usize) <==> #[trigger] row_occupied(
                        locations,
                        y,
                    )),
                forall|i: int|
                    0 <= i < k ==> expanded_location(locations, #[trigger] locations[i], n as int).0
                        <= usize::MAX && expanded_location(locations, locations[i], n as int).1
                        <= usize::MAX,
            decreases self.locations.len() - k,
        {
            let (x, y) = self.locations[k];
            let occupied_columns = count_below(&columns, x);
            let occupied_rows = count_below(&rows, y);
            proof {
                lemma_columns_below(locations, columns@, x as int);
                lemma_rows_below(locations, rows@, y as int);
                lemma_below_bound_columns(locations, x as int);
                lemma_below_bound_rows(locations, y as int);
                assert(locations[k as int] == (x, y));
            }
            if !stretches(x, occupied_columns, n) || !stretches(y, occupied_rows, n) {
                assert(!(expanded_location(locations, locations[k as int], n as int).0 <= usize::MAX
                    && expanded_location(locations, locations[k as int], n as int).1
                    <= usize::MAX));
                return false;
            }
            k += 1;
        }
        true
    }
}

/// The distance between two galaxies, or `None` when it passes the largest
/// number of the machine.
pub fn checked_distance(a: (usize, usize), b: (usize, usize)) -> (r: Option<usize>)
    ensures
        match r {
            Some(d) => d == spec_distance(a, b),
            None => spec_distance(a, b) > usize::MAX,
        },
{
    let dx = if a.0 >= b.0 {
        a.0 - b.0
    } else {
        b.0 - a.0
    };
    let dy = if a.1 >= b.1 {
        a.1 - b.1
    } else {
        b.1 - a.1
    };
    dx.checked_add(dy)
}

/// The sum of the distances between the two galaxies of each pair, or
/// `None` when it passes the largest number of the machine.
pub fn checked_sum_of_distances(pairs: &Vec<Vec<(usize, usize)>>) -> (r: Option<usize>)
    requires
        forall|k: int| 0 <= k < pairs.len() ==> (#[trigger] pairs[k]).len() == 2,
    ensures
        match r {
            Some(sum) => sum == distances(lists_view(pairs@), pairs.len() as int),
            None => distances(lists_view(pairs@), pairs.len() as int) > usize::MAX,
        },
{
    let mut sum: usize = 0;
    let mut k: usize = 0;
    let ghost all = lists_view(pairs@);
    while k < pairs.len()
        invariant
            k <= pairs.len(),
            all == lists_view(pairs@),
            forall|j: int| 0 <= j < pairs.len() ==> (#[trigger] pairs[j]).len() == 2,
            sum == distances(all, k as int),
        decreases pairs.len() - k,
    {
        let pair = &pairs[k];
        proof {
            assert(pairs[k as int].len() == 2);
            assert(all[k as int] == pair@);
            lemma_distances_grow(all, k + 1, pairs.len() as int);
            lemma_distances_positive(all, k as int);
        }
        let d = match checked_distance(pair[0], pair[1]) {
            Some(d) => d,
            None => {
                return None;
            },
        };
        sum = match sum.checked_add(d) {
            Some(s) => s,
            None => {
                return None;
            },
        };
        k += 1;
    }
    Some(sum)
}

/// Expands the map by `expansion` and adds up the distances between every
/// two of its galaxies; `None` when the expansion or the sum passes the
/// largest number of the machine.
pub fn checked_solve(map: GalaxyMap, expansion: usize) -> (r: Option<usize>)
    ensures
        match r {
            Some(sum) => map.expandable(expansion as int) && sum == all_distances(
                expanded_locations(map.locations(), expansion as int),
            ),
            None => !map.expandable(expansion as int) || all_distances(
                expanded_locations(map.locations(), expansion as int),
            ) > usize::MAX,
        },
{
    if !map.can_expand(expansion) {
        return None;
    }
    let mut map = map;
    map.expand(expansion);
    let locations = copy_locations(map.iter_locations());
    let ghost after = locations@;
    let pairs = combinations_of_two(locations);
    proof {
        assert forall|k: int| 0 <= k < pairs.len() implies (#[trigger] pairs[k]).len() == 2 by {
            lemma_pairs_are_pairs(after, k);
            assert(lists_view(pairs@)[k] == pairs[k]@);
        }
    }
    checked_sum_of_distances(&pairs)
}

impl std::str::FromStr for GalaxyMap {
    type Err = GalaxyError;

    fn from_str(s: &str) -> (r: Result<GalaxyMap, GalaxyError>)
        ensures
            r is Ok,
            ({
                let map = r->Ok_0;
                let rows = lines_of(trimmed(s@));
                &&& map.locations() == galaxies_in(rows, rows.len() as int)
                &&& map.index() == indexed(map.locations(), map.locations().len() as int)
                &&& map.spec_width() == widest(rows, rows.len() as int)
                &&& map.spec_height() == rows.len()
            }),
    {
        Ok(GalaxyMap::parse(s))
    }
}

} // verus!
