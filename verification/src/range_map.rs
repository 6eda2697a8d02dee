//! A map made of ranges: each entry sends a stretch of source numbers to a
//! stretch of destination numbers, and every other number to itself.

use vstd::prelude::*;

verus! {

/// One range of a [`RangeMap`]: the numbers `source .. source + length` go
/// to `dest ..  dest + length`.
#[derive(Debug, PartialEq, Eq, Clone, Copy, Structural)]
pub struct RangeMapEntry {
    pub source: usize,
    pub dest: usize,
    pub length: usize,
}

impl RangeMapEntry {
    /// Whether `i` lies in the source range of the entry.
    pub open spec fn holds(&self, i: int) -> bool {
        self.source <= i < self.source + self.length
    }

    /// Where the entry sends `i`.
    pub open spec fn image(&self, i: int) -> int {
        self.dest + (i - self.source)
    }

    /// The last number of the destination range is representable.
    pub open spec fn fits(&self) -> bool {
        self.length == 0 || self.dest + self.length - 1 <= usize::MAX
    }
}

/// Number of entries at the front of `list` whose source lies below
/// `source`.
pub open spec fn below(list: Seq<RangeMapEntry>, source: int) -> nat
    decreases list.len(),
{
    if list.len() > 0 && list[0].source < source {
        1 + below(list.drop_first(), source)
    } else {
        0
    }
}

/// Whether the entries are in the order of their sources.
pub open spec fn sorted(list: Seq<RangeMapEntry>) -> bool {
    forall|a: int, b: int| 0 <= a < b < list.len() ==> list[a].source <= list[b].source
}

/// Whether no two entries overlap: each range ends before the next begins.
pub open spec fn separated(list: Seq<RangeMapEntry>) -> bool {
    forall|a: int, b: int|
        0 <= a < b < list.len() ==> list[a].source + list[a].length <= list[b].source
}

/// The entry that a binary search between `lo` and `hi` arrives at when it
/// looks for `i`: the middle entry if it holds `i`, else what the search
/// finds in the half before it, when its source lies above `i`, or in the
/// half behind it.
pub open spec fn search(list: Seq<RangeMapEntry>, i: int, lo: int, hi: int) -> Option<int>
    decreases hi - lo,
{
    if lo >= hi {
        None
    } else {
        let mid = lo + (hi - lo) / 2;
        if list[mid].holds(i) {
            Some(mid)
        } else if list[mid].source > i {
            search(list, i, lo, mid)
        } else {
            search(list, i, mid + 1, hi)
        }
    }
}

/// The number that the entries send `i` to.
pub open spec fn lookup(list: Seq<RangeMapEntry>, i: int) -> int {
    match search(list, i, 0, list.len() as int) {
        Some(k) => list[k].image(i),
        None => i,
    }
}

/// In a sorted list the entries with a source below `source` are the first
/// `below(list, source)` ones.
pub proof fn lemma_below(list: Seq<RangeMapEntry>, source: int, k: int)
    requires
        sorted(list),
        0 <= k <= list.len(),
        forall|a: int| 0 <= a < k ==> (#[trigger] list[a]).source < source,
        k == list.len() || list[k].source >= source,
    ensures
        below(list, source) == k,
    decreases list.len(),
{
    if list.len() > 0 && k > 0 {
        let rest = list.drop_first();
        assert(list[0].source < source);
        assert forall|a: int, b: int| 0 <= a < b < rest.len() implies rest[a].source
            <= rest[b].source by {
            assert(rest[a] == list[a + 1]);
            assert(rest[b] == list[b + 1]);
        }
        assert forall|a: int| 0 <= a < k - 1 implies (#[trigger] rest[a]).source < source by {
            assert(rest[a] == list[a + 1]);
        }
        if k < list.len() {
            assert(rest[k - 1] == list[k]);
        }
        lemma_below(rest, source, k - 1);
    }
}

/// Where no two ranges overlap, the search finds the one entry that holds
/// `i`, and finds nothing only when no entry holds it.
pub proof fn lemma_search_finds(list: Seq<RangeMapEntry>, i: int, lo: int, hi: int)
    requires
        sorted(list),
        separated(list),
        0 <= lo <= hi <= list.len(),
        forall|k: int| 0 <= k < list.len() && (#[trigger] list[k]).holds(i) ==> lo <= k < hi,
    ensures
        match search(list, i, lo, hi) {
            Some(k) => lo <= k < hi && list[k].holds(i) && forall|m: int|
                0 <= m < list.len() && (#[trigger] list[m]).holds(i) ==> m == k,
            None => forall|m: int| 0 <= m < list.len() ==> !(#[trigger] list[m]).holds(i),
        },
    decreases hi - lo,
{
    if lo < hi {
        let mid = lo + (hi - lo) / 2;
        if list[mid].holds(i) {
            assert forall|m: int| 0 <= m < list.len() && (#[trigger] list[m]).holds(i) implies m
                == mid by {
                if m < mid {
                    assert(list[m].source + list[m].length <= list[mid].source);
                } else if m > mid {
                    assert(list[mid].source + list[mid].length <= list[m].source);
                }
            }
        } else if list[mid].source > i {
            assert forall|k: int| 0 <= k < list.len() && (#[trigger] list[k]).holds(i) implies lo
                <= k < mid by {
                if k >= mid {
                    assert(list[mid].source <= list[k].source);
                }
            }
            lemma_search_finds(list, i, lo, mid);
        } else {
            assert forall|k: int| 0 <= k < list.len() && (#[trigger] list[k]).holds(i) implies mid
                + 1 <= k < hi by {
                if k < mid {
                    assert(list[k].source + list[k].length <= list[mid].source);
                }
            }
            lemma_search_finds(list, i, mid + 1, hi);
        }
    }
}

/// A map made of ranges, kept in the order of their sources.
#[derive(Debug, Clone)]
pub struct RangeMap {
    list: Vec<RangeMapEntry>,
}

impl View for RangeMap {
    type V = Seq<RangeMapEntry>;

    closed spec fn view(&self) -> Seq<RangeMapEntry> {
        self.list@
    }
}

impl Default for RangeMap {
    fn default() -> (r: RangeMap)
        ensures
            r@ == Seq::<RangeMapEntry>::empty(),
            r.wf(),
    {
        RangeMap::new()
    }
}

impl RangeMap {
    /// The entries are in the order of their sources, and the destination
    /// range of each is representable.
    pub open spec fn wf(&self) -> bool {
        &&& sorted(self@)
        &&& forall|k: int| 0 <= k < self@.len() ==> (#[trigger] self@[k]).fits()
    }

    /// An empty map, which sends every number to itself.
    pub fn new() -> (r: RangeMap)
        ensures
            r@ == Seq::<RangeMapEntry>::empty(),
            r.wf(),
    {
        RangeMap { list: Vec::new() }
    }

    /// Adds the range that sends `source .. source + length` to
    /// `dest .. dest + length`. It is put in front of the first entry whose
    /// source is not below `source`.
    pub fn push(&mut self, source: usize, dest: usize, length: usize)
        requires
            old(self).wf(),
            length == 0 || dest + length - 1 <= usize::MAX,
        ensures
            final(self).wf(),
            final(self)@ == old(self)@.insert(
                below(old(self)@, source as int) as int,
                RangeMapEntry { source, dest, length },
            ),
    {
        let entry = RangeMapEntry { source, dest, length };
        let mut lo: usize = 0;
        let mut hi: usize = self.list.len();
        while lo < hi
            invariant
                0 <= lo <= hi <= self.list.len(),
                forall|a: int| 0 <= a < lo ==> (#[trigger] self.list@[a]).source < source,
                hi == self.list.len() || self.list@[hi as int].source >= source,
                sorted(self.list@),
            decreases hi - lo,
        {
            let mid = lo + (hi - lo) / 2;
            if self.list[mid].source < source {
                assert forall|a: int| 0 <= a < mid + 1 implies (#[trigger] self.list@[a]).source
                    < source by {
                    if a < mid {
                        assert(self.list@[a].source <= self.list@[mid as int].source);
                    }
                }
                lo = mid + 1;
            } else {
                hi = mid;
            }
        }
        proof {
            lemma_below(self.list@, source as int, lo as int);
        }
        let ghost before = self.list@;
        self.list.insert(lo, entry);
        proof {
            let after = self.list@;
            assert forall|a: int, b: int| 0 <= a < b < after.len() implies after[a].source
                <= after[b].source by {
                if b < lo {
                    assert(after[a] == before[a] && after[b] == before[b]);
                } else if b == lo {
                    assert(after[a] == before[a]);
                } else if a < lo {
                    assert(after[a] == before[a] && after[b] == before[b - 1]);
                    assert(before[a].source < source);
                    assert(before[lo as int].source <= before[b - 1].source);
                } else if a == lo {
                    assert(after[b] == before[b - 1]);
                    assert(before[lo as int].source <= before[b - 1].source);
                } else {
                    assert(after[a] == before[a - 1] && after[b] == before[b - 1]);
                }
            }
            assert forall|k: int| 0 <= k < after.len() implies (#[trigger] after[k]).fits() by {
                if k < lo {
                    assert(after[k] == before[k]);
                } else if k > lo {
                    assert(after[k] == before[k - 1]);
                }
            }
        }
    }

    /// The entry at position `i`.
    pub fn get_entry(&self, i: usize) -> (r: Option<&RangeMapEntry>)
        requires
            i < self@.len(),
        ensures
            r == Some(&self@[i as int]),
    {
        Some(&self.list[i])
    }

    /// The number that `i` is sent to: by the entry that a binary search
    /// arrives at, or to itself when the search finds no entry that holds
    /// it.
    pub fn get(&self, i: usize) -> (r: usize)
        requires
            self.wf(),
        ensures
            r == lookup(self@, i as int),
    {
        let mut lo: usize = 0;
        let mut hi: usize = self.list.len();
        while lo < hi
            invariant
                0 <= lo <= hi <= self.list.len(),
                self.wf(),
                search(self@, i as int, 0, self@.len() as int) == search(
                    self@,
                    i as int,
                    lo as int,
                    hi as int,
                ),
            decreases hi - lo,
        {
            let mid = lo + (hi - lo) / 2;
            let entry = self.list[mid];
            if entry.source <= i && i - entry.source < entry.length {
                assert(self@[mid as int].fits());
                return entry.dest + (i - entry.source);
            } else if entry.source > i {
                hi = mid;
            } else {
                lo = mid + 1;
            }
        }
        i
    }

    /// Number of entries.
    pub fn len(&self) -> (n: usize)
        ensures
            n == self@.len(),
    {
        self.list.len()
    }

    /// Whether the map has no entry.
    pub fn is_empty(&self) -> (r: bool)
        ensures
            r == (self@.len() == 0),
    {
        self.len() == 0
    }
}

/// Where the ranges of a map do not overlap, a number that an entry holds
/// goes where that entry sends it, and any other number goes to itself.
pub proof fn law_lookup_of_separated(list: Seq<RangeMapEntry>, i: int)
    requires
        sorted(list),
        separated(list),
    ensures
        forall|k: int| 0 <= k < list.len() && (#[trigger] list[k]).holds(i) ==> lookup(list, i)
            == list[k].image(i),
        (forall|k: int| 0 <= k < list.len() ==> !(#[trigger] list[k]).holds(i)) ==> lookup(list, i)
            == i,
{
    lemma_search_finds(list, i, 0, list.len() as int);
}

} // verus!
