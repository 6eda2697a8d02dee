//! What is read off an engine schematic: the numbers that stand beside a
//! symbol, and the ratios of the gears.

use vstd::prelude::*;
use std::collections::{HashMap, HashSet};
use crate::schematic::{
    Number, Point, Schematic, more_digits, number_begins, numbers_from, numbers_view,
};
use crate::text::{all_digits, decimal, is_digit};

verus! {

broadcast use vstd::std_specs::hash::group_hash_axioms;

/// Whether the number `n` covers the cell at offset `k`.
pub open spec fn covers(n: (usize, Seq<char>), k: int) -> bool {
    n.0 <= k < n.0 + n.1.len()
}

/// The index of the last of the numbers that covers the cell at offset `k`.
pub open spec fn covering(numbers: Seq<(usize, Seq<char>)>, k: int) -> Option<usize>
    decreases numbers.len(),
{
    if numbers.len() == 0 {
        None
    } else if covers(numbers.last(), k) {
        Some((numbers.len() - 1) as usize)
    } else {
        covering(numbers.drop_last(), k)
    }
}

/// The digits that continue a number are digits.
proof fn lemma_more_digits(data: Seq<Point>, width: int, at: int)
    requires
        forall|i: int| 0 <= i < data.len() && (#[trigger] data[i]) is Num ==> is_digit(data[i]->Num_0),
    ensures
        all_digits(more_digits(data, width, at)),
    decreases data.len() - at,
{
    if 0 <= at < data.len() && at % width != 0 && data[at] is Num {
        lemma_more_digits(data, width, at + 1);
        let rest = more_digits(data, width, at + 1);
        let all = more_digits(data, width, at);
        assert forall|i: int| 0 <= i < all.len() implies is_digit(#[trigger] all[i]) by {
            if i > 0 {
                assert(all[i] == rest[i - 1]);
            }
        }
    }
}

/// Every number of a schematic whose number cells hold digits is made of
/// digits.
proof fn lemma_numbers_digits(data: Seq<Point>, width: int, from: int, i: int)
    requires
        forall|i: int| 0 <= i < data.len() && (#[trigger] data[i]) is Num ==> is_digit(data[i]->Num_0),
        0 <= i < numbers_from(data, width, from).len(),
    ensures
        all_digits(numbers_from(data, width, from)[i].1),
    decreases data.len() - from,
{
    if 0 <= from < data.len() {
        if number_begins(data, width, from) {
            if i == 0 {
                lemma_more_digits(data, width, from + 1);
                let rest = more_digits(data, width, from + 1);
                let chars = seq![data[from]->Num_0] + rest;
                assert forall|j: int| 0 <= j < chars.len() implies is_digit(#[trigger] chars[j]) by {
                    if j > 0 {
                        assert(chars[j] == rest[j - 1]);
                    }
                }
            } else {
                lemma_numbers_digits(data, width, from + 1, i - 1);
            }
        } else {
            lemma_numbers_digits(data, width, from + 1, i);
        }
    }
}

/// The offsets below `end` of the cells that hold the gear symbol, in rising
/// order.
pub open spec fn gears_below(data: Seq<Point>, end: int) -> Seq<usize>
    decreases end,
{
    if end <= 0 {
        seq![]
    } else if data[end - 1] == Point::Symbol('*') {
        gears_below(data, end - 1).push((end - 1) as usize)
    } else {
        gears_below(data, end - 1)
    }
}

impl Schematic {
    /// The schematic can be read: rows have a width, number cells hold
    /// digits, and no number has more than nine of them.
    pub open spec fn readable(&self) -> bool {
        &&& self.width > 0
        &&& self.digits_ok()
        &&& forall|i: int|
            0 <= i < self.spec_numbers().len() ==> (#[trigger] self.spec_numbers()[i]).1.len() <= 9
    }

    /// The value of the number with index `i`.
    pub open spec fn number_value(&self, i: int) -> nat {
        decimal(self.spec_numbers()[i].1)
    }

    /// Whether a symbol stands in a cell that touches the number with index
    /// `i`.
    pub open spec fn beside_symbol(&self, i: int) -> bool {
        let n = self.spec_numbers()[i];
        exists|k: int|
            0 <= k < self.data.len() && #[trigger] self.touches(n.0 as int, n.1.len() as int, k)
                && self.data@[k] is Symbol
    }

    /// The values of those among the first `end` numbers that stand beside a
    /// symbol.
    pub open spec fn part_values(&self, end: int) -> Seq<u32>
        decreases end,
    {
        if end <= 0 {
            seq![]
        } else if self.beside_symbol(end - 1) {
            self.part_values(end - 1).push(self.number_value(end - 1) as u32)
        } else {
            self.part_values(end - 1)
        }
    }

    /// Whether the number with index `i` is adjacent to the cell at offset
    /// `gear`: it covers a cell that touches it.
    pub open spec fn adjacent(&self, gear: int, i: int) -> bool {
        exists|k: int|
            0 <= k < self.data.len() && #[trigger] self.touches(gear, 1, k) && covering(
                self.spec_numbers(),
                k,
            ) == Some(i as usize)
    }

    /// Whether the numbers with the indices `i` and `j` are the two numbers
    /// adjacent to the cell at offset `gear`, and no other number is.
    pub open spec fn exactly_two(&self, gear: int, i: int, j: int) -> bool {
        &&& 0 <= i < j < self.spec_numbers().len()
        &&& self.adjacent(gear, i)
        &&& self.adjacent(gear, j)
        &&& forall|m: int|
            0 <= m < self.spec_numbers().len() && #[trigger] self.adjacent(gear, m) ==> m == i || m
                == j
    }

    /// The ratio of the gear at offset `gear`: the product of the two
    /// numbers adjacent to it, or zero unless exactly two numbers are.
    pub open spec fn gear_ratio(&self, gear: int) -> nat {
        if exists|i: int, j: int| self.exactly_two(gear, i, j) {
            let (i, j) = choose|i: int, j: int| self.exactly_two(gear, i, j);
            self.number_value(i) * self.number_value(j)
        } else {
            0
        }
    }

    /// The sum of the ratios of the first `end` of the listed gears.
    pub open spec fn ratio_sum(&self, gears: Seq<usize>, end: int) -> nat
        decreases end,
    {
        if end <= 0 {
            0
        } else {
            self.ratio_sum(gears, end - 1) + self.gear_ratio(gears[end - 1] as int)
        }
    }

    /// The sum of the ratios of all gears of the schematic.
    pub open spec fn gear_total(&self) -> nat {
        let gears = gears_below(self.data@, self.data.len() as int);
        self.ratio_sum(gears, gears.len() as int)
    }

    /// The sum over fewer gears is no larger.
    pub proof fn lemma_ratio_sum_grows(&self, gears: Seq<usize>, a: int, b: int)
        requires
            a <= b,
        ensures
            self.ratio_sum(gears, a) <= self.ratio_sum(gears, b),
        decreases b - a,
    {
        if a < b {
            self.lemma_ratio_sum_grows(gears, a, b - 1);
        }
    }
}

/// Whether a symbol stands in one of the listed cells.
fn any_symbol(schematic: &Schematic, cells: &Vec<usize>) -> (r: bool)
    ensures
        r == exists|i: int|
            0 <= i < cells.len() && cells[i] < schematic.data.len() && (
            #[trigger] schematic.data@[cells[i] as int]) is Symbol,
{
    let mut i: usize = 0;
    while i < cells.len()
        invariant
            i <= cells.len(),
            forall|j: int|
                0 <= j < i && cells[j] < schematic.data.len() ==> !((
                #[trigger] schematic.data@[cells[j] as int]) is Symbol),
        decreases cells.len() - i,
    {
        let k = cells[i];
        if k < schematic.data.len() {
            match schematic.data[k] {
                Point::Symbol(_) => {
                    return true;
                },
                _ => {},
            }
        }
        i += 1;
    }
    false
}

/// The values of the numbers that stand beside a symbol, in reading order.
pub fn numbers_with_symbols(schematic: &Schematic) -> (values: Vec<u32>)
    requires
        schematic.readable(),
    ensures
        values@ == schematic.part_values(schematic.spec_numbers().len() as int),
{
    let numbers = schematic.numbers();
    let ghost all = schematic.spec_numbers();
    let mut values: Vec<u32> = Vec::new();
    let mut i: usize = 0;
    while i < numbers.len()
        invariant
            i <= numbers.len(),
            schematic.readable(),
            all == schematic.spec_numbers(),
            numbers_view(numbers@) == all,
            values@ == schematic.part_values(i as int),
        decreases numbers.len() - i,
    {
        let n = &numbers[i];
        proof {
            assert(numbers_view(numbers@)[i as int] == numbers[i as int]@);
            lemma_numbers_digits(schematic.data@, schematic.width as int, 0, i as int);
            assert(all[i as int].1.len() <= 9);
        }
        let around = schematic.neighbors(n.offset, n.len());
        let beside = any_symbol(schematic, &around);
        proof {
            let offset = n.offset as int;
            let length = n.chars@.len() as int;
            let entry = schematic.spec_numbers()[i as int];
            assert(entry == (n.offset, n.chars@));
            if beside {
                let j = choose|j: int|
                    0 <= j < around.len() && around[j] < schematic.data.len() && (
                    #[trigger] schematic.data@[around[j] as int]) is Symbol;
                let k = around[j] as int;
                assert(around@.contains(k as usize));
                assert(schematic.touches(offset, length, k));
                assert(schematic.touches(entry.0 as int, entry.1.len() as int, k));
                assert(schematic.beside_symbol(i as int));
            }
            if schematic.beside_symbol(i as int) {
                let k = choose|k: int|
                    0 <= k < schematic.data.len() && #[trigger] schematic.touches(
                        entry.0 as int,
                        entry.1.len() as int,
                        k,
                    ) && schematic.data@[k] is Symbol;
                assert(schematic.touches(offset, length, k));
                assert(around@.contains(k as usize));
                let j = choose|j: int| 0 <= j < around.len() && around[j] == k as usize;
                assert(schematic.data@[around[j] as int] is Symbol);
                assert(beside);
            }
        }
        assert(beside == schematic.beside_symbol(i as int));
        let ghost before = values@;
        if beside {
            values.push(n.value());
            assert(values@ =~= before.push(schematic.number_value(i as int) as u32));
        }
        i += 1;
    }
    values
}

/// The offsets of the cells that hold the gear symbol, in rising order.
pub fn gears(schematic: &Schematic) -> (offsets: Vec<usize>)
    ensures
        offsets@ == gears_below(schematic.data@, schematic.data.len() as int),
{
    let mut offsets: Vec<usize> = Vec::new();
    let mut k: usize = 0;
    while k < schematic.data.len()
        invariant
            k <= schematic.data.len(),
            offsets@ == gears_below(schematic.data@, k as int),
        decreases schematic.data.len() - k,
    {
        match schematic.data[k] {
            Point::Symbol(c) => {
                if c == '*' {
                    offsets.push(k);
                }
            },
            _ => {},
        }
        k += 1;
    }
    offsets
}

/// What the map of locations says of the cell at offset `k`.
pub open spec fn located(cover: Map<usize, usize>, k: usize) -> Option<usize> {
    if cover.contains_key(k) {
        Some(cover[k])
    } else {
        None
    }
}

/// Whether `cover` maps exactly the cells of `total` that one of `numbers`
/// covers, each to the index of the last number that does.
pub open spec fn locates(cover: Map<usize, usize>, numbers: Seq<(usize, Seq<char>)>, total: int) -> bool {
    &&& forall|k: usize| #[trigger] cover.contains_key(k) ==> k < total
    &&& forall|k: usize| k < total ==> #[trigger] located(cover, k) == covering(numbers, k as int)
}

/// The map from the offset of every cell that a number covers to the index
/// of that number, the last one if several cover the cell. Cells that no
/// number covers have no entry.
pub fn number_locations(schematic: &Schematic, numbers: &Vec<Number>) -> (cover: HashMap<usize, usize>)
    ensures
        locates(cover@, numbers_view(numbers@), schematic.data.len() as int),
{
    let total = schematic.data.len();
    let mut cover: HashMap<usize, usize> = HashMap::new();
    let ghost all = numbers_view(numbers@);
    let mut i: usize = 0;
    assert(all.take(0) =~= Seq::<(usize, Seq<char>)>::empty());
    while i < numbers.len()
        invariant
            i <= numbers.len(),
            all == numbers_view(numbers@),
            locates(cover@, all.take(i as int), total as int),
        decreases numbers.len() - i,
    {
        let offset = numbers[i].offset;
        let length = numbers[i].len();
        let ghost before = cover@;
        let ghost n = all[i as int];
        assert(n == numbers[i as int]@);
        assert(all.take(i + 1).drop_last() =~= all.take(i as int));
        assert(all.take(i + 1).last() == n);
        let mut j: usize = 0;
        while j < length && offset < total && j < total - offset
            invariant
                j <= length,
                i < numbers.len(),
                n == (offset, numbers[i as int].chars@),
                length == n.1.len(),
                forall|k: usize| #[trigger] cover@.contains_key(k) ==> k < total,
                forall|k: usize|
                    k < total ==> #[trigger] located(cover@, k) == if offset <= k < offset + j {
                        Some(i)
                    } else {
                        located(before, k)
                    },
            decreases length - j,
        {
            let ghost earlier = cover@;
            cover.insert(offset + j, i);
            proof {
                assert forall|k: usize| k < total implies #[trigger] located(cover@, k) == if offset
                    <= k < offset + j + 1 {
                    Some(i)
                } else {
                    located(before, k)
                } by {
                    assert(located(earlier, k) == if offset <= k < offset + j {
                        Some(i)
                    } else {
                        located(before, k)
                    });
                }
            }
            j += 1;
        }
        i += 1;
    }
    assert(all.take(numbers.len() as int) =~= all);
    cover
}

/// The indices of the numbers adjacent to the cell at offset `gear`, each
/// once.
fn adjacent_numbers(schematic: &Schematic, cover: &HashMap<usize, usize>, gear: usize) -> (found:
    Vec<usize>)
    requires
        schematic.width > 0,
        locates(cover@, schematic.spec_numbers(), schematic.data.len() as int),
    ensures
        found@.no_duplicates(),
        forall|m: int|
            0 <= m <= usize::MAX ==> (found@.contains(m as usize) <==> #[trigger] schematic.adjacent(
                gear as int,
                m,
            )),
{
    let around = schematic.neighbors(gear, 1);
    let mut found: Vec<usize> = Vec::new();
    let mut seen: HashSet<usize> = HashSet::new();
    let mut a: usize = 0;
    while a < around.len()
        invariant
            a <= around.len(),
            locates(cover@, schematic.spec_numbers(), schematic.data.len() as int),
            forall|m: usize| seen@.contains(m) <==> found@.contains(m),
            forall|k: int|
                #![trigger schematic.touches(gear as int, 1, k)]
                0 <= k <= usize::MAX ==> (around@.contains(k as usize) <==> schematic.touches(
                    gear as int,
                    1,
                    k,
                )),
            found@.no_duplicates(),
            forall|m: int|
                0 <= m <= usize::MAX ==> (#[trigger] found@.contains(m as usize) <==> exists|b: int|
                    0 <= b < a && #[trigger] located(cover@, around[b]) == Some(m as usize)),
        decreases around.len() - a,
    {
        let k = around[a];
        let ghost before = found@;
        let ghost seen_before = seen@;
        let mut fresh: Option<usize> = None;
        if let Some(i) = cover.get(&k) {
            if seen.insert(*i) {
                fresh = Some(*i);
            }
        }
        if let Some(i) = fresh {
            found.push(i);
        }
        proof {
            assert forall|m: usize| seen@.contains(m) <==> found@.contains(m) by {
                if before.contains(m) {
                    let g = choose|g: int| 0 <= g < before.len() && before[g] == m;
                    assert(found@[g] == m);
                }
                if fresh == Some(m) {
                    assert(found@[found.len() - 1] == m);
                }
                if found@.contains(m) && !before.contains(m) {
                    let g = choose|g: int| 0 <= g < found@.len() && found@[g] == m;
                    assert(g == before.len());
                }
            }
            assert(found@.no_duplicates());
        }
        proof {
            assert forall|m: int| 0 <= m <= usize::MAX implies (#[trigger] found@.contains(
                m as usize,
            ) <==> exists|b: int|
                0 <= b < a + 1 && #[trigger] located(cover@, around[b]) == Some(m as usize)) by {
                let hit = located(cover@, k) == Some(m as usize);
                if before.contains(m as usize) {
                    let g = choose|g: int| 0 <= g < before.len() && before[g] == m as usize;
                    assert(found@[g] == m as usize);
                    let b = choose|b: int|
                        0 <= b < a && #[trigger] located(cover@, around[b]) == Some(m as usize);
                    assert(0 <= b < a + 1);
                }
                if hit {
                    assert(located(cover@, around[a as int]) == Some(m as usize));
                    if fresh is Some {
                        assert(found@[found.len() - 1] == m as usize);
                    } else {
                        let g = choose|g: int| 0 <= g < before.len() && before[g] == m as usize;
                        assert(found@[g] == m as usize);
                    }
                }
                if found@.contains(m as usize) && !before.contains(m as usize) {
                    let g = choose|g: int| 0 <= g < found@.len() && found@[g] == m as usize;
                    assert(g == before.len());
                    assert(hit);
                }
                if exists|b: int|
                    0 <= b < a + 1 && #[trigger] located(cover@, around[b]) == Some(m as usize) {
                    let b = choose|b: int|
                        0 <= b < a + 1 && #[trigger] located(cover@, around[b]) == Some(m as usize);
                    if b < a {
                        assert(before.contains(m as usize));
                    } else {
                        assert(hit);
                    }
                }
            }
        }
        a += 1;
    }
    proof {
        assert forall|m: int| 0 <= m <= usize::MAX implies (found@.contains(m as usize)
            <==> #[trigger] schematic.adjacent(gear as int, m)) by {
            if found@.contains(m as usize) {
                let b = choose|b: int|
                    0 <= b < around.len() && #[trigger] located(cover@, around[b]) == Some(m as usize);
                assert(around@.contains(around[b]));
                assert(cover@.contains_key(around[b]));
                assert(schematic.touches(gear as int, 1, around[b] as int));
            }
            if schematic.adjacent(gear as int, m) {
                let k = choose|k: int|
                    0 <= k < schematic.data.len() && #[trigger] schematic.touches(gear as int, 1, k)
                        && covering(schematic.spec_numbers(), k) == Some(m as usize);
                assert(around@.contains(k as usize));
                let b = choose|b: int| 0 <= b < around.len() && around[b] == k as usize;
                assert(located(cover@, around[b]) == Some(m as usize));
            }
        }
    }
    found
}

/// The index that covers a cell is the index of a number.
proof fn lemma_covering_index(numbers: Seq<(usize, Seq<char>)>, k: int)
    ensures
        covering(numbers, k) is Some ==> covering(numbers, k)->0 < numbers.len(),
    decreases numbers.len(),
{
    if numbers.len() > 0 && !covers(numbers.last(), k) {
        lemma_covering_index(numbers.drop_last(), k);
    }
}

/// The ratio of the gear at offset `gear`: the product of the two numbers
/// adjacent to it, or zero unless exactly two numbers are.
pub fn ratio_of_gear(
    schematic: &Schematic,
    numbers: &Vec<Number>,
    cover: &HashMap<usize, usize>,
    gear: usize,
) -> (ratio: u64)
    requires
        schematic.readable(),
        numbers_view(numbers@) == schematic.spec_numbers(),
        locates(cover@, schematic.spec_numbers(), schematic.data.len() as int),
    ensures
        ratio == schematic.gear_ratio(gear as int),
{
    let found = adjacent_numbers(schematic, cover, gear);
    let ghost all = schematic.spec_numbers();
    proof {
        assert(all.len() == numbers.len());
        assert forall|g: int| 0 <= g < found.len() implies (#[trigger] found[g]) < all.len()
            && schematic.adjacent(gear as int, found[g] as int) by {
            assert(found@.contains(found[g]));
            assert(found@.contains((found[g] as int) as usize));
            assert(schematic.adjacent(gear as int, found[g] as int));
            let k = choose|k: int|
                0 <= k < schematic.data.len() && #[trigger] schematic.touches(gear as int, 1, k)
                    && covering(all, k) == Some(found[g]);
            lemma_covering_index(all, k);
        }
    }
    if found.len() == 2 {
        let first = found[0];
        let second = found[1];
        proof {
            let i: int = if first < second {
                first as int
            } else {
                second as int
            };
            let j: int = if first < second {
                second as int
            } else {
                first as int
            };
            assert(found@[0] != found@[1]);
            assert forall|m: int| 0 <= m < all.len() && #[trigger] schematic.adjacent(
                gear as int,
                m,
            ) implies m == i || m == j by {
                assert(found@.contains(m as usize));
            }
            assert(schematic.exactly_two(gear as int, i, j));
            let (ci, cj) = choose|ci: int, cj: int| schematic.exactly_two(gear as int, ci, cj);
            assert(ci == i && cj == j);
            assert(numbers_view(numbers@)[first as int] == numbers[first as int]@);
            assert(numbers_view(numbers@)[second as int] == numbers[second as int]@);
            lemma_numbers_digits(schematic.data@, schematic.width as int, 0, first as int);
            lemma_numbers_digits(schematic.data@, schematic.width as int, 0, second as int);
            assert(all[first as int].1.len() <= 9);
            assert(all[second as int].1.len() <= 9);
            crate::text::lemma_decimal_bound(all[first as int].1);
            crate::text::lemma_decimal_bound(all[second as int].1);
            assert(schematic.number_value(i) * schematic.number_value(j) == schematic.number_value(
                first as int,
            ) * schematic.number_value(second as int)) by (nonlinear_arith)
                requires
                    (i == first && j == second) || (i == second && j == first),
            ;
        }
        let a = numbers[first].value() as u64;
        let b = numbers[second].value() as u64;
        assert(a * b <= 1000000000 * 1000000000) by (nonlinear_arith)
            requires
                a <= 1000000000,
                b <= 1000000000,
        ;
        a * b
    } else {
        proof {
            if exists|i: int, j: int| schematic.exactly_two(gear as int, i, j) {
                let (i, j) = choose|i: int, j: int| schematic.exactly_two(gear as int, i, j);
                assert(found@.contains(i as usize));
                assert(found@.contains(j as usize));
                let gi = choose|g: int| 0 <= g < found@.len() && found@[g] == i as usize;
                let gj = choose|g: int| 0 <= g < found@.len() && found@[g] == j as usize;
                assert(gi != gj);
                if found.len() >= 3 {
                    assert(schematic.adjacent(gear as int, found[0] as int));
                    assert(schematic.adjacent(gear as int, found[1] as int));
                    assert(schematic.adjacent(gear as int, found[2] as int));
                    assert(found@[0] != found@[1]);
                    assert(found@[0] != found@[2]);
                    assert(found@[1] != found@[2]);
                }
            }
        }
        0
    }
}

impl Schematic {
    /// Whether the schematic can be read.
    pub fn is_readable(&self) -> (r: bool)
        ensures
            r == self.readable(),
    {
        if self.width == 0 {
            return false;
        }
        let mut i: usize = 0;
        while i < self.data.len()
            invariant
                i <= self.data.len(),
                forall|k: int|
                    0 <= k < i && (#[trigger] self.data@[k]) is Num ==> is_digit(
                        self.data@[k]->Num_0,
                    ),
            decreases self.data.len() - i,
        {
            match self.data[i] {
                Point::Num(c) => {
                    if !('0' <= c && c <= '9') {
                        return false;
                    }
                },
                _ => {},
            }
            i += 1;
        }
        let numbers = self.numbers();
        let ghost all = self.spec_numbers();
        let mut k: usize = 0;
        while k < numbers.len()
            invariant
                k <= numbers.len(),
                all == self.spec_numbers(),
                numbers_view(numbers@) == all,
                forall|j: int| 0 <= j < k ==> (#[trigger] all[j]).1.len() <= 9,
            decreases numbers.len() - k,
        {
            assert(all[k as int] == numbers[k as int]@);
            if numbers[k].len() > 9 {
                return false;
            }
            k += 1;
        }
        true
    }
}

/// The sum of the ratios of all gears of the schematic.
pub fn gear_ratio_total(schematic: &Schematic) -> (total: u32)
    requires
        schematic.readable(),
        schematic.gear_total() <= u32::MAX,
    ensures
        total == schematic.gear_total(),
{
    let numbers = schematic.numbers();
    let cover = number_locations(schematic, &numbers);
    let all_gears = gears(schematic);
    let mut total: u32 = 0;
    let mut g: usize = 0;
    while g < all_gears.len()
        invariant
            g <= all_gears.len(),
            schematic.readable(),
            all_gears@ == gears_below(schematic.data@, schematic.data.len() as int),
            schematic.gear_total() <= u32::MAX,
            numbers_view(numbers@) == schematic.spec_numbers(),
            locates(cover@, schematic.spec_numbers(), schematic.data.len() as int),
            total == schematic.ratio_sum(all_gears@, g as int),
        decreases all_gears.len() - g,
    {
        let ratio = ratio_of_gear(schematic, &numbers, &cover, all_gears[g]);
        proof {
            schematic.lemma_ratio_sum_grows(all_gears@, g + 1, all_gears.len() as int);
        }
        total = total + ratio as u32;
        g += 1;
    }
    total
}

/// The sum of the ratios of all gears of the schematic, or `None` when it
/// passes the largest number of 32 bits.
pub fn checked_gear_ratio_total(schematic: &Schematic) -> (r: Option<u32>)
    requires
        schematic.readable(),
    ensures
        match r {
            Some(total) => total == schematic.gear_total(),
            None => schematic.gear_total() > u32::MAX,
        },
{
    let numbers = schematic.numbers();
    let cover = number_locations(schematic, &numbers);
    let all_gears = gears(schematic);
    let mut total: u64 = 0;
    let mut g: usize = 0;
    while g < all_gears.len()
        invariant
            g <= all_gears.len(),
            schematic.readable(),
            all_gears@ == gears_below(schematic.data@, schematic.data.len() as int),
            numbers_view(numbers@) == schematic.spec_numbers(),
            locates(cover@, schematic.spec_numbers(), schematic.data.len() as int),
            total <= u32::MAX,
            total == schematic.ratio_sum(all_gears@, g as int),
        decreases all_gears.len() - g,
    {
        let ratio = ratio_of_gear(schematic, &numbers, &cover, all_gears[g]);
        proof {
            schematic.lemma_ratio_sum_grows(all_gears@, g + 1, all_gears.len() as int);
        }
        if ratio > 4294967295 - total {
            return None;
        }
        total = total + ratio;
        g += 1;
    }
    Some(total as u32)
}

} // verus!
