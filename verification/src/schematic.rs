//! The engine schematic: a grid of digits and symbols stored row after row,
//! the numbers written in it, and the cells around a number.

use vstd::prelude::*;
use vstd::arithmetic::div_mod::{lemma_fundamental_div_mod, lemma_fundamental_div_mod_converse};
use crate::text::{all_digits, chars_of, decimal, digit, is_digit};

verus! {

/// One cell of the schematic.
#[derive(Debug, Clone, Copy, PartialEq, Eq, Structural)]
pub enum Point {
    Empty,
    Num(char),
    Symbol(char),
}

/// The cell that a character stands for: a digit is part of a number, a full
/// stop is empty, anything else is a symbol.
pub open spec fn point_of(c: char) -> Point {
    if is_digit(c) {
        Point::Num(c)
    } else if c == '.' {
        Point::Empty
    } else {
        Point::Symbol(c)
    }
}

/// The character that shows a cell: a blank for an empty one, else the
/// character it was read from.
pub open spec fn char_of(p: Point) -> char {
    match p {
        Point::Empty => ' ',
        Point::Num(c) => c,
        Point::Symbol(c) => c,
    }
}

impl Point {
    /// The cell that a character stands for. A line feed stands for no cell.
    pub fn from_char(c: char) -> (p: Point)
        requires
            c != '\n',
        ensures
            p == point_of(c),
    {
        if '0' <= c && c <= '9' {
            Point::Num(c)
        } else if c == '.' {
            Point::Empty
        } else {
            Point::Symbol(c)
        }
    }

    /// The character that shows the cell.
    pub fn to_char(self) -> (c: char)
        ensures
            c == char_of(self),
    {
        match self {
            Point::Empty => ' ',
            Point::Num(c) => c,
            Point::Symbol(c) => c,
        }
    }
}

impl From<Point> for char {
    fn from(p: Point) -> (c: char) {
        p.to_char()
    }
}

impl vstd::std_specs::convert::FromSpecImpl<Point> for char {
    open spec fn obeys_from_spec() -> bool {
        true
    }

    open spec fn from_spec(p: Point) -> char {
        char_of(p)
    }
}

/// The cells of a text: one for each character that is no line feed.
pub open spec fn cells_of(s: Seq<char>) -> Seq<Point>
    decreases s.len(),
{
    if s.len() == 0 {
        seq![]
    } else if s.last() == '\n' {
        cells_of(s.drop_last())
    } else {
        cells_of(s.drop_last()).push(point_of(s.last()))
    }
}

/// The width read off a text: the position of the first line feed that is
/// not the very first character, or zero when there is none.
pub open spec fn width_of(s: Seq<char>) -> nat
    decreases s.len(),
{
    if s.len() == 0 {
        0
    } else {
        let before = width_of(s.drop_last());
        if before == 0 && s.last() == '\n' {
            (s.len() - 1) as nat
        } else {
            before
        }
    }
}

/// A schematic: its cells row after row, and the width of a row.
pub struct Schematic {
    pub width: usize,
    pub data: Vec<Point>,
}

/// A number written in the schematic: where its first digit stands, and its
/// digits.
#[derive(Debug, Clone, PartialEq, Eq, Hash)]
pub struct Number {
    pub offset: usize,
    pub chars: Vec<char>,
}

impl View for Number {
    type V = (usize, Seq<char>);

    open spec fn view(&self) -> (usize, Seq<char>) {
        (self.offset, self.chars@)
    }
}

/// The views of a list of numbers.
pub open spec fn numbers_view(numbers: Seq<Number>) -> Seq<(usize, Seq<char>)> {
    Seq::new(numbers.len(), |i: int| numbers[i]@)
}

impl Number {
    /// Number of digits.
    pub fn len(&self) -> (n: usize)
        ensures
            n == self.chars@.len(),
    {
        self.chars.len()
    }

    /// Whether the number has no digit.
    pub fn is_empty(&self) -> (r: bool)
        ensures
            r == (self.chars@.len() == 0),
    {
        self.chars.len() == 0
    }

    /// The value that the digits write in base ten.
    pub fn value(&self) -> (v: u32)
        requires
            all_digits(self.chars@),
            self.chars@.len() <= 9,
        ensures
            v == decimal(self.chars@),
    {
        let mut num: u32 = 0;
        let mut i: usize = 0;
        assert(self.chars@.take(0) =~= Seq::<char>::empty());
        while i < self.chars.len()
            invariant
                i <= self.chars.len(),
                self.chars@.len() <= 9,
                all_digits(self.chars@),
                num == decimal(self.chars@.take(i as int)),
                num < pow10(i as nat),
            decreases self.chars.len() - i,
        {
            let c = self.chars[i];
            assert(is_digit(self.chars@[i as int]));
            let d = digit(c).unwrap();
            proof {
                assert(self.chars@.take(i + 1).drop_last() =~= self.chars@.take(i as int));
                lemma_pow10_bound(i as nat);
                lemma_pow10_bound((i + 1) as nat);
            }
            num = num * 10 + d as u32;
            i += 1;
        }
        assert(self.chars@.take(self.chars.len() as int) =~= self.chars@);
        num
    }
}

/// Ten to the power of `n`.
pub open spec fn pow10(n: nat) -> nat
    decreases n,
{
    if n == 0 {
        1
    } else {
        10 * pow10((n - 1) as nat)
    }
}

/// The powers of ten up to the ninth.
proof fn lemma_pow10_bound(n: nat)
    requires
        n <= 9,
    ensures
        pow10(n) <= 1000000000,
        n < 9 ==> pow10(n) <= 100000000,
    decreases n,
{
    reveal_with_fuel(pow10, 11);
}

/// The digits that continue a number at offset `at`: those of the cells from
/// `at` on that hold a digit, up to the end of the row.
pub open spec fn more_digits(data: Seq<Point>, width: int, at: int) -> Seq<char>
    decreases data.len() - at,
{
    if 0 <= at < data.len() && at % width != 0 && data[at] is Num {
        seq![data[at]->Num_0] + more_digits(data, width, at + 1)
    } else {
        seq![]
    }
}

/// Whether a number begins at offset `at`: the cell holds a digit, and it is
/// the first of its row or the cell before it holds none.
pub open spec fn number_begins(data: Seq<Point>, width: int, at: int) -> bool {
    &&& 0 <= at < data.len()
    &&& data[at] is Num
    &&& (at % width == 0 || !(data[at - 1] is Num))
}

/// The numbers that begin at offset `from` or later, in reading order. A
/// number is a longest stretch of digits within one row.
pub open spec fn numbers_from(data: Seq<Point>, width: int, from: int) -> Seq<(usize, Seq<char>)>
    decreases data.len() - from,
{
    if from < 0 || from >= data.len() {
        seq![]
    } else if number_begins(data, width, from) {
        seq![(from as usize, seq![data[from]->Num_0] + more_digits(data, width, from + 1))]
            + numbers_from(data, width, from + 1)
    } else {
        numbers_from(data, width, from + 1)
    }
}

/// No number begins inside a stretch of digits.
proof fn lemma_no_number_inside(data: Seq<Point>, width: int, from: int, to: int)
    requires
        0 < from <= to <= data.len(),
        data[from - 1] is Num,
        forall|k: int| from <= k < to ==> (#[trigger] data[k]) is Num && k % width != 0,
    ensures
        numbers_from(data, width, from) == numbers_from(data, width, to),
    decreases to - from,
{
    if from < to {
        assert(data[from] is Num && from % width != 0);
        assert(!number_begins(data, width, from));
        lemma_no_number_inside(data, width, from + 1, to);
    }
}

impl Schematic {
    /// Number of whole rows.
    pub open spec fn spec_height(&self) -> nat {
        (self.data@.len() / self.width as nat) as nat
    }

    /// Every cell marked as part of a number holds a decimal digit.
    pub open spec fn digits_ok(&self) -> bool {
        forall|i: int|
            0 <= i < self.data@.len() && (#[trigger] self.data@[i]) is Num ==> is_digit(
                self.data@[i]->Num_0,
            )
    }

    /// Reads a schematic from text, one row to a line.
    pub fn parse(s: &str) -> (r: Schematic)
        ensures
            r.width == width_of(s@),
            r.data@ == cells_of(s@),
            r.digits_ok(),
    {
        let chars = chars_of(s);
        let mut data: Vec<Point> = Vec::new();
        let mut width: usize = 0;
        let mut i: usize = 0;
        assert(chars@.take(0) =~= Seq::<char>::empty());
        while i < chars.len()
            invariant
                i <= chars.len(),
                width == width_of(chars@.take(i as int)),
                data@ == cells_of(chars@.take(i as int)),
                forall|k: int|
                    0 <= k < data@.len() && (#[trigger] data@[k]) is Num ==> is_digit(
                        data@[k]->Num_0,
                    ),
            decreases chars.len() - i,
        {
            let c = chars[i];
            proof {
                assert(chars@.take(i + 1).drop_last() =~= chars@.take(i as int));
            }
            if c == '\n' {
                if width == 0 {
                    width = i;
                }
            } else {
                data.push(Point::from_char(c));
            }
            i += 1;
        }
        assert(chars@.take(chars.len() as int) =~= chars@);
        Schematic { width, data }
    }

    /// The column and the row of the cell at `offset`.
    pub fn offset_to_coord(&self, offset: usize) -> (r: (usize, usize))
        requires
            self.width > 0,
        ensures
            r.0 == offset % self.width,
            r.1 == offset / self.width,
    {
        (offset % self.width, offset / self.width)
    }

    /// The offset of the cell in column `coord.0` of row `coord.1`.
    pub fn coord_to_offset(&self, coord: (usize, usize)) -> (r: usize)
        requires
            coord.1 * self.width + coord.0 <= usize::MAX,
        ensures
            r == coord.1 * self.width + coord.0,
    {
        proof {
            assert(coord.1 * self.width <= coord.1 * self.width + coord.0);
        }
        coord.1 * self.width + coord.0
    }

    /// Number of whole rows.
    pub fn height(&self) -> (h: usize)
        requires
            self.width > 0,
        ensures
            h == self.spec_height(),
    {
        self.data.len() / self.width
    }

    /// The numbers written in the schematic, in reading order.
    pub open spec fn spec_numbers(&self) -> Seq<(usize, Seq<char>)> {
        numbers_from(self.data@, self.width as int, 0)
    }

    /// The numbers written in the schematic, in reading order. A number is a
    /// longest stretch of digits within one row.
    pub fn numbers(&self) -> (result: Vec<Number>)
        requires
            self.width > 0,
        ensures
            numbers_view(result@) == self.spec_numbers(),
    {
        let mut result: Vec<Number> = Vec::new();
        let mut at: usize = 0;
        let ghost data = self.data@;
        let ghost width = self.width as int;
        assert(numbers_view(result@) =~= Seq::<(usize, Seq<char>)>::empty());
        while at < self.data.len()
            invariant
                at <= self.data.len(),
                self.width > 0,
                data == self.data@,
                width == self.width as int,
                at == self.data.len() || at == 0 || at % self.width == 0 || !(data[at - 1] is Num),
                self.spec_numbers() == numbers_view(result@) + numbers_from(data, width, at as int),
            decreases self.data.len() - at,
        {
            let ghost done = numbers_view(result@);
            match self.data[at] {
                Point::Num(c) => {
                    let mut chars: Vec<char> = Vec::new();
                    chars.push(c);
                    let mut end = at + 1;
                    let ghost rest = more_digits(data, width, at + 1);
                    assert(chars@ + rest =~= seq![c] + rest);
                    assert(number_begins(data, width, at as int));
                    loop
                        invariant
                            at < end <= self.data.len(),
                            self.width > 0,
                            data == self.data@,
                            width == self.width as int,
                            chars@ + more_digits(data, width, end as int) == seq![c] + rest,
                            data[at as int] is Num,
                            forall|k: int|
                                at < k < end ==> (#[trigger] data[k]) is Num && k % width != 0,
                        ensures
                            more_digits(data, width, end as int) == Seq::<char>::empty(),
                            end == self.data.len() || end % self.width == 0 || !(data[end as int] is Num),
                        decreases self.data.len() - end,
                    {
                        if end >= self.data.len() || end % self.width == 0 {
                            break ;
                        }
                        match self.data[end] {
                            Point::Num(d) => {
                                let ghost before = chars@;
                                chars.push(d);
                                assert(before + (seq![d] + more_digits(data, width, end + 1))
                                    =~= chars@ + more_digits(data, width, end + 1));
                                end += 1;
                            },
                            _ => {
                                break ;
                            },
                        }
                    }
                    proof {
                        assert(chars@ =~= seq![c] + rest);
                    }
                    result.push(Number { offset: at, chars });
                    proof {
                        let entry = (at, seq![c] + rest);
                        lemma_no_number_inside(data, width, at + 1, end as int);
                        assert(numbers_view(result@) =~= done.push(entry));
                        assert(done + (seq![entry] + numbers_from(data, width, end as int))
                            =~= done.push(entry) + numbers_from(data, width, end as int));
                        if end < self.data.len() && end % self.width != 0 {
                            assert(!number_begins(data, width, end as int));
                        }
                    }
                    if end < self.data.len() && end % self.width != 0 {
                        at = end + 1;
                    } else {
                        at = end;
                    }
                },
                _ => {
                    at += 1;
                },
            }
        }
        proof {
            assert(numbers_view(result@) + Seq::<(usize, Seq<char>)>::empty() =~= numbers_view(
                result@,
            ));
        }
        result
    }
}

impl Schematic {
    /// Whether the cell at offset `k` touches the stretch of `length` cells
    /// that begins at `offset`: it lies in a whole row of the schematic, at
    /// most one row and one column away from the stretch, and is no part of
    /// it.
    pub open spec fn touches(&self, offset: int, length: int, k: int) -> bool {
        let width = self.width as int;
        let x = offset % width;
        let y = offset / width;
        let cx = k % width;
        let cy = k / width;
        &&& 0 <= k
        &&& cy < self.spec_height()
        &&& y - 1 <= cy <= y + 1
        &&& x - 1 <= cx <= x + length
        &&& !(cy == y && x <= cx < x + length)
    }

    /// Whether the cell in column `cx` of row `cy` touches the stretch of
    /// `length` cells that begins in column `x` of row `y`.
    pub open spec fn near(&self, x: int, y: int, length: int, cx: int, cy: int) -> bool {
        &&& 0 <= cx < self.width
        &&& 0 <= cy < self.spec_height()
        &&& y - 1 <= cy <= y + 1
        &&& x - 1 <= cx <= x + length
        &&& !(cy == y && x <= cx < x + length)
    }

    /// A cell touches a stretch exactly when its column and row are near it.
    pub proof fn lemma_touches_near(&self, offset: int, length: int, k: int)
        requires
            self.width > 0,
            0 <= k,
        ensures
            self.touches(offset, length, k) == self.near(
                offset % (self.width as int),
                offset / (self.width as int),
                length,
                k % (self.width as int),
                k / (self.width as int),
            ),
            k == (k / (self.width as int)) * self.width + k % (self.width as int),
    {
        let width = self.width as int;
        vstd::arithmetic::div_mod::lemma_mod_bound(k, width);
        vstd::arithmetic::div_mod::lemma_div_pos_is_pos(k, width);
        lemma_fundamental_div_mod(k, width);
        assert(width * (k / width) == (k / width) * width) by (nonlinear_arith);
    }

    /// The offsets of the cells that touch the stretch of `length` cells
    /// beginning at `offset`, in rising order.
    pub fn neighbors(&self, offset: usize, length: usize) -> (result: Vec<usize>)
        requires
            self.width > 0,
        ensures
            forall|i: int, j: int| 0 <= i < j < result.len() ==> result[i] < result[j],
            forall|k: int|
                #![trigger self.touches(offset as int, length as int, k)]
                0 <= k <= usize::MAX ==> (result@.contains(k as usize) <==> self.touches(
                    offset as int,
                    length as int,
                    k,
                )),
    {
        let width = self.width;
        let total = self.data.len();
        let height = total / width;
        let x = offset % width;
        let y = offset / width;
        let lo_y = if y > 0 {
            y - 1
        } else {
            0
        };
        let hi_y = if y < height && y + 1 < height {
            y + 2
        } else {
            height
        };
        let lo_x = if x > 0 {
            x - 1
        } else {
            0
        };
        let hi_x = if length < width - x {
            x + length + 1
        } else {
            width
        };
        let mut result: Vec<usize> = Vec::new();
        let ghost mut cells: Seq<(int, int)> = Seq::empty();
        let mut cy = lo_y;
        proof {
            lemma_fundamental_div_mod(total as int, width as int);
            assert(width * (total as int / width as int) == height * width) by (nonlinear_arith)
                requires
                    height == total as int / width as int,
            ;
        }
        while cy < hi_y
            invariant
                width == self.width,
                width > 0,
                height == self.spec_height(),
                height * width <= usize::MAX,
                x < width,
                lo_y == if y > 0 { y - 1 } else { 0 },
                hi_y == if y + 1 < height { y + 2 } else { height as int },
                lo_x == if x > 0 { x - 1 } else { 0 },
                hi_x == if x + length + 1 <= width { x + length + 1 } else { width as int },
                lo_y <= cy,
                cells.len() == result.len(),
                forall|i: int, j: int| 0 <= i < j < result.len() ==> result[i] < result[j],
                forall|i: int| 0 <= i < result.len() ==> (#[trigger] result[i]) < cy * width,
                forall|i: int|
                    0 <= i < result.len() ==> (#[trigger] result[i]) == cells[i].1 * width
                        + cells[i].0 && self.near(
                        x as int,
                        y as int,
                        length as int,
                        cells[i].0,
                        cells[i].1,
                    ),
                forall|ax: int, ay: int| #![trigger self.near(x as int, y as int, length as int, ax, ay)]
                    self.near(x as int, y as int, length as int, ax, ay) && ay < cy
                        ==> result@.contains((ay * width + ax) as usize),
            decreases hi_y - cy,
        {
            let mut cx = lo_x;
            proof {
                assert(cy * width + width <= height * width) by (nonlinear_arith)
                    requires
                        cy < height,
                ;
            }
            while cx < hi_x
                invariant
                    width == self.width,
                    width > 0,
                    height == self.spec_height(),
                    cy * width + width <= usize::MAX,
                    x < width,
                    lo_x == if x > 0 { x - 1 } else { 0 },
                    hi_x == if x + length + 1 <= width { x + length + 1 } else { width as int },
                    lo_y == if y > 0 { y - 1 } else { 0 },
                    hi_y == if y + 1 < height { y + 2 } else { height as int },
                    lo_y <= cy < hi_y,
                    lo_x <= cx <= hi_x,
                    cells.len() == result.len(),
                    forall|i: int, j: int| 0 <= i < j < result.len() ==> result[i] < result[j],
                    forall|i: int|
                        0 <= i < result.len() ==> (#[trigger] result[i]) < cy * width + cx,
                    forall|i: int|
                        0 <= i < result.len() ==> (#[trigger] result[i]) == cells[i].1 * width
                            + cells[i].0 && self.near(
                            x as int,
                            y as int,
                            length as int,
                            cells[i].0,
                            cells[i].1,
                        ),
                    forall|ax: int, ay: int| #![trigger self.near(x as int, y as int, length as int, ax, ay)]
                        self.near(x as int, y as int, length as int, ax, ay) && (ay < cy || (ay
                            == cy && ax < cx)) ==> result@.contains((ay * width + ax) as usize),
                decreases hi_x - cx,
            {
                let ghost before = result@;
                let here = cy * width + cx;
                let own = cy == y && x <= cx && cx - x < length;
                let ghost cells_before = cells;
                if !own {
                    result.push(here);
                    proof {
                        cells = cells.push((cx as int, cy as int));
                    }
                }
                proof {
                    assert forall|i: int| 0 <= i < result.len() implies (#[trigger] result[i])
                        == cells[i].1 * width + cells[i].0 && self.near(
                        x as int,
                        y as int,
                        length as int,
                        cells[i].0,
                        cells[i].1,
                    ) by {
                        if i < before.len() {
                            assert(result[i] == before[i]);
                            assert(cells[i] == cells_before[i]);
                        } else {
                            assert(cells[i] == (cx as int, cy as int));
                            assert(result[i] == here);
                            assert(self.near(x as int, y as int, length as int, cx as int, cy as int));
                        }
                    }
                    assert forall|ax: int, ay: int| #![trigger self.near(x as int, y as int, length as int, ax, ay)]
                        self.near(x as int, y as int, length as int, ax, ay) && (ay < cy || (ay
                            == cy && ax < cx + 1)) implies result@.contains(
                        (ay * width + ax) as usize,
                    ) by {
                        if ay == cy && ax == cx {
                            assert(result@[result.len() - 1] == here);
                        } else {
                            let e = (ay * width + ax) as usize;
                            assert(before.contains(e));
                            let i = choose|i: int| 0 <= i < before.len() && before[i] == e;
                            assert(result@[i] == e);
                        }
                    }
                }
                cx += 1;
            }
            proof {
                assert((cy + 1) * width == cy * width + width) by (nonlinear_arith);
            }
            cy += 1;
        }
        proof {
            assert forall|k: int|
                #![trigger self.touches(offset as int, length as int, k)]
                0 <= k <= usize::MAX implies (result@.contains(k as usize) <==> self.touches(
                offset as int,
                length as int,
                k,
            )) by {
                self.lemma_touches_near(offset as int, length as int, k);
                let ax = k % (width as int);
                let ay = k / (width as int);
                if result@.contains(k as usize) {
                    let i = choose|i: int| 0 <= i < result@.len() && result@[i] == k as usize;
                    lemma_fundamental_div_mod_converse(k, width as int, cells[i].1, cells[i].0);
                }
                if self.near(x as int, y as int, length as int, ax, ay) {
                    assert(ay < cy);
                }
            }
        }
        result
    }
}

impl From<&str> for Schematic {
    fn from(s: &str) -> (r: Schematic)
        ensures
            r.width == width_of(s@),
            r.data@ == cells_of(s@),
            r.digits_ok(),
    {
        Schematic::parse(s)
    }
}

impl vstd::std_specs::convert::FromSpecImpl<&str> for Schematic {
    open spec fn obeys_from_spec() -> bool {
        false
    }

    open spec fn from_spec(s: &str) -> Schematic {
        arbitrary()
    }
}

} // verus!
