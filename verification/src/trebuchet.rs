//! Calibration values: the first and the last digit of a line, written as a
//! digit or spelled out.

use vstd::prelude::*;
use crate::text::{chars_of, digit, digit_value, is_digit, slice};

verus! {

/// The name of the digit `n`, for the digits from one to nine.
pub open spec fn digit_name(n: int) -> Seq<char> {
    if n == 1 {
        "one"@
    } else if n == 2 {
        "two"@
    } else if n == 3 {
        "three"@
    } else if n == 4 {
        "four"@
    } else if n == 5 {
        "five"@
    } else if n == 6 {
        "six"@
    } else if n == 7 {
        "seven"@
    } else if n == 8 {
        "eight"@
    } else {
        "nine"@
    }
}

/// The name of the digit `n`, for the digits from one to nine.
pub fn name_of(n: usize) -> (name: &'static str)
    requires
        1 <= n <= 9,
    ensures
        name@ == digit_name(n as int),
{
    if n == 1 {
        "one"
    } else if n == 2 {
        "two"
    } else if n == 3 {
        "three"
    } else if n == 4 {
        "four"
    } else if n == 5 {
        "five"
    } else if n == 6 {
        "six"
    } else if n == 7 {
        "seven"
    } else if n == 8 {
        "eight"
    } else {
        "nine"
    }
}

/// The sum of two numbers, but no more than `max`.
pub fn add_up_to(a: usize, b: usize, max: usize) -> (r: usize)
    requires
        a + b <= usize::MAX,
    ensures
        r == if a + b > max {
            max as int
        } else {
            a + b
        },
{
    let sum = a + b;
    if sum > max {
        max
    } else {
        sum
    }
}

/// Whether `name` stands in `line` at position `at`.
pub open spec fn stands_at(line: Seq<char>, at: int, name: Seq<char>) -> bool {
    let end = if at + name.len() > line.len() {
        line.len() as int
    } else {
        at + name.len()
    };
    line.subrange(at, end) == name
}

/// The first of the names of the digits from `n` to nine that stands in
/// `line` at position `at`.
pub open spec fn name_at(line: Seq<char>, at: int, n: int) -> Option<usize>
    decreases 10 - n,
{
    if n > 9 {
        None
    } else if stands_at(line, at, digit_name(n)) {
        Some(n as usize)
    } else {
        name_at(line, at, n + 1)
    }
}

/// The digit that stands in `line` at position `at`, written as a digit or
/// spelled out.
pub open spec fn digit_at(line: Seq<char>, at: int) -> Option<usize> {
    if is_digit(line[at]) {
        Some(digit_value(line[at]) as usize)
    } else {
        name_at(line, at, 1)
    }
}

/// The first position from `from` on at which a digit stands, and the
/// digit.
pub open spec fn first_digit(line: Seq<char>, from: int) -> Option<(usize, usize)>
    decreases line.len() - from,
{
    if from < 0 || from >= line.len() {
        None
    } else {
        match digit_at(line, from) {
            Some(d) => Some((from as usize, d)),
            None => first_digit(line, from + 1),
        }
    }
}

/// The last position before `end` at which a digit stands, and the digit.
pub open spec fn last_digit(line: Seq<char>, end: int) -> Option<(usize, usize)>
    decreases end,
{
    if end <= 0 || end > line.len() {
        None
    } else {
        match digit_at(line, end - 1) {
            Some(d) => Some(((end - 1) as usize, d)),
            None => last_digit(line, end - 1),
        }
    }
}

/// Whether `name` stands in `line` at position `at`.
fn stands(line: &Vec<char>, at: usize, name: &str) -> (r: bool)
    requires
        at < line.len(),
    ensures
        r == stands_at(line@, at as int, name@),
{
    let letters = chars_of(name);
    let end = if letters.len() > line.len() - at {
        line.len()
    } else {
        add_up_to(at, letters.len(), line.len())
    };
    let piece = slice(line, at, end);
    if piece.len() != letters.len() {
        return false;
    }
    let mut i: usize = 0;
    while i < piece.len()
        invariant
            i <= piece.len(),
            piece.len() == letters.len(),
            letters@ == name@,
            at <= end <= line.len(),
            end == if at + name@.len() > line.len() {
                line.len() as int
            } else {
                at + name@.len()
            },
            piece@ == line@.subrange(at as int, end as int),
            forall|k: int| 0 <= k < i ==> piece[k] == letters[k],
        decreases piece.len() - i,
    {
        if piece[i] != letters[i] {
            assert(piece@[i as int] != letters@[i as int]);
            return false;
        }
        i += 1;
    }
    assert(piece@ =~= letters@);
    true
}

/// The digit that stands in `line` at position `at`.
fn digit_here(line: &Vec<char>, at: usize) -> (r: Option<usize>)
    requires
        at < line.len(),
    ensures
        r == digit_at(line@, at as int),
{
    match digit(line[at]) {
        Some(d) => {
            return Some(d as usize);
        },
        None => {},
    }
    let mut n: usize = 1;
    while n <= 9
        invariant
            1 <= n <= 10,
            at < line.len(),
            !is_digit(line@[at as int]),
            name_at(line@, at as int, 1) == name_at(line@, at as int, n as int),
        decreases 10 - n,
    {
        if stands(line, at, name_of(n)) {
            return Some(n);
        }
        n += 1;
    }
    None
}

/// The first position at which a digit stands, and the digit.
fn first_in(chars: &Vec<char>) -> (r: Option<(usize, usize)>)
    ensures
        r == first_digit(chars@, 0),
{
    let mut i: usize = 0;
    while i < chars.len()
        invariant
            i <= chars.len(),
            first_digit(chars@, 0) == first_digit(chars@, i as int),
        decreases chars.len() - i,
    {
        match digit_here(chars, i) {
            Some(d) => {
                return Some((i, d));
            },
            None => {},
        }
        i += 1;
    }
    None
}

/// The last position at which a digit stands, and the digit.
fn last_in(chars: &Vec<char>) -> (r: Option<(usize, usize)>)
    ensures
        r == last_digit(chars@, chars@.len() as int),
{
    let mut i: usize = chars.len();
    while i > 0
        invariant
            i <= chars.len(),
            last_digit(chars@, chars@.len() as int) == last_digit(chars@, i as int),
        decreases i,
    {
        match digit_here(chars, i - 1) {
            Some(d) => {
                return Some((i - 1, d));
            },
            None => {},
        }
        i -= 1;
    }
    None
}

/// The first position at which a digit stands in the line, written as a
/// digit or spelled out, and the digit.
pub fn find_first_digit(line: &str) -> (r: Option<(usize, usize)>)
    ensures
        r == first_digit(line@, 0),
{
    let chars = chars_of(line);
    first_in(&chars)
}

/// The last position at which a digit stands in the line, written as a
/// digit or spelled out, and the digit.
pub fn find_last_digit(line: &str) -> (r: Option<(usize, usize)>)
    ensures
        r == last_digit(line@, line@.len() as int),
{
    let chars = chars_of(line);
    last_in(&chars)
}

/// The first position from `from` on at which a decimal digit stands.
pub open spec fn first_plain_digit(line: Seq<char>, from: int) -> Option<(usize, usize)>
    decreases line.len() - from,
{
    if from < 0 || from >= line.len() {
        None
    } else if is_digit(line[from]) {
        Some((from as usize, digit_value(line[from]) as usize))
    } else {
        first_plain_digit(line, from + 1)
    }
}

/// The last position before `end` at which a decimal digit stands.
pub open spec fn last_plain_digit(line: Seq<char>, end: int) -> Option<(usize, usize)>
    decreases end,
{
    if end <= 0 || end > line.len() {
        None
    } else if is_digit(line[end - 1]) {
        Some(((end - 1) as usize, digit_value(line[end - 1]) as usize))
    } else {
        last_plain_digit(line, end - 1)
    }
}

/// The calibration value of a line: ten times its first digit and its last
/// digit, where only written digits count. `None` for a line without a
/// digit.
pub open spec fn plain_value(line: Seq<char>) -> Option<usize> {
    match first_plain_digit(line, 0) {
        Some((_, first)) => match last_plain_digit(line, line.len() as int) {
            Some((_, last)) => Some((first * 10 + last) as usize),
            None => None,
        },
        None => None,
    }
}

/// The calibration value of a line, where only written digits count.
pub fn calibration_value(line: &str) -> (r: Option<usize>)
    ensures
        r == plain_value(line@),
{
    let chars = chars_of(line);
    let mut first: Option<usize> = None;
    let mut i: usize = 0;
    while i < chars.len() && first.is_none()
        invariant
            i <= chars.len(),
            chars@ == line@,
            first is None ==> first_plain_digit(line@, 0) == first_plain_digit(line@, i as int),
            first is Some ==> first_plain_digit(line@, 0) is Some && (first_plain_digit(
                line@,
                0,
            )->0).1 == first->0 && first->0 <= 9,
        decreases chars.len() - i + if first is None { 1int } else { 0int },
    {
        match digit(chars[i]) {
            Some(d) => {
                first = Some(d as usize);
            },
            None => {
                i += 1;
            },
        }
    }
    let first = match first {
        Some(d) => d,
        None => {
            return None;
        },
    };
    let mut j: usize = chars.len();
    while j > 0
        invariant
            j <= chars.len(),
            chars@ == line@,
            first <= 9,
            first_plain_digit(line@, 0) is Some,
            (first_plain_digit(line@, 0)->0).1 == first,
            last_plain_digit(line@, line@.len() as int) == last_plain_digit(line@, j as int),
        decreases j,
    {
        match digit(chars[j - 1]) {
            Some(d) => {
                return Some(first * 10 + d as usize);
            },
            None => {},
        }
        j -= 1;
    }
    None
}

/// The calibration value of a line: ten times its first digit and the last
/// digit from the first one on, where spelled digits count too. `None` for
/// a line without a digit.
pub open spec fn spelled_value(line: Seq<char>) -> Option<usize> {
    match first_digit(line, 0) {
        Some((at, first)) => {
            let rest = line.skip(at as int);
            match last_digit(rest, rest.len() as int) {
                Some((_, last)) => Some((first * 10 + last) as usize),
                None => None,
            }
        },
        None => None,
    }
}

/// A digit read at a position is at most nine.
pub proof fn lemma_digit_at(line: Seq<char>, at: int)
    requires
        0 <= at < line.len(),
    ensures
        digit_at(line, at) is Some ==> digit_at(line, at)->0 <= 9,
{
    lemma_name_at(line, at, 1);
}

/// A spelled digit is at most nine.
proof fn lemma_name_at(line: Seq<char>, at: int, n: int)
    requires
        1 <= n,
    ensures
        name_at(line, at, n) is Some ==> name_at(line, at, n)->0 <= 9,
    decreases 10 - n,
{
    if n <= 9 && !stands_at(line, at, digit_name(n)) {
        lemma_name_at(line, at, n + 1);
    }
}

/// A digit found in a line is at most nine, and it stands inside the line.
proof fn lemma_first_digit(line: Seq<char>, from: int)
    requires
        0 <= from,
        line.len() <= usize::MAX,
    ensures
        first_digit(line, from) is Some ==> (first_digit(line, from)->0).1 <= 9 && from <= (
        first_digit(line, from)->0).0 < line.len(),
    decreases line.len() - from,
{
    if from < line.len() {
        lemma_digit_at(line, from);
        if digit_at(line, from) is None {
            lemma_first_digit(line, from + 1);
        }
    }
}

/// The last digit found in a line is at most nine.
proof fn lemma_last_digit(line: Seq<char>, end: int)
    ensures
        last_digit(line, end) is Some ==> (last_digit(line, end)->0).1 <= 9,
    decreases end,
{
    if 0 < end <= line.len() {
        lemma_digit_at(line, end - 1);
        if digit_at(line, end - 1) is None {
            lemma_last_digit(line, end - 1);
        }
    }
}

/// The calibration value of a line, where spelled digits count too.
pub fn spelled_calibration_value(line: &str) -> (r: Option<usize>)
    ensures
        r == spelled_value(line@),
{
    let chars = chars_of(line);
    let (at, first) = match first_in(&chars) {
        Some(pair) => pair,
        None => {
            return None;
        },
    };
    proof {
        assert(line@.len() == chars.len());
        lemma_first_digit(line@, 0);
    }
    let rest = slice(&chars, at, chars.len());
    assert(rest@ =~= line@.skip(at as int));
    proof {
        lemma_last_digit(rest@, rest@.len() as int);
    }
    match last_in(&rest) {
        Some((_, last)) => Some(first * 10 + last),
        None => None,
    }
}

} // verus!
