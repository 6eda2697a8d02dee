//! Readings of a value over time, and the value that came before the first
//! or comes after the last one, found from the differences of the readings.

use vstd::prelude::*;
use crate::text::{chars_of, parse_i32, signed_of, texts_view, words, words_of};

verus! {

/// Why a line is no reading.
#[derive(Debug, Copy, Clone, PartialEq, Eq, Structural)]
pub enum ReadingError {
    /// A word of the line is not a number of 32 bits.
    InvalidNumber,
}

/// The history of one value.
pub struct Reading(pub Vec<i32>);

/// The differences between each value and the one before it.
pub open spec fn differences(history: Seq<int>) -> Seq<int> {
    Seq::new((history.len() - 1) as nat, |i: int| history[i + 1] - history[i])
}

/// Whether every value is zero.
pub open spec fn all_zero(history: Seq<int>) -> bool {
    forall|i: int| 0 <= i < history.len() ==> history[i] == 0
}

/// The value that follows the history: zero for a history of zeros, else the
/// last value raised by what follows the differences.
pub open spec fn next_value(history: Seq<int>) -> int
    decreases history.len(),
{
    if all_zero(history) || history.len() == 0 {
        0
    } else {
        history.last() + next_value(differences(history))
    }
}

/// The value that precedes the history: zero for a history of zeros, else
/// the first value lowered by what precedes the differences.
pub open spec fn previous_value(history: Seq<int>) -> int
    decreases history.len(),
{
    if all_zero(history) || history.len() == 0 {
        0
    } else {
        history[0] - previous_value(differences(history))
    }
}

/// Number of rows of differences, the history itself included, down to the
/// first row of zeros.
pub open spec fn depth(history: Seq<int>) -> nat
    decreases history.len(),
{
    if all_zero(history) || history.len() == 0 {
        0
    } else {
        1 + depth(differences(history))
    }
}

/// Whether every value of every row of differences down to the first row of
/// zeros is a number of 32 bits, and so is every value found for a row on
/// the way back up.
pub open spec fn fits(history: Seq<int>) -> bool
    decreases history.len(),
{
    &&& forall|i: int| 0 <= i < history.len() ==> i32::MIN <= #[trigger] history[i] <= i32::MAX
    &&& (all_zero(history) || history.len() == 0 || {
        &&& fits(differences(history))
        &&& i32::MIN <= next_value(history) <= i32::MAX
        &&& i32::MIN <= previous_value(history) <= i32::MAX
    })
}

/// The values of a history as integers.
pub open spec fn values(history: Seq<i32>) -> Seq<int> {
    Seq::new(history.len(), |i: int| history[i] as int)
}

/// The numbers that the first `n` words write.
pub open spec fn numbers_of(words: Seq<Seq<char>>, n: int) -> Result<Seq<i32>, ReadingError>
    decreases n,
{
    if n <= 0 {
        Ok(seq![])
    } else {
        match numbers_of(words, n - 1) {
            Ok(front) => match signed_of(words[n - 1], i32::MIN as int, i32::MAX as int) {
                Some(v) => Ok(front.push(v as i32)),
                None => Err(ReadingError::InvalidNumber),
            },
            Err(e) => Err(e),
        }
    }
}

/// Once a word writes no number, the words write none.
proof fn lemma_numbers_fail(words: Seq<Seq<char>>, n: int, end: int)
    requires
        n <= end,
        numbers_of(words, n) is Err,
    ensures
        numbers_of(words, end) == numbers_of(words, n),
    decreases end - n,
{
    if n < end {
        lemma_numbers_fail(words, n, end - 1);
    }
}

/// Whether every value is zero.
fn is_all_zero(history: &Vec<i32>) -> (r: bool)
    ensures
        r == all_zero(values(history@)),
{
    let mut i: usize = 0;
    while i < history.len()
        invariant
            i <= history.len(),
            forall|k: int| 0 <= k < i ==> history[k] == 0,
        decreases history.len() - i,
    {
        if history[i] != 0 {
            assert(values(history@)[i as int] != 0);
            return false;
        }
        i += 1;
    }
    assert forall|k: int| 0 <= k < values(history@).len() implies values(history@)[k] == 0 by {
        assert(history[k] == 0);
    }
    true
}

impl Reading {
    /// Reads a history from a line of numbers.
    pub fn parse(s: &str) -> (r: Result<Reading, ReadingError>)
        ensures
            match r {
                Ok(reading) => numbers_of(words_of(s@), words_of(s@).len() as int) == Ok::<
                    Seq<i32>,
                    ReadingError,
                >(reading.0@),
                Err(e) => numbers_of(words_of(s@), words_of(s@).len() as int) == Err::<
                    Seq<i32>,
                    ReadingError,
                >(e),
            },
    {
        let chars = chars_of(s);
        let parts = words(&chars);
        let ghost all = texts_view(parts@);
        let mut v: Vec<i32> = Vec::new();
        let mut i: usize = 0;
        while i < parts.len()
            invariant
                i <= parts.len(),
                all == texts_view(parts@),
                all == words_of(s@),
                numbers_of(all, i as int) == Ok::<Seq<i32>, ReadingError>(v@),
            decreases parts.len() - i,
        {
            assert(all[i as int] == parts[i as int]@);
            match parse_i32(&parts[i]) {
                Some(n) => {
                    v.push(n);
                },
                None => {
                    proof {
                        lemma_numbers_fail(all, i + 1, parts.len() as int);
                    }
                    return Err(ReadingError::InvalidNumber);
                },
            }
            i += 1;
        }
        Ok(Reading(v))
    }

    /// The differences between each value and the one before it.
    pub fn delta(history: &Vec<i32>) -> (delta: Vec<i32>)
        requires
            history.len() >= 1,
            forall|i: int|
                0 <= i < history.len() - 1 ==> i32::MIN <= #[trigger] differences(
                    values(history@),
                )[i] <= i32::MAX,
        ensures
            values(delta@) == differences(values(history@)),
    {
        let mut delta: Vec<i32> = Vec::new();
        let mut i: usize = 1;
        while i < history.len()
            invariant
                1 <= i <= history.len(),
                delta.len() == i - 1,
                forall|k: int|
                    0 <= k < history.len() - 1 ==> i32::MIN <= #[trigger] differences(
                        values(history@),
                    )[k] <= i32::MAX,
                forall|k: int| 0 <= k < i - 1 ==> delta[k] == history[k + 1] - history[k],
            decreases history.len() - i,
        {
            assert(differences(values(history@))[i - 1] == history[i as int] - history[i - 1]);
            delta.push(history[i] - history[i - 1]);
            i += 1;
        }
        assert(values(delta@) =~= differences(values(history@)));
        delta
    }

    /// The value that follows the history.
    pub fn extrapolate(&self) -> (r: i32)
        requires
            fits(values(self.0@)),
            depth(values(self.0@)) <= 100,
        ensures
            r == next_value(values(self.0@)),
    {
        following(&self.0, 0)
    }

    /// The value that precedes the history.
    pub fn extrapolate_backwards(&self) -> (r: i32)
        requires
            fits(values(self.0@)),
            depth(values(self.0@)) <= 100,
        ensures
            r == previous_value(values(self.0@)),
    {
        preceding(&self.0, 0)
    }
}

/// The value that follows the row of differences at depth `level`.
fn following(row: &Vec<i32>, level: usize) -> (r: i32)
    requires
        fits(values(row@)),
        level + depth(values(row@)) <= 100,
    ensures
        r == next_value(values(row@)),
    decreases row.len(),
{
    if row.len() == 0 || is_all_zero(row) {
        return 0;
    }
    proof {
        lemma_fits_differences(values(row@));
    }
    let next = Reading::delta(row);
    assert(values(next@).len() == next.len());
    let below = following(&next, level + 1);
    assert(values(row@).last() == row[row.len() - 1]);
    row[row.len() - 1] + below
}

/// The value that precedes the row of differences at depth `level`.
fn preceding(row: &Vec<i32>, level: usize) -> (r: i32)
    requires
        fits(values(row@)),
        level + depth(values(row@)) <= 100,
    ensures
        r == previous_value(values(row@)),
    decreases row.len(),
{
    if row.len() == 0 || is_all_zero(row) {
        return 0;
    }
    proof {
        lemma_fits_differences(values(row@));
    }
    let next = Reading::delta(row);
    assert(values(next@).len() == next.len());
    let below = preceding(&next, level + 1);
    row[0] - below
}

/// The differences of a row that fits are numbers of 32 bits.
proof fn lemma_fits_differences(history: Seq<int>)
    requires
        fits(history),
        !all_zero(history),
        history.len() > 0,
    ensures
        forall|i: int|
            0 <= i < history.len() - 1 ==> i32::MIN <= #[trigger] differences(history)[i]
                <= i32::MAX,
{
    assert(fits(differences(history)));
}

impl std::str::FromStr for Reading {
    type Err = ReadingError;

    fn from_str(s: &str) -> (r: Result<Reading, ReadingError>)
        ensures
            match r {
                Ok(reading) => numbers_of(words_of(s@), words_of(s@).len() as int) == Ok::<
                    Seq<i32>,
                    ReadingError,
                >(reading.0@),
                Err(e) => numbers_of(words_of(s@), words_of(s@).len() as int) == Err::<
                    Seq<i32>,
                    ReadingError,
                >(e),
            },
    {
        Reading::parse(s)
    }
}

/// The differences between each value and the one before it, or `None` when
/// one of them is no number of 32 bits.
fn checked_delta(history: &Vec<i32>) -> (r: Option<Vec<i32>>)
    requires
        history.len() >= 1,
    ensures
        match r {
            Some(delta) => values(delta@) == differences(values(history@)),
            None => exists|i: int|
                0 <= i < history.len() - 1 && !(i32::MIN <= #[trigger] differences(
                    values(history@),
                )[i] <= i32::MAX),
        },
{
    let mut delta: Vec<i32> = Vec::new();
    let mut i: usize = 1;
    while i < history.len()
        invariant
            1 <= i <= history.len(),
            delta.len() == i - 1,
            forall|k: int| 0 <= k < i - 1 ==> delta[k] == history[k + 1] - history[k],
        decreases history.len() - i,
    {
        assert(differences(values(history@))[i - 1] == history[i as int] - history[i - 1]);
        match history[i].checked_sub(history[i - 1]) {
            Some(d) => {
                delta.push(d);
            },
            None => {
                return None;
            },
        }
        i += 1;
    }
    assert(values(delta@) =~= differences(values(history@)));
    Some(delta)
}

/// The value that follows or precedes the row of differences at depth
/// `level`, or `None` when a number on the way is no number of 32 bits or
/// the rows go deeper than a hundred.
fn checked_beyond(row: &Vec<i32>, level: usize, backwards: bool) -> (r: Option<i32>)
    requires
        level <= 100,
    ensures
        match r {
            Some(v) => v == if backwards {
                previous_value(values(row@))
            } else {
                next_value(values(row@))
            },
            None => !fits(values(row@)) || level + depth(values(row@)) > 100,
        },
    decreases row.len(),
{
    if row.len() == 0 || is_all_zero(row) {
        return Some(0);
    }
    if level >= 100 {
        return None;
    }
    let next = match checked_delta(row) {
        Some(next) => next,
        None => {
            proof {
                if fits(values(row@)) {
                    lemma_fits_differences(values(row@));
                }
            }
            return None;
        },
    };
    assert(values(next@).len() == next.len());
    let below = match checked_beyond(&next, level + 1, backwards) {
        Some(below) => below,
        None => {
            return None;
        },
    };
    assert(values(row@).last() == row[row.len() - 1]);
    if backwards {
        row[0].checked_sub(below)
    } else {
        row[row.len() - 1].checked_add(below)
    }
}

impl Reading {
    /// The value that follows the history, or `None` when a number on the
    /// way is no number of 32 bits or the differences go deeper than a
    /// hundred rows.
    pub fn checked_extrapolate(&self) -> (r: Option<i32>)
        ensures
            match r {
                Some(v) => v == next_value(values(self.0@)),
                None => !fits(values(self.0@)) || depth(values(self.0@)) > 100,
            },
    {
        checked_beyond(&self.0, 0, false)
    }

    /// The value that precedes the history, or `None` when a number on the
    /// way is no number of 32 bits or the differences go deeper than a
    /// hundred rows.
    pub fn checked_extrapolate_backwards(&self) -> (r: Option<i32>)
        ensures
            match r {
                Some(v) => v == previous_value(values(self.0@)),
                None => !fits(values(self.0@)) || depth(values(self.0@)) > 100,
            },
    {
        checked_beyond(&self.0, 0, true)
    }
}

} // verus!
