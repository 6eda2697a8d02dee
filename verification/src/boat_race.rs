//! Boat races: holding the button longer makes the boat faster but leaves
//! less time to travel. How many ways are there to beat the record?

use vstd::prelude::*;
use crate::text::{
    chars_of, lines, lines_of, parse_u32, same_text, texts_view, unsigned_of, words, words_of,
};

verus! {

/// Why a sheet of races was not understood.
#[derive(Debug, Copy, Clone, PartialEq, Eq, Structural)]
pub enum RaceError {
    /// A line holds nothing.
    EmptyLine,
    /// No line lists the times, or one of them is not a number.
    NoTimes,
    /// No line lists the distances, or one of them is not a number.
    NoDistances,
}

/// A race: the time it lasts and the distance to beat.
#[derive(Debug, Clone, Copy, PartialEq, Eq, Structural)]
pub struct Race {
    pub time: u32,
    pub distance_record: u32,
}

/// The distance that the boat travels in a race of `t` when the button is
/// held for `hold`: nothing if it is held to the end, else the time left
/// times the speed gained.
pub open spec fn spec_race(t: int, hold: int) -> int {
    if hold >= t {
        0
    } else {
        (t - hold) * hold
    }
}

/// The distance travelled after `t`, with the button held for `hold`.
pub fn race(t: u32, hold: u32) -> (d: u32)
    requires
        spec_race(t as int, hold as int) <= u32::MAX,
    ensures
        d == spec_race(t as int, hold as int),
{
    if hold >= t {
        return 0;
    }
    let speed = hold;
    let runtime = t - hold;
    runtime * speed
}

/// Number of ways among the first `n` holds to travel farther than
/// `record`.
pub open spec fn wins(time: int, record: int, n: int) -> nat
    decreases n,
{
    if n <= 0 {
        0
    } else {
        wins(time, record, n - 1) + if spec_race(time, n - 1) > record {
            1nat
        } else {
            0nat
        }
    }
}

/// No more holds win than there are.
pub proof fn lemma_wins_bound(time: int, record: int, n: int)
    requires
        0 <= n,
    ensures
        wins(time, record, n) <= n,
    decreases n,
{
    if n > 0 {
        lemma_wins_bound(time, record, n - 1);
    }
}

impl Race {
    /// Whether every distance that can be travelled in the race is a number
    /// of 32 bits.
    pub open spec fn fits(&self) -> bool {
        forall|hold: int| 0 <= hold < self.time ==> #[trigger] spec_race(self.time as int, hold) <= u32::MAX
    }

    /// For every time to hold the button, from none to just short of the
    /// whole race, the distance travelled.
    pub fn strategies(&self) -> (result: Vec<(u32, u32)>)
        requires
            self.fits(),
        ensures
            result.len() == self.time,
            forall|hold: int|
                0 <= hold < self.time ==> #[trigger] result[hold] == (
                    hold as u32,
                    spec_race(self.time as int, hold) as u32,
                ),
    {
        let mut result: Vec<(u32, u32)> = Vec::new();
        let mut hold: u32 = 0;
        while hold < self.time
            invariant
                hold <= self.time,
                self.fits(),
                result.len() == hold,
                forall|k: int|
                    0 <= k < hold ==> #[trigger] result[k] == (
                        k as u32,
                        spec_race(self.time as int, k) as u32,
                    ),
            decreases self.time - hold,
        {
            assert(spec_race(self.time as int, hold as int) <= u32::MAX);
            let distance = race(self.time, hold);
            result.push((hold, distance));
            hold += 1;
        }
        result
    }

    /// Number of ways to hold the button that beat the record.
    pub fn ways_to_win(&self) -> (count: usize)
        requires
            self.fits(),
        ensures
            count == wins(self.time as int, self.distance_record as int, self.time as int),
    {
        let all = self.strategies();
        let mut count: usize = 0;
        let mut i: usize = 0;
        while i < all.len()
            invariant
                i <= all.len(),
                all.len() == self.time,
                forall|hold: int|
                    0 <= hold < self.time ==> #[trigger] all[hold] == (
                        hold as u32,
                        spec_race(self.time as int, hold) as u32,
                    ),
                self.fits(),
                count == wins(self.time as int, self.distance_record as int, i as int),
            decreases all.len() - i,
        {
            proof {
                lemma_wins_bound(self.time as int, self.distance_record as int, i as int);
                assert(spec_race(self.time as int, i as int) <= u32::MAX);
                assert(all[i as int].1 == spec_race(self.time as int, i as int));
            }
            if all[i].1 > self.distance_record {
                count += 1;
            }
            i += 1;
        }
        count
    }
}

/// The product of the numbers of ways to win the first `n` races.
pub open spec fn margin_of(races: Seq<Race>, n: int) -> nat
    decreases n,
{
    if n <= 0 {
        1
    } else {
        margin_of(races, n - 1) * wins(
            races[n - 1].time as int,
            races[n - 1].distance_record as int,
            races[n - 1].time as int,
        )
    }
}

/// Whether the product over the first `n` races, and over every number of
/// races less, is a number of the machine.
pub open spec fn margin_fits(races: Seq<Race>, n: int) -> bool
    decreases n,
{
    n <= 0 || (margin_fits(races, n - 1) && margin_of(races, n) <= usize::MAX)
}

/// The product of the numbers of ways to win each race.
pub fn margin(races: &Vec<Race>) -> (m: usize)
    requires
        forall|i: int| 0 <= i < races.len() ==> (#[trigger] races[i]).fits(),
        margin_fits(races@, races.len() as int),
    ensures
        m == margin_of(races@, races.len() as int),
{
    let mut m: usize = 1;
    let mut i: usize = 0;
    while i < races.len()
        invariant
            i <= races.len(),
            forall|k: int| 0 <= k < races.len() ==> (#[trigger] races[k]).fits(),
            margin_fits(races@, races.len() as int),
            m == margin_of(races@, i as int),
        decreases races.len() - i,
    {
        proof {
            lemma_margin_fits(races@, i + 1, races.len() as int);
            assert(races[i as int].fits());
        }
        let ways = races[i].ways_to_win();
        m = m * ways;
        i += 1;
    }
    m
}

/// What fits for all races fits for the first of them.
proof fn lemma_margin_fits(races: Seq<Race>, n: int, end: int)
    requires
        n <= end,
        margin_fits(races, end),
    ensures
        margin_fits(races, n),
    decreases end - n,
{
    if n < end {
        lemma_margin_fits(races, n, end - 1);
    }
}

/// The numbers that the words behind the first one write, or `None` when
/// one of them writes none.
pub open spec fn numbers_behind(words: Seq<Seq<char>>, n: int) -> Option<Seq<u32>>
    decreases n,
{
    if n <= 1 {
        Some(seq![])
    } else {
        match numbers_behind(words, n - 1) {
            Some(front) => match unsigned_of(words[n - 1], u32::MAX as nat) {
                Some(v) => Some(front.push(v as u32)),
                None => None,
            },
            None => None,
        }
    }
}

/// Once a word writes no number, the words write none.
proof fn lemma_numbers_fail(words: Seq<Seq<char>>, n: int, end: int)
    requires
        1 <= n <= end,
        numbers_behind(words, n) is None,
    ensures
        numbers_behind(words, end) is None,
    decreases end - n,
{
    if n < end {
        lemma_numbers_fail(words, n, end - 1);
    }
}

/// What has been read of a sheet: the times and the distances, each as
/// last listed.
pub struct Sheet {
    pub times: Option<Seq<u32>>,
    pub distances: Option<Seq<u32>>,
}

/// The sheet after the first `n` lines. A line that begins with `Time:`
/// lists the times, one that begins with `Distance:` the distances; any
/// other line is passed over, but a line that holds nothing is an error.
pub open spec fn sheet_of(lines: Seq<Seq<char>>, n: int) -> Result<Sheet, RaceError>
    decreases n,
{
    if n <= 0 {
        Ok(Sheet { times: None, distances: None })
    } else {
        match sheet_of(lines, n - 1) {
            Err(e) => Err(e),
            Ok(before) => {
                let parts = words_of(lines[n - 1]);
                if parts.len() == 0 {
                    Err(RaceError::EmptyLine)
                } else if parts[0] == "Time:"@ {
                    Ok(
                        Sheet {
                            times: numbers_behind(parts, parts.len() as int),
                            distances: before.distances,
                        },
                    )
                } else if parts[0] == "Distance:"@ {
                    Ok(
                        Sheet {
                            times: before.times,
                            distances: numbers_behind(parts, parts.len() as int),
                        },
                    )
                } else {
                    Ok(before)
                }
            },
        }
    }
}

/// The races of a sheet: each time with the distance at the same place, as
/// far as both lists go.
pub open spec fn races_of(times: Seq<u32>, distances: Seq<u32>) -> Seq<Race> {
    Seq::new(
        if times.len() <= distances.len() {
            times.len()
        } else {
            distances.len()
        },
        |i: int| Race { time: times[i], distance_record: distances[i] },
    )
}

/// The races that a text lists.
pub open spec fn races_in(text: Seq<char>) -> Result<Seq<Race>, RaceError> {
    match sheet_of(lines_of(text), lines_of(text).len() as int) {
        Err(e) => Err(e),
        Ok(sheet) => match sheet.times {
            None => Err(RaceError::NoTimes),
            Some(times) => match sheet.distances {
                None => Err(RaceError::NoDistances),
                Some(distances) => Ok(races_of(times, distances)),
            },
        },
    }
}

/// The numbers that the words behind the first one write.
fn numbers(parts: &Vec<Vec<char>>) -> (r: Option<Vec<u32>>)
    requires
        parts.len() >= 1,
    ensures
        match r {
            Some(v) => numbers_behind(texts_view(parts@), parts.len() as int) == Some(v@),
            None => numbers_behind(texts_view(parts@), parts.len() as int) is None,
        },
{
    let mut v: Vec<u32> = Vec::new();
    let ghost all = texts_view(parts@);
    let mut i: usize = 1;
    while i < parts.len()
        invariant
            1 <= i <= parts.len(),
            all == texts_view(parts@),
            numbers_behind(all, i as int) == Some(v@),
        decreases parts.len() - i,
    {
        assert(all[i as int] == parts[i as int]@);
        match parse_u32(&parts[i]) {
            Some(n) => {
                v.push(n);
            },
            None => {
                proof {
                    lemma_numbers_fail(all, i + 1, parts.len() as int);
                }
                return None;
            },
        }
        i += 1;
    }
    Some(v)
}

/// A line that holds nothing ends the reading.
proof fn lemma_sheet_fails(lines: Seq<Seq<char>>, n: int, end: int)
    requires
        n <= end,
        sheet_of(lines, n) is Err,
    ensures
        sheet_of(lines, end) == sheet_of(lines, n),
    decreases end - n,
{
    if n < end {
        lemma_sheet_fails(lines, n, end - 1);
    }
}

/// Reads the races from a sheet with a line of times and a line of
/// distances.
pub fn parse_races(text: &str) -> (r: Result<Vec<Race>, RaceError>)
    ensures
        match r {
            Ok(races) => races_in(text@) == Ok::<Seq<Race>, RaceError>(races@),
            Err(e) => races_in(text@) == Err::<Seq<Race>, RaceError>(e),
        },
{
    let chars = chars_of(text);
    let all = lines(&chars);
    let ghost rows = texts_view(all@);
    let mut times: Option<Vec<u32>> = None;
    let mut distances: Option<Vec<u32>> = None;
    let mut i: usize = 0;
    while i < all.len()
        invariant
            i <= all.len(),
            rows == texts_view(all@),
            rows == lines_of(text@),
            sheet_of(rows, i as int) is Ok,
            match times {
                Some(v) => sheet_of(rows, i as int)->Ok_0.times == Some(v@),
                None => sheet_of(rows, i as int)->Ok_0.times is None,
            },
            match distances {
                Some(v) => sheet_of(rows, i as int)->Ok_0.distances == Some(v@),
                None => sheet_of(rows, i as int)->Ok_0.distances is None,
            },
        decreases all.len() - i,
    {
        let parts = words(&all[i]);
        assert(rows[i as int] == all[i as int]@);
        if parts.len() == 0 {
            proof {
                lemma_sheet_fails(rows, i + 1, all.len() as int);
            }
            return Err(RaceError::EmptyLine);
        }
        assert(texts_view(parts@)[0] == parts[0]@);
        if same_text(&parts[0], "Time:") {
            times = numbers(&parts);
        } else if same_text(&parts[0], "Distance:") {
            distances = numbers(&parts);
        }
        i += 1;
    }
    let times = match times {
        Some(v) => v,
        None => {
            return Err(RaceError::NoTimes);
        },
    };
    let distances = match distances {
        Some(v) => v,
        None => {
            return Err(RaceError::NoDistances);
        },
    };
    let mut races: Vec<Race> = Vec::new();
    let mut k: usize = 0;
    while k < times.len() && k < distances.len()
        invariant
            k <= times.len(),
            k <= distances.len(),
            races.len() == k,
            forall|j: int|
                0 <= j < k ==> #[trigger] races[j] == (Race {
                    time: times[j],
                    distance_record: distances[j],
                }),
        decreases times.len() - k,
    {
        races.push(Race { time: times[k], distance_record: distances[k] });
        k += 1;
    }
    assert(races@ =~= races_of(times@, distances@));
    Ok(races)
}

/// The boat travels farthest when the button is held for half the race.
proof fn lemma_farthest_hold(t: int, hold: int)
    requires
        0 <= hold < t,
    ensures
        spec_race(t, hold) <= (t - t / 2) * (t / 2),
{
    let m = t / 2;
    assert((t - m) * m - (t - hold) * hold == (m - hold) * (t - m - hold)) by (nonlinear_arith);
    assert((m - hold) * (t - m - hold) >= 0) by (nonlinear_arith)
        requires
            (m - hold >= 0 && t - m - hold >= 0) || (m - hold <= 0 && t - m - hold <= 0),
    ;
}

impl Race {
    /// Whether every distance that can be travelled in the race is a number
    /// of 32 bits.
    pub fn can_run(&self) -> (r: bool)
        ensures
            r == self.fits(),
    {
        let half = (self.time / 2) as u64;
        let rest = self.time as u64 - half;
        assert(rest * half <= 4294967295 * 4294967295) by (nonlinear_arith)
            requires
                rest <= 4294967295,
                half <= 4294967295,
        ;
        let peak = rest * half;
        proof {
            let t = self.time as int;
            if peak <= u32::MAX {
                assert forall|hold: int| 0 <= hold < self.time implies #[trigger] spec_race(
                    self.time as int,
                    hold,
                ) <= u32::MAX by {
                    lemma_farthest_hold(t, hold);
                }
            } else {
                assert(half < t) by (nonlinear_arith)
                    requires
                        rest * half > 0,
                        rest == t - half,
                        half == t / 2,
                        0 <= t,
                ;
                assert(spec_race(t, half as int) == peak);
            }
        }
        peak <= 4294967295
    }
}

/// The product of the numbers of ways to win each race, or `None` when a
/// distance of a race is no number of 32 bits or a product on the way passes
/// the largest number of the machine.
pub fn checked_margin(races: &Vec<Race>) -> (r: Option<usize>)
    ensures
        match r {
            Some(m) => (forall|i: int| 0 <= i < races.len() ==> (#[trigger] races[i]).fits())
                && margin_fits(races@, races.len() as int) && m == margin_of(
                races@,
                races.len() as int,
            ),
            None => !((forall|i: int| 0 <= i < races.len() ==> (#[trigger] races[i]).fits())
                && margin_fits(races@, races.len() as int)),
        },
{
    let mut m: usize = 1;
    let mut i: usize = 0;
    while i < races.len()
        invariant
            i <= races.len(),
            forall|k: int| 0 <= k < i ==> (#[trigger] races[k]).fits(),
            margin_fits(races@, i as int),
            m == margin_of(races@, i as int),
        decreases races.len() - i,
    {
        if !races[i].can_run() {
            return None;
        }
        let ways = races[i].ways_to_win();
        match m.checked_mul(ways) {
            Some(product) => {
                m = product;
            },
            None => {
                proof {
                    if margin_fits(races@, races.len() as int) {
                        lemma_margin_fits(races@, i + 1, races.len() as int);
                    }
                }
                return None;
            },
        }
        i += 1;
    }
    Some(m)
}

} // verus!
