//! The almanac: a list of seeds and seven range maps that lead from a seed
//! to its location, read from text.

use vstd::prelude::*;
use crate::pattern::{find, group, group_text, groups_view, matched};
use crate::range_map::{below, lookup, RangeMap, RangeMapEntry};
use crate::text::{
    chars_of, lines, lines_of, parse_usize, same_text, string_of, texts_view, unsigned_of,
    words, words_of,
};

verus! {

/// Why a line of an almanac was not understood.
#[derive(Debug, Clone, Copy, PartialEq, Eq, Structural)]
pub enum AlmanacError {
    /// The line does not list seeds.
    InvalidSeedsLine,
    /// The line is not the heading of a map.
    InvalidMapLine,
    /// The heading names no map of the almanac.
    InvalidMapName,
    /// The line is not an entry of three numbers.
    InvalidEntryLine,
    /// A number is not written in decimal digits or is too large.
    InvalidNumber,
    /// An entry stands before the first heading.
    EntryOutsideMap,
    /// The destination range of an entry passes the largest number.
    RangeOverflow,
}

/// The seven maps of an almanac, in the order in which a seed passes them.
#[derive(Debug, PartialEq, Eq, Clone, Copy, Structural)]
pub enum AlmanacMap {
    SeedToSoil,
    SoilToFertilizer,
    FertilizerToWater,
    WaterToLight,
    LightToTemperature,
    TemperatureToHumidity,
    HumidityToLocation,
}

impl AlmanacMap {
    /// The position of the map among the seven.
    pub open spec fn index(self) -> int {
        match self {
            AlmanacMap::SeedToSoil => 0,
            AlmanacMap::SoilToFertilizer => 1,
            AlmanacMap::FertilizerToWater => 2,
            AlmanacMap::WaterToLight => 3,
            AlmanacMap::LightToTemperature => 4,
            AlmanacMap::TemperatureToHumidity => 5,
            AlmanacMap::HumidityToLocation => 6,
        }
    }
}

/// The map that a heading names.
pub open spec fn map_named(name: Seq<char>) -> Result<AlmanacMap, AlmanacError> {
    if name == "seed-to-soil"@ {
        Ok(AlmanacMap::SeedToSoil)
    } else if name == "soil-to-fertilizer"@ {
        Ok(AlmanacMap::SoilToFertilizer)
    } else if name == "fertilizer-to-water"@ {
        Ok(AlmanacMap::FertilizerToWater)
    } else if name == "water-to-light"@ {
        Ok(AlmanacMap::WaterToLight)
    } else if name == "light-to-temperature"@ {
        Ok(AlmanacMap::LightToTemperature)
    } else if name == "temperature-to-humidity"@ {
        Ok(AlmanacMap::TemperatureToHumidity)
    } else if name == "humidity-to-location"@ {
        Ok(AlmanacMap::HumidityToLocation)
    } else {
        Err(AlmanacError::InvalidMapName)
    }
}

/// The numbers that a list of words writes, or an error when one of them
/// writes none.
pub open spec fn numbers_of(words: Seq<Seq<char>>) -> Result<Seq<usize>, AlmanacError>
    decreases words.len(),
{
    if words.len() == 0 {
        Ok(seq![])
    } else {
        match numbers_of(words.drop_last()) {
            Ok(front) => match unsigned_of(words.last(), usize::MAX as nat) {
                Some(n) => Ok(front.push(n as usize)),
                None => Err(AlmanacError::InvalidNumber),
            },
            Err(e) => Err(e),
        }
    }
}

/// The seeds that a match of the seeds pattern lists: the numbers written in
/// its first group.
pub open spec fn seeds_in(found: Option<Seq<Option<Seq<char>>>>) -> Result<Seq<usize>, AlmanacError> {
    match found {
        Some(groups) => match group_text(groups, 1) {
            Some(list) => numbers_of(words_of(list)),
            None => Err(AlmanacError::InvalidSeedsLine),
        },
        None => Err(AlmanacError::InvalidSeedsLine),
    }
}

/// The map that a match of the heading pattern names in its first group.
pub open spec fn map_in(found: Option<Seq<Option<Seq<char>>>>) -> Result<AlmanacMap, AlmanacError> {
    match found {
        Some(groups) => match group_text(groups, 1) {
            Some(name) => map_named(name),
            None => Err(AlmanacError::InvalidMapLine),
        },
        None => Err(AlmanacError::InvalidMapLine),
    }
}

/// The number written in group `i` of a match.
pub open spec fn number_in(groups: Seq<Option<Seq<char>>>, i: int) -> Option<usize> {
    match group_text(groups, i) {
        Some(digits) => match unsigned_of(digits, usize::MAX as nat) {
            Some(n) => Some(n as usize),
            None => None,
        },
        None => None,
    }
}

/// The destination, source and length that a match of the entry pattern
/// writes in its three groups.
pub open spec fn entry_in(found: Option<Seq<Option<Seq<char>>>>) -> Result<
    (usize, usize, usize),
    AlmanacError,
> {
    match found {
        Some(groups) => if number_in(groups, 1) is Some && number_in(groups, 2) is Some
            && number_in(groups, 3) is Some {
            Ok((number_in(groups, 1)->0, number_in(groups, 2)->0, number_in(groups, 3)->0))
        } else {
            Err(AlmanacError::InvalidNumber)
        },
        None => Err(AlmanacError::InvalidEntryLine),
    }
}

/// The pattern of the line that lists the seeds.
pub open spec fn seeds_pattern() -> Seq<char> {
    "^seeds: +(.*)"@
}

/// The pattern of the heading of a map.
pub open spec fn heading_pattern() -> Seq<char> {
    r"^((?<source>\w+)-to-(?<dest>\w+)) map:$"@
}

/// The pattern of an entry of a map.
pub open spec fn entry_pattern() -> Seq<char> {
    r"^(?<dest>\d+) +(?<source>\d+) +(?<length>\d+)$"@
}

/// The seeds and the maps of an almanac as plain values.
pub struct AlmanacView {
    pub seeds: Seq<usize>,
    pub maps: Seq<Seq<RangeMapEntry>>,
}

/// What has been read of an almanac: its contents so far, and the map that
/// the entries now go to.
pub struct Reading {
    pub almanac: AlmanacView,
    pub current: Option<AlmanacMap>,
}

/// Nothing read yet: no seeds, seven empty maps, no heading seen.
pub open spec fn nothing_read() -> Reading {
    Reading {
        almanac: AlmanacView { seeds: seq![], maps: Seq::new(7, |i: int| seq![]) },
        current: None,
    }
}

/// What has been read after one more line. A line that lists seeds replaces
/// the seeds; a heading chooses the map for the entries that follow; an
/// entry goes into the chosen map. A line may be more than one of these, and
/// a line that is none of them changes nothing.
pub open spec fn read_line(before: Reading, line: Seq<char>) -> Result<Reading, AlmanacError> {
    let seeds = match seeds_in(matched(seeds_pattern(), line)) {
        Ok(seeds) => seeds,
        Err(_) => before.almanac.seeds,
    };
    let current = match map_in(matched(heading_pattern(), line)) {
        Ok(map) => Some(map),
        Err(_) => before.current,
    };
    match entry_in(matched(entry_pattern(), line)) {
        Ok((dest, source, length)) => match current {
            Some(map) => {
                let entry = RangeMapEntry { source, dest, length };
                let old = before.almanac.maps[map.index()];
                if entry.fits() {
                    Ok(
                        Reading {
                            almanac: AlmanacView {
                                seeds,
                                maps: before.almanac.maps.update(
                                    map.index(),
                                    old.insert(below(old, source as int) as int, entry),
                                ),
                            },
                            current,
                        },
                    )
                } else {
                    Err(AlmanacError::RangeOverflow)
                }
            },
            None => Err(AlmanacError::EntryOutsideMap),
        },
        Err(_) => Ok(Reading { almanac: AlmanacView { seeds, maps: before.almanac.maps }, current }),
    }
}

/// What has been read after the first `n` lines.
pub open spec fn read_lines(lines: Seq<Seq<char>>, n: int) -> Result<Reading, AlmanacError>
    decreases n,
{
    if n <= 0 {
        Ok(nothing_read())
    } else {
        match read_lines(lines, n - 1) {
            Ok(before) => read_line(before, lines[n - 1]),
            Err(e) => Err(e),
        }
    }
}

/// An almanac: the seeds to plant, and the seven maps that lead from a seed
/// to its location.
pub struct Almanac {
    pub seeds: Vec<usize>,
    pub seed_to_soil: RangeMap,
    pub soil_to_fertilizer: RangeMap,
    pub fertilizer_to_water: RangeMap,
    pub water_to_light: RangeMap,
    pub light_to_temperature: RangeMap,
    pub temperature_to_humidity: RangeMap,
    pub humidity_to_location: RangeMap,
}

impl View for Almanac {
    type V = AlmanacView;

    open spec fn view(&self) -> AlmanacView {
        AlmanacView {
            seeds: self.seeds@,
            maps: seq![
                self.seed_to_soil@,
                self.soil_to_fertilizer@,
                self.fertilizer_to_water@,
                self.water_to_light@,
                self.light_to_temperature@,
                self.temperature_to_humidity@,
                self.humidity_to_location@,
            ],
        }
    }
}

/// The location of a seed: the seed sent through the seven maps in turn.
pub open spec fn location_of(maps: Seq<Seq<RangeMapEntry>>, seed: int) -> int {
    let soil = lookup(maps[0], seed);
    let fertilizer = lookup(maps[1], soil);
    let water = lookup(maps[2], fertilizer);
    let light = lookup(maps[3], water);
    let temperature = lookup(maps[4], light);
    let humidity = lookup(maps[5], temperature);
    lookup(maps[6], humidity)
}

impl Almanac {
    /// Every map of the almanac is well formed.
    pub open spec fn wf(&self) -> bool {
        &&& self.seed_to_soil.wf()
        &&& self.soil_to_fertilizer.wf()
        &&& self.fertilizer_to_water.wf()
        &&& self.water_to_light.wf()
        &&& self.light_to_temperature.wf()
        &&& self.temperature_to_humidity.wf()
        &&& self.humidity_to_location.wf()
    }

    /// The seeds that the line lists: the numbers behind `seeds:`.
    pub fn parse_seeds(line: &str) -> (r: Result<Vec<usize>, AlmanacError>)
        ensures
            match r {
                Ok(seeds) => seeds_in(matched(seeds_pattern(), line@)) == Ok::<
                    Seq<usize>,
                    AlmanacError,
                >(seeds@),
                Err(e) => seeds_in(matched(seeds_pattern(), line@)) == Err::<
                    Seq<usize>,
                    AlmanacError,
                >(e),
            },
    {
        match find("^seeds: +(.*)", line) {
            Some(groups) => seeds_from_groups(&groups),
            None => Err(AlmanacError::InvalidSeedsLine),
        }
    }

    /// The map whose heading the line is.
    pub fn parse_map(line: &str) -> (r: Result<AlmanacMap, AlmanacError>)
        ensures
            r == map_in(matched(heading_pattern(), line@)),
    {
        match find(r"^((?<source>\w+)-to-(?<dest>\w+)) map:$", line) {
            Some(groups) => map_from_groups(&groups),
            None => Err(AlmanacError::InvalidMapLine),
        }
    }

    /// The destination, the source and the length that the line gives for
    /// an entry.
    pub fn parse_entry(line: &str) -> (r: Result<(usize, usize, usize), AlmanacError>)
        ensures
            r == entry_in(matched(entry_pattern(), line@)),
    {
        match find(r"^(?<dest>\d+) +(?<source>\d+) +(?<length>\d+)$", line) {
            Some(groups) => entry_from_groups(&groups),
            None => Err(AlmanacError::InvalidEntryLine),
        }
    }

    /// One of the seven maps.
    pub fn range_map(&self, which: AlmanacMap) -> (map: &RangeMap)
        ensures
            map@ == self@.maps[which.index()],
            self.wf() ==> map.wf(),
    {
        match which {
            AlmanacMap::SeedToSoil => &self.seed_to_soil,
            AlmanacMap::SoilToFertilizer => &self.soil_to_fertilizer,
            AlmanacMap::FertilizerToWater => &self.fertilizer_to_water,
            AlmanacMap::WaterToLight => &self.water_to_light,
            AlmanacMap::LightToTemperature => &self.light_to_temperature,
            AlmanacMap::TemperatureToHumidity => &self.temperature_to_humidity,
            AlmanacMap::HumidityToLocation => &self.humidity_to_location,
        }
    }

    /// The location of a seed: the seed sent through the seven maps in turn.
    pub fn seed_to_location(&self, seed: usize) -> (location: usize)
        requires
            self.wf(),
        ensures
            location == location_of(self@.maps, seed as int),
    {
        let soil = self.seed_to_soil.get(seed);
        let fertilizer = self.soil_to_fertilizer.get(soil);
        let water = self.fertilizer_to_water.get(fertilizer);
        let light = self.water_to_light.get(water);
        let temperature = self.light_to_temperature.get(light);
        let humidity = self.temperature_to_humidity.get(temperature);
        self.humidity_to_location.get(humidity)
    }

    /// Reads an almanac from text, line by line.
    pub fn parse(s: &str) -> (r: Result<Almanac, AlmanacError>)
        ensures
            match r {
                Ok(almanac) => {
                    &&& almanac.wf()
                    &&& read_lines(lines_of(s@), lines_of(s@).len() as int) is Ok
                    &&& read_lines(lines_of(s@), lines_of(s@).len() as int)->Ok_0.almanac
                        == almanac@
                },
                Err(e) => read_lines(lines_of(s@), lines_of(s@).len() as int) == Err::<
                    Reading,
                    AlmanacError,
                >(e),
            },
    {
        let mut almanac = Almanac {
            seeds: Vec::new(),
            seed_to_soil: RangeMap::new(),
            soil_to_fertilizer: RangeMap::new(),
            fertilizer_to_water: RangeMap::new(),
            water_to_light: RangeMap::new(),
            light_to_temperature: RangeMap::new(),
            temperature_to_humidity: RangeMap::new(),
            humidity_to_location: RangeMap::new(),
        };
        let mut current: Option<AlmanacMap> = None;
        let chars = chars_of(s);
        let all = lines(&chars);
        let ghost source = texts_view(all@);
        let mut i: usize = 0;
        assert(almanac@.maps =~= nothing_read().almanac.maps);
        while i < all.len()
            invariant
                i <= all.len(),
                source == texts_view(all@),
                source == lines_of(s@),
                almanac.wf(),
                read_lines(source, i as int) == Ok::<Reading, AlmanacError>(
                    Reading { almanac: almanac@, current },
                ),
            decreases all.len() - i,
        {
            let text = string_of(&all[i]);
            let line = text.as_str();
            let ghost before = almanac@;
            let ghost prior = Reading { almanac: almanac@, current };
            assert(source[i as int] == line@);
            assert(read_lines(source, i + 1) == read_line(prior, line@));
            if let Ok(seeds) = Almanac::parse_seeds(line) {
                almanac.seeds = seeds;
            }
            if let Ok(map) = Almanac::parse_map(line) {
                current = Some(map);
            }
            if let Ok((dest, source_start, length)) = Almanac::parse_entry(line) {
                if !(length == 0 || dest <= usize::MAX - (length - 1)) {
                    proof {
                        assert(current is Some ==> !(RangeMapEntry {
                            source: source_start,
                            dest,
                            length,
                        }).fits());
                        assert(read_lines(source, i + 1) is Err);
                        lemma_read_lines_fails(source, i + 1, all.len() as int);
                    }
                    return Err(if current.is_some() {
                        AlmanacError::RangeOverflow
                    } else {
                        AlmanacError::EntryOutsideMap
                    });
                }
                match current {
                    Some(AlmanacMap::SeedToSoil) => almanac.seed_to_soil.push(
                        source_start,
                        dest,
                        length,
                    ),
                    Some(AlmanacMap::SoilToFertilizer) => almanac.soil_to_fertilizer.push(
                        source_start,
                        dest,
                        length,
                    ),
                    Some(AlmanacMap::FertilizerToWater) => almanac.fertilizer_to_water.push(
                        source_start,
                        dest,
                        length,
                    ),
                    Some(AlmanacMap::WaterToLight) => almanac.water_to_light.push(
                        source_start,
                        dest,
                        length,
                    ),
                    Some(AlmanacMap::LightToTemperature) => almanac.light_to_temperature.push(
                        source_start,
                        dest,
                        length,
                    ),
                    Some(AlmanacMap::TemperatureToHumidity) => almanac.temperature_to_humidity.push(
                        source_start,
                        dest,
                        length,
                    ),
                    Some(AlmanacMap::HumidityToLocation) => almanac.humidity_to_location.push(
                        source_start,
                        dest,
                        length,
                    ),
                    None => {
                        proof {
                            lemma_read_lines_fails(source, i + 1, all.len() as int);
                        }
                        return Err(AlmanacError::EntryOutsideMap);
                    },
                }
                proof {
                    let map = current->0;
                    let entry = RangeMapEntry { source: source_start, dest, length };
                    let old = before.maps[map.index()];
                    assert(almanac@.maps =~= before.maps.update(
                        map.index(),
                        old.insert(below(old, source_start as int) as int, entry),
                    ));
                }
            } else {
                assert(almanac@.maps =~= before.maps);
            }
            i += 1;
        }
        Ok(almanac)
    }
}

/// The lowest location among those of the `length` seeds from `start` on;
/// that of `start` itself when `length` is not above one.
pub open spec fn lowest_in(maps: Seq<Seq<RangeMapEntry>>, start: int, length: int) -> int
    decreases length,
{
    if length <= 1 {
        location_of(maps, start)
    } else {
        let before = lowest_in(maps, start, length - 1);
        let last = location_of(maps, start + length - 1);
        if last < before {
            last
        } else {
            before
        }
    }
}

/// The seeds taken two by two: a first seed and a number of seeds.
pub open spec fn pairs_of(seeds: Seq<usize>) -> Seq<(usize, usize)> {
    Seq::new(seeds.len() / 2, |k: int| (seeds[2 * k], seeds[2 * k + 1]))
}

/// The lowest location over the first `n` of the listed ranges of seeds,
/// ranges without a seed left aside; `None` when no seed is among them.
pub open spec fn lowest_over(maps: Seq<Seq<RangeMapEntry>>, pairs: Seq<(usize, usize)>, n: int) -> Option<
    int,
>
    decreases n,
{
    if n <= 0 {
        None
    } else {
        let before = lowest_over(maps, pairs, n - 1);
        let (start, length) = pairs[n - 1];
        if length == 0 {
            before
        } else {
            let here = lowest_in(maps, start as int, length as int);
            match before {
                Some(low) => if here < low {
                    Some(here)
                } else {
                    Some(low)
                },
                None => Some(here),
            }
        }
    }
}

impl Almanac {
    /// The seeds taken two by two, each pair a first seed and a number of
    /// seeds.
    pub fn seed_ranges(&self) -> (pairs: Vec<(usize, usize)>)
        requires
            self@.seeds.len() % 2 == 0,
        ensures
            pairs@ == pairs_of(self@.seeds),
    {
        let mut pairs: Vec<(usize, usize)> = Vec::new();
        let mut k: usize = 0;
        let n = self.seeds.len() / 2;
        while k < n
            invariant
                k <= n,
                n == self.seeds@.len() / 2,
                2 * n <= self.seeds.len(),
                pairs@.len() == k,
                forall|j: int|
                    0 <= j < k ==> #[trigger] pairs@[j] == (
                        self.seeds@[2 * j],
                        self.seeds@[2 * j + 1],
                    ),
            decreases n - k,
        {
            pairs.push((self.seeds[2 * k], self.seeds[2 * k + 1]));
            k += 1;
        }
        assert(pairs@ =~= pairs_of(self@.seeds));
        pairs
    }

    /// The lowest location among those of the `length` seeds from `start`
    /// on; `None` when `length` is zero.
    pub fn lowest_location(&self, start: usize, length: usize) -> (r: Option<usize>)
        requires
            self.wf(),
            start + length <= usize::MAX,
        ensures
            match r {
                Some(low) => length > 0 && low == lowest_in(
                    self@.maps,
                    start as int,
                    length as int,
                ),
                None => length == 0,
            },
    {
        if length == 0 {
            return None;
        }
        let mut low = self.seed_to_location(start);
        let mut done: usize = 1;
        while done < length
            invariant
                1 <= done <= length,
                start + length <= usize::MAX,
                self.wf(),
                low == lowest_in(self@.maps, start as int, done as int),
            decreases length - done,
        {
            let here = self.seed_to_location(start + done);
            if here < low {
                low = here;
            }
            done += 1;
        }
        Some(low)
    }

    /// The lowest location over the listed ranges of seeds; `None` when they
    /// hold no seed.
    pub fn lowest_location_over(&self, pairs: &Vec<(usize, usize)>) -> (r: Option<usize>)
        requires
            self.wf(),
            forall|k: int| 0 <= k < pairs.len() ==> (#[trigger] pairs[k]).0 + pairs[k].1 <= usize::MAX,
        ensures
            match r {
                Some(low) => lowest_over(self@.maps, pairs@, pairs.len() as int) == Some(
                    low as int,
                ),
                None => lowest_over(self@.maps, pairs@, pairs.len() as int) is None,
            },
    {
        let mut best: Option<usize> = None;
        let mut k: usize = 0;
        while k < pairs.len()
            invariant
                k <= pairs.len(),
                self.wf(),
                forall|j: int|
                    0 <= j < pairs.len() ==> (#[trigger] pairs[j]).0 + pairs[j].1 <= usize::MAX,
                match best {
                    Some(low) => lowest_over(self@.maps, pairs@, k as int) == Some(low as int),
                    None => lowest_over(self@.maps, pairs@, k as int) is None,
                },
            decreases pairs.len() - k,
        {
            let (start, length) = pairs[k];
            assert(pairs[k as int].0 + pairs[k as int].1 <= usize::MAX);
            assert(pairs@[k + 1 - 1] == (start, length));
            match self.lowest_location(start, length) {
                Some(here) => {
                    best = match best {
                        Some(low) => if here < low {
                            Some(here)
                        } else {
                            Some(low)
                        },
                        None => Some(here),
                    };
                },
                None => {},
            }
            k += 1;
        }
        best
    }
}

/// A line that cannot be read ends the reading.
pub proof fn lemma_read_lines_fails(lines: Seq<Seq<char>>, n: int, end: int)
    requires
        n <= end,
        read_lines(lines, n) is Err,
    ensures
        read_lines(lines, end) == read_lines(lines, n),
    decreases end - n,
{
    if n < end {
        lemma_read_lines_fails(lines, n, end - 1);
    }
}

/// The numbers that a list of words writes.
pub fn numbers_from_words(list: &Vec<Vec<char>>) -> (r: Result<Vec<usize>, AlmanacError>)
    ensures
        match r {
            Ok(numbers) => numbers_of(texts_view(list@)) == Ok::<Seq<usize>, AlmanacError>(
                numbers@,
            ),
            Err(e) => numbers_of(texts_view(list@)) == Err::<Seq<usize>, AlmanacError>(e),
        },
{
    let mut numbers: Vec<usize> = Vec::new();
    let ghost all = texts_view(list@);
    let mut i: usize = 0;
    assert(all.take(0) =~= Seq::<Seq<char>>::empty());
    while i < list.len()
        invariant
            i <= list.len(),
            all == texts_view(list@),
            numbers_of(all.take(i as int)) == Ok::<Seq<usize>, AlmanacError>(numbers@),
        decreases list.len() - i,
    {
        proof {
            assert(all.take(i + 1).drop_last() =~= all.take(i as int));
            assert(all.take(i + 1).last() == list[i as int]@);
        }
        match parse_usize(&list[i]) {
            Some(n) => {
                numbers.push(n);
            },
            None => {
                proof {
                    lemma_numbers_of_fails(all, i + 1);
                }
                return Err(AlmanacError::InvalidNumber);
            },
        }
        i += 1;
    }
    assert(all.take(list.len() as int) =~= all);
    Ok(numbers)
}

/// Once a word writes no number, no longer list of words writes numbers.
proof fn lemma_numbers_of_fails(words: Seq<Seq<char>>, n: int)
    requires
        0 <= n <= words.len(),
        numbers_of(words.take(n)) is Err,
    ensures
        numbers_of(words) == Err::<Seq<usize>, AlmanacError>(AlmanacError::InvalidNumber),
    decreases words.len() - n,
{
    lemma_numbers_of_error(words.take(n));
    if n < words.len() {
        assert(words.take(n + 1).drop_last() =~= words.take(n));
        lemma_numbers_of_fails(words, n + 1);
    } else {
        assert(words.take(n) =~= words);
    }
}

/// The one error of a list of words is a word that writes no number.
proof fn lemma_numbers_of_error(words: Seq<Seq<char>>)
    ensures
        numbers_of(words) is Err ==> numbers_of(words) == Err::<Seq<usize>, AlmanacError>(
            AlmanacError::InvalidNumber,
        ),
    decreases words.len(),
{
    if words.len() > 0 {
        lemma_numbers_of_error(words.drop_last());
    }
}

/// The seeds that a match of the seeds pattern lists.
pub fn seeds_from_groups(groups: &Vec<Option<Vec<char>>>) -> (r: Result<Vec<usize>, AlmanacError>)
    ensures
        match r {
            Ok(seeds) => seeds_in(groups_view(Some(*groups))) == Ok::<Seq<usize>, AlmanacError>(
                seeds@,
            ),
            Err(e) => seeds_in(groups_view(Some(*groups))) == Err::<Seq<usize>, AlmanacError>(e),
        },
{
    match group(groups, 1) {
        Some(list) => {
            let all = words(list);
            numbers_from_words(&all)
        },
        None => Err(AlmanacError::InvalidSeedsLine),
    }
}

/// The map that a match of the heading pattern names.
pub fn map_from_groups(groups: &Vec<Option<Vec<char>>>) -> (r: Result<AlmanacMap, AlmanacError>)
    ensures
        r == map_in(groups_view(Some(*groups))),
{
    match group(groups, 1) {
        Some(name) => {
            if same_text(name, "seed-to-soil") {
                Ok(AlmanacMap::SeedToSoil)
            } else if same_text(name, "soil-to-fertilizer") {
                Ok(AlmanacMap::SoilToFertilizer)
            } else if same_text(name, "fertilizer-to-water") {
                Ok(AlmanacMap::FertilizerToWater)
            } else if same_text(name, "water-to-light") {
                Ok(AlmanacMap::WaterToLight)
            } else if same_text(name, "light-to-temperature") {
                Ok(AlmanacMap::LightToTemperature)
            } else if same_text(name, "temperature-to-humidity") {
                Ok(AlmanacMap::TemperatureToHumidity)
            } else if same_text(name, "humidity-to-location") {
                Ok(AlmanacMap::HumidityToLocation)
            } else {
                Err(AlmanacError::InvalidMapName)
            }
        },
        None => Err(AlmanacError::InvalidMapLine),
    }
}

/// The number written in group `i` of a match.
fn number_from_group(groups: &Vec<Option<Vec<char>>>, i: usize) -> (r: Option<usize>)
    ensures
        r == number_in(groups_view(Some(*groups))->0, i as int),
{
    match group(groups, i) {
        Some(digits) => parse_usize(digits),
        None => None,
    }
}

/// The destination, source and length that a match of the entry pattern
/// writes.
pub fn entry_from_groups(groups: &Vec<Option<Vec<char>>>) -> (r: Result<
    (usize, usize, usize),
    AlmanacError,
>)
    ensures
        r == entry_in(groups_view(Some(*groups))),
{
    let dest = number_from_group(groups, 1);
    let source = number_from_group(groups, 2);
    let length = number_from_group(groups, 3);
    match (dest, source, length) {
        (Some(d), Some(s), Some(l)) => Ok((d, s, l)),
        _ => Err(AlmanacError::InvalidNumber),
    }
}

impl std::str::FromStr for Almanac {
    type Err = AlmanacError;

    fn from_str(s: &str) -> (r: Result<Almanac, AlmanacError>)
        ensures
            match r {
                Ok(almanac) => {
                    &&& almanac.wf()
                    &&& read_lines(lines_of(s@), lines_of(s@).len() as int) is Ok
                    &&& read_lines(lines_of(s@), lines_of(s@).len() as int)->Ok_0.almanac
                        == almanac@
                },
                Err(e) => read_lines(lines_of(s@), lines_of(s@).len() as int) == Err::<
                    Reading,
                    AlmanacError,
                >(e),
            },
    {
        Almanac::parse(s)
    }
}

} // verus!
