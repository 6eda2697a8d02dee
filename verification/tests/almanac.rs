use std::str::FromStr;

use advent2023::almanac::{
    entry_from_groups, map_from_groups, numbers_from_words, seeds_from_groups, Almanac, AlmanacError,
    AlmanacMap,
};
use advent2023::pattern::{find, group};
use advent2023::range_map::{RangeMap, RangeMapEntry};

const EXAMPLE: &str = "\
seeds: 79 14 55 13

seed-to-soil map:
50 98 2
52 50 48

soil-to-fertilizer map:
0 15 37
37 52 2
39 0 15

fertilizer-to-water map:
49 53 8
0 11 42
42 0 7
57 7 4

water-to-light map:
88 18 7
18 25 70

light-to-temperature map:
45 77 23
81 45 19
68 64 13

temperature-to-humidity map:
0 69 1
1 0 69

humidity-to-location map:
60 56 37
56 93 4
";

fn text(s: &str) -> Vec<char> {
    s.chars().collect()
}

#[test]
fn test_parse_seeds() {
    let line = "seeds: 79 14 55 13";
    let seeds = Almanac::parse_seeds(line).unwrap();
    assert_eq!(seeds, vec![79, 14, 55, 13]);
}

#[test]
fn test_parse_map() {
    let line = "soil-to-fertilizer map:";
    let map = Almanac::parse_map(line).unwrap();
    assert_eq!(map, AlmanacMap::SoilToFertilizer);
}

#[test]
fn test_parse_entry() {
    let line = "50 98 2";
    let (dest, source, length) = Almanac::parse_entry(line).unwrap();
    assert_eq!(dest, 50);
    assert_eq!(source, 98);
    assert_eq!(length, 2);
}

#[test]
fn lib_test_parse_example() {
    let almanac = Almanac::from_str(EXAMPLE).unwrap();
    assert_eq!(almanac.seeds, vec![79, 14, 55, 13]);
    let seed_to_soil = almanac.range_map(AlmanacMap::SeedToSoil);
    assert_eq!(seed_to_soil.len(), 2);
    assert_eq!(seed_to_soil.get_entry(0).unwrap().source, 50);
    assert_eq!(seed_to_soil.get_entry(0).unwrap().dest, 52);
    assert_eq!(seed_to_soil.get_entry(0).unwrap().length, 48);
    assert_eq!(almanac.range_map(AlmanacMap::SoilToFertilizer).len(), 3);
    assert_eq!(almanac.range_map(AlmanacMap::FertilizerToWater).len(), 4);
    assert_eq!(almanac.range_map(AlmanacMap::WaterToLight).len(), 2);
    assert_eq!(almanac.range_map(AlmanacMap::LightToTemperature).len(), 3);
    assert_eq!(almanac.range_map(AlmanacMap::TemperatureToHumidity).len(), 2);
    assert_eq!(almanac.range_map(AlmanacMap::HumidityToLocation).len(), 2);
}

#[test]
fn test_example_seed_to_location() {
    let almanac = Almanac::from_str(EXAMPLE).unwrap();
    assert_eq!(almanac.seed_to_location(79), 82);
    assert_eq!(almanac.seed_to_location(14), 43);
    assert_eq!(almanac.seed_to_location(55), 86);
    assert_eq!(almanac.seed_to_location(13), 35);
}

#[test]
fn range_map_keeps_entries_in_source_order() {
    let mut map = RangeMap::new();
    assert!(map.is_empty());
    assert_eq!(map.len(), 0);
    map.push(98, 50, 2);
    map.push(50, 52, 48);
    map.push(70, 0, 1);
    map.push(50, 7, 0);
    assert!(!map.is_empty());
    assert_eq!(map.len(), 4);
    let sources: Vec<usize> = (0..4).map(|i| map.get_entry(i).unwrap().source).collect();
    assert_eq!(sources, vec![50, 50, 70, 98]);
    assert_eq!(*map.get_entry(0).unwrap(), RangeMapEntry { source: 50, dest: 7, length: 0 });
    assert!(RangeMap::default().is_empty());
}

#[test]
fn range_map_lookup() {
    let mut map = RangeMap::new();
    assert_eq!(map.get(5), 5);
    map.push(98, 50, 2);
    map.push(50, 52, 48);
    assert_eq!(map.get(0), 0);
    assert_eq!(map.get(49), 49);
    assert_eq!(map.get(50), 52);
    assert_eq!(map.get(97), 99);
    assert_eq!(map.get(98), 50);
    assert_eq!(map.get(99), 51);
    assert_eq!(map.get(100), 100);
    assert_eq!(map.get(usize::MAX), usize::MAX);
    let mut top = RangeMap::new();
    top.push(0, usize::MAX - 1, 2);
    assert_eq!(top.get(1), usize::MAX);
}

#[test]
fn patterns_are_matched_by_the_regex_crate() {
    assert_eq!(find("^a(b+)(c)?$", "abbb"), Some(vec![Some(text("abbb")), Some(text("bbb")), None]));
    assert_eq!(find("^a(b+)(c)?$", "xabbb"), None);
    assert_eq!(find("(", "("), None);
    let groups = find(r"(\d+)-(\d+)", "from 10-20 on").unwrap();
    assert_eq!(group(&groups, 0), Some(&text("10-20")));
    assert_eq!(group(&groups, 2), Some(&text("20")));
    assert_eq!(group(&groups, 3), None);
}

#[test]
fn seeds_line_errors() {
    assert_eq!(Almanac::parse_seeds("seeds:79"), Err(AlmanacError::InvalidSeedsLine));
    assert_eq!(Almanac::parse_seeds("plants: 1 2"), Err(AlmanacError::InvalidSeedsLine));
    assert_eq!(Almanac::parse_seeds("seeds:   "), Ok(vec![]));
    assert_eq!(Almanac::parse_seeds("seeds:  7   +8"), Ok(vec![7, 8]));
    assert_eq!(Almanac::parse_seeds("seeds: 7 x"), Err(AlmanacError::InvalidNumber));
    assert_eq!(Almanac::parse_seeds("seeds: -7"), Err(AlmanacError::InvalidNumber));
    assert_eq!(
        Almanac::parse_seeds("seeds: 99999999999999999999999"),
        Err(AlmanacError::InvalidNumber)
    );
    assert_eq!(seeds_from_groups(&vec![Some(text("seeds: 1"))]), Err(AlmanacError::InvalidSeedsLine));
    assert_eq!(seeds_from_groups(&vec![None, Some(text("4 5"))]), Ok(vec![4, 5]));
    assert_eq!(numbers_from_words(&vec![text("1"), text("22")]), Ok(vec![1, 22]));
    assert_eq!(numbers_from_words(&vec![text("1"), text("")]), Err(AlmanacError::InvalidNumber));
}

#[test]
fn heading_errors() {
    assert_eq!(Almanac::parse_map("seed-to-soil map:"), Ok(AlmanacMap::SeedToSoil));
    assert_eq!(Almanac::parse_map("fertilizer-to-water map:"), Ok(AlmanacMap::FertilizerToWater));
    assert_eq!(Almanac::parse_map("water-to-light map:"), Ok(AlmanacMap::WaterToLight));
    assert_eq!(Almanac::parse_map("light-to-temperature map:"), Ok(AlmanacMap::LightToTemperature));
    assert_eq!(
        Almanac::parse_map("temperature-to-humidity map:"),
        Ok(AlmanacMap::TemperatureToHumidity)
    );
    assert_eq!(Almanac::parse_map("humidity-to-location map:"), Ok(AlmanacMap::HumidityToLocation));
    assert_eq!(Almanac::parse_map("soil-to-seed map:"), Err(AlmanacError::InvalidMapName));
    assert_eq!(Almanac::parse_map("seed-to-soil map: "), Err(AlmanacError::InvalidMapLine));
    assert_eq!(Almanac::parse_map("seed-to-soil"), Err(AlmanacError::InvalidMapLine));
    assert_eq!(map_from_groups(&vec![Some(text("x"))]), Err(AlmanacError::InvalidMapLine));
    assert_eq!(map_from_groups(&vec![None, Some(text("x"))]), Err(AlmanacError::InvalidMapName));
}

#[test]
fn entry_errors() {
    assert_eq!(Almanac::parse_entry("1  2   3"), Ok((1, 2, 3)));
    assert_eq!(Almanac::parse_entry("1 2"), Err(AlmanacError::InvalidEntryLine));
    assert_eq!(Almanac::parse_entry("1 2 3 "), Err(AlmanacError::InvalidEntryLine));
    assert_eq!(Almanac::parse_entry("1 2 x"), Err(AlmanacError::InvalidEntryLine));
    assert_eq!(
        Almanac::parse_entry("1 2 99999999999999999999999"),
        Err(AlmanacError::InvalidNumber)
    );
    assert_eq!(entry_from_groups(&vec![Some(text("")), Some(text("1"))]), Err(AlmanacError::InvalidNumber));
    assert_eq!(
        entry_from_groups(&vec![None, Some(text("1")), Some(text("2")), Some(text("3"))]),
        Ok((1, 2, 3))
    );
}

#[test]
fn almanac_reading_errors() {
    assert_eq!(Almanac::from_str("1 2 3\n").err(), Some(AlmanacError::EntryOutsideMap));
    let huge = format!("seed-to-soil map:\n{} 0 2\n", usize::MAX);
    assert_eq!(Almanac::from_str(&huge).err(), Some(AlmanacError::RangeOverflow));
    let edge = format!("seed-to-soil map:\n{} 0 1\n", usize::MAX);
    assert_eq!(Almanac::from_str(&edge).unwrap().seed_to_location(0), usize::MAX);
    let empty = Almanac::from_str("").unwrap();
    assert!(empty.seeds.is_empty());
    assert_eq!(empty.seed_to_location(5), 5);
    let later = Almanac::from_str("seeds: 1\nnoise\nseeds: 2 3\nwater-to-light map:\n10 2 1\n").unwrap();
    assert_eq!(later.seeds, vec![2, 3]);
    assert_eq!(later.seed_to_location(2), 10);
    assert_eq!(later.seed_to_location(3), 3);
}

#[test]
fn lowest_location_over_seed_ranges() {
    let almanac = Almanac::from_str(EXAMPLE).unwrap();
    assert_eq!(almanac.seed_ranges(), vec![(79, 14), (55, 13)]);
    assert_eq!(almanac.lowest_location(79, 14), Some(46));
    assert_eq!(almanac.lowest_location(55, 13), Some(56));
    assert_eq!(almanac.lowest_location(79, 1), Some(82));
    assert_eq!(almanac.lowest_location(79, 0), None);
    assert_eq!(almanac.lowest_location_over(&almanac.seed_ranges()), Some(46));
    assert_eq!(almanac.lowest_location_over(&vec![(1, 0)]), None);
    assert_eq!(almanac.lowest_location_over(&vec![]), None);
}
