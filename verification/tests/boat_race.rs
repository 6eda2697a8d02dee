use advent2023::boat_race::{checked_margin, margin, parse_races, race, Race, RaceError};

const EXAMPLE: &str = "\
Time:      7  15   30
Distance:  9  40  200
";

#[test]
fn d6p1_example_test() {
    let _example = EXAMPLE;
}

#[test]
fn margin_of_the_example() {
    let races = parse_races(EXAMPLE).unwrap();
    assert_eq!(
        races,
        vec![
            Race { time: 7, distance_record: 9 },
            Race { time: 15, distance_record: 40 },
            Race { time: 30, distance_record: 200 },
        ]
    );
    let ways: Vec<usize> = races.iter().map(|r| r.ways_to_win()).collect();
    assert_eq!(ways, vec![4, 8, 9]);
    assert_eq!(margin(&races), 288);
    assert_eq!(margin(&vec![]), 1);
}

#[test]
fn distance_is_time_left_times_speed() {
    assert_eq!(race(7, 0), 0);
    assert_eq!(race(7, 1), 6);
    assert_eq!(race(7, 3), 12);
    assert_eq!(race(7, 4), 12);
    assert_eq!(race(7, 7), 0);
    assert_eq!(race(7, 9), 0);
    assert_eq!(race(131071, 65535), 4_294_901_760);
}

#[test]
fn strategies_list_every_hold() {
    let r = Race { time: 4, distance_record: 2 };
    assert_eq!(r.strategies(), vec![(0, 0), (1, 3), (2, 4), (3, 3)]);
    assert_eq!(r.ways_to_win(), 3);
    let none = Race { time: 0, distance_record: 0 };
    assert_eq!(none.strategies(), vec![]);
    assert_eq!(none.ways_to_win(), 0);
}

#[test]
fn sheet_errors() {
    assert_eq!(parse_races("Time: 1 2\n\nDistance: 3 4\n"), Err(RaceError::EmptyLine));
    assert_eq!(parse_races("Distance: 3 4\n"), Err(RaceError::NoTimes));
    assert_eq!(parse_races("Time: 3 4\n"), Err(RaceError::NoDistances));
    assert_eq!(parse_races("Time: 3 x\nDistance: 1 2\n"), Err(RaceError::NoTimes));
    assert_eq!(parse_races("Time: 3 4\nDistance: 1 -2\n"), Err(RaceError::NoDistances));
    assert_eq!(parse_races(""), Err(RaceError::NoTimes));
    assert_eq!(
        parse_races("Time: 9\nnote\nTime: 5 6 7\nDistance: 1 2\n"),
        Ok(vec![Race { time: 5, distance_record: 1 }, Race { time: 6, distance_record: 2 }])
    );
}

#[test]
fn margin_with_a_limit() {
    let races = parse_races(EXAMPLE).unwrap();
    assert_eq!(checked_margin(&races), Some(288));
    assert_eq!(checked_margin(&vec![]), Some(1));
    assert!(Race { time: 131071, distance_record: 0 }.can_run());
    assert!(!Race { time: 131072, distance_record: 0 }.can_run());
    assert!(Race { time: 0, distance_record: 0 }.can_run());
    assert_eq!(checked_margin(&vec![Race { time: 131072, distance_record: 0 }]), None);
    let many = vec![Race { time: 70000, distance_record: 0 }; 4];
    assert_eq!(checked_margin(&many[..3].to_vec()), Some(69999 * 69999 * 69999));
    assert_eq!(checked_margin(&many), None);
}
