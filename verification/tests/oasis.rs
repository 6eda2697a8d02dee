use advent2023::oasis::{Reading, ReadingError};

const EXAMPLE: &str = "\
0 3 6 9 12 15
1 3 6 10 15 21
10 13 16 21 30 45
";

#[test]
fn d9p2_test_part2_example() {
    let mut total = 0;
    let expected = [-3, 0, 5];
    for (i, line) in EXAMPLE.lines().enumerate() {
        let reading: Reading = line.parse().unwrap();
        let extrapolated = reading.extrapolate_backwards();
        assert_eq!(extrapolated, expected[i]);
        total += extrapolated;
    }
    assert_eq!(total, 2);
}

#[test]
fn extrapolating_forwards() {
    let expected = [18, 28, 68];
    for (i, line) in EXAMPLE.lines().enumerate() {
        let reading: Reading = line.parse().unwrap();
        assert_eq!(reading.extrapolate(), expected[i]);
    }
}

#[test]
fn differences_of_a_history() {
    assert_eq!(Reading::delta(&vec![0, 3, 6, 9]), vec![3, 3, 3]);
    assert_eq!(Reading::delta(&vec![10, 13, 16, 21, 30, 45]), vec![3, 3, 5, 9, 15]);
    assert_eq!(Reading::delta(&vec![7]), Vec::<i32>::new());
    assert_eq!(Reading::delta(&vec![5, -5]), vec![-10]);
}

#[test]
fn short_histories() {
    assert_eq!(Reading(vec![]).extrapolate(), 0);
    assert_eq!(Reading(vec![]).extrapolate_backwards(), 0);
    assert_eq!(Reading(vec![0, 0, 0]).extrapolate(), 0);
    assert_eq!(Reading(vec![5]).extrapolate(), 5);
    assert_eq!(Reading(vec![5]).extrapolate_backwards(), 5);
    assert_eq!(Reading(vec![1, 4]).extrapolate(), 7);
    assert_eq!(Reading(vec![1, 4]).extrapolate_backwards(), -2);
    assert_eq!(Reading(vec![-3, -1, 3]).extrapolate(), 9);
}

#[test]
fn reading_a_line() {
    assert_eq!(Reading::parse(" -1  +2 3 ").map(|r| r.0), Ok(vec![-1, 2, 3]));
    assert_eq!(Reading::parse("").map(|r| r.0), Ok(vec![]));
    assert_eq!(
        Reading::parse("-2147483648 2147483647").map(|r| r.0),
        Ok(vec![i32::MIN, i32::MAX])
    );
    assert_eq!(Reading::parse("1 x").err(), Some(ReadingError::InvalidNumber));
    assert_eq!(Reading::parse("2147483648").err(), Some(ReadingError::InvalidNumber));
    assert_eq!(Reading::parse("-2147483649").err(), Some(ReadingError::InvalidNumber));
    assert_eq!(Reading::parse("-").err(), Some(ReadingError::InvalidNumber));
}

#[test]
fn extrapolating_with_a_limit() {
    let expected = [(18, -3), (28, 0), (68, 5)];
    for (i, line) in EXAMPLE.lines().enumerate() {
        let reading: Reading = line.parse().unwrap();
        assert_eq!(reading.checked_extrapolate(), Some(expected[i].0));
        assert_eq!(reading.checked_extrapolate_backwards(), Some(expected[i].1));
    }
    assert_eq!(Reading(vec![]).checked_extrapolate(), Some(0));
    assert_eq!(Reading(vec![i32::MIN, i32::MAX]).checked_extrapolate(), None);
    assert_eq!(Reading(vec![0, i32::MAX]).checked_extrapolate(), None);
    assert_eq!(Reading(vec![i32::MAX, 0]).checked_extrapolate_backwards(), None);
    assert_eq!(Reading(vec![i32::MAX]).checked_extrapolate(), Some(i32::MAX));
    // the powers of two: every row of differences is the row above, so the
    // rows never come to zeros before the values run out
    let deep: Vec<i32> = (0..101).map(|k| if k < 30 { 1 << k } else { 0 }).collect();
    assert_eq!(Reading((0..20).map(|k| 1 << k).collect()).checked_extrapolate(), Some((1 << 20) - 1));
    assert!(Reading(deep).checked_extrapolate().is_none());
}
