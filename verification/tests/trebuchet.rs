use advent2023::trebuchet::{
    add_up_to, calibration_value, find_first_digit, find_last_digit, name_of,
    spelled_calibration_value,
};

const EXAMPLE: &str = "\
1abc2
pqr3stu8vwx
a1b2c3d4e5f
treb7uchet
";

const SPELLED: &str = "\
two1nine
eightwothree
abcone2threexyz
xtwone3four
4nineeightseven2
zoneight234
7pqrstsixteen
";

#[test]
fn d1p1_example_test() {
    let _example = EXAMPLE;
}

#[test]
fn d1p2_example_test() {
    let _example = EXAMPLE;
}

#[test]
fn calibration_values_of_the_example() {
    let values: Vec<Option<usize>> = EXAMPLE.lines().map(calibration_value).collect();
    assert_eq!(values, vec![Some(12), Some(38), Some(15), Some(77)]);
    assert_eq!(calibration_value("no digit"), None);
    assert_eq!(calibration_value(""), None);
    assert_eq!(calibration_value("one2three"), Some(22));
}

#[test]
fn spelled_calibration_values_of_the_example() {
    let values: Vec<Option<usize>> = SPELLED.lines().map(spelled_calibration_value).collect();
    assert_eq!(
        values,
        vec![Some(29), Some(83), Some(13), Some(24), Some(42), Some(14), Some(76)]
    );
    let sum: usize = values.into_iter().map(|v| v.unwrap()).sum();
    assert_eq!(sum, 281);
    assert_eq!(spelled_calibration_value("xyz"), None);
    assert_eq!(spelled_calibration_value("oneight"), Some(18));
    assert_eq!(spelled_calibration_value("seven"), Some(77));
}

#[test]
fn first_and_last_digit() {
    assert_eq!(find_first_digit("abcone2threexyz"), Some((3, 1)));
    assert_eq!(find_last_digit("abcone2threexyz"), Some((7, 3)));
    assert_eq!(find_first_digit("7pqrstsixteen"), Some((0, 7)));
    assert_eq!(find_last_digit("7pqrstsixteen"), Some((6, 6)));
    assert_eq!(find_first_digit("xnin"), None);
    assert_eq!(find_last_digit(""), None);
    assert_eq!(find_last_digit("nine"), Some((0, 9)));
    assert_eq!(find_first_digit("zero0"), Some((4, 0)));
}

#[test]
fn names_and_clamped_sums() {
    let names: Vec<&str> = (1..=9).map(name_of).collect();
    assert_eq!(
        names,
        vec!["one", "two", "three", "four", "five", "six", "seven", "eight", "nine"]
    );
    assert_eq!(add_up_to(2, 3, 10), 5);
    assert_eq!(add_up_to(2, 3, 4), 4);
    assert_eq!(add_up_to(2, 3, 5), 5);
}
