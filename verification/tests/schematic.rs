use advent2023::engine_parts::{
    checked_gear_ratio_total, gear_ratio_total, gears, number_locations, numbers_with_symbols,
};
use advent2023::schematic::{Number, Point, Schematic};

const EXAMPLE: &str = "\
467..114..
...*......
..35..633.
......#...
617*......
.....+.58.
..592.....
......755.
...$.*....
.664.598..
";

#[test]
fn schematic_numbers() {
    let schematic = Schematic::from("123\n456\n789");
    let numbers = schematic.numbers();
    assert_eq!(schematic.width, 3);
    assert_eq!(schematic.height(), 3);
    assert_eq!(numbers[1].value(), 456);
    assert_eq!(numbers[2].value(), 789);
    assert_eq!(numbers.len(), 3);
}

#[test]
fn example_schematic_numbers() {
    let schematic = Schematic::from(EXAMPLE);
    let raw_numbers = schematic.numbers();
    let numbers: Vec<u32> = raw_numbers.into_iter().map(|n| n.value()).collect();
    assert_eq!(numbers, vec![467, 114, 35, 633, 617, 58, 592, 755, 664, 598]);
}

#[test]
fn example_neighbors() {
    let schematic = Schematic::from(EXAMPLE);
    let neighbors = schematic.neighbors(0, 3);
    assert_eq!(neighbors, vec![3, 10, 11, 12, 13]);
    let neighbors = schematic.neighbors(22, 2);
    assert_eq!(neighbors, vec![
        11, 12, 13, 14,
        21,         24,
        31, 32, 33, 34,
    ]);
}

#[test]
fn d3p1_example_test() {
    let schematic = Schematic::from(EXAMPLE);
    let numbers = numbers_with_symbols(&schematic);
    assert_eq!(numbers, vec![467, 35, 633, 617, 592, 755, 664, 598]);
    assert!(!numbers.contains(&58));
    assert!(!numbers.contains(&114));
}

#[test]
fn d3p2_example_test() {
    let schematic = Schematic::from(EXAMPLE);
    let solution = gear_ratio_total(&schematic);
    assert_eq!(solution, 467835);
}

#[test]
fn points_from_characters() {
    assert_eq!(Point::from_char('7'), Point::Num('7'));
    assert_eq!(Point::from_char('.'), Point::Empty);
    assert_eq!(Point::from_char('*'), Point::Symbol('*'));
    assert_eq!(Point::from_char(' '), Point::Symbol(' '));
    assert_eq!(char::from(Point::Empty), ' ');
    assert_eq!(char::from(Point::Num('3')), '3');
    assert_eq!(char::from(Point::Symbol('#')), '#');
    assert_eq!(Point::Symbol('+').to_char(), '+');
}

#[test]
fn width_is_the_first_line_feed() {
    let schematic = Schematic::parse("12.\n..3\n");
    assert_eq!(schematic.width, 3);
    assert_eq!(schematic.data.len(), 6);
    assert_eq!(schematic.height(), 2);
    let one_line = Schematic::parse("12.");
    assert_eq!(one_line.width, 0);
    assert_eq!(one_line.data.len(), 3);
    let leading = Schematic::parse("\n12\n34\n");
    assert_eq!(leading.width, 3);
    assert_eq!(leading.data, vec![Point::Num('1'), Point::Num('2'), Point::Num('3'), Point::Num('4')]);
}

#[test]
fn offsets_and_coordinates() {
    let schematic = Schematic::from(EXAMPLE);
    assert_eq!(schematic.offset_to_coord(0), (0, 0));
    assert_eq!(schematic.offset_to_coord(13), (3, 1));
    assert_eq!(schematic.offset_to_coord(99), (9, 9));
    assert_eq!(schematic.coord_to_offset((3, 1)), 13);
    assert_eq!(schematic.coord_to_offset((9, 9)), 99);
    assert_eq!(schematic.height(), 10);
}

#[test]
fn number_value_reads_decimal() {
    let n = Number { offset: 4, chars: vec!['0', '4', '2'] };
    assert_eq!(n.len(), 3);
    assert!(!n.is_empty());
    assert_eq!(n.value(), 42);
    let empty = Number { offset: 0, chars: vec![] };
    assert!(empty.is_empty());
    assert_eq!(empty.value(), 0);
    let nine = Number { offset: 0, chars: "999999999".chars().collect() };
    assert_eq!(nine.value(), 999_999_999);
}

#[test]
fn numbers_end_with_the_row() {
    let schematic = Schematic::from("12\n34\n");
    let numbers = schematic.numbers();
    assert_eq!(numbers.len(), 2);
    assert_eq!(numbers[0], Number { offset: 0, chars: vec!['1', '2'] });
    assert_eq!(numbers[1], Number { offset: 2, chars: vec!['3', '4'] });
    let spaced = Schematic::from("1.23\n4..5\n");
    let offsets: Vec<usize> = spaced.numbers().iter().map(|n| n.offset).collect();
    assert_eq!(offsets, vec![0, 2, 4, 7]);
}

#[test]
fn neighbors_at_the_corners() {
    let schematic = Schematic::from("....\n....\n....\n");
    assert_eq!(schematic.neighbors(0, 1), vec![1, 4, 5]);
    assert_eq!(schematic.neighbors(11, 1), vec![6, 7, 10]);
    assert_eq!(schematic.neighbors(5, 1), vec![0, 1, 2, 4, 6, 8, 9, 10]);
    assert_eq!(schematic.neighbors(4, 4), vec![0, 1, 2, 3, 8, 9, 10, 11]);
    assert_eq!(schematic.neighbors(5, 0), vec![0, 1, 4, 5, 8, 9]);
    assert_eq!(schematic.neighbors(40, 1), Vec::<usize>::new());
}

#[test]
fn gears_and_locations() {
    let schematic = Schematic::from(EXAMPLE);
    assert_eq!(gears(&schematic), vec![13, 43, 85]);
    let numbers = schematic.numbers();
    let cover = number_locations(&schematic, &numbers);
    assert_eq!(cover.len(), 28);
    let at = |k: usize| cover.get(&k).copied();
    assert_eq!([at(0), at(1), at(2), at(3)], [Some(0), Some(0), Some(0), None]);
    assert_eq!([at(5), at(6), at(7)], [Some(1), Some(1), Some(1)]);
    assert_eq!(at(22), Some(2));
    assert_eq!(at(99), None);
    assert_eq!(at(100), None);
}

#[test]
fn a_gear_needs_exactly_two_numbers() {
    assert_eq!(gear_ratio_total(&Schematic::from("2*3\n...\n")), 6);
    assert_eq!(gear_ratio_total(&Schematic::from("2*.\n...\n")), 0);
    assert_eq!(gear_ratio_total(&Schematic::from("2*3\n.4.\n")), 0);
    assert_eq!(gear_ratio_total(&Schematic::from("2.3\n.*.\n5.7\n")), 0);
    assert_eq!(gear_ratio_total(&Schematic::from("222\n.*.\n...\n")), 0);
    assert_eq!(gear_ratio_total(&Schematic::from("2#3\n...\n")), 0);
    assert_eq!(gear_ratio_total(&Schematic::from("10*10.\n......\n3*4...\n")), 112);
}

#[test]
fn gear_total_with_a_limit() {
    assert_eq!(checked_gear_ratio_total(&Schematic::from(EXAMPLE)), Some(467835));
    assert_eq!(checked_gear_ratio_total(&Schematic::from("...\n...\n")), Some(0));
    assert_eq!(checked_gear_ratio_total(&Schematic::from("65536*65535\n...........\n")), Some(4294901760));
    assert_eq!(checked_gear_ratio_total(&Schematic::from("65536*65536\n...........\n")), None);
    assert_eq!(
        checked_gear_ratio_total(&Schematic::from("65536*65535\n...........\n256*256....\n")),
        None
    );
}

#[test]
fn readable_schematics() {
    assert!(Schematic::from(EXAMPLE).is_readable());
    assert!(Schematic::from("123456789\n").is_readable());
    assert!(!Schematic::from("1234567890\n").is_readable());
    assert!(!Schematic::from("").is_readable());
    let mut odd = Schematic::from("12.\n");
    odd.data[1] = Point::Num('x');
    assert!(!odd.is_readable());
}
