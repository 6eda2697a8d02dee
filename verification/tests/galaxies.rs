use std::str::FromStr;

use advent2023::galaxies::{
    checked_distance, checked_solve, checked_sum_of_distances, distance,
    solve, sum_of_distances, GalaxyError, GalaxyMap,
};

const EXAMPLE: &str = "\
...#......
.......#..
#.........
..........
......#...
.#........
.........#
..........
.......#..
#...#.....
";

#[test]
fn d11p2_example_test() {
    let example: GalaxyMap = EXAMPLE.parse().unwrap();
    assert_eq!(solve(example.clone(), 10), 1030);
    assert_eq!(solve(example, 100), 8410);
}

#[test]
fn test_expansion() {
    let example: GalaxyMap = EXAMPLE.parse().unwrap();
    let expected: GalaxyMap = "\
....#........
.........#...
#............
.............
.............
........#....
.#...........
............#
.............
.............
.........#...
#....#.......
"
    .parse()
    .unwrap();
    let mut expanded = example.clone();
    expanded.expand(2);
    assert_eq!(expanded.width, expected.width);
    assert_eq!(expanded.height, expected.height);
    assert_eq!(expanded.iter_locations(), expected.iter_locations());
}

#[test]
fn distances_of_the_example() {
    let example: GalaxyMap = EXAMPLE.parse().unwrap();
    assert_eq!(solve(example.clone(), 2), 374);
    assert_eq!(solve(example, 1), 292);
}

#[test]
fn galaxies_by_number_and_by_coordinate() {
    let map = GalaxyMap::from_str("\n  \n.#.\n#.#\n\n").unwrap();
    assert_eq!(map.width, 3);
    assert_eq!(map.height, 2);
    assert_eq!(map.get_width(), 3);
    assert_eq!(map.get_height(), 2);
    assert_eq!(map.iter_locations(), &vec![(1, 0), (0, 1), (2, 1)]);
    assert_eq!(map.get_by_id(0), Some((1, 0)));
    assert_eq!(map.get_by_id(2), Some((2, 1)));
    assert_eq!(map.get_by_id(3), None);
    assert_eq!(map.get_by_coord(1, 0), Some(0));
    assert_eq!(map.get_by_coord(2, 1), Some(2));
    assert_eq!(map.get_by_coord(1, 1), None);
    assert_eq!(map.row(0), vec![None, Some(0), None]);
    assert_eq!(map.row(1), vec![Some(1), None, Some(2)]);
    assert_eq!(map.col(0), vec![None, Some(1)]);
    assert_eq!(map.col(2), vec![None, Some(2)]);
}

#[test]
fn width_counts_bytes() {
    let map = GalaxyMap::parse("#é\n#..\n");
    assert_eq!(map.width, 3);
    let wide = GalaxyMap::parse("é.#é\n#\n");
    assert_eq!(wide.width, 6);
    assert_eq!(wide.iter_locations(), &vec![(2, 0), (0, 1)]);
    let empty = GalaxyMap::parse("   ");
    assert_eq!((empty.width, empty.height), (0, 0));
}

#[test]
fn moving_a_galaxy() {
    let mut map = GalaxyMap::parse(".#.\n#.#\n");
    assert_eq!(map.set(0, 2, 0), Ok(()));
    assert_eq!(map.get_by_id(0), Some((2, 0)));
    assert_eq!(map.get_by_coord(1, 0), None);
    assert_eq!(map.get_by_coord(2, 0), Some(0));
    assert_eq!(map.set(3, 0, 0), Err(GalaxyError::InvalidLocationId));
    // a second galaxy moved onto the first takes its place in the index,
    // and moving it away again leaves the place empty
    assert_eq!(map.set(1, 2, 0), Ok(()));
    assert_eq!(map.get_by_coord(2, 0), Some(1));
    assert_eq!(map.set(1, 0, 0), Ok(()));
    assert_eq!(map.get_by_coord(2, 0), None);
    assert_eq!(map.get_by_id(0), Some((2, 0)));
}

#[test]
fn expansion_multiplies_the_empty_lines() {
    let mut map = GalaxyMap::parse("#..#\n....\n....\n#...\n");
    map.expand(5);
    assert_eq!(map.iter_locations(), &vec![(0, 0), (11, 0), (0, 11)]);
    assert_eq!((map.width, map.height), (12, 12));
    assert_eq!(map.get_by_coord(11, 0), Some(1));
    assert_eq!(map.get_by_coord(3, 0), None);
    let mut same = GalaxyMap::parse("#..#\n....\n#...\n");
    same.expand(1);
    assert_eq!(same.iter_locations(), &vec![(0, 0), (3, 0), (0, 2)]);
    assert_eq!((same.width, same.height), (4, 3));
    let mut gone = GalaxyMap::parse("#..#\n....\n#...\n");
    gone.expand(0);
    assert_eq!(gone.iter_locations(), &vec![(0, 0), (1, 0), (0, 1)]);
    assert_eq!((gone.width, gone.height), (2, 2));
}

#[test]
fn distance_along_rows_and_columns() {
    assert_eq!(distance((1, 6), (5, 11)), 9);
    assert_eq!(distance((5, 11), (1, 6)), 9);
    assert_eq!(distance((4, 0), (9, 10)), 15);
    assert_eq!(distance((3, 3), (3, 3)), 0);
    assert_eq!(distance((0, 0), (usize::MAX, 0)), usize::MAX);
}

#[test]
fn pairs_are_taken_once() {
    let map = GalaxyMap::parse("#.#\n...\n#..\n");
    // (0,0)-(2,0): 2, (0,0)-(0,2): 2, (2,0)-(0,2): 4
    assert_eq!(solve(map, 1), 8);
    assert_eq!(sum_of_distances(&vec![vec![(0, 0), (2, 3)], vec![(1, 1), (0, 0)]]), 7);
    assert_eq!(sum_of_distances(&vec![]), 0);
    assert_eq!(solve(GalaxyMap::parse("#"), 7), 0);
    assert_eq!(solve(GalaxyMap::parse("."), 7), 0);
}

#[test]
fn solving_with_a_limit() {
    let example: GalaxyMap = EXAMPLE.parse().unwrap();
    assert!(example.can_expand(1_000_000));
    assert_eq!(checked_solve(example.clone(), 10), Some(1030));
    assert_eq!(checked_solve(example.clone(), 100), Some(8410));
    assert!(!example.can_expand(usize::MAX));
    assert_eq!(checked_solve(example, usize::MAX), None);
    let mut moved = GalaxyMap::parse("#.#\n");
    moved.set(0, 0, 5).unwrap();
    // a galaxy below the last row: more rows hold galaxies than the image has
    assert!(!moved.can_expand(2));
    assert_eq!(checked_distance((0, 0), (usize::MAX, 0)), Some(usize::MAX));
    assert_eq!(checked_distance((0, 1), (usize::MAX, 0)), None);
    assert_eq!(checked_sum_of_distances(&vec![vec![(0, 0), (2, 3)], vec![(1, 1), (0, 0)]]), Some(7));
    assert_eq!(
        checked_sum_of_distances(&vec![vec![(0, 0), (usize::MAX, 0)], vec![(1, 1), (0, 1)]]),
        None
    );
}
