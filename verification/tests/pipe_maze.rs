use std::collections::HashSet;
use std::str::FromStr;

use advent2023::pipe_grid::{Grid, PipeError, Point};
use advent2023::pipe_enclosure::{edges, flood_outside, solve as count_inside};
use advent2023::pipe_route::{has_opening, step, Direction};
use advent2023::pipe_trace::{solve as farthest, MAX_STEPS};

const SQUARE: &str = "\
.....
.S-7.
.|.|.
.L-J.
.....
";

const WINDING: &str = "\
..F7.
.FJ|.
SJ.L7
|F--J
LJ...
";

const DECOYS: &str = "\
-L|F7
7S-7|
L|7||
-L-J|
L|-JF
";

const WIDE_GAP: &str = "\
...........
.S-------7.
.|F-----7|.
.||.....||.
.||.....||.
.|L-7.F-J|.
.|..|.|..|.
.L--J.L--J.
...........
";

const SQUEEZE: &str = "\
..........
.S------7.
.|F----7|.
.||....||.
.||....||.
.|L-7F-J|.
.|..||..|.
.L--JL--J.
..........
";

const LARGER: &str = "\
.F----7F7F7F7F-7....
.|F--7||||||||FJ....
.||.FJ||||||||L7....
FJL7L7LJLJ||LJ.L-7..
L--J.L7...LJS7F-7L7.
....F-J..F7FJ|L7L7L7
....L7.F7||L7|.L7L7|
.....|FJLJ|FJ|F7|.LJ
....FJL-7.||.||||...
....L---J.LJ.LJLJ...
";

const DEBRIS: &str = "\
FF7FSF7F7F7F7F7F---7
L|LJ||||||||||||F--J
FL-7LJLJ||||||LJL-77
F--JF--7||LJLJ7F7FJ-
L---JF-JLJ.||-FJLJJ7
|F|F-JF---7F7-L7L|7|
|FFJF7L7F-JF7|JL---7
7-L-JL7||F7|L7F-7F7|
L.L7LFJ|||||FJL7||LJ
L7JLJL-JLJLJL--JLJ.L
";

fn pt(x: usize, y: usize) -> Point {
    Point { x, y }
}

#[test]
fn test_example() {
    let grid = Grid::from_str(WINDING).unwrap();
    let steps = grid.count_steps_to_farthest_point(MAX_STEPS).unwrap();
    assert_eq!(steps, 8);
}

#[test]
fn test_example2() {
    let grid = Grid::from_str(SQUARE).unwrap();
    let steps = grid.count_steps_to_farthest_point(MAX_STEPS).unwrap();
    assert_eq!(steps, 4);
}

#[test]
fn test_path() {
    let maze = "\
        -L|F7
        7S-7|
        L|7||
        -L-J|
        L|-JF
    ";
    let grid = Grid::from_str(maze).unwrap();
    let path: Vec<_> = grid.path(grid.start).unwrap().into_iter().zip(0..100).collect();
    assert_eq!(path.len(), 8);
}

#[test]
fn test_expanded_path() {
    let maze = "\
        -L|F7
        7S-7|
        L|7||
        -L-J|
        L|-JF
    ";
    let grid = Grid::from_str(maze).unwrap();
    println!("grid\n{}", grid.to_text());
    let path: Vec<_> = grid.path(grid.start).unwrap();
    let expanded = grid.expand(&path);
    println!("expanded\n{}", expanded.to_text());
    let expanded_path: Vec<_> = expanded.path(expanded.start).unwrap();
    assert_eq!(path.len() * 3, expanded_path.len());
}

#[test]
fn routing_table_is_exhaustive() {
    let table = [
        ('|', Direction::N, Some(Direction::S)),
        ('|', Direction::S, Some(Direction::N)),
        ('|', Direction::E, None),
        ('|', Direction::W, None),
        ('-', Direction::E, Some(Direction::W)),
        ('-', Direction::W, Some(Direction::E)),
        ('-', Direction::N, None),
        ('-', Direction::S, None),
        ('L', Direction::N, Some(Direction::E)),
        ('L', Direction::E, Some(Direction::N)),
        ('L', Direction::S, None),
        ('L', Direction::W, None),
        ('J', Direction::N, Some(Direction::W)),
        ('J', Direction::W, Some(Direction::N)),
        ('J', Direction::S, None),
        ('J', Direction::E, None),
        ('7', Direction::S, Some(Direction::W)),
        ('7', Direction::W, Some(Direction::S)),
        ('7', Direction::N, None),
        ('7', Direction::E, None),
        ('F', Direction::S, Some(Direction::E)),
        ('F', Direction::E, Some(Direction::S)),
        ('F', Direction::N, None),
        ('F', Direction::W, None),
    ];
    for (symbol, incoming, expected) in table {
        assert_eq!(step(incoming, symbol), expected);
    }
    for d in [Direction::N, Direction::S, Direction::E, Direction::W] {
        assert_eq!(step(d, '.'), None);
        assert_eq!(step(d, 'S'), None);
        assert!(!has_opening('.', d));
        assert_eq!(d.opposite().opposite(), d);
    }
    assert!(has_opening('F', Direction::S) && has_opening('F', Direction::E));
    assert!(!has_opening('F', Direction::N) && !has_opening('F', Direction::W));
}

#[test]
fn grid_access_is_bounds_checked() {
    let grid = Grid::from_str(SQUARE).unwrap();
    assert_eq!(grid.width(), 5);
    assert_eq!(grid.height(), 5);
    assert_eq!(grid.size(), 25);
    assert_eq!(grid.start, pt(1, 1));
    assert_eq!(grid.start_point(), pt(1, 1));
    assert_eq!(grid.get(1, 1), Some('S'));
    assert_eq!(grid.get(3, 1), Some('7'));
    assert_eq!(grid.get(5, 0), None);
    assert_eq!(grid.get(0, 5), None);
    assert_eq!(grid.rel_pt(pt(0, 0), Direction::N), None);
    assert_eq!(grid.rel_pt(pt(0, 0), Direction::W), None);
    assert_eq!(grid.rel_pt(pt(4, 4), Direction::S), None);
    assert_eq!(grid.rel_pt(pt(4, 4), Direction::E), None);
    assert_eq!(grid.rel_pt(pt(2, 2), Direction::N), Some(pt(2, 1)));
    assert_eq!(grid.rel_pt(pt(2, 2), Direction::S), Some(pt(2, 3)));
    assert_eq!(grid.rel_pt(pt(2, 2), Direction::E), Some(pt(3, 2)));
    assert_eq!(grid.rel_pt(pt(2, 2), Direction::W), Some(pt(1, 2)));
    assert_eq!(grid.rel_pt(pt(usize::MAX, usize::MAX), Direction::S), None);
    assert_eq!(grid.rel_direction(pt(2, 2), pt(2, 1)), Some(Direction::N));
    assert_eq!(grid.rel_direction(pt(2, 2), pt(2, 3)), Some(Direction::S));
    assert_eq!(grid.rel_direction(pt(2, 2), pt(3, 2)), Some(Direction::E));
    assert_eq!(grid.rel_direction(pt(2, 2), pt(1, 2)), Some(Direction::W));
    assert_eq!(grid.rel_direction(pt(2, 2), pt(2, 2)), None);
    assert_eq!(grid.rel_direction(pt(2, 2), pt(3, 3)), None);
    assert_eq!(grid.rel_direction(pt(2, 2), pt(4, 2)), None);
    assert_eq!(Point::from((3, 4)), pt(3, 4));
}

#[test]
fn get_mut_changes_one_cell() {
    let mut grid = Grid::from_str(SQUARE).unwrap();
    *grid.get_mut(2, 2).unwrap() = 'I';
    assert_eq!(grid.get(2, 2), Some('I'));
    assert_eq!(grid.get(1, 2), Some('|'));
    assert!(grid.get_mut(9, 9).is_none());
    assert_eq!(grid.to_text(), ".....\n.S-7.\n.|I|.\n.L-J.\n.....");
}

#[test]
fn grid_construction_errors() {
    assert_eq!(Grid::from_str("").err(), Some(PipeError::EmptyGrid));
    assert_eq!(Grid::from_str("  \n\n \t \n").err(), Some(PipeError::EmptyGrid));
    assert_eq!(Grid::from_str("S-7\n|.\nL-J\n").err(), Some(PipeError::RaggedRows));
    assert_eq!(Grid::new(Vec::new()).err(), Some(PipeError::EmptyGrid));
    assert_eq!(Grid::new(vec![Vec::new()]).err(), Some(PipeError::EmptyGrid));
    assert_eq!(Grid::new(vec![vec!['S', '-'], vec!['.']]).err(), Some(PipeError::RaggedRows));
    let grid = Grid::new(vec![vec!['.', '.'], vec!['.', 'S']]).unwrap();
    assert_eq!(grid.start, pt(1, 1));
    let none = Grid::new(vec![vec!['.', '.']]).unwrap();
    assert_eq!(none.start, pt(0, 0));
    let twice = Grid::new(vec![vec!['S', '.'], vec!['S', '.']]).unwrap();
    assert_eq!(twice.start, pt(0, 1));
}

#[test]
fn parse_skips_blank_lines_and_trims() {
    let grid = Grid::parse("\n   S7  \r\n\n\tLJ\n\n").unwrap();
    assert_eq!(grid.width(), 2);
    assert_eq!(grid.height(), 2);
    assert_eq!(grid.start, pt(0, 0));
    assert_eq!(grid.to_text(), "S7\nLJ");
}

#[test]
fn iter_lists_cells_after_the_origin() {
    let grid = Grid::from_str("S7.\nLJ.\n").unwrap();
    assert_eq!(grid.iter(), vec![pt(1, 0), pt(2, 0), pt(0, 1), pt(1, 1), pt(2, 1)]);
    let single = Grid::from_str("S").unwrap();
    assert_eq!(single.iter(), Vec::<Point>::new());
}

#[test]
fn pretty_printing_draws_lines() {
    let grid = Grid::from_str("F-7\n|S|\nL-J\n").unwrap();
    assert_eq!(grid.pp(), "┌─┐\n│S│\n└─┘");
    assert_eq!(grid.to_text(), "F-7\n|S|\nL-J");
}

#[test]
fn start_points_in_compass_order() {
    let grid = Grid::from_str(SQUARE).unwrap();
    assert_eq!(grid.start_points(grid.start), Ok(vec![pt(1, 2), pt(2, 1)]));
    assert_eq!(grid.resolve_start(), Ok((pt(1, 2), pt(2, 1))));
    let winding = Grid::from_str(WINDING).unwrap();
    assert_eq!(winding.start_points(winding.start), Ok(vec![pt(0, 3), pt(1, 2)]));
    let corner = Grid::from_str("S-7\n|.|\nL-J\n").unwrap();
    assert_eq!(corner.start_points(corner.start), Ok(vec![pt(0, 1), pt(1, 0)]));
    assert_eq!(corner.start_points(pt(2, 2)), Ok(vec![pt(2, 1), pt(1, 2)]));
    assert_eq!(corner.start_points(pt(1, 1)), Err(PipeError::MalformedStart));
}

#[test]
fn malformed_start_is_reported() {
    let three = Grid::from_str(".|.\n-S-\n...\n").unwrap();
    assert_eq!(three.start_points(three.start), Err(PipeError::MalformedStart));
    assert_eq!(three.path(three.start), Err(PipeError::MalformedStart));
    assert_eq!(three.resolve_start(), Err(PipeError::MalformedStart));
    assert_eq!(three.trace_loop(MAX_STEPS), Err(PipeError::MalformedStart));
    assert_eq!(three.count_steps_to_farthest_point(MAX_STEPS), Err(PipeError::MalformedStart));
    assert_eq!(three.count_enclosed_by_loop(MAX_STEPS), Err(PipeError::MalformedStart));
    let four = Grid::from_str(".|.\n-S-\n.|.\n").unwrap();
    assert_eq!(four.start_points(four.start), Err(PipeError::MalformedStart));
    assert_eq!(four.path(four.start), Err(PipeError::MalformedStart));
    assert_eq!(four.trace_loop(MAX_STEPS), Err(PipeError::MalformedStart));
    let one = Grid::from_str("...\n.S-\n...\n").unwrap();
    assert_eq!(one.trace_loop(MAX_STEPS), Err(PipeError::MalformedStart));
    let none = Grid::from_str("...\n.S.\n...\n").unwrap();
    assert_eq!(none.trace_loop(MAX_STEPS), Err(PipeError::MalformedStart));
    assert_eq!(none.start_points(none.start), Err(PipeError::MalformedStart));
    assert_eq!(none.path(none.start), Err(PipeError::MalformedStart));
    assert_eq!(one.start_points(one.start), Err(PipeError::MalformedStart));
    assert_eq!(one.path(one.start), Err(PipeError::MalformedStart));
}

#[test]
fn broken_connection_is_reported() {
    let dead_end = Grid::from_str("S--\n|..\nL-.\n").unwrap();
    assert_eq!(dead_end.trace_loop(MAX_STEPS), Err(PipeError::BrokenConnection));
    let leaves = Grid::from_str("S-7\n|.|\n|.|\n").unwrap();
    assert_eq!(leaves.trace_loop(MAX_STEPS), Err(PipeError::BrokenConnection));
    let misfit = Grid::from_str("S-7\n|.|\nL-|\n").unwrap();
    assert_eq!(misfit.trace_loop(MAX_STEPS), Err(PipeError::BrokenConnection));
    assert_eq!(misfit.count_enclosed_by_loop(MAX_STEPS), Err(PipeError::BrokenConnection));
}

#[test]
fn trace_overrun_is_reported() {
    let grid = Grid::from_str(SQUARE).unwrap();
    assert_eq!(grid.trace_loop(0), Err(PipeError::TraceOverrun));
    assert_eq!(grid.trace_loop(6), Err(PipeError::TraceOverrun));
    assert_eq!(grid.trace_loop(7).map(|p| p.len()), Ok(8));
    assert_eq!(grid.count_steps_to_farthest_point(6), Err(PipeError::TraceOverrun));
}

#[test]
fn get_next_follows_the_pipes() {
    let grid = Grid::from_str(SQUARE).unwrap();
    assert_eq!(grid.get_next(pt(1, 1), pt(2, 1)), Some(pt(3, 1)));
    assert_eq!(grid.get_next(pt(2, 1), pt(3, 1)), Some(pt(3, 2)));
    assert_eq!(grid.get_next(pt(3, 1), pt(2, 1)), Some(pt(1, 1)));
    assert_eq!(grid.get_next(pt(2, 0), pt(2, 1)), None);
    assert_eq!(grid.get_next(pt(2, 1), pt(2, 2)), None);
    assert_eq!(grid.get_next(pt(0, 0), pt(3, 3)), None);
    let edge = Grid::from_str("L-\n..\n").unwrap();
    assert_eq!(edge.get_next(pt(1, 0), pt(0, 0)), None);
}

#[test]
fn trace_loop_lists_the_loop_in_order() {
    let grid = Grid::from_str(SQUARE).unwrap();
    let path = grid.trace_loop(MAX_STEPS).unwrap();
    assert_eq!(
        path,
        vec![pt(1, 1), pt(1, 2), pt(1, 3), pt(2, 3), pt(3, 3), pt(3, 2), pt(3, 1), pt(2, 1)]
    );
    assert_eq!(grid.path(grid.start), Ok(path));
}

#[test]
fn path_fails_where_the_pipes_end() {
    let dead_end = Grid::from_str("S--\n|..\nL-.\n").unwrap();
    assert_eq!(dead_end.path(dead_end.start), Err(PipeError::BrokenConnection));
    let leaves = Grid::from_str("-S-").unwrap();
    assert_eq!(leaves.start_points(leaves.start), Ok(vec![pt(2, 0), pt(0, 0)]));
    assert_eq!(leaves.path(leaves.start), Err(PipeError::BrokenConnection));
    assert_eq!(leaves.trace_loop(MAX_STEPS), Err(PipeError::BrokenConnection));
}

fn distinct(path: &[Point]) -> usize {
    let mut seen: Vec<Point> = Vec::new();
    for p in path {
        if !seen.contains(p) {
            seen.push(*p);
        }
    }
    seen.len()
}

#[test]
fn traced_loop_has_no_repeats_and_reverses() {
    for maze in [SQUARE, WINDING, DECOYS, WIDE_GAP, SQUEEZE, LARGER, DEBRIS] {
        let grid = Grid::from_str(maze).unwrap();
        let (first, other) = grid.resolve_start().unwrap();
        let forward = grid.trace_from(first, MAX_STEPS).unwrap();
        let backward = grid.trace_from(other, MAX_STEPS).unwrap();
        assert_eq!(forward.len(), distinct(&forward));
        assert_eq!(forward, grid.trace_loop(MAX_STEPS).unwrap());
        let mut turned = vec![forward[0]];
        turned.extend(forward[1..].iter().rev());
        assert_eq!(backward, turned);
        assert_eq!(grid.count_enclosed(&forward), grid.count_enclosed(&backward));
    }
}

#[test]
fn farthest_point_is_half_the_loop() {
    for maze in [SQUARE, WINDING, DECOYS, WIDE_GAP, SQUEEZE, LARGER, DEBRIS] {
        let grid = Grid::from_str(maze).unwrap();
        let length = grid.trace_loop(MAX_STEPS).unwrap().len();
        assert_eq!(grid.count_steps_to_farthest_point(MAX_STEPS), Ok((length + 1) / 2));
    }
}

#[test]
fn expand_draws_blocks() {
    let grid = Grid::from_str("S7\nLJ\n").unwrap();
    let path = grid.trace_loop(MAX_STEPS).unwrap();
    let big = grid.expand(&path);
    assert_eq!(big.width(), 6);
    assert_eq!(big.height(), 6);
    assert_eq!(big.start, pt(1, 1));
    assert_eq!(big.to_text(), "......\n.S--7.\n.|..|.\n.|..|.\n.L--J.\n......");
    let nothing = grid.expand(&Vec::new());
    assert_eq!(nothing.to_text(), "......\n......\n......\n......\n......\n......");
}

#[test]
fn expand_ignores_decoys() {
    let grid = Grid::from_str(DECOYS).unwrap();
    let path = grid.trace_loop(MAX_STEPS).unwrap();
    let plain = Grid::from_str(SQUARE).unwrap();
    let plain_path = plain.trace_loop(MAX_STEPS).unwrap();
    assert_eq!(path, plain_path);
    assert_eq!(grid.expand(&path).to_text(), plain.expand(&plain_path).to_text());
    let (big, drawn) = grid.expand_with_loop(&path);
    for y in 0..big.height() {
        for x in 0..big.width() {
            assert_eq!(drawn.contains(&(y * big.width() + x)), big.get(x, y) != Some('.'));
        }
    }
    assert_eq!(drawn.len(), 8 * 3);
}

#[test]
fn loop_set_numbers_the_loop_cells() {
    let grid = Grid::from_str("S7.\nLJ.\n").unwrap();
    let path = grid.trace_loop(MAX_STEPS).unwrap();
    assert_eq!(grid.loop_set(&path), HashSet::from([0, 1, 3, 4]));
    assert_eq!(grid.loop_set(&vec![pt(2, 1), pt(7, 7), pt(2, 1), pt(3, 0)]), HashSet::from([5]));
    assert_eq!(grid.loop_set(&vec![]), HashSet::new());
}

#[test]
fn flood_marks_what_the_border_reaches() {
    // a ring of blocked positions in a grid of five by five
    let ring: HashSet<usize> = HashSet::from([6, 7, 8, 11, 13, 16, 17, 18]);
    let outside = flood_outside(&ring, 5, 5);
    for y in 0..5 {
        for x in 0..5 {
            let within = (1..4).contains(&x) && (1..4).contains(&y);
            assert_eq!(outside.contains(&(y * 5 + x)), !within);
        }
    }
    // four by four, blocked but for a way in from the last row
    let open: HashSet<usize> = HashSet::from([0, 1, 2, 3, 4, 7, 8, 9, 11, 12, 13, 15]);
    assert_eq!(flood_outside(&open, 4, 4), HashSet::from([5, 6, 10, 14]));
    assert_eq!(flood_outside(&HashSet::new(), 2, 3), HashSet::from([0, 1, 2, 3, 4, 5]));
    assert_eq!(flood_outside(&HashSet::from([0]), 1, 1), HashSet::new());
}

#[test]
fn scenario_minimal_loop() {
    let flat = Grid::from_str(".....\n.S--7\n.L--J\n.....\n.....\n").unwrap();
    assert_eq!((flat.width(), flat.height()), (5, 5));
    assert_eq!(flat.trace_loop(MAX_STEPS).unwrap().len(), 8);
    assert_eq!(flat.count_steps_to_farthest_point(MAX_STEPS), Ok(4));
    assert_eq!(flat.count_enclosed_by_loop(MAX_STEPS), Ok(0));
    let grid = Grid::from_str(SQUARE).unwrap();
    assert_eq!(grid.trace_loop(MAX_STEPS).unwrap().len(), 8);
    assert_eq!(grid.count_steps_to_farthest_point(MAX_STEPS), Ok(4));
    assert_eq!(grid.count_enclosed_by_loop(MAX_STEPS), Ok(1));
    let two_by_two = Grid::from_str(".....\n.S7..\n.LJ..\n.....\n.....\n").unwrap();
    assert_eq!(two_by_two.count_steps_to_farthest_point(MAX_STEPS), Ok(2));
    assert_eq!(two_by_two.count_enclosed_by_loop(MAX_STEPS), Ok(0));
    let tight = Grid::from_str(".....\n.S-7.\n.L-J.\n.....\n.....\n").unwrap();
    assert_eq!(tight.count_steps_to_farthest_point(MAX_STEPS), Ok(3));
    assert_eq!(tight.count_enclosed_by_loop(MAX_STEPS), Ok(0));
}

#[test]
fn scenario_squeeze() {
    let grid = Grid::from_str(SQUEEZE).unwrap();
    assert_eq!(grid.count_enclosed_by_loop(MAX_STEPS), Ok(4));
    let wide = Grid::from_str(WIDE_GAP).unwrap();
    assert_eq!(wide.count_enclosed_by_loop(MAX_STEPS), Ok(4));
}

#[test]
fn scenario_decoys() {
    let with_decoys = Grid::from_str(DECOYS).unwrap();
    let without = Grid::from_str(SQUARE).unwrap();
    assert_eq!(
        with_decoys.count_enclosed_by_loop(MAX_STEPS),
        without.count_enclosed_by_loop(MAX_STEPS)
    );
    assert_eq!(with_decoys.count_enclosed_by_loop(MAX_STEPS), Ok(1));
    let debris = Grid::from_str(DEBRIS).unwrap();
    let path = debris.trace_loop(MAX_STEPS).unwrap();
    let mut rows: Vec<Vec<char>> = Vec::new();
    for y in 0..debris.height() {
        let mut row = Vec::new();
        for x in 0..debris.width() {
            if path.contains(&pt(x, y)) {
                row.push(debris.get(x, y).unwrap());
            } else {
                row.push('.');
            }
        }
        rows.push(row);
    }
    let cleaned = Grid::new(rows).unwrap();
    assert_eq!(cleaned.count_enclosed_by_loop(MAX_STEPS), debris.count_enclosed_by_loop(MAX_STEPS));
}

#[test]
fn enclosed_counts_of_the_larger_mazes() {
    let larger = Grid::from_str(LARGER).unwrap();
    assert_eq!(larger.count_enclosed_by_loop(MAX_STEPS), Ok(8));
    let debris = Grid::from_str(DEBRIS).unwrap();
    assert_eq!(debris.count_enclosed_by_loop(MAX_STEPS), Ok(10));
}

fn brute_force_enclosed(grid: &Grid, path: &[Point]) -> usize {
    // A cell is inside when a ray to the west crosses the loop an odd number
    // of times; a crossing is a loop cell with an edge to the north.
    let start = grid.start;
    let mut count = 0;
    for y in 0..grid.height() {
        for x in 0..grid.width() {
            if path.contains(&pt(x, y)) {
                continue;
            }
            let mut crossings = 0;
            for k in 0..x {
                let p = pt(k, y);
                if !path.contains(&p) {
                    continue;
                }
                let north = if p == start {
                    y > 0 && path.contains(&pt(k, y - 1))
                        && has_opening(grid.get(k, y - 1).unwrap(), Direction::S)
                } else {
                    has_opening(grid.get(k, y).unwrap(), Direction::N)
                };
                if north {
                    crossings += 1;
                }
            }
            if crossings % 2 == 1 {
                count += 1;
            }
        }
    }
    count
}

#[test]
fn expansion_agrees_with_ray_casting() {
    for maze in [SQUARE, WINDING, DECOYS, WIDE_GAP, SQUEEZE, LARGER, DEBRIS] {
        let grid = Grid::from_str(maze).unwrap();
        let path = grid.trace_loop(MAX_STEPS).unwrap();
        assert_eq!(grid.count_enclosed(&path), brute_force_enclosed(&grid, &path));
    }
}

#[test]
fn solving_both_questions() {
    let expected = [
        (SQUARE, 4, 1),
        (DECOYS, 4, 1),
        (WIDE_GAP, 23, 4),
        (SQUEEZE, 22, 4),
        (LARGER, 70, 8),
        (DEBRIS, 80, 10),
    ];
    for (maze, steps, inside) in expected {
        let grid = Grid::from_str(maze).unwrap();
        assert_eq!(farthest(&grid), Ok(steps));
        assert_eq!(count_inside(&grid), Ok(inside));
    }
    // a loop of odd length cannot close on a grid; one of length 12 and one
    // of length 4 give the halves
    let ring = Grid::from_str("S--7\n|..|\n|..|\nL--J\n").unwrap();
    assert_eq!(farthest(&ring), Ok(6));
    assert_eq!(count_inside(&ring), Ok(4));
    let lost = Grid::from_str("S-.\n...\n").unwrap();
    assert_eq!(farthest(&lost), Err(PipeError::MalformedStart));
    assert_eq!(count_inside(&lost), Err(PipeError::MalformedStart));
    let open = Grid::from_str("S-7\n|..\n").unwrap();
    assert_eq!(farthest(&open), Err(PipeError::BrokenConnection));
    assert_eq!(count_inside(&open), Err(PipeError::BrokenConnection));
}

#[test]
fn edges_list_the_border() {
    assert_eq!(
        edges(3, 2),
        vec![
            pt(0, 0),
            pt(0, 1),
            pt(1, 0),
            pt(1, 1),
            pt(2, 0),
            pt(2, 1),
            pt(0, 0),
            pt(2, 0),
            pt(0, 1),
            pt(2, 1),
        ]
    );
    assert_eq!(edges(1, 1), vec![pt(0, 0); 4]);
    let border = edges(4, 5);
    assert_eq!(border.len(), 18);
    for y in 0..5 {
        for x in 0..4 {
            let on_edge = x == 0 || y == 0 || x == 3 || y == 4;
            assert_eq!(border.contains(&pt(x, y)), on_edge);
        }
    }
}

#[test]
fn blocks_off_the_loop_flood_as_one() {
    for maze in [SQUARE, WINDING, DECOYS, WIDE_GAP, SQUEEZE, LARGER, DEBRIS] {
        let grid = Grid::from_str(maze).unwrap();
        let path = grid.trace_loop(MAX_STEPS).unwrap();
        let (_, blocked) = grid.expand_with_loop(&path);
        let outside = flood_outside(&blocked, 3 * grid.width(), 3 * grid.height());
        let mut enclosed = 0;
        for y in 0..grid.height() {
            for x in 0..grid.width() {
                if path.contains(&pt(x, y)) {
                    continue;
                }
                let number = |ex: usize, ey: usize| ey * 3 * grid.width() + ex;
                let centre = outside.contains(&number(3 * x + 1, 3 * y + 1));
                for dy in 0..3 {
                    for dx in 0..3 {
                        assert!(!blocked.contains(&number(3 * x + dx, 3 * y + dy)));
                        assert_eq!(outside.contains(&number(3 * x + dx, 3 * y + dy)), centre);
                    }
                }
                if !centre {
                    enclosed += 1;
                }
            }
        }
        assert_eq!(grid.count_enclosed(&path), enclosed);
    }
}
