use advent2023::network::{checked_lcm, Direction, Network, NetworkError, Node};

const EXAMPLE1: &str = "\
RL

AAA = (BBB, CCC)
BBB = (DDD, EEE)
CCC = (ZZZ, GGG)
DDD = (DDD, DDD)
EEE = (EEE, EEE)
GGG = (GGG, GGG)
ZZZ = (ZZZ, ZZZ)
";

const EXAMPLE2: &str = "\
LLR

AAA = (BBB, BBB)
BBB = (AAA, ZZZ)
ZZZ = (ZZZ, ZZZ)
";

const EXAMPLE3: &str = "\
LR

11A = (11B, XXX)
11B = (XXX, 11Z)
11Z = (11B, XXX)
22A = (22B, XXX)
22B = (22C, 22C)
22C = (22Z, 22Z)
22Z = (22B, 22B)
XXX = (XXX, XXX)
";

const LIMIT: usize = 1000000000;

#[test]
fn d8p1_test_parse_example() {
    let map: Network = EXAMPLE1.parse().unwrap();
    assert_eq!(map.first_node(), "AAA");
    assert_eq!(map.directions(), &vec![Direction::Right, Direction::Left]);
    assert_eq!(map.node_count(), 7);
}

#[test]
fn d8p1_test_part1_example() {
    let map: Network = EXAMPLE1.parse().unwrap();
    assert_eq!(map.part1(LIMIT).unwrap(), 2);
}

#[test]
fn test_part1_example2() {
    let map: Network = EXAMPLE2.parse().unwrap();
    assert_eq!(map.part1(LIMIT).unwrap(), 6);
}

#[test]
fn test_part2() {
    let map: Network = EXAMPLE3.parse().unwrap();
    assert_eq!(map.part2(LIMIT).unwrap(), 6);
}

#[test]
fn test_regex() {
    let node: Node = "AAA = (BBB, CCC)".parse().unwrap();
    assert_eq!(node.name, "AAA");
    assert_eq!(node.left, "BBB");
    assert_eq!(node.right, "CCC");
}

#[test]
fn node_line_errors() {
    assert_eq!(Node::parse("AAA = (BBB CCC)"), Err(NetworkError::InvalidNodeLine));
    assert_eq!(Node::parse("AAA = (BBB, CCC) "), Err(NetworkError::InvalidNodeLine));
    assert_eq!(Node::parse(""), Err(NetworkError::InvalidNodeLine));
    assert_eq!(Node::from_groups(&vec![None, None]), Err(NetworkError::InvalidNodeLine));
    let groups: Vec<Option<Vec<char>>> =
        ["x", "a", "b", "c"].iter().map(|s| Some(s.chars().collect())).collect();
    assert_eq!(Node::from_groups(&groups).map(|n| n.right), Ok("c".to_string()));
}

#[test]
fn network_errors() {
    assert_eq!(Network::parse("").err(), Some(NetworkError::NoDirectionLine));
    assert_eq!(Network::parse("LR").err(), Some(NetworkError::NoSeparatorLine));
    assert_eq!(Network::parse("LR\n\n").err(), Some(NetworkError::NoNodes));
    assert_eq!(Network::parse("LR\n\nAAA = BBB\n").err(), Some(NetworkError::InvalidNodeLine));
    let lost = Network::parse("L\n\nAAA = (BBB, BBB)\n").unwrap();
    assert_eq!(lost.part1(LIMIT), Err(NetworkError::InvalidNode));
    assert_eq!(lost.part2(LIMIT), Err(NetworkError::InvalidNode));
    let round = Network::parse("L\n\nAAA = (AAA, AAA)\n").unwrap();
    assert_eq!(round.part1(50), Err(NetworkError::NoPath));
    assert_eq!(round.part2(50), Err(NetworkError::NoPath));
    let still = Network::parse("x\n\nAAA = (ZZZ, ZZZ)\n").unwrap();
    assert_eq!(still.directions(), &vec![]);
    assert_eq!(still.part1(LIMIT), Err(NetworkError::NoDirections));
    assert_eq!(still.part2(LIMIT), Err(NetworkError::NoDirections));
    let no_start = Network::parse("L\n\nBBB = (BBB, BBB)\n").unwrap();
    assert_eq!(no_start.part2(LIMIT), Err(NetworkError::NoStart));
    assert_eq!(no_start.part1(LIMIT), Err(NetworkError::InvalidNode));
    assert_eq!(no_start.part1(0), Err(NetworkError::NoPath));
    let there = Network::parse("L\n\nZZZ = (ZZZ, ZZZ)\n").unwrap();
    assert_eq!(there.part1(0), Err(NetworkError::NoPath));
}

#[test]
fn a_later_node_replaces_an_earlier_one() {
    let net = Network::parse("RxL\n\nAAA = (AAA, AAA)\nBBB = (ZZZ, ZZZ)\nAAA = (BBB, BBB)\n").unwrap();
    assert_eq!(net.node_count(), 2);
    assert_eq!(net.first_node(), "AAA");
    assert_eq!(net.directions(), &vec![Direction::Right, Direction::Left]);
    assert_eq!(net.part1(LIMIT), Ok(2));
    assert_eq!(net.starts(), vec![vec!['A', 'A', 'A']]);
}

#[test]
fn lowest_common_multiples() {
    assert_eq!(checked_lcm(4, 6), Some(12));
    assert_eq!(checked_lcm(6, 4), Some(12));
    assert_eq!(checked_lcm(7, 13), Some(91));
    assert_eq!(checked_lcm(5, 5), Some(5));
    assert_eq!(checked_lcm(0, 0), Some(0));
    assert_eq!(checked_lcm(0, 9), Some(0));
    assert_eq!(checked_lcm(9, 0), Some(0));
    assert_eq!(checked_lcm(1, usize::MAX), Some(usize::MAX));
    assert_eq!(checked_lcm(usize::MAX, usize::MAX - 1), None);
    assert_eq!(checked_lcm(usize::MAX, 2), None);
}

#[test]
fn rounds_too_long_to_count() {
    // one way for each of the first sixteen primes, as long as the prime
    let primes = [2, 3, 5, 7, 11, 13, 17, 19, 23, 29, 31, 37, 41, 43, 47, 53];
    let mut text = String::from("L\n\n");
    for p in primes {
        for k in 0..p {
            let here = if k == 0 { format!("n{p}k0A") } else { format!("n{p}k{k}M") };
            let next = if k + 1 == p { format!("n{p}k{p}Z") } else { format!("n{p}k{}M", k + 1) };
            text.push_str(&format!("{here} = ({next}, {next})\n"));
        }
        text.push_str(&format!("n{p}k{p}Z = (n{p}k{p}Z, n{p}k{p}Z)\n"));
    }
    let net = Network::parse(&text).unwrap();
    assert_eq!(net.starts().len(), 16);
    assert_eq!(net.part2(LIMIT), Err(NetworkError::Overflow));
    let fewer: String = text.lines().take(2 + 3 + 4 + 6).map(|l| format!("{l}\n")).collect();
    assert_eq!(Network::parse(&fewer).unwrap().part2(LIMIT), Ok(30));
}
