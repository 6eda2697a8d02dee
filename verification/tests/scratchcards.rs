use std::collections::HashMap;
use std::collections::HashSet;

use advent2023::scratchcards::{
    checked_play, checked_total, play, total, Card, CardError, CardParser,
};

const EXAMPLE: &str = "\
Card 1: 41 48 83 86 17 | 83 86  6 31 17  9 48 53
Card 2: 13 32 20 16 61 | 61 30 68 82 17 32 24 19
Card 3:  1 21 53 59 44 | 69 82 63 72 16 21 14  1
Card 4: 41 92 73 84 69 | 59 84 76 51 58  5 54 83
Card 5: 87 83 26 28 32 | 88 30 70 12 93 22 82 36
Card 6: 31 18 13 56 72 | 74 77 10 23 35 67 36 11
";

#[test]
fn test_parsing() {
    let cards: Vec<Card> =
        EXAMPLE.lines().map(|line| Card::try_from(line.to_string()).unwrap()).collect();
    assert_eq!(cards.len(), 6);
    assert_eq!(cards[0].id, 1);
    assert_eq!(cards[0].winning, vec![41, 48, 83, 86, 17].into_iter().collect());
}

#[test]
fn test_points() {
    let cards: Vec<Card> =
        EXAMPLE.lines().map(|line| Card::try_from(line.to_string()).unwrap()).collect();
    assert_eq!(cards[0].points(), 8);
    assert_eq!(cards[1].points(), 2);
    assert_eq!(cards[2].points(), 2);
    assert_eq!(cards[3].points(), 1);
    assert_eq!(cards[4].points(), 0);
    assert_eq!(cards[5].points(), 0);
}

#[test]
fn test_play() {
    let cards: Vec<Card> =
        EXAMPLE.lines().map(|line| Card::try_from(line.to_string()).unwrap()).collect();
    let copies = play(&cards);
    assert_eq!(copies.get(&1), None);
    assert_eq!(copies.get(&2), Some(&2));
    assert_eq!(copies.get(&3), Some(&4));
    assert_eq!(copies.get(&4), Some(&8));
    assert_eq!(copies.get(&5), Some(&14));
    assert_eq!(copies.get(&6), None);
    let sum = (1..=cards.len()).map(|id| copies.get(&id).unwrap_or(&1)).sum::<u32>();
    assert_eq!(sum, 30);
    assert_eq!(total(&copies, cards.len()), 30);
}

#[test]
fn winning_numbers_in_the_order_written() {
    let card = CardParser::parse("Card 9: 5 1 9 | 9 2 5 5 7").unwrap();
    assert_eq!(card.id, 9);
    assert_eq!(card.numbers, vec![9, 2, 5, 5, 7]);
    assert_eq!(card.winning_numbers(), vec![9, 5, 5]);
    assert_eq!(card.points(), 4);
    let none = CardParser::parse("Card 1: | ").unwrap();
    assert!(none.winning.is_empty());
    assert!(none.numbers.is_empty());
    assert_eq!(none.points(), 0);
}

#[test]
fn points_double_with_every_match() {
    for (matches, points) in [(1u32, 1u32), (2, 2), (3, 4), (10, 512), (32, 2_147_483_648)] {
        let winning: HashSet<u32> = (0..matches).collect();
        let card = Card { id: 1, winning, numbers: (0..matches).collect() };
        assert_eq!(card.points(), points);
    }
}

#[test]
fn card_errors() {
    assert_eq!(CardParser::parse("41 48 | 83").err(), Some(CardError::InvalidHeader));
    assert_eq!(CardParser::parse("Card 1 2: 41 | 83").err(), Some(CardError::InvalidHeader));
    assert_eq!(CardParser::parse("Deck 1: 41 | 83").err(), Some(CardError::InvalidHeader));
    assert_eq!(CardParser::parse("Card x: 41 | 83").err(), Some(CardError::InvalidId));
    assert_eq!(CardParser::parse("Card 1: 41 83").err(), Some(CardError::MissingBar));
    assert_eq!(CardParser::parse("Card 1: 41 | 83 | 2").err(), Some(CardError::MissingBar));
    assert_eq!(CardParser::parse("Card 1: 4x | 83").err(), Some(CardError::InvalidNumber));
    assert_eq!(CardParser::parse("Card 1: 4 | 4294967296").err(), Some(CardError::InvalidNumber));
    assert_eq!(CardParser::numbers(&vec!["7".chars().collect()]), Ok(vec![7]));
    assert_eq!(CardParser::id(&"Card   12".chars().collect()), Ok(12));
}

#[test]
fn cards_without_matches_win_nothing() {
    let cards: Vec<Card> = ["Card 1: 1 | 2", "Card 2: 3 | 4"]
        .iter()
        .map(|line| Card::try_from(line.to_string()).unwrap())
        .collect();
    let copies = play(&cards);
    assert_eq!(copies, HashMap::new());
    assert_eq!(total(&copies, 2), 2);
    assert_eq!(total(&copies, 0), 0);
}

#[test]
fn scratchcards_with_a_limit() {
    let cards: Vec<Card> =
        EXAMPLE.lines().map(|line| Card::try_from(line.to_string()).unwrap()).collect();
    let copies = checked_play(&cards).unwrap();
    assert_eq!(copies, play(&cards));
    assert_eq!(checked_total(&copies, cards.len()), Some(30));
    // every card wins a copy of each of the forty behind it: the copies
    // double from card to card
    let numbers = (1..=40).map(|n| n.to_string()).collect::<Vec<_>>().join(" ");
    let doubling = |n: usize| -> Vec<Card> {
        (1..=n)
            .map(|id| CardParser::parse(&format!("Card {id}: {numbers} | {numbers}")).unwrap())
            .collect()
    };
    let copies = checked_play(&doubling(31)).unwrap();
    assert_eq!(copies.get(&31), Some(&(1 << 30)));
    assert_eq!(copies.get(&32), Some(&(1 << 31)));
    assert!(checked_play(&doubling(32)).is_none());
    assert_eq!(checked_play(&Vec::new()), Some(HashMap::new()));
    assert!(checked_play(&doubling(40)).is_none());
    let mut huge = HashMap::new();
    huge.insert(1, u32::MAX);
    assert_eq!(checked_total(&huge, 1), Some(u32::MAX));
    assert_eq!(checked_total(&huge, 2), None);
}
