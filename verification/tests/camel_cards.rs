use std::str::FromStr;

use advent2023::camel_cards::{checked_play, play, Card, Hand, HandError, HandType};

const EXAMPLE: &str = "\
32T3K 765
T55J5 684
KK677 28
KTJJT 220
QQQJA 483
";

#[test]
fn main_test_part1_example() {
    let hands: Vec<Hand> = EXAMPLE.lines().map(|line| Hand::from_str(line).unwrap()).collect();
    let total = play(&hands, false);
    assert_eq!(total, 6440);
}

#[test]
fn main_test_part2_example() {
    let hands: Vec<Hand> = EXAMPLE.lines().map(|line| Hand::from_str(line).unwrap()).collect();
    let total = play(&hands, true);
    assert_eq!(total, 5905);
}

#[test]
fn test_card_scores() {
    let hands = [
        Hand::from_str("KQJT9 0").unwrap(),
        Hand::from_str("KTJJT 0").unwrap(),
        Hand::from_str("KK877 0").unwrap(),
        Hand::from_str("T55J5 0").unwrap(),
        Hand::from_str("T55K5 0").unwrap(),
        Hand::from_str("45555 0").unwrap(),
        Hand::from_str("53333 0").unwrap(),
    ];
    for (low_hand, high_hand) in hands.iter().zip(hands.iter().skip(1)) {
        let low_score = low_hand.score(false);
        let low_type = low_hand.hand_type();
        let high_score = high_hand.score(false);
        let high_type = high_hand.hand_type();
        println!("low hand: {} type: {:?} score: {}", low_hand.to_text(), low_type, low_score);
        println!("high hand: {} type: {:?} score: {}", high_hand.to_text(), high_type, high_score);
        assert!(low_score < high_score);
    }
}

#[test]
fn kinds_of_hands() {
    let table = [
        ("23456", HandType::HighCard, HandType::HighCard),
        ("A23A4", HandType::OnePair, HandType::OnePair),
        ("23432", HandType::TwoPair, HandType::TwoPair),
        ("TTT98", HandType::ThreeOfAKind, HandType::ThreeOfAKind),
        ("23332", HandType::FullHouse, HandType::FullHouse),
        ("AA8AA", HandType::FourOfAKind, HandType::FourOfAKind),
        ("AAAAA", HandType::FiveOfAKind, HandType::FiveOfAKind),
        ("2345J", HandType::HighCard, HandType::OnePair),
        ("2344J", HandType::OnePair, HandType::ThreeOfAKind),
        ("2233J", HandType::TwoPair, HandType::FullHouse),
        ("2333J", HandType::ThreeOfAKind, HandType::FourOfAKind),
        ("3333J", HandType::FourOfAKind, HandType::FiveOfAKind),
        ("234JJ", HandType::OnePair, HandType::ThreeOfAKind),
        ("233JJ", HandType::TwoPair, HandType::FourOfAKind),
        ("333JJ", HandType::FullHouse, HandType::FiveOfAKind),
        ("23JJJ", HandType::ThreeOfAKind, HandType::FourOfAKind),
        ("22JJJ", HandType::FullHouse, HandType::FiveOfAKind),
        ("2JJJJ", HandType::FourOfAKind, HandType::FiveOfAKind),
        ("JJJJJ", HandType::FiveOfAKind, HandType::FiveOfAKind),
    ];
    for (cards, plain, joker) in table {
        let hand = Hand::from_str(&format!("{cards} 1")).unwrap();
        assert_eq!(hand.hand_type(), plain);
        assert_eq!(hand.joker_hand_type(), joker);
    }
}

#[test]
fn ranks_of_cards_and_kinds() {
    let ranks: Vec<u8> = "23456789TJQKA".chars().map(|c| Card(c).rank()).collect();
    assert_eq!(ranks, (1..=13).collect::<Vec<u8>>());
    let joker_ranks: Vec<u8> = "J23456789TQKA".chars().map(|c| Card(c).joker_rank()).collect();
    assert_eq!(joker_ranks, (1..=13).collect::<Vec<u8>>());
    assert_eq!(HandType::HighCard.rank(), 1);
    assert_eq!(HandType::OnePair.rank(), 2);
    assert_eq!(HandType::TwoPair.rank(), 3);
    assert_eq!(HandType::ThreeOfAKind.rank(), 4);
    assert_eq!(HandType::FullHouse.rank(), 5);
    assert_eq!(HandType::FourOfAKind.rank(), 6);
    assert_eq!(HandType::FiveOfAKind.rank(), 7);
    assert_eq!(Card::try_from('Q'), Ok(Card('Q')));
    assert_eq!(Card::try_from('1'), Err(HandError::InvalidCard));
    assert_eq!(Card::new('x'), Err(HandError::InvalidCard));
}

#[test]
fn score_weighs_kind_then_cards() {
    let hand = Hand::from_str("32T3K 765").unwrap();
    // one pair: 2 * 13^5, then ranks 2, 1, 9, 2, 12 by falling powers of 13
    assert_eq!(hand.score(false), 2 * 371293 + 2 * 28561 + 2197 + 9 * 169 + 2 * 13 + 12);
    // with jokers the ranks are 3, 2, 10, 3, 12
    assert_eq!(hand.score(true), 2 * 371293 + 3 * 28561 + 2 * 2197 + 10 * 169 + 3 * 13 + 12);
    let jacks = Hand::from_str("JJJJJ 1").unwrap();
    assert_eq!(jacks.score(false), 7 * 371293 + 10 * 30941);
    assert_eq!(jacks.score(true), 7 * 371293 + 30941);
}

#[test]
fn counts_come_sorted() {
    let hand = Hand::from_str("T55J5 684").unwrap();
    assert_eq!(hand.counts(), vec![(1, Card('T')), (1, Card('J')), (3, Card('5'))]);
    let pairs = Hand::from_str("KTJJT 220").unwrap();
    assert_eq!(pairs.counts(), vec![(1, Card('K')), (2, Card('T')), (2, Card('J'))]);
    let empty = Hand { cards: vec![], bid: 0 };
    assert_eq!(empty.counts(), vec![]);
}

#[test]
fn hands_as_text() {
    let hand = Hand::from_str("  KK677   28 ").unwrap();
    assert_eq!(hand.bid, 28);
    assert_eq!(hand.to_text(), "KK677 28");
    assert_eq!(Hand::from_str("AAAAA 0").unwrap().to_text(), "AAAAA 0");
    assert_eq!(Hand::from_str("AAAAA 4294967295").unwrap().to_text(), "AAAAA 4294967295");
}

#[test]
fn hand_errors() {
    assert_eq!(Hand::from_str("KK677").err(), Some(HandError::InvalidHand));
    assert_eq!(Hand::from_str("KK677 28 3").err(), Some(HandError::InvalidHand));
    assert_eq!(Hand::from_str("").err(), Some(HandError::InvalidHand));
    assert_eq!(Hand::from_str("KK6x7 28").err(), Some(HandError::InvalidCard));
    assert_eq!(Hand::from_str("KK6x7 y").err(), Some(HandError::InvalidCard));
    assert_eq!(Hand::from_str("KK677 y").err(), Some(HandError::InvalidBid));
    assert_eq!(Hand::from_str("KK677 4294967296").err(), Some(HandError::InvalidBid));
}

#[test]
fn equal_hands_keep_their_order() {
    let hands: Vec<Hand> =
        ["23456 10", "23456 1", "AAAAA 5"].iter().map(|l| Hand::from_str(l).unwrap()).collect();
    assert_eq!(play(&hands, false), 10 + 2 + 3 * 5);
    assert_eq!(play(&vec![], true), 0);
}

#[test]
fn hands_with_a_limit() {
    let hands: Vec<Hand> = EXAMPLE.lines().map(|line| Hand::from_str(line).unwrap()).collect();
    assert_eq!(checked_play(&hands, false), Some(6440));
    assert_eq!(checked_play(&hands, true), Some(5905));
    assert_eq!(checked_play(&vec![], false), Some(0));
    assert!(hands.iter().all(|h| h.is_wf()));
    assert!(!Hand { cards: vec![Card('A'); 4], bid: 1 }.is_wf());
    assert!(!Hand { cards: vec![Card('A'); 6], bid: 1 }.is_wf());
    assert!(!Hand { cards: vec![Card('A'), Card('A'), Card('x'), Card('A'), Card('A')], bid: 1 }.is_wf());
}
