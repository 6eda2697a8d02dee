//! Camel cards: hands of five cards, ordered by their type and then card by
//! card, with or without the rule that makes the jack a joker.

use std::collections::HashMap;
use vstd::prelude::*;
use crate::text::{
    chars_of, decimal_text, parse_u32, push_decimal, string_of, texts_view, unsigned_of, words,
    words_of,
};

verus! {

broadcast use vstd::std_specs::hash::group_hash_axioms;

/// Why a line is no hand.
#[derive(Debug, Copy, Clone, PartialEq, Eq, Structural)]
pub enum HandError {
    /// The character stands for no card.
    InvalidCard,
    /// The line is not a word of cards followed by a bid.
    InvalidHand,
    /// The bid is not a number of 32 bits.
    InvalidBid,
}

/// A card, written as one of `A23456789TJQK`.
#[derive(Debug, PartialEq, Eq, Hash, Copy, Clone, Structural)]
pub struct Card(pub char);

/// The kinds of hands, from the weakest to the strongest.
#[derive(Debug, PartialEq, Eq, Clone, Copy, Structural)]
pub enum HandType {
    HighCard,
    OnePair,
    TwoPair,
    ThreeOfAKind,
    FullHouse,
    FourOfAKind,
    FiveOfAKind,
}

/// A hand and the bid placed on it.
#[derive(Debug, Clone)]
pub struct Hand {
    pub cards: Vec<Card>,
    pub bid: u32,
}

/// The rank of the card written `c`, from one for the two up to thirteen for
/// the ace; zero for a character that stands for no card.
pub open spec fn rank_of(c: char) -> u8 {
    if c == '2' {
        1
    } else if c == '3' {
        2
    } else if c == '4' {
        3
    } else if c == '5' {
        4
    } else if c == '6' {
        5
    } else if c == '7' {
        6
    } else if c == '8' {
        7
    } else if c == '9' {
        8
    } else if c == 'T' {
        9
    } else if c == 'J' {
        10
    } else if c == 'Q' {
        11
    } else if c == 'K' {
        12
    } else if c == 'A' {
        13
    } else {
        0
    }
}

/// The rank of the card written `c` where the jack is a joker and ranks
/// lowest.
pub open spec fn joker_rank_of(c: char) -> u8 {
    if c == 'J' {
        1
    } else if 1 <= rank_of(c) <= 9 {
        (rank_of(c) + 1) as u8
    } else {
        rank_of(c)
    }
}

/// The card of the given rank.
pub open spec fn card_ranked(rank: int) -> char {
    if rank == 1 {
        '2'
    } else if rank == 2 {
        '3'
    } else if rank == 3 {
        '4'
    } else if rank == 4 {
        '5'
    } else if rank == 5 {
        '6'
    } else if rank == 6 {
        '7'
    } else if rank == 7 {
        '8'
    } else if rank == 8 {
        '9'
    } else if rank == 9 {
        'T'
    } else if rank == 10 {
        'J'
    } else if rank == 11 {
        'Q'
    } else if rank == 12 {
        'K'
    } else {
        'A'
    }
}

/// Number of cards among the first `n` that have the given rank.
pub open spec fn occurrences(cards: Seq<Card>, rank: int, n: int) -> nat
    decreases n,
{
    if n <= 0 {
        0
    } else {
        occurrences(cards, rank, n - 1) + if rank_of(cards[n - 1].0) == rank {
            1nat
        } else {
            0nat
        }
    }
}

/// No more cards have a rank than there are cards.
pub proof fn lemma_occurrences_bound(cards: Seq<Card>, rank: int, n: int)
    requires
        0 <= n,
    ensures
        occurrences(cards, rank, n) <= n,
    decreases n,
{
    if n > 0 {
        lemma_occurrences_bound(cards, rank, n - 1);
    }
}

/// Whether every card of the hand is one of the thirteen.
pub open spec fn all_cards(cards: Seq<Card>) -> bool {
    forall|i: int| 0 <= i < cards.len() ==> rank_of((#[trigger] cards[i]).0) >= 1
}

/// How often the ranks of a hand occur, the jack left aside where it is a
/// joker.
pub open spec fn tally_of(cards: Seq<Card>, jokers: bool, rank: int) -> nat {
    if jokers && rank == 10 {
        0
    } else {
        occurrences(cards, rank, cards.len() as int)
    }
}

/// Number of ranks up to `rank` that occur in the hand.
pub open spec fn groups(cards: Seq<Card>, jokers: bool, rank: int) -> nat
    decreases rank,
{
    if rank <= 0 {
        0
    } else {
        groups(cards, jokers, rank - 1) + if tally_of(cards, jokers, rank) >= 1 {
            1nat
        } else {
            0nat
        }
    }
}

/// The largest number of cards of one rank, among the ranks up to `rank`.
pub open spec fn most(cards: Seq<Card>, jokers: bool, rank: int) -> nat
    decreases rank,
{
    if rank <= 0 {
        0
    } else {
        let before = most(cards, jokers, rank - 1);
        if tally_of(cards, jokers, rank) > before {
            tally_of(cards, jokers, rank)
        } else {
            before
        }
    }
}

/// The kind of a hand of five cards that fall into `groups` ranks, the
/// largest of them with `most` cards. Five ranks make a high card, four a
/// pair; three ranks make three of a kind or two pairs, two ranks four of a
/// kind or a full house, and a single rank five of a kind.
pub open spec fn kind(groups: nat, most: nat) -> HandType {
    if groups >= 5 {
        HandType::HighCard
    } else if groups == 4 {
        HandType::OnePair
    } else if groups == 3 {
        if most >= 3 {
            HandType::ThreeOfAKind
        } else {
            HandType::TwoPair
        }
    } else if groups == 2 {
        if most >= 4 {
            HandType::FourOfAKind
        } else {
            HandType::FullHouse
        }
    } else {
        HandType::FiveOfAKind
    }
}

/// The kind of a hand.
pub open spec fn plain_kind(cards: Seq<Card>) -> HandType {
    kind(groups(cards, false, 13), most(cards, false, 13))
}

/// The kind of a hand where the jacks are jokers: they count as cards of
/// the rank that the hand holds most of.
pub open spec fn joker_kind(cards: Seq<Card>) -> HandType {
    let jacks = occurrences(cards, 10, cards.len() as int);
    if jacks == 0 {
        plain_kind(cards)
    } else {
        kind(groups(cards, true, 13), most(cards, true, 13) + jacks)
    }
}

/// Thirteen to the power of `n`.
pub open spec fn thirteen_to(n: nat) -> nat
    decreases n,
{
    if n == 0 {
        1
    } else {
        13 * thirteen_to((n - 1) as nat)
    }
}

/// The rank of a kind of hand, from one for the weakest.
pub open spec fn kind_rank(kind: HandType) -> u8 {
    match kind {
        HandType::HighCard => 1,
        HandType::OnePair => 2,
        HandType::TwoPair => 3,
        HandType::ThreeOfAKind => 4,
        HandType::FullHouse => 5,
        HandType::FourOfAKind => 6,
        HandType::FiveOfAKind => 7,
    }
}

/// The rank of a card under the rule in force.
pub open spec fn card_score(c: char, jokers: bool) -> u8 {
    if jokers {
        joker_rank_of(c)
    } else {
        rank_of(c)
    }
}

/// The score of the first `n` cards: the rank of each card, weighted by
/// thirteen to the power of the places that follow it in a hand of five.
pub open spec fn cards_score(cards: Seq<Card>, jokers: bool, n: int) -> int
    decreases n,
{
    if n <= 0 {
        0
    } else {
        cards_score(cards, jokers, n - 1) + card_score(cards[n - 1].0, jokers) * thirteen_to(
            (5 - n) as nat,
        )
    }
}

/// The score of a hand: hands compare like their scores. The kind of the
/// hand weighs most, then the cards from the first to the last.
pub open spec fn score_of(cards: Seq<Card>, jokers: bool) -> int {
    kind_rank(
        if jokers {
            joker_kind(cards)
        } else {
            plain_kind(cards)
        },
    ) * thirteen_to(5) + cards_score(cards, jokers, 5)
}

impl Card {
    /// The rank of the card, from one for the two up to thirteen for the
    /// ace.
    pub fn rank(&self) -> (r: u8)
        requires
            rank_of(self.0) >= 1,
        ensures
            r == rank_of(self.0),
    {
        let c = self.0;
        if c == '2' {
            1
        } else if c == '3' {
            2
        } else if c == '4' {
            3
        } else if c == '5' {
            4
        } else if c == '6' {
            5
        } else if c == '7' {
            6
        } else if c == '8' {
            7
        } else if c == '9' {
            8
        } else if c == 'T' {
            9
        } else if c == 'J' {
            10
        } else if c == 'Q' {
            11
        } else if c == 'K' {
            12
        } else {
            13
        }
    }

    /// The rank of the card where the jack is a joker and ranks lowest.
    pub fn joker_rank(&self) -> (r: u8)
        requires
            rank_of(self.0) >= 1,
        ensures
            r == joker_rank_of(self.0),
    {
        let r = self.rank();
        if r == 10 {
            1
        } else if r <= 9 {
            r + 1
        } else {
            r
        }
    }

    /// The card that a character stands for.
    pub fn new(c: char) -> (r: Result<Card, HandError>)
        ensures
            r == if rank_of(c) >= 1 {
                Ok::<Card, HandError>(Card(c))
            } else {
                Err::<Card, HandError>(HandError::InvalidCard)
            },
    {
        if c == 'A' || c == '2' || c == '3' || c == '4' || c == '5' || c == '6' || c == '7' || c
            == '8' || c == '9' || c == 'T' || c == 'J' || c == 'Q' || c == 'K' {
            Ok(Card(c))
        } else {
            Err(HandError::InvalidCard)
        }
    }
}

impl TryFrom<char> for Card {
    type Error = HandError;

    fn try_from(c: char) -> (r: Result<Card, HandError>) {
        Card::new(c)
    }
}

impl vstd::std_specs::convert::TryFromSpecImpl<char> for Card {
    open spec fn obeys_try_from_spec() -> bool {
        true
    }

    open spec fn try_from_spec(c: char) -> Result<Card, HandError> {
        if rank_of(c) >= 1 {
            Ok(Card(c))
        } else {
            Err(HandError::InvalidCard)
        }
    }
}

impl HandType {
    /// The rank of the kind, from one for the weakest.
    pub fn rank(&self) -> (r: u8)
        ensures
            r == kind_rank(*self),
    {
        match self {
            HandType::HighCard => 1,
            HandType::OnePair => 2,
            HandType::TwoPair => 3,
            HandType::ThreeOfAKind => 4,
            HandType::FullHouse => 5,
            HandType::FourOfAKind => 6,
            HandType::FiveOfAKind => 7,
        }
    }
}

/// The card of the given rank.
fn ranked(rank: usize) -> (c: Card)
    requires
        1 <= rank <= 13,
    ensures
        c.0 == card_ranked(rank as int),
        rank_of(c.0) == rank,
{
    if rank == 1 {
        Card('2')
    } else if rank == 2 {
        Card('3')
    } else if rank == 3 {
        Card('4')
    } else if rank == 4 {
        Card('5')
    } else if rank == 5 {
        Card('6')
    } else if rank == 6 {
        Card('7')
    } else if rank == 7 {
        Card('8')
    } else if rank == 8 {
        Card('9')
    } else if rank == 9 {
        Card('T')
    } else if rank == 10 {
        Card('J')
    } else if rank == 11 {
        Card('Q')
    } else if rank == 12 {
        Card('K')
    } else {
        Card('A')
    }
}

/// Whether the entry `a` comes before the entry `b`: it has the smaller
/// count, or the same count and the lower card.
pub open spec fn entry_before(a: (u8, Card), b: (u8, Card)) -> bool {
    a.0 < b.0 || (a.0 == b.0 && rank_of(a.1.0) < rank_of(b.1.0))
}

/// The count that the tally holds for the rank `r`: none where it has no
/// entry for it.
pub open spec fn held(tally: Map<usize, u8>, r: int) -> u8 {
    if tally.contains_key(r as usize) {
        tally[r as usize]
    } else {
        0
    }
}

/// The count that the tally holds for the rank `r`.
fn count_in(tally: &HashMap<usize, u8>, r: usize) -> (n: u8)
    ensures
        n == held(tally@, r as int),
{
    match tally.get(&r) {
        Some(n) => *n,
        None => 0,
    }
}

impl Hand {
    /// The hand has five cards, each one of the thirteen.
    pub open spec fn wf(&self) -> bool {
        self.cards@.len() == 5 && all_cards(self.cards@)
    }

    /// How often each rank occurs in the hand: a map from the rank of a
    /// card to the number of cards of that rank, the jacks left aside where
    /// they are jokers. A rank that does not occur has no entry.
    fn tally(&self, jokers: bool) -> (t: HashMap<usize, u8>)
        requires
            self.cards@.len() <= 255,
            all_cards(self.cards@),
        ensures
            forall|r: int| 1 <= r <= 13 ==> #[trigger] held(t@, r) == tally_of(self.cards@, jokers, r),
    {
        let mut t: HashMap<usize, u8> = HashMap::new();
        let mut i: usize = 0;
        while i < self.cards.len()
            invariant
                i <= self.cards.len(),
                self.cards@.len() <= 255,
                all_cards(self.cards@),
                forall|k: int|
                    1 <= k <= 13 ==> #[trigger] held(t@, k) == if jokers && k == 10 {
                        0
                    } else {
                        occurrences(self.cards@, k, i as int)
                    },
            decreases self.cards.len() - i,
        {
            let card = self.cards[i];
            assert(rank_of(self.cards@[i as int].0) >= 1);
            let rank = card.rank() as usize;
            if !(jokers && rank == 10) {
                proof {
                    lemma_occurrences_bound(self.cards@, rank as int, i as int);
                }
                let before = count_in(&t, rank);
                let ghost earlier = t@;
                t.insert(rank, before + 1);
                proof {
                    assert forall|k: int| 1 <= k <= 13 implies #[trigger] held(t@, k) == if k
                        == rank {
                        (before + 1) as u8
                    } else {
                        held(earlier, k)
                    } by {}
                }
            }
            i += 1;
        }
        t
    }

    /// For each card that the hand holds, how many of it there are; the
    /// entries come in the order of their counts, and of their cards where
    /// the counts are the same.
    pub fn counts(&self) -> (list: Vec<(u8, Card)>)
        requires
            self.cards@.len() <= 255,
            all_cards(self.cards@),
        ensures
            forall|i: int, j: int| 0 <= i < j < list.len() ==> entry_before(list[i], list[j]),
            forall|i: int|
                0 <= i < list.len() ==> 1 <= rank_of((#[trigger] list[i]).1.0) <= 13 && list[i].0
                    >= 1 && list[i].0 == tally_of(self.cards@, false, rank_of(list[i].1.0) as int),
            forall|r: int|
                #![trigger tally_of(self.cards@, false, r)]
                1 <= r <= 13 && tally_of(self.cards@, false, r) >= 1 ==> exists|i: int|
                    0 <= i < list.len() && rank_of((#[trigger] list[i]).1.0) == r,
    {
        let t = self.tally(false);
        let n = self.cards.len();
        let mut list: Vec<(u8, Card)> = Vec::new();
        let mut k: usize = 1;
        proof {
            assert forall|r: int| 1 <= r <= 13 implies tally_of(self.cards@, false, r) <= n by {
                lemma_occurrences_bound(self.cards@, r, n as int);
            }
        }
        while k <= n
            invariant
                1 <= k <= n + 1,
                n == self.cards@.len(),
                n <= 255,
                forall|r: int| 1 <= r <= 13 ==> #[trigger] held(t@, r) == tally_of(self.cards@, false, r),
                forall|r: int| 1 <= r <= 13 ==> tally_of(self.cards@, false, r) <= n,
                forall|i: int, j: int| 0 <= i < j < list.len() ==> entry_before(list[i], list[j]),
                forall|i: int|
                    0 <= i < list.len() ==> 1 <= rank_of((#[trigger] list[i]).1.0) <= 13
                        && list[i].0 >= 1 && list[i].0 < k && list[i].0 == tally_of(
                        self.cards@,
                        false,
                        rank_of(list[i].1.0) as int,
                    ),
                forall|r: int|
                    #![trigger tally_of(self.cards@, false, r)]
                    1 <= r <= 13 && 1 <= tally_of(self.cards@, false, r) < k ==> exists|i: int|
                        0 <= i < list.len() && rank_of((#[trigger] list[i]).1.0) == r,
            decreases n + 1 - k,
        {
            let mut r: usize = 1;
            while r <= 13
                invariant
                    1 <= r <= 14,
                    1 <= k <= n,
                    n <= 255,
                        forall|q: int|
                        1 <= q <= 13 ==> #[trigger] held(t@, q) == tally_of(self.cards@, false, q),
                    forall|i: int, j: int|
                        0 <= i < j < list.len() ==> entry_before(list[i], list[j]),
                    forall|i: int|
                        0 <= i < list.len() ==> 1 <= rank_of((#[trigger] list[i]).1.0) <= 13
                            && list[i].0 >= 1 && list[i].0 <= k && (list[i].0 == k ==> rank_of(
                            list[i].1.0,
                        ) < r) && list[i].0 == tally_of(
                            self.cards@,
                            false,
                            rank_of(list[i].1.0) as int,
                        ),
                    forall|q: int|
                        #![trigger tally_of(self.cards@, false, q)]
                        1 <= q <= 13 && (1 <= tally_of(self.cards@, false, q) < k || (tally_of(
                            self.cards@,
                            false,
                            q,
                        ) == k && q < r)) ==> exists|i: int|
                            0 <= i < list.len() && rank_of((#[trigger] list[i]).1.0) == q,
                decreases 14 - r,
            {
                let ghost before = list@;
                if count_in(&t, r) as usize == k {
                    let card = ranked(r);
                    list.push((k as u8, card));
                    proof {
                        assert forall|i: int, j: int| 0 <= i < j < list.len() implies entry_before(
                            list[i],
                            list[j],
                        ) by {
                            if j < before.len() {
                                assert(list[i] == before[i] && list[j] == before[j]);
                            } else {
                                assert(list[i] == before[i]);
                            }
                        }
                    }
                }
                proof {
                    assert forall|q: int|
                        #![trigger tally_of(self.cards@, false, q)]
                        1 <= q <= 13 && (1 <= tally_of(self.cards@, false, q) < k || (tally_of(
                            self.cards@,
                            false,
                            q,
                        ) == k && q < r + 1)) implies exists|i: int|
                        0 <= i < list.len() && rank_of((#[trigger] list[i]).1.0) == q by {
                        if q == r && tally_of(self.cards@, false, q) == k {
                            assert(rank_of(list[list.len() - 1].1.0) == q);
                        } else {
                            let i = choose|i: int|
                                0 <= i < before.len() && rank_of((#[trigger] before[i]).1.0) == q;
                            assert(list[i] == before[i]);
                        }
                    }
                }
                r += 1;
            }
            k += 1;
        }
        list
    }

    /// Number of ranks that occur in the hand, and the largest number of
    /// cards of one rank.
    fn shape(&self, jokers: bool) -> (r: (usize, usize))
        requires
            self.cards@.len() <= 255,
            all_cards(self.cards@),
        ensures
            r.0 == groups(self.cards@, jokers, 13),
            r.1 == most(self.cards@, jokers, 13),
            r.1 <= 255,
    {
        let t = self.tally(jokers);
        let mut found: usize = 0;
        let mut largest: usize = 0;
        let mut r: usize = 1;
        while r <= 13
            invariant
                1 <= r <= 14,
                forall|q: int|
                    1 <= q <= 13 ==> #[trigger] held(t@, q) == tally_of(self.cards@, jokers, q),
                found == groups(self.cards@, jokers, r - 1),
                largest == most(self.cards@, jokers, r - 1),
                found < r,
                largest <= 255,
            decreases 14 - r,
        {
            let n = count_in(&t, r);
            if n >= 1 {
                found += 1;
            }
            if n as usize > largest {
                largest = n as usize;
            }
            r += 1;
        }
        (found, largest)
    }

    /// The kind of the hand.
    pub fn hand_type(&self) -> (r: HandType)
        requires
            self.wf(),
        ensures
            r == plain_kind(self.cards@),
    {
        let (found, largest) = self.shape(false);
        to_kind(found, largest)
    }

    /// The kind of the hand where the jacks are jokers.
    pub fn joker_hand_type(&self) -> (r: HandType)
        requires
            self.wf(),
        ensures
            r == joker_kind(self.cards@),
    {
        let all = self.tally(false);
        let jacks = count_in(&all, 10) as usize;
        if jacks == 0 {
            self.hand_type()
        } else {
            let (found, largest) = self.shape(true);
            to_kind(found, largest + jacks)
        }
    }

    /// The score of the hand: a stronger hand has the higher score.
    pub fn score(&self, jokers: bool) -> (s: u32)
        requires
            self.wf(),
        ensures
            s == score_of(self.cards@, jokers),
    {
        let hand_type = if jokers {
            self.joker_hand_type()
        } else {
            self.hand_type()
        };
        let type_rank = hand_type.rank() as u32;
        let mut card_score: u32 = 0;
        let mut weight: u32 = 28561;
        let mut i: usize = 0;
        proof {
            reveal_with_fuel(thirteen_to, 6);
        }
        while i < 5
            invariant
                i <= 5,
                self.wf(),
                card_score == cards_score(self.cards@, jokers, i as int),
                card_score <= 371293 * i,
                weight <= 28561,
                i < 5 ==> weight == thirteen_to((4 - i) as nat),
            decreases 5 - i,
        {
            let card = self.cards[i];
            assert(rank_of(self.cards@[i as int].0) >= 1);
            let rank = if jokers {
                card.joker_rank()
            } else {
                card.rank()
            } as u32;
            proof {
                reveal_with_fuel(thirteen_to, 6);
                assert(rank * weight <= 13 * 28561) by (nonlinear_arith)
                    requires
                        rank <= 13,
                        weight <= 28561,
                ;
            }
            card_score = card_score + rank * weight;
            if i < 4 {
                weight = weight / 13;
            }
            i += 1;
        }
        proof {
            reveal_with_fuel(thirteen_to, 6);
        }
        type_rank * 371293 + card_score
    }
}

/// The kind of a hand of five cards in `groups` ranks, the largest of them
/// with `most` cards.
fn to_kind(groups: usize, most: usize) -> (r: HandType)
    ensures
        r == kind(groups as nat, most as nat),
{
    if groups >= 5 {
        HandType::HighCard
    } else if groups == 4 {
        HandType::OnePair
    } else if groups == 3 {
        if most >= 3 {
            HandType::ThreeOfAKind
        } else {
            HandType::TwoPair
        }
    } else if groups == 2 {
        if most >= 4 {
            HandType::FourOfAKind
        } else {
            HandType::FullHouse
        }
    } else {
        HandType::FiveOfAKind
    }
}

/// The cards that the first `n` characters stand for.
pub open spec fn cards_of(word: Seq<char>, n: int) -> Result<Seq<Card>, HandError>
    decreases n,
{
    if n <= 0 {
        Ok(seq![])
    } else {
        match cards_of(word, n - 1) {
            Ok(front) => if rank_of(word[n - 1]) >= 1 {
                Ok(front.push(Card(word[n - 1])))
            } else {
                Err(HandError::InvalidCard)
            },
            Err(e) => Err(e),
        }
    }
}

/// The hand that a line writes: a word of cards and a bid.
pub open spec fn hand_of(line: Seq<char>) -> Result<(Seq<Card>, u32), HandError> {
    let parts = words_of(line);
    if parts.len() != 2 {
        Err(HandError::InvalidHand)
    } else {
        match cards_of(parts[0], parts[0].len() as int) {
            Err(e) => Err(e),
            Ok(cards) => match unsigned_of(parts[1], u32::MAX as nat) {
                Some(bid) => Ok((cards, bid as u32)),
                None => Err(HandError::InvalidBid),
            },
        }
    }
}

/// Once a character stands for no card, the word writes no hand.
proof fn lemma_cards_fail(word: Seq<char>, n: int, end: int)
    requires
        n <= end,
        cards_of(word, n) is Err,
    ensures
        cards_of(word, end) == cards_of(word, n),
    decreases end - n,
{
    if n < end {
        lemma_cards_fail(word, n, end - 1);
    }
}

/// The characters of the first `n` cards.
pub open spec fn card_chars(cards: Seq<Card>) -> Seq<char> {
    Seq::new(cards.len(), |i: int| cards[i].0)
}

impl Hand {
    /// Reads a hand from a line such as `32T3K 765`.
    pub fn parse(s: &str) -> (r: Result<Hand, HandError>)
        ensures
            match r {
                Ok(hand) => hand_of(s@) == Ok::<(Seq<Card>, u32), HandError>(
                    (hand.cards@, hand.bid),
                ),
                Err(e) => hand_of(s@) == Err::<(Seq<Card>, u32), HandError>(e),
            },
    {
        let chars = chars_of(s);
        let parts = words(&chars);
        if parts.len() != 2 {
            return Err(HandError::InvalidHand);
        }
        assert(texts_view(parts@)[0] == parts[0]@);
        assert(texts_view(parts@)[1] == parts[1]@);
        let word = &parts[0];
        let mut cards: Vec<Card> = Vec::new();
        let mut i: usize = 0;
        while i < word.len()
            invariant
                i <= word.len(),
                parts.len() == 2,
                texts_view(parts@) == words_of(s@),
                word@ == texts_view(parts@)[0],
                cards_of(word@, i as int) == Ok::<Seq<Card>, HandError>(cards@),
            decreases word.len() - i,
        {
            match Card::new(word[i]) {
                Ok(card) => {
                    cards.push(card);
                },
                Err(e) => {
                    proof {
                        lemma_cards_fail(word@, i + 1, word.len() as int);
                    }
                    return Err(e);
                },
            }
            i += 1;
        }
        match parse_u32(&parts[1]) {
            Some(bid) => Ok(Hand { cards, bid }),
            None => Err(HandError::InvalidBid),
        }
    }

    /// The hand as text: its cards, a blank, and its bid.
    pub fn to_text(&self) -> (s: String)
        ensures
            s@ == card_chars(self.cards@) + seq![' '] + decimal_text(self.bid as nat),
    {
        let mut out: Vec<char> = Vec::new();
        let mut i: usize = 0;
        while i < self.cards.len()
            invariant
                i <= self.cards.len(),
                out@ == card_chars(self.cards@).take(i as int),
            decreases self.cards.len() - i,
        {
            out.push(self.cards[i].0);
            assert(out@ =~= card_chars(self.cards@).take(i + 1));
            i += 1;
        }
        assert(card_chars(self.cards@).take(self.cards.len() as int) =~= card_chars(self.cards@));
        out.push(' ');
        assert(out@ =~= card_chars(self.cards@) + seq![' ']);
        push_decimal(&mut out, self.bid as u64);
        string_of(&out)
    }
}

impl std::str::FromStr for Hand {
    type Err = HandError;

    fn from_str(s: &str) -> (r: Result<Hand, HandError>)
        ensures
            match r {
                Ok(hand) => hand_of(s@) == Ok::<(Seq<Card>, u32), HandError>(
                    (hand.cards@, hand.bid),
                ),
                Err(e) => hand_of(s@) == Err::<(Seq<Card>, u32), HandError>(e),
            },
    {
        Hand::parse(s)
    }
}

/// The scores of the hands.
pub open spec fn scores_of(hands: Seq<Hand>, jokers: bool) -> Seq<int> {
    Seq::new(hands.len(), |i: int| score_of(hands[i].cards@, jokers))
}

/// Number of hands among the first `n` that come before hand `i` when the
/// hands are put in the order of their scores, hands of the same score
/// staying in the order of the list.
pub open spec fn weaker(scores: Seq<int>, i: int, n: int) -> nat
    decreases n,
{
    if n <= 0 {
        0
    } else {
        weaker(scores, i, n - 1) + if scores[n - 1] < scores[i] || (scores[n - 1] == scores[i] && n
            - 1 < i) {
            1nat
        } else {
            0nat
        }
    }
}

/// The winnings of the first `n` hands: the bid of each times its place,
/// counted from one, in the order of the scores.
pub open spec fn winnings(hands: Seq<Hand>, jokers: bool, n: int) -> int
    decreases n,
{
    if n <= 0 {
        0
    } else {
        winnings(hands, jokers, n - 1) + (weaker(
            scores_of(hands, jokers),
            n - 1,
            hands.len() as int,
        ) + 1) * hands[n - 1].bid
    }
}

/// The winnings of fewer hands are no larger.
pub proof fn lemma_winnings_grow(hands: Seq<Hand>, jokers: bool, a: int, b: int)
    requires
        a <= b,
    ensures
        winnings(hands, jokers, a) <= winnings(hands, jokers, b),
    decreases b - a,
{
    if a < b {
        lemma_winnings_grow(hands, jokers, a, b - 1);
        let place = weaker(scores_of(hands, jokers), b - 1, hands.len() as int) + 1;
        let bid = hands[b - 1].bid;
        assert(place * bid >= 0) by (nonlinear_arith)
            requires
                place >= 0,
                bid >= 0,
        ;
    }
}

/// The total winnings: the hands are put in the order of their scores, and
/// each wins its bid times its place in that order.
pub fn play(hands: &Vec<Hand>, jokers: bool) -> (total: usize)
    requires
        forall|i: int| 0 <= i < hands.len() ==> (#[trigger] hands[i]).wf(),
        winnings(hands@, jokers, hands.len() as int) <= usize::MAX,
    ensures
        total == winnings(hands@, jokers, hands.len() as int),
{
    let n = hands.len();
    let mut scores: Vec<u32> = Vec::new();
    let ghost all = scores_of(hands@, jokers);
    let mut i: usize = 0;
    while i < n
        invariant
            i <= n,
            n == hands.len(),
            all == scores_of(hands@, jokers),
            forall|k: int| 0 <= k < hands.len() ==> (#[trigger] hands[k]).wf(),
            scores.len() == i,
            forall|k: int| 0 <= k < i ==> #[trigger] scores[k] == all[k],
        decreases n - i,
    {
        assert(hands[i as int].wf());
        scores.push(hands[i].score(jokers));
        i += 1;
    }
    let mut total: usize = 0;
    let mut i: usize = 0;
    while i < n
        invariant
            i <= n,
            n == hands.len(),
            all == scores_of(hands@, jokers),
            scores.len() == n,
            forall|k: int| 0 <= k < n ==> #[trigger] scores[k] == all[k],
            winnings(hands@, jokers, n as int) <= usize::MAX,
            total == winnings(hands@, jokers, i as int),
        decreases n - i,
    {
        let mut before: usize = 0;
        let mut j: usize = 0;
        while j < n
            invariant
                j <= n,
                i < n,
                scores.len() == n,
                all.len() == n,
                forall|k: int| 0 <= k < n ==> #[trigger] scores[k] == all[k],
                before == weaker(all, i as int, j as int),
                before <= j,
                j > i ==> before < j,
            decreases n - j,
        {
            if scores[j] < scores[i] || (scores[j] == scores[i] && j < i) {
                before += 1;
            }
            j += 1;
        }
        proof {
            lemma_winnings_grow(hands@, jokers, i + 1, n as int);
            let place = before + 1;
            let bid = hands[i as int].bid;
            assert(winnings(hands@, jokers, i + 1) == total + place * bid);
            assert(place * bid >= 0) by (nonlinear_arith)
                requires
                    place >= 0,
                    bid >= 0,
            ;
        }
        let rank = before + 1;
        total = total + rank * hands[i].bid as usize;
        i += 1;
    }
    total
}

impl Hand {
    /// Whether the hand has five cards, each one of the thirteen.
    pub fn is_wf(&self) -> (r: bool)
        ensures
            r == self.wf(),
    {
        if self.cards.len() != 5 {
            return false;
        }
        let mut i: usize = 0;
        while i < 5
            invariant
                i <= 5,
                self.cards@.len() == 5,
                forall|k: int| 0 <= k < i ==> rank_of((#[trigger] self.cards@[k]).0) >= 1,
            decreases 5 - i,
        {
            if Card::new(self.cards[i].0).is_err() {
                assert(rank_of(self.cards@[i as int].0) < 1);
                return false;
            }
            i += 1;
        }
        true
    }
}

/// The total winnings, or `None` when they pass the largest number of the
/// machine.
pub fn checked_play(hands: &Vec<Hand>, jokers: bool) -> (r: Option<usize>)
    requires
        forall|i: int| 0 <= i < hands.len() ==> (#[trigger] hands[i]).wf(),
    ensures
        match r {
            Some(total) => total == winnings(hands@, jokers, hands.len() as int),
            None => winnings(hands@, jokers, hands.len() as int) > usize::MAX,
        },
{
    let n = hands.len();
    let mut scores: Vec<u32> = Vec::new();
    let ghost all = scores_of(hands@, jokers);
    let mut i: usize = 0;
    while i < n
        invariant
            i <= n,
            n == hands.len(),
            all == scores_of(hands@, jokers),
            forall|k: int| 0 <= k < hands.len() ==> (#[trigger] hands[k]).wf(),
            scores.len() == i,
            forall|k: int| 0 <= k < i ==> #[trigger] scores[k] == all[k],
        decreases n - i,
    {
        assert(hands[i as int].wf());
        scores.push(hands[i].score(jokers));
        i += 1;
    }
    let mut total: usize = 0;
    let mut i: usize = 0;
    while i < n
        invariant
            i <= n,
            n == hands.len(),
            all == scores_of(hands@, jokers),
            scores.len() == n,
            forall|k: int| 0 <= k < n ==> #[trigger] scores[k] == all[k],
            total == winnings(hands@, jokers, i as int),
        decreases n - i,
    {
        let mut before: usize = 0;
        let mut j: usize = 0;
        while j < n
            invariant
                j <= n,
                i < n,
                scores.len() == n,
                all.len() == n,
                forall|k: int| 0 <= k < n ==> #[trigger] scores[k] == all[k],
                before == weaker(all, i as int, j as int),
                before <= j,
                j > i ==> before < j,
            decreases n - j,
        {
            if scores[j] < scores[i] || (scores[j] == scores[i] && j < i) {
                before += 1;
            }
            j += 1;
        }
        let rank = before + 1;
        proof {
            lemma_winnings_grow(hands@, jokers, i + 1, n as int);
            lemma_winnings_grow(hands@, jokers, 0, i as int);
            assert(winnings(hands@, jokers, i + 1) == total + rank * hands[i as int].bid);
        }
        let won = match rank.checked_mul(hands[i].bid as usize) {
            Some(won) => won,
            None => {
                return None;
            },
        };
        total = match total.checked_add(won) {
            Some(sum) => sum,
            None => {
                return None;
            },
        };
        i += 1;
    }
    Some(total)
}

} // verus!
