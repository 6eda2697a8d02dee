//! Scratchcards: a card lists winning numbers and the numbers one has; the
//! matches are worth points, and they win copies of the cards that follow.

use std::collections::HashMap;
use std::collections::HashSet;
use vstd::prelude::*;
use crate::text::{
    chars_of, parse_u32, parse_usize, pieces_of, same_text, split, texts_view, unsigned_of,
    words, words_of,
};

verus! {

broadcast use vstd::std_specs::hash::group_hash_axioms;

/// Why a line is no card.
#[derive(Debug, Copy, Clone, PartialEq, Eq, Structural)]
pub enum CardError {
    /// The line does not begin with `Card`, a number and a colon.
    InvalidHeader,
    /// The number of the card is not a number.
    InvalidId,
    /// No bar separates the winning numbers from the others.
    MissingBar,
    /// A number of the card is not a number of 32 bits.
    InvalidNumber,
}

/// The reader of card lines.
pub struct CardParser;

/// A scratchcard.
pub struct Card {
    pub id: usize,
    pub winning: HashSet<u32>,
    pub numbers: Vec<u32>,
}

/// The numbers that the first `n` words write.
pub open spec fn numbers_of(words: Seq<Seq<char>>, n: int) -> Result<Seq<u32>, CardError>
    decreases n,
{
    if n <= 0 {
        Ok(seq![])
    } else {
        match numbers_of(words, n - 1) {
            Ok(front) => match unsigned_of(words[n - 1], u32::MAX as nat) {
                Some(v) => Ok(front.push(v as u32)),
                None => Err(CardError::InvalidNumber),
            },
            Err(e) => Err(e),
        }
    }
}

/// The number of the card that a header writes: the word `Card` and a
/// number.
pub open spec fn id_of(header: Seq<char>) -> Result<usize, CardError> {
    let parts = words_of(header);
    if parts.len() != 2 || parts[0] != "Card"@ {
        Err(CardError::InvalidHeader)
    } else {
        match unsigned_of(parts[1], usize::MAX as nat) {
            Some(id) => Ok(id as usize),
            None => Err(CardError::InvalidId),
        }
    }
}

/// What a card line writes: the number of the card, the winning numbers and
/// the numbers one has. The header ends at a colon, and a bar separates the
/// two lists of numbers.
pub open spec fn card_of(line: Seq<char>) -> Result<(usize, Seq<u32>, Seq<u32>), CardError> {
    let parts = pieces_of(line, ':');
    if parts.len() != 2 {
        Err(CardError::InvalidHeader)
    } else {
        match id_of(parts[0]) {
            Err(e) => Err(e),
            Ok(id) => {
                let lists = pieces_of(parts[1], '|');
                if lists.len() != 2 {
                    Err(CardError::MissingBar)
                } else {
                    let winning = words_of(lists[0]);
                    let numbers = words_of(lists[1]);
                    match numbers_of(winning, winning.len() as int) {
                        Err(e) => Err(e),
                        Ok(w) => match numbers_of(numbers, numbers.len() as int) {
                            Err(e) => Err(e),
                            Ok(n) => Ok((id, w, n)),
                        },
                    }
                }
            },
        }
    }
}

/// The numbers among the first `n` that are winning numbers, in the order
/// written.
pub open spec fn winners(winning: Set<u32>, numbers: Seq<u32>, n: int) -> Seq<u32>
    decreases n,
{
    if n <= 0 {
        seq![]
    } else if winning.contains(numbers[n - 1]) {
        winners(winning, numbers, n - 1).push(numbers[n - 1])
    } else {
        winners(winning, numbers, n - 1)
    }
}

/// Two to the power of `n`.
pub open spec fn two_to(n: nat) -> nat
    decreases n,
{
    if n == 0 {
        1
    } else {
        2 * two_to((n - 1) as nat)
    }
}

/// The points that `count` matches are worth: one for the first match, and
/// twice as many with every further one.
pub open spec fn points_for(count: nat) -> nat {
    if count == 0 {
        0
    } else {
        two_to((count - 1) as nat)
    }
}

/// The powers of two up to the thirty-first.
proof fn lemma_two_to(n: nat)
    requires
        n <= 31,
    ensures
        two_to(n) <= 0x8000_0000,
        n < 31 ==> two_to(n) <= 0x4000_0000,
    decreases n,
{
    reveal_with_fuel(two_to, 33);
}

/// Once a word writes no number, the words write none.
proof fn lemma_numbers_fail(words: Seq<Seq<char>>, n: int, end: int)
    requires
        n <= end,
        numbers_of(words, n) is Err,
    ensures
        numbers_of(words, end) == numbers_of(words, n),
    decreases end - n,
{
    if n < end {
        lemma_numbers_fail(words, n, end - 1);
    }
}

/// The set of the first `n` numbers.
pub open spec fn set_of(numbers: Seq<u32>, n: int) -> Set<u32>
    decreases n,
{
    if n <= 0 {
        Set::empty()
    } else {
        set_of(numbers, n - 1).insert(numbers[n - 1])
    }
}

impl Card {
    /// The numbers one has that are winning numbers, in the order written.
    pub fn winning_numbers(&self) -> (won: Vec<u32>)
        ensures
            won@ == winners(self.winning@, self.numbers@, self.numbers@.len() as int),
    {
        let mut won: Vec<u32> = Vec::new();
        let mut i: usize = 0;
        while i < self.numbers.len()
            invariant
                i <= self.numbers.len(),
                won@ == winners(self.winning@, self.numbers@, i as int),
            decreases self.numbers.len() - i,
        {
            let n = self.numbers[i];
            if self.winning.contains(&n) {
                won.push(n);
            }
            i += 1;
        }
        won
    }

    /// Number of matches of the card.
    pub open spec fn matches(&self) -> nat {
        winners(self.winning@, self.numbers@, self.numbers@.len() as int).len()
    }

    /// The points of the card: one for the first match, and twice as many
    /// with every further one.
    pub fn points(&self) -> (p: u32)
        requires
            self.matches() <= 32,
        ensures
            p == points_for(self.matches()),
    {
        let count = self.winning_numbers().len();
        if count == 0 {
            0
        } else {
            let mut p: u32 = 1;
            let mut k: usize = 1;
            while k < count
                invariant
                    1 <= k <= count <= 32,
                    p == two_to((k - 1) as nat),
                decreases count - k,
            {
                proof {
                    lemma_two_to((k - 1) as nat);
                }
                p = p * 2;
                k += 1;
            }
            p
        }
    }
}

impl CardParser {
    /// Reads the numbers that a list of words writes.
    pub fn numbers(words: &Vec<Vec<char>>) -> (r: Result<Vec<u32>, CardError>)
        ensures
            match r {
                Ok(numbers) => numbers_of(texts_view(words@), words.len() as int) == Ok::<
                    Seq<u32>,
                    CardError,
                >(numbers@),
                Err(e) => numbers_of(texts_view(words@), words.len() as int) == Err::<
                    Seq<u32>,
                    CardError,
                >(e),
            },
    {
        let mut numbers: Vec<u32> = Vec::new();
        let ghost all = texts_view(words@);
        let mut i: usize = 0;
        while i < words.len()
            invariant
                i <= words.len(),
                all == texts_view(words@),
                numbers_of(all, i as int) == Ok::<Seq<u32>, CardError>(numbers@),
            decreases words.len() - i,
        {
            assert(all[i as int] == words[i as int]@);
            match parse_u32(&words[i]) {
                Some(n) => {
                    numbers.push(n);
                },
                None => {
                    proof {
                        lemma_numbers_fail(all, i + 1, words.len() as int);
                    }
                    return Err(CardError::InvalidNumber);
                },
            }
            i += 1;
        }
        Ok(numbers)
    }

    /// Reads the number of the card from the header of the line.
    pub fn id(header: &Vec<char>) -> (r: Result<usize, CardError>)
        ensures
            r == id_of(header@),
    {
        let parts = words(header);
        if parts.len() != 2 {
            return Err(CardError::InvalidHeader);
        }
        assert(texts_view(parts@)[0] == parts[0]@);
        assert(texts_view(parts@)[1] == parts[1]@);
        if !same_text(&parts[0], "Card") {
            return Err(CardError::InvalidHeader);
        }
        match parse_usize(&parts[1]) {
            Some(id) => Ok(id),
            None => Err(CardError::InvalidId),
        }
    }

    /// Reads a card from a line such as `Card 1: 41 48 | 83 86 6`.
    pub fn parse(line: &str) -> (r: Result<Card, CardError>)
        ensures
            match r {
                Ok(card) => card_of(line@) is Ok && card.id == card_of(line@)->Ok_0.0
                    && card.winning@ == set_of(
                    card_of(line@)->Ok_0.1,
                    card_of(line@)->Ok_0.1.len() as int,
                ) && card.numbers@ == card_of(line@)->Ok_0.2,
                Err(e) => card_of(line@) == Err::<(usize, Seq<u32>, Seq<u32>), CardError>(e),
            },
    {
        let chars = chars_of(line);
        let parts = split(&chars, ':');
        if parts.len() != 2 {
            return Err(CardError::InvalidHeader);
        }
        assert(texts_view(parts@)[0] == parts[0]@);
        assert(texts_view(parts@)[1] == parts[1]@);
        let id = match CardParser::id(&parts[0]) {
            Ok(id) => id,
            Err(e) => {
                return Err(e);
            },
        };
        let lists = split(&parts[1], '|');
        if lists.len() != 2 {
            return Err(CardError::MissingBar);
        }
        assert(texts_view(lists@)[0] == lists[0]@);
        assert(texts_view(lists@)[1] == lists[1]@);
        let winning_words = words(&lists[0]);
        let number_words = words(&lists[1]);
        let winning_list = match CardParser::numbers(&winning_words) {
            Ok(list) => list,
            Err(e) => {
                return Err(e);
            },
        };
        let numbers = match CardParser::numbers(&number_words) {
            Ok(list) => list,
            Err(e) => {
                return Err(e);
            },
        };
        let mut winning: HashSet<u32> = HashSet::new();
        let mut i: usize = 0;
        while i < winning_list.len()
            invariant
                i <= winning_list.len(),
                winning@ == set_of(winning_list@, i as int),
            decreases winning_list.len() - i,
        {
            winning.insert(winning_list[i]);
            i += 1;
        }
        Ok(Card { id, winning, numbers })
    }
}

impl TryFrom<String> for Card {
    type Error = CardError;

    fn try_from(value: String) -> (r: Result<Card, CardError>)
        ensures
            match r {
                Ok(card) => card_of(value@) is Ok && card.id == card_of(value@)->Ok_0.0
                    && card.winning@ == set_of(
                    card_of(value@)->Ok_0.1,
                    card_of(value@)->Ok_0.1.len() as int,
                ) && card.numbers@ == card_of(value@)->Ok_0.2,
                Err(e) => card_of(value@) == Err::<(usize, Seq<u32>, Seq<u32>), CardError>(e),
            },
    {
        CardParser::parse(value.as_str())
    }
}

impl vstd::std_specs::convert::TryFromSpecImpl<String> for Card {
    open spec fn obeys_try_from_spec() -> bool {
        false
    }

    open spec fn try_from_spec(value: String) -> Result<Card, CardError> {
        arbitrary()
    }
}

/// The copies of the card with the number `id`, where a card that the map
/// does not list is there once.
pub open spec fn copies_of(copies: Map<usize, u32>, id: usize) -> u32 {
    if copies.contains_key(id) {
        copies[id]
    } else {
        1
    }
}

/// The copies after the card `id` with `won` matches has been played with
/// `current` copies of it: each of the first `k` cards behind it has
/// `current` copies more.
pub open spec fn awarded(copies: Map<usize, u32>, id: int, current: int, k: int) -> Map<usize, u32>
    decreases k,
{
    if k <= 0 {
        copies
    } else {
        let before = awarded(copies, id, current, k - 1);
        let target = (id + k) as usize;
        before.insert(target, (copies_of(before, target) + current) as u32)
    }
}

/// The copies after the first `n` cards have been played in turn. The cards
/// are numbered from one in the order of the list.
pub open spec fn played(matches: Seq<nat>, n: int) -> Map<usize, u32>
    decreases n,
{
    if n <= 0 {
        Map::empty()
    } else {
        let before = played(matches, n - 1);
        awarded(before, n, copies_of(before, n as usize) as int, matches[n - 1] as int)
    }
}

/// Whether the play of the first `n` cards stays within the numbers of the
/// machine: no card number and no number of copies passes the largest one.
pub open spec fn playable(matches: Seq<nat>, n: int) -> bool
    decreases n,
{
    if n <= 0 {
        true
    } else {
        let before = played(matches, n - 1);
        &&& playable(matches, n - 1)
        &&& n + matches[n - 1] <= usize::MAX
        &&& forall|k: int|
            0 <= k < matches[n - 1] ==> copies_of(
                #[trigger] awarded(before, n, copies_of(before, n as usize) as int, k),
                (n + k + 1) as usize,
            ) + copies_of(before, n as usize) <= u32::MAX
    }
}

/// The numbers of matches of the cards.
pub open spec fn matches_of(cards: Seq<Card>) -> Seq<nat> {
    Seq::new(cards.len(), |i: int| cards[i].matches())
}

/// Plays the cards in turn: every match of a card wins, for each copy of
/// the card, one more copy of one of the cards behind it. The result lists
/// the copies of every card that has won any; every other card is there
/// once.
pub fn play(cards: &Vec<Card>) -> (copies: HashMap<usize, u32>)
    requires
        playable(matches_of(cards@), cards.len() as int),
    ensures
        copies@ == played(matches_of(cards@), cards.len() as int),
{
    let mut copies: HashMap<usize, u32> = HashMap::new();
    let ghost matches = matches_of(cards@);
    let mut i: usize = 0;
    while i < cards.len()
        invariant
            i <= cards.len(),
            matches == matches_of(cards@),
            playable(matches, cards.len() as int),
            copies@ == played(matches, i as int),
        decreases cards.len() - i,
    {
        proof {
            lemma_playable_prefix(matches, i + 1, cards.len() as int);
        }
        let id = i + 1;
        let current = match copies.get(&id) {
            Some(c) => *c,
            None => 1,
        };
        let won = cards[i].winning_numbers().len();
        assert(won == matches[i as int]);
        let ghost before = copies@;
        let mut k: usize = 0;
        while k < won
            invariant
                k <= won,
                id == i + 1,
                i < cards.len(),
                won == matches[i as int],
                before == played(matches, i as int),
                current == copies_of(before, id),
                playable(matches, i + 1),
                copies@ == awarded(before, id as int, current as int, k as int),
            decreases won - k,
        {
            let won_id = id + k + 1;
            let won_copies = match copies.get(&won_id) {
                Some(c) => *c,
                None => 1,
            };
            proof {
                let n = i + 1;
                let prior = played(matches, n - 1);
                assert(prior == before);
                assert(forall|j: int|
                    0 <= j < matches[n - 1] ==> copies_of(
                        #[trigger] awarded(prior, n, copies_of(prior, n as usize) as int, j),
                        (n + j + 1) as usize,
                    ) + copies_of(prior, n as usize) <= u32::MAX);
                assert(n + matches[n - 1] <= usize::MAX);
                assert(copies_of(
                    awarded(prior, n, copies_of(prior, n as usize) as int, k as int),
                    (n + k + 1) as usize,
                ) + copies_of(prior, n as usize) <= u32::MAX);
            }
            copies.insert(won_id, won_copies + current);
            k += 1;
        }
        i += 1;
    }
    copies
}

/// What can be played to the end can be played up to any card.
proof fn lemma_playable_prefix(matches: Seq<nat>, n: int, end: int)
    requires
        n <= end,
        playable(matches, end),
    ensures
        playable(matches, n),
    decreases end - n,
{
    if n < end {
        lemma_playable_prefix(matches, n, end - 1);
    }
}

/// The number of cards in the end: the copies of the first `n` cards added
/// up.
pub open spec fn total_of(copies: Map<usize, u32>, n: int) -> int
    decreases n,
{
    if n <= 0 {
        0
    } else {
        total_of(copies, n - 1) + copies_of(copies, n as usize)
    }
}

/// The number of cards in the end: the copies of the cards with the numbers
/// from one to `count` added up.
pub fn total(copies: &HashMap<usize, u32>, count: usize) -> (sum: u32)
    requires
        total_of(copies@, count as int) <= u32::MAX,
    ensures
        sum == total_of(copies@, count as int),
{
    let mut sum: u32 = 0;
    let mut id: usize = 0;
    while id < count
        invariant
            id <= count,
            total_of(copies@, count as int) <= u32::MAX,
            sum == total_of(copies@, id as int),
        decreases count - id,
    {
        proof {
            lemma_total_grows(copies@, id + 1, count as int);
        }
        id += 1;
        let n = match copies.get(&id) {
            Some(c) => *c,
            None => 1,
        };
        sum = sum + n;
    }
    sum
}

/// The sum over fewer cards is no larger.
proof fn lemma_total_grows(copies: Map<usize, u32>, a: int, b: int)
    requires
        a <= b,
    ensures
        total_of(copies, a) <= total_of(copies, b),
    decreases b - a,
{
    if a < b {
        lemma_total_grows(copies, a, b - 1);
    }
}

/// Plays the cards in turn, or gives `None` when a card number or a number
/// of copies passes the largest number of the machine.
pub fn checked_play(cards: &Vec<Card>) -> (r: Option<HashMap<usize, u32>>)
    ensures
        match r {
            Some(copies) => playable(matches_of(cards@), cards.len() as int) && copies@ == played(
                matches_of(cards@),
                cards.len() as int,
            ),
            None => !playable(matches_of(cards@), cards.len() as int),
        },
{
    let mut copies: HashMap<usize, u32> = HashMap::new();
    let ghost matches = matches_of(cards@);
    let mut i: usize = 0;
    while i < cards.len()
        invariant
            i <= cards.len(),
            matches == matches_of(cards@),
            playable(matches, i as int),
            copies@ == played(matches, i as int),
        decreases cards.len() - i,
    {
        let id = i + 1;
        let current = match copies.get(&id) {
            Some(c) => *c,
            None => 1,
        };
        let won = cards[i].winning_numbers().len();
        assert(won == matches[i as int]);
        let ghost before = copies@;
        if won > usize::MAX - id {
            proof {
                if playable(matches, cards.len() as int) {
                    lemma_playable_prefix(matches, i + 1, cards.len() as int);
                }
            }
            return None;
        }
        let mut k: usize = 0;
        while k < won
            invariant
                k <= won,
                id == i + 1,
                i < cards.len(),
                id + won <= usize::MAX,
                matches == matches_of(cards@),
                won == matches[i as int],
                before == played(matches, i as int),
                current == copies_of(before, id),
                forall|j: int|
                    0 <= j < k ==> copies_of(
                        #[trigger] awarded(before, id as int, current as int, j),
                        (id + j + 1) as usize,
                    ) + current <= u32::MAX,
                copies@ == awarded(before, id as int, current as int, k as int),
            decreases won - k,
        {
            let won_id = id + k + 1;
            let won_copies = match copies.get(&won_id) {
                Some(c) => *c,
                None => 1,
            };
            match won_copies.checked_add(current) {
                Some(sum) => {
                    copies.insert(won_id, sum);
                },
                None => {
                    proof {
                        let n = i + 1;
                        assert(copies_of(
                            awarded(before, n, copies_of(before, n as usize) as int, k as int),
                            (n + k + 1) as usize,
                        ) + copies_of(before, n as usize) > u32::MAX);
                        assert(!playable(matches, i + 1));
                        if playable(matches, cards.len() as int) {
                            lemma_playable_prefix(matches, i + 1, cards.len() as int);
                        }
                    }
                    return None;
                },
            }
            k += 1;
        }
        assert(playable(matches, i + 1));
        i += 1;
    }
    Some(copies)
}

/// The number of cards in the end, or `None` when it passes the largest
/// number of 32 bits.
pub fn checked_total(copies: &HashMap<usize, u32>, count: usize) -> (r: Option<u32>)
    ensures
        match r {
            Some(sum) => sum == total_of(copies@, count as int),
            None => total_of(copies@, count as int) > u32::MAX,
        },
{
    let mut sum: u32 = 0;
    let mut id: usize = 0;
    while id < count
        invariant
            id <= count,
            sum == total_of(copies@, id as int),
        decreases count - id,
    {
        proof {
            lemma_total_grows(copies@, id + 1, count as int);
        }
        id += 1;
        let n = match copies.get(&id) {
            Some(c) => *c,
            None => 1,
        };
        sum = match sum.checked_add(n) {
            Some(s) => s,
            None => {
                return None;
            },
        };
    }
    Some(sum)
}

} // verus!
