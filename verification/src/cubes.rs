//! The cube game: a game is a numbered line of picks, each a count of cubes
//! of one colour.

use vstd::prelude::*;
use crate::text::{
    chars_of, parse_u8, parse_usize, pieces_of, same_text, split, texts_view, unsigned_of, words,
    words_of,
};

verus! {

/// The colour of a cube.
#[derive(Debug, Copy, Clone, PartialEq, Eq, Structural)]
pub enum Color {
    Red,
    Green,
    Blue,
}

/// Why a line is no game.
#[derive(Debug, Copy, Clone, PartialEq, Eq, Structural)]
pub enum GameError {
    /// The line does not begin with `Game`, a number and a colon.
    InvalidHeader,
    /// The number of the game is not a number.
    InvalidId,
    /// A pick is not a count followed by a colour.
    InvalidPick,
    /// The count of a pick is not a number of at most 255.
    InvalidCount,
    /// The colour of a pick is not red, green or blue.
    InvalidColor,
}

/// A number of cubes of each colour.
#[derive(Debug)]
pub struct DieSet {
    red: u8,
    green: u8,
    blue: u8,
}

/// A number of cubes of one colour.
#[derive(Debug)]
pub struct Pick {
    pub color: Color,
    pub count: u8,
}

/// A game: its number and its picks in the order written.
#[derive(Debug)]
pub struct Game {
    pub id: usize,
    pub picks: Vec<Pick>,
}

/// The reader of game lines.
pub struct GameParser;

/// The colour that a word names.
pub open spec fn color_named(word: Seq<char>) -> Result<Color, GameError> {
    if word == "red"@ {
        Ok(Color::Red)
    } else if word == "green"@ {
        Ok(Color::Green)
    } else if word == "blue"@ {
        Ok(Color::Blue)
    } else {
        Err(GameError::InvalidColor)
    }
}

/// The pick that a text writes: a count and a colour, with white space
/// between them and possibly around them.
pub open spec fn pick_of(text: Seq<char>) -> Result<(Color, u8), GameError> {
    let parts = words_of(text);
    if parts.len() != 2 {
        Err(GameError::InvalidPick)
    } else {
        match unsigned_of(parts[0], 255) {
            None => Err(GameError::InvalidCount),
            Some(count) => match color_named(parts[1]) {
                Ok(color) => Ok((color, count as u8)),
                Err(e) => Err(e),
            },
        }
    }
}

/// The picks that the first `n` texts write.
pub open spec fn picks_of(texts: Seq<Seq<char>>, n: int) -> Result<Seq<(Color, u8)>, GameError>
    decreases n,
{
    if n <= 0 {
        Ok(seq![])
    } else {
        match picks_of(texts, n - 1) {
            Ok(front) => match pick_of(texts[n - 1]) {
                Ok(pick) => Ok(front.push(pick)),
                Err(e) => Err(e),
            },
            Err(e) => Err(e),
        }
    }
}

/// The picks of the first `n` sets, one set after the other. The picks of a
/// set are separated by commas.
pub open spec fn sets_of(sets: Seq<Seq<char>>, n: int) -> Result<Seq<(Color, u8)>, GameError>
    decreases n,
{
    if n <= 0 {
        Ok(seq![])
    } else {
        match sets_of(sets, n - 1) {
            Ok(front) => {
                let picks = pieces_of(sets[n - 1], ',');
                match picks_of(picks, picks.len() as int) {
                    Ok(more) => Ok(front + more),
                    Err(e) => Err(e),
                }
            },
            Err(e) => Err(e),
        }
    }
}

/// The number of the game that a header writes: the word `Game` and a
/// number.
pub open spec fn id_of(header: Seq<char>) -> Result<usize, GameError> {
    let parts = words_of(header);
    if parts.len() != 2 || parts[0] != "Game"@ {
        Err(GameError::InvalidHeader)
    } else {
        match unsigned_of(parts[1], usize::MAX as nat) {
            Some(id) => Ok(id as usize),
            None => Err(GameError::InvalidId),
        }
    }
}

/// The game that a line writes: a header, a colon, and sets of picks
/// separated by semicolons.
pub open spec fn game_of(line: Seq<char>) -> Result<(usize, Seq<(Color, u8)>), GameError> {
    let parts = pieces_of(line, ':');
    if parts.len() != 2 {
        Err(GameError::InvalidHeader)
    } else {
        match id_of(parts[0]) {
            Err(e) => Err(e),
            Ok(id) => {
                let sets = pieces_of(parts[1], ';');
                match sets_of(sets, sets.len() as int) {
                    Ok(picks) => Ok((id, picks)),
                    Err(e) => Err(e),
                }
            },
        }
    }
}

/// The picks of a game as plain values.
pub open spec fn picks_view(picks: Seq<Pick>) -> Seq<(Color, u8)> {
    Seq::new(picks.len(), |i: int| (picks[i].color, picks[i].count))
}

impl Color {
    /// The colour that a word names.
    pub fn named(word: &Vec<char>) -> (r: Result<Color, GameError>)
        ensures
            r == color_named(word@),
    {
        if same_text(word, "red") {
            Ok(Color::Red)
        } else if same_text(word, "green") {
            Ok(Color::Green)
        } else if same_text(word, "blue") {
            Ok(Color::Blue)
        } else {
            Err(GameError::InvalidColor)
        }
    }
}

impl TryFrom<&str> for Color {
    type Error = GameError;

    fn try_from(value: &str) -> (r: Result<Color, GameError>) {
        let word = chars_of(value);
        Color::named(&word)
    }
}

impl vstd::std_specs::convert::TryFromSpecImpl<&str> for Color {
    open spec fn obeys_try_from_spec() -> bool {
        true
    }

    open spec fn try_from_spec(value: &str) -> Result<Color, GameError> {
        color_named(value@)
    }
}

/// Once a pick is not understood, the picks are not.
proof fn lemma_picks_fail(texts: Seq<Seq<char>>, n: int, end: int)
    requires
        n <= end,
        picks_of(texts, n) is Err,
    ensures
        picks_of(texts, end) == picks_of(texts, n),
    decreases end - n,
{
    if n < end {
        lemma_picks_fail(texts, n, end - 1);
    }
}

/// Once a set is not understood, the sets are not.
proof fn lemma_sets_fail(sets: Seq<Seq<char>>, n: int, end: int)
    requires
        n <= end,
        sets_of(sets, n) is Err,
    ensures
        sets_of(sets, end) == sets_of(sets, n),
    decreases end - n,
{
    if n < end {
        lemma_sets_fail(sets, n, end - 1);
    }
}

impl GameParser {
    /// Reads one pick: a count and a colour.
    pub fn pick(text: &Vec<char>) -> (r: Result<Pick, GameError>)
        ensures
            match r {
                Ok(pick) => pick_of(text@) == Ok::<(Color, u8), GameError>((pick.color, pick.count)),
                Err(e) => pick_of(text@) == Err::<(Color, u8), GameError>(e),
            },
    {
        let parts = words(text);
        if parts.len() != 2 {
            return Err(GameError::InvalidPick);
        }
        assert(texts_view(parts@)[0] == parts[0]@);
        assert(texts_view(parts@)[1] == parts[1]@);
        match parse_u8(&parts[0]) {
            None => Err(GameError::InvalidCount),
            Some(count) => match Color::named(&parts[1]) {
                Ok(color) => Ok(Pick { color, count }),
                Err(e) => Err(e),
            },
        }
    }

    /// Reads the picks of one set into `picks`.
    fn set(text: &Vec<char>, picks: &mut Vec<Pick>) -> (r: Result<(), GameError>)
        ensures
            ({
                let pieces = pieces_of(text@, ',');
                match r {
                    Ok(_) => picks_of(pieces, pieces.len() as int) is Ok && picks_view(
                        final(picks)@,
                    ) == picks_view(old(picks)@) + picks_of(pieces, pieces.len() as int)->Ok_0,
                    Err(e) => picks_of(pieces, pieces.len() as int) == Err::<
                        Seq<(Color, u8)>,
                        GameError,
                    >(e),
                }
            }),
    {
        let parts = split(text, ',');
        let ghost pieces = texts_view(parts@);
        let ghost before = picks_view(picks@);
        let mut i: usize = 0;
        assert(before + Seq::<(Color, u8)>::empty() =~= before);
        while i < parts.len()
            invariant
                i <= parts.len(),
                pieces == texts_view(parts@),
                pieces == pieces_of(text@, ','),
                picks_of(pieces, i as int) is Ok,
                picks_view(picks@) == before + picks_of(pieces, i as int)->Ok_0,
            decreases parts.len() - i,
        {
            let ghost so_far = picks_view(picks@);
            assert(pieces[i as int] == parts[i as int]@);
            match GameParser::pick(&parts[i]) {
                Ok(pick) => {
                    let ghost entry = (pick.color, pick.count);
                    picks.push(pick);
                    assert(picks_view(picks@) =~= so_far.push(entry));
                    assert(before + picks_of(pieces, i as int)->Ok_0.push(entry) =~= so_far.push(
                        entry,
                    ));
                },
                Err(e) => {
                    proof {
                        lemma_picks_fail(pieces, i + 1, parts.len() as int);
                    }
                    return Err(e);
                },
            }
            i += 1;
        }
        Ok(())
    }

    /// Reads the number of the game from the header of the line.
    pub fn id(header: &Vec<char>) -> (r: Result<usize, GameError>)
        ensures
            r == id_of(header@),
    {
        let parts = words(header);
        if parts.len() != 2 {
            return Err(GameError::InvalidHeader);
        }
        assert(texts_view(parts@)[0] == parts[0]@);
        assert(texts_view(parts@)[1] == parts[1]@);
        if !same_text(&parts[0], "Game") {
            return Err(GameError::InvalidHeader);
        }
        match parse_usize(&parts[1]) {
            Some(id) => Ok(id),
            None => Err(GameError::InvalidId),
        }
    }

    /// Reads a game from a line such as
    /// `Game 1: 3 blue, 4 red; 1 red, 2 green`.
    pub fn parse(line: &str) -> (r: Result<Game, GameError>)
        ensures
            match r {
                Ok(game) => game_of(line@) == Ok::<(usize, Seq<(Color, u8)>), GameError>(
                    (game.id, picks_view(game.picks@)),
                ),
                Err(e) => game_of(line@) == Err::<(usize, Seq<(Color, u8)>), GameError>(e),
            },
    {
        let chars = chars_of(line);
        let parts = split(&chars, ':');
        if parts.len() != 2 {
            return Err(GameError::InvalidHeader);
        }
        assert(texts_view(parts@)[0] == parts[0]@);
        assert(texts_view(parts@)[1] == parts[1]@);
        let id = match GameParser::id(&parts[0]) {
            Ok(id) => id,
            Err(e) => {
                return Err(e);
            },
        };
        let sets = split(&parts[1], ';');
        let ghost all = texts_view(sets@);
        let mut picks: Vec<Pick> = Vec::new();
        let mut i: usize = 0;
        assert(picks_view(picks@) =~= Seq::<(Color, u8)>::empty());
        while i < sets.len()
            invariant
                i <= sets.len(),
                all == texts_view(sets@),
                all == pieces_of(parts[1]@, ';'),
                texts_view(parts@) == pieces_of(line@, ':'),
                parts.len() == 2,
                id_of(parts[0]@) == Ok::<usize, GameError>(id),
                sets_of(all, i as int) == Ok::<Seq<(Color, u8)>, GameError>(picks_view(picks@)),
            decreases sets.len() - i,
        {
            assert(all[i as int] == sets[i as int]@);
            match GameParser::set(&sets[i], &mut picks) {
                Ok(_) => {},
                Err(e) => {
                    proof {
                        lemma_sets_fail(all, i + 1, sets.len() as int);
                    }
                    return Err(e);
                },
            }
            i += 1;
        }
        Ok(Game { id, picks })
    }
}

impl TryFrom<&str> for Game {
    type Error = GameError;

    fn try_from(value: &str) -> (r: Result<Game, GameError>)
        ensures
            match r {
                Ok(game) => game_of(value@) == Ok::<(usize, Seq<(Color, u8)>), GameError>(
                    (game.id, picks_view(game.picks@)),
                ),
                Err(e) => game_of(value@) == Err::<(usize, Seq<(Color, u8)>), GameError>(e),
            },
    {
        GameParser::parse(value)
    }
}

impl vstd::std_specs::convert::TryFromSpecImpl<&str> for Game {
    open spec fn obeys_try_from_spec() -> bool {
        false
    }

    open spec fn try_from_spec(value: &str) -> Result<Game, GameError> {
        arbitrary()
    }
}

/// Whether every one of the first `n` picks stays within twelve red,
/// thirteen green and fourteen blue cubes.
pub open spec fn possible(picks: Seq<(Color, u8)>, n: int) -> bool {
    forall|i: int|
        0 <= i < n ==> match (#[trigger] picks[i]).0 {
            Color::Red => picks[i].1 <= 12,
            Color::Green => picks[i].1 <= 13,
            Color::Blue => picks[i].1 <= 14,
        }
}

/// Whether the game can be played with twelve red, thirteen green and
/// fourteen blue cubes.
pub fn filter(game: &Game) -> (r: bool)
    ensures
        r == possible(picks_view(game.picks@), game.picks@.len() as int),
{
    let mut i: usize = 0;
    let ghost picks = picks_view(game.picks@);
    while i < game.picks.len()
        invariant
            i <= game.picks.len(),
            picks == picks_view(game.picks@),
            possible(picks, i as int),
        decreases game.picks.len() - i,
    {
        let pick = &game.picks[i];
        assert(picks[i as int] == (pick.color, pick.count));
        let limit: u8 = match pick.color {
            Color::Red => 12,
            Color::Green => 13,
            Color::Blue => 14,
        };
        if pick.count > limit {
            return false;
        }
        i += 1;
    }
    true
}

/// The largest count of cubes of `color` among the first `n` picks, or zero
/// when there is none.
pub open spec fn most_of(picks: Seq<(Color, u8)>, color: Color, n: int) -> u8
    decreases n,
{
    if n <= 0 {
        0
    } else {
        let before = most_of(picks, color, n - 1);
        if picks[n - 1].0 == color && picks[n - 1].1 > before {
            picks[n - 1].1
        } else {
            before
        }
    }
}

/// The fewest cubes of each colour that the game can be played with: the
/// largest count of red, of green and of blue among its picks.
pub fn game_max_per_color(game: &Game) -> (r: (u8, u8, u8))
    ensures
        r.0 == most_of(picks_view(game.picks@), Color::Red, game.picks@.len() as int),
        r.1 == most_of(picks_view(game.picks@), Color::Green, game.picks@.len() as int),
        r.2 == most_of(picks_view(game.picks@), Color::Blue, game.picks@.len() as int),
{
    let mut red: u8 = 0;
    let mut green: u8 = 0;
    let mut blue: u8 = 0;
    let ghost picks = picks_view(game.picks@);
    let mut i: usize = 0;
    while i < game.picks.len()
        invariant
            i <= game.picks.len(),
            picks == picks_view(game.picks@),
            red == most_of(picks, Color::Red, i as int),
            green == most_of(picks, Color::Green, i as int),
            blue == most_of(picks, Color::Blue, i as int),
        decreases game.picks.len() - i,
    {
        let pick = &game.picks[i];
        assert(picks[i as int] == (pick.color, pick.count));
        match pick.color {
            Color::Red => {
                if pick.count > red {
                    red = pick.count;
                }
            },
            Color::Green => {
                if pick.count > green {
                    green = pick.count;
                }
            },
            Color::Blue => {
                if pick.count > blue {
                    blue = pick.count;
                }
            },
        }
        i += 1;
    }
    (red, green, blue)
}

/// The power of a set of cubes.
pub fn power(cubes: (u8, u8, u8)) -> (p: u32)
    ensures
        p == cubes.0 * cubes.1 * cubes.2,
{
    assert(cubes.0 * cubes.1 <= 255 * 255) by (nonlinear_arith)
        requires
            cubes.0 <= 255,
            cubes.1 <= 255,
    ;
    assert(cubes.0 * cubes.1 * cubes.2 <= 255 * 255 * 255) by (nonlinear_arith)
        requires
            cubes.0 * cubes.1 <= 255 * 255,
            cubes.2 <= 255,
    ;
    cubes.0 as u32 * cubes.1 as u32 * cubes.2 as u32
}

} // verus!
