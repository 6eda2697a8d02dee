use advent2023::cubes::{filter, game_max_per_color, power, Color, Game, GameError, GameParser, Pick};

const EXAMPLE: &str = "\
Game 1: 3 blue, 4 red; 1 red, 2 green, 6 blue; 2 green
Game 2: 1 blue, 2 green; 3 green, 4 blue, 1 red; 1 green, 1 blue
Game 3: 8 green, 6 blue, 20 red; 5 blue, 4 red, 13 green; 5 green, 1 red
Game 4: 1 green, 3 red, 6 blue; 3 green, 6 red; 3 green, 15 blue, 14 red
Game 5: 6 red, 1 blue, 3 green; 2 blue, 1 red, 2 green
";

fn games() -> Vec<Game> {
    EXAMPLE.lines().map(|line| Game::try_from(line).unwrap()).collect()
}

#[test]
fn d2p1_example_test() {
    let _example = EXAMPLE;
}

#[test]
fn d2p2_example_test() {
    let _example = EXAMPLE;
}

#[test]
fn possible_games_of_the_example() {
    let sum: usize = games().iter().filter(|g| filter(g)).map(|g| g.id).sum();
    assert_eq!(sum, 8);
}

#[test]
fn powers_of_the_example() {
    let powers: Vec<u32> = games().iter().map(|g| power(game_max_per_color(g))).collect();
    assert_eq!(powers, vec![48, 12, 1560, 630, 36]);
    assert_eq!(powers.iter().sum::<u32>(), 2286);
    assert_eq!(game_max_per_color(&games()[0]), (4, 2, 6));
    assert_eq!(power((255, 255, 255)), 16_581_375);
}

#[test]
fn a_game_lists_its_picks_in_order() {
    let game = GameParser::parse("Game 17:  3 blue,4 red ;1 red").unwrap();
    assert_eq!(game.id, 17);
    let picks: Vec<(Color, u8)> = game.picks.iter().map(|p| (p.color, p.count)).collect();
    assert_eq!(picks, vec![(Color::Blue, 3), (Color::Red, 4), (Color::Red, 1)]);
}

#[test]
fn colors_by_name() {
    assert_eq!(Color::try_from("red"), Ok(Color::Red));
    assert_eq!(Color::try_from("green"), Ok(Color::Green));
    assert_eq!(Color::try_from("blue"), Ok(Color::Blue));
    assert_eq!(Color::try_from("Red"), Err(GameError::InvalidColor));
    assert_eq!(Color::try_from(""), Err(GameError::InvalidColor));
}

#[test]
fn game_errors() {
    assert_eq!(Game::try_from("3 blue").err(), Some(GameError::InvalidHeader));
    assert_eq!(Game::try_from("Game 1: 3 blue: 4 red").err(), Some(GameError::InvalidHeader));
    assert_eq!(Game::try_from("Play 1: 3 blue").err(), Some(GameError::InvalidHeader));
    assert_eq!(Game::try_from("Game one: 3 blue").err(), Some(GameError::InvalidId));
    assert_eq!(Game::try_from("Game 1:").err(), Some(GameError::InvalidPick));
    assert_eq!(Game::try_from("Game 1: 3 blue,").err(), Some(GameError::InvalidPick));
    assert_eq!(Game::try_from("Game 1: blue").err(), Some(GameError::InvalidPick));
    assert_eq!(Game::try_from("Game 1: 256 blue").err(), Some(GameError::InvalidCount));
    assert_eq!(Game::try_from("Game 1: x blue").err(), Some(GameError::InvalidCount));
    assert_eq!(Game::try_from("Game 1: 3 pink").err(), Some(GameError::InvalidColor));
    assert_eq!(GameParser::pick(&"255 green".chars().collect()).map(|p| p.count), Ok(255));
    assert_eq!(GameParser::id(&"Game 0".chars().collect()), Ok(0));
}

#[test]
fn the_limits_are_twelve_thirteen_fourteen() {
    let within = Game {
        id: 1,
        picks: vec![
            Pick { color: Color::Red, count: 12 },
            Pick { color: Color::Green, count: 13 },
            Pick { color: Color::Blue, count: 14 },
        ],
    };
    assert!(filter(&within));
    for (color, count) in [(Color::Red, 13), (Color::Green, 14), (Color::Blue, 15)] {
        let over = Game { id: 1, picks: vec![Pick { color, count }] };
        assert!(!filter(&over));
    }
    let none = Game { id: 1, picks: vec![] };
    assert!(filter(&none));
    assert_eq!(game_max_per_color(&none), (0, 0, 0));
}
