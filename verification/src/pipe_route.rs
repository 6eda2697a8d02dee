//! Connectivity rules of the pipe maze: which way each connector shape routes
//! a traveller.

use vstd::prelude::*;

verus! {

/// A compass direction on the grid. North is towards row zero.
#[derive(Debug, Clone, Copy, PartialEq, Eq, Structural)]
pub enum Direction {
    N,
    S,
    E,
    W,
}

impl Direction {
    /// The direction pointing the other way.
    pub open spec fn spec_opposite(self) -> Direction {
        match self {
            Direction::N => Direction::S,
            Direction::S => Direction::N,
            Direction::E => Direction::W,
            Direction::W => Direction::E,
        }
    }

    /// The direction pointing the other way.
    #[verifier::when_used_as_spec(spec_opposite)]
    pub fn opposite(self) -> (r: Direction)
        ensures
            r == self.spec_opposite(),
    {
        match self {
            Direction::N => Direction::S,
            Direction::S => Direction::N,
            Direction::E => Direction::W,
            Direction::W => Direction::E,
        }
    }
}

/// The two directions a connector shape joins, or `None` for a symbol that is
/// no fixed connector (empty ground, the start marker, anything else).
pub open spec fn openings(symbol: char) -> Option<(Direction, Direction)> {
    if symbol == '|' {
        Some((Direction::N, Direction::S))
    } else if symbol == '-' {
        Some((Direction::E, Direction::W))
    } else if symbol == 'L' {
        Some((Direction::N, Direction::E))
    } else if symbol == 'J' {
        Some((Direction::N, Direction::W))
    } else if symbol == '7' {
        Some((Direction::S, Direction::W))
    } else if symbol == 'F' {
        Some((Direction::S, Direction::E))
    } else {
        None
    }
}

/// Whether the shape has an edge towards `d`.
pub open spec fn opens(symbol: char, d: Direction) -> bool {
    match openings(symbol) {
        Some((a, b)) => d == a || d == b,
        None => false,
    }
}

/// The routing table. A traveller who came from the neighbour lying towards
/// `incoming` leaves through the other opening of the shape; a shape with no
/// opening towards `incoming` routes nowhere.
pub open spec fn route(incoming: Direction, symbol: char) -> Option<Direction> {
    match openings(symbol) {
        Some((a, b)) => if incoming == a {
            Some(b)
        } else if incoming == b {
            Some(a)
        } else {
            None
        },
        None => None,
    }
}

/// Whether the shape has an edge towards `d`.
pub fn has_opening(symbol: char, d: Direction) -> (r: bool)
    ensures
        r == opens(symbol, d),
{
    match d {
        Direction::N => symbol == '|' || symbol == 'L' || symbol == 'J',
        Direction::S => symbol == '|' || symbol == '7' || symbol == 'F',
        Direction::E => symbol == '-' || symbol == 'L' || symbol == 'F',
        Direction::W => symbol == '-' || symbol == 'J' || symbol == '7',
    }
}

/// Looks up the routing table: the direction to leave through, given the
/// direction the traveller arrived from and the symbol of the current cell.
pub fn step(incoming: Direction, symbol: char) -> (r: Option<Direction>)
    ensures
        r == route(incoming, symbol),
{
    if symbol == '|' {
        match incoming {
            Direction::N => Some(Direction::S),
            Direction::S => Some(Direction::N),
            _ => None,
        }
    } else if symbol == '-' {
        match incoming {
            Direction::E => Some(Direction::W),
            Direction::W => Some(Direction::E),
            _ => None,
        }
    } else if symbol == 'L' {
        match incoming {
            Direction::N => Some(Direction::E),
            Direction::E => Some(Direction::N),
            _ => None,
        }
    } else if symbol == 'J' {
        match incoming {
            Direction::N => Some(Direction::W),
            Direction::W => Some(Direction::N),
            _ => None,
        }
    } else if symbol == '7' {
        match incoming {
            Direction::S => Some(Direction::W),
            Direction::W => Some(Direction::S),
            _ => None,
        }
    } else if symbol == 'F' {
        match incoming {
            Direction::S => Some(Direction::E),
            Direction::E => Some(Direction::S),
            _ => None,
        }
    } else {
        None
    }
}

/// A shape never sends a traveller back the way they came, and it is
/// traversed the same way in both senses.
pub proof fn lemma_route_reversible(incoming: Direction, symbol: char)
    ensures
        match route(incoming, symbol) {
            Some(out) => out != incoming && route(out, symbol) == Some(incoming) && opens(
                symbol,
                incoming,
            ) && opens(symbol, out),
            None => !opens(symbol, incoming),
        },
{
}

/// A shape has at most two openings: whatever direction it routes from is one
/// of the pair that any other routing through it uses.
pub proof fn lemma_two_openings(a: Direction, b: Direction, symbol: char)
    requires
        route(a, symbol) is Some,
        route(b, symbol) is Some,
    ensures
        b == a || b == route(a, symbol)->0,
{
}

} // verus!
