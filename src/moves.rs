//! Moves and their three-character notation `<column><row><wall>`.
use vstd::prelude::*;
use crate::geometry::{Coordinate, Direction};

verus! {

/// Relocate the active pawn to `destination`, then place a wall segment on
/// the side of `destination` given by `place_wall`.
#[derive(Clone, Copy, Debug, PartialEq, Eq, Structural)]
pub struct Move {
    pub destination: Coordinate,
    pub place_wall: Direction,
}

/// The direction written by a wall letter.
pub open spec fn direction_of_code(c: char) -> Option<Direction> {
    if c == 'U' {
        Some(Direction::Up)
    } else if c == 'D' {
        Some(Direction::Down)
    } else if c == 'L' {
        Some(Direction::Left)
    } else if c == 'R' {
        Some(Direction::Right)
    } else {
        None
    }
}

/// The wall letter of a direction.
pub open spec fn code_of_direction(d: Direction) -> char {
    match d {
        Direction::Up => 'U',
        Direction::Down => 'D',
        Direction::Left => 'L',
        Direction::Right => 'R',
    }
}

/// What a notation string denotes: `None` when it is shorter than three
/// characters or its third character is no wall letter.
pub open spec fn parse_notation(s: Seq<char>) -> Option<Move> {
    if s.len() < 3 {
        None
    } else {
        match direction_of_code(s[2]) {
            Some(d) => Some(
                Move {
                    destination: Coordinate {
                        x: ((s[0] as u32) as int - 97) as i32,
                        y: ((s[1] as u32) as int - 49) as i32,
                    },
                    place_wall: d,
                },
            ),
            None => None,
        }
    }
}

/// Moves that have a notation: the column and row characters fit in a byte.
pub open spec fn has_notation(m: Move) -> bool {
    0 <= m.destination.x <= 158 && 0 <= m.destination.y <= 206
}

/// The notation of a move: column letter from `'a'`, row digit from `'1'`,
/// then the wall letter.
pub open spec fn notation_of(m: Move) -> Seq<char> {
    seq![
        ((97 + m.destination.x) as u8) as char,
        ((49 + m.destination.y) as u8) as char,
        code_of_direction(m.place_wall),
    ]
}

/// Relies on str::chars: the characters of the string, in order.
#[verifier::external_body]
fn chars_of(s: &str) -> (r: Vec<char>)
    ensures
        r@ == s@,
{
    s.chars().collect()
}

/// Relies on String's FromIterator<char>: the string of these characters.
#[verifier::external_body]
fn string_of(cs: &Vec<char>) -> (r: String)
    ensures
        r@ == cs@,
{
    cs.iter().collect()
}

impl Move {
    pub fn new(destination: Coordinate, place_wall: Direction) -> (r: Move)
        ensures
            r.destination == destination,
            r.place_wall == place_wall,
    {
        Move { destination, place_wall }
    }

    /// Reads a move written as `<column><row><wall>`; characters after the
    /// third are ignored.
    pub fn from_notation(notation: &str) -> (r: Result<Move, &'static str>)
        ensures
            match parse_notation(notation@) {
                Some(m) => r == Ok::<Move, &'static str>(m),
                None => r is Err,
            },
    {
        let cs = chars_of(notation);
        if cs.len() < 3 {
            return Err("Invalid Notation");
        }
        let place_wall = match cs[2] {
            'U' => Direction::Up,
            'D' => Direction::Down,
            'L' => Direction::Left,
            'R' => Direction::Right,
            _ => return Err("Invalid Notation"),
        };
        let x = ((cs[0] as u32) as i64 - 97) as i32;
        let y = ((cs[1] as u32) as i64 - 49) as i32;
        Ok(Move::new(Coordinate::new(x, y), place_wall))
    }

    /// The move's notation.
    pub fn to_notation(&self) -> (r: String)
        requires
            has_notation(*self),
        ensures
            r@ == notation_of(*self),
    {
        let mut cs: Vec<char> = Vec::new();
        cs.push((97u8 + self.destination.x as u8) as char);
        cs.push((49u8 + self.destination.y as u8) as char);
        let w = match self.place_wall {
            Direction::Up => 'U',
            Direction::Down => 'D',
            Direction::Left => 'L',
            Direction::Right => 'R',
        };
        cs.push(w);
        string_of(&cs)
    }

    /// The destination as a pair and the wall direction as 0, 1, 2, 3 for
    /// up, down, left, right.
    pub fn to_flat(&self) -> (r: ((i32, i32), i32))
        ensures
            r.0 == (self.destination.x, self.destination.y),
            r.1 == match self.place_wall {
                Direction::Up => 0i32,
                Direction::Down => 1i32,
                Direction::Left => 2i32,
                Direction::Right => 3i32,
            },
    {
        let wall_direction: i32 = match self.place_wall {
            Direction::Up => 0,
            Direction::Down => 1,
            Direction::Left => 2,
            Direction::Right => 3,
        };
        (self.destination.to_tuple(), wall_direction)
    }
}

/// Reading a move's notation gives the move back, and writing that move out
/// again gives the same notation.
pub proof fn notation_round_trip(m: Move)
    requires
        has_notation(m),
    ensures
        parse_notation(notation_of(m)) == Some(m),
        notation_of(parse_notation(notation_of(m))->Some_0) == notation_of(m),
{
    let s = notation_of(m);
    assert(s.len() == 3);
    assert(direction_of_code(s[2]) == Some(m.place_wall));
    let x = m.destination.x;
    let y = m.destination.y;
    assert(((97 + x) as u8) as char as u32 == 97 + x);
    assert(((49 + y) as u8) as char as u32 == 49 + y);
}

/// A move together with its score.
#[derive(Clone, Copy, Debug, PartialEq, Eq, Structural)]
pub struct EvaluatedMove {
    pub mv: Move,
    pub ev: i32,
}

impl EvaluatedMove {
    pub fn new(mv: Move, ev: i32) -> (r: EvaluatedMove)
        ensures
            r.mv == mv,
            r.ev == ev,
    {
        EvaluatedMove { mv, ev }
    }
}

} // verus!
