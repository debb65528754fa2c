//! The four unit directions: the command alphabet of a puzzle.

use crate::vec2::Vec2;
use vstd::prelude::*;

verus! {

#[derive(Clone, Copy, Debug, Eq, Hash, Ord, PartialEq, PartialOrd, Structural)]
pub enum Direction {
    Right,
    Up,
    Left,
    Down,
}

impl Direction {
    /// The direction a quarter turn counter-clockwise from this one.
    pub open spec fn ccw(self) -> Direction {
        match self {
            Direction::Right => Direction::Up,
            Direction::Up => Direction::Left,
            Direction::Left => Direction::Down,
            Direction::Down => Direction::Right,
        }
    }

    /// The opposite direction.
    pub open spec fn opposite(self) -> Direction {
        self.ccw().ccw()
    }

    /// Horizontal component of the unit offset.
    pub open spec fn dx(self) -> int {
        match self {
            Direction::Right => 1,
            Direction::Left => -1,
            _ => 0,
        }
    }

    /// Vertical component of the unit offset.
    pub open spec fn dy(self) -> int {
        match self {
            Direction::Up => 1,
            Direction::Down => -1,
            _ => 0,
        }
    }

    /// The lower-case word that names this direction in text.
    pub open spec fn keyword(self) -> Seq<char> {
        match self {
            Direction::Right => "right"@,
            Direction::Up => "up"@,
            Direction::Left => "left"@,
            Direction::Down => "down"@,
        }
    }

    /// The capitalised name that is shown to a reader.
    pub open spec fn label(self) -> Seq<char> {
        match self {
            Direction::Right => "Right"@,
            Direction::Up => "Up"@,
            Direction::Left => "Left"@,
            Direction::Down => "Down"@,
        }
    }

    #[inline]
    pub fn rotate_ccw(self) -> (d: Direction)
        ensures
            d == self.ccw(),
    {
        match self {
            Direction::Right => Direction::Up,
            Direction::Up => Direction::Left,
            Direction::Left => Direction::Down,
            Direction::Down => Direction::Right,
        }
    }

    #[inline]
    pub fn rotate_cw(self) -> (d: Direction)
        ensures
            d.ccw() == self,
    {
        match self {
            Direction::Right => Direction::Down,
            Direction::Up => Direction::Right,
            Direction::Left => Direction::Up,
            Direction::Down => Direction::Left,
        }
    }

    #[inline]
    pub fn reverse(self) -> (d: Direction)
        ensures
            d == self.opposite(),
    {
        match self {
            Direction::Right => Direction::Left,
            Direction::Up => Direction::Down,
            Direction::Left => Direction::Right,
            Direction::Down => Direction::Up,
        }
    }

    #[inline]
    pub fn to_vec2(self) -> (v: Vec2)
        ensures
            v.x == self.dx(),
            v.y == self.dy(),
    {
        match self {
            Direction::Right => Vec2::right(),
            Direction::Up => Vec2::up(),
            Direction::Left => Vec2::left(),
            Direction::Down => Vec2::down(),
        }
    }

    /// The name of the direction as it is printed.
    pub fn to_string(&self) -> (s: String)
        ensures
            s@ == self.label(),
    {
        match self {
            Direction::Right => "Right".to_owned(),
            Direction::Up => "Up".to_owned(),
            Direction::Left => "Left".to_owned(),
            Direction::Down => "Down".to_owned(),
        }
    }

    /// Reads a direction from its keyword. Any other text is handed back
    /// inside the error.
    pub fn from_keyword(s: &str) -> (r: Result<Direction, ParseDirectionError>)
        ensures
            match r {
                Ok(d) => s@ == d.keyword(),
                Err(e) => e@ == s@ && forall|d: Direction| s@ != d.keyword(),
            },
    {
        let text = s.to_owned();
        proof {
            reveal_strlit("right");
            reveal_strlit("up");
            reveal_strlit("left");
            reveal_strlit("down");
        }
        if text == "right".to_owned() {
            Ok(Direction::Right)
        } else if text == "up".to_owned() {
            Ok(Direction::Up)
        } else if text == "left".to_owned() {
            Ok(Direction::Left)
        } else if text == "down".to_owned() {
            Ok(Direction::Down)
        } else {
            Err(ParseDirectionError(text))
        }
    }
}

/// The text that could not be read as a direction.
#[derive(Debug)]
pub struct ParseDirectionError(String);

impl View for ParseDirectionError {
    type V = Seq<char>;

    closed spec fn view(&self) -> Seq<char> {
        self.0@
    }
}

impl ParseDirectionError {
    /// The rejected text.
    pub fn text(&self) -> (s: &str)
        ensures
            s@ == self@,
    {
        self.0.as_str()
    }
}

impl core::str::FromStr for Direction {
    type Err = ParseDirectionError;

    fn from_str(s: &str) -> (r: Result<Self, Self::Err>)
        ensures
            match r {
                Ok(d) => s@ == d.keyword(),
                Err(e) => e@ == s@ && forall|d: Direction| s@ != d.keyword(),
            },
    {
        Direction::from_keyword(s)
    }
}

} // verus!
