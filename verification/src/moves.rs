//! Moves: passing or placing a stone, and their textual forms.

use vstd::prelude::*;

use crate::color::{Color, spec_parse_color, spec_color_text, seq_matches_upper, eq_ignoring_case};
use crate::coord::{Coord, spec_parse_coord, spec_coord_text, CoordParseError};

verus! {

/// One move of the game: passing, or placing a stone of a color at a
/// coordinate.
#[derive(Clone, Copy, PartialEq, Eq, Structural, Debug)]
pub enum Move {
    Pass(Color),
    Stone(Coord, Color),
}

/// What parsing a move yields: a color name (Black or White; Empty is
/// named but rejected), one separator character, then either `Pass`
/// (case-insensitively) or a coordinate.
pub open spec fn spec_parse_move(s: Seq<char>) -> Option<Move> {
    if s.len() < 6 {
        None
    } else {
        match spec_parse_color(s.subrange(0, 5)) {
            None => None,
            Some(c) => if c == Color::Empty {
                None
            } else {
                let rest = s.subrange(6, s.len() as int);
                if seq_matches_upper(rest, "PASS"@) {
                    Some(Move::Pass(c))
                } else {
                    match spec_parse_coord(rest) {
                        Some(co) => Some(Move::Stone(co, c)),
                        None => None,
                    }
                }
            },
        }
    }
}

/// The textual form of a move: the color's name, a space, then `Pass` or
/// the coordinate's text.
pub open spec fn spec_move_text(m: Move) -> Seq<char> {
    match m {
        Move::Pass(c) => spec_color_text(c) + " Pass"@,
        Move::Stone(co, c) => spec_color_text(c) + " "@ + spec_coord_text(co),
    }
}

/// Rejection token for malformed move text.
#[derive(Debug)]
pub struct MoveParseError(pub ());

impl Move {
    /// Whether the move is a pass.
    pub fn is_pass(&self) -> (r: bool)
        ensures
            r == (*self matches Move::Pass(_)),
    {
        match *self {
            Move::Pass(_) => true,
            Move::Stone(_, _) => false,
        }
    }

    /// Whether the move places a stone.
    pub fn is_stone(&self) -> (r: bool)
        ensures
            r == (*self matches Move::Stone(_, _)),
    {
        match *self {
            Move::Stone(_, _) => true,
            Move::Pass(_) => false,
        }
    }

    /// The coordinate of a stone move; a pass has none.
    pub fn coord(&self) -> (r: Coord)
        requires
            *self matches Move::Stone(_, _),
        ensures
            *self matches Move::Stone(co, _) && r == co,
    {
        match *self {
            Move::Stone(coord, _) => coord,
            Move::Pass(_) => unreached(),
        }
    }

    /// The color that makes the move.
    pub fn color(&self) -> (r: Color)
        ensures
            r == match *self {
                Move::Stone(_, c) => c,
                Move::Pass(c) => c,
            },
    {
        match *self {
            Move::Stone(_, color) => color,
            Move::Pass(color) => color,
        }
    }

    /// Parses a move such as `Black D4` or `White Pass`.
    pub fn from_str(s: &str) -> (r: Result<Move, MoveParseError>)
        ensures
            match r {
                Ok(m) => spec_parse_move(s@) == Some(m),
                Err(_) => spec_parse_move(s@) is None,
            },
    {
        let n = s.unicode_len();
        if n < 6 {
            return Err(MoveParseError(()));
        }
        let head = s.substring_char(0, 5);
        let color = match Color::from_str(head) {
            Ok(c) => c,
            Err(_) => {
                return Err(MoveParseError(()));
            },
        };
        if color == Color::Empty {
            return Err(MoveParseError(()));
        }
        let rest = s.substring_char(6, n);
        if eq_ignoring_case(rest, "PASS") {
            return Ok(Move::Pass(color));
        }
        match Coord::from_str(rest) {
            Ok(co) => Ok(Move::Stone(co, color)),
            Err(CoordParseError(_)) => Err(MoveParseError(())),
        }
    }

    /// The textual form of the move.
    pub fn to_text(&self) -> (r: String)
        requires
            *self matches Move::Stone(co, _) ==> co.col < 25,
        ensures
            r@ == spec_move_text(*self),
    {
        match *self {
            Move::Pass(color) => {
                let mut out = color.to_text();
                out.append(" Pass");
                out
            },
            Move::Stone(coord, color) => {
                let mut out = color.to_text();
                out.append(" ");
                let ct = coord.to_text();
                out.append(ct.as_str());
                out
            },
        }
    }
}

} // verus!
