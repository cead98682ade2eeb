//! Stone and territory markers for board points.

use vstd::prelude::*;

verus! {

/// The contents of a board point, or a territory/neutral marker written
/// by the scorer.
#[derive(Clone, Copy, PartialEq, Eq, Structural, Debug, Hash)]
pub enum Color {
    Empty,
    Black,
    White,
    Dame,
    BlackTerritory,
    WhiteTerritory,
}

/// The numeric code of each color, as used for compact encodings.
pub open spec fn spec_color_code(c: Color) -> u8 {
    match c {
        Color::Empty => 0,
        Color::Black => 1,
        Color::White => 2,
        Color::Dame => 4,
        Color::BlackTerritory => 5,
        Color::WhiteTerritory => 6,
    }
}

/// The color whose role is dual to `c`: stones swap sides, territory
/// swaps owners, and empty/neutral swap.
pub open spec fn spec_opposite(c: Color) -> Color {
    match c {
        Color::Empty => Color::Dame,
        Color::Black => Color::White,
        Color::White => Color::Black,
        Color::Dame => Color::Empty,
        Color::BlackTerritory => Color::WhiteTerritory,
        Color::WhiteTerritory => Color::BlackTerritory,
    }
}

/// The full textual name of a color.
pub open spec fn spec_color_text(c: Color) -> Seq<char> {
    match c {
        Color::Empty => "Empty"@,
        Color::Black => "Black"@,
        Color::White => "White"@,
        Color::Dame => "Dame"@,
        Color::BlackTerritory => "Black_Territory"@,
        Color::WhiteTerritory => "White_Territory"@,
    }
}

/// `c` equals the upper-case pattern character `u` up to ASCII case:
/// either exactly, or `u` is an upper-case letter and `c` its lower-case form.
pub open spec fn char_matches_upper(c: char, u: char) -> bool {
    c == u || (65 <= u as u32 <= 90 && c as u32 == u as u32 + 32)
}

/// `s` equals the upper-case pattern `pat` up to ASCII case.
pub open spec fn seq_matches_upper(s: Seq<char>, pat: Seq<char>) -> bool {
    s.len() == pat.len() && forall|i: int| 0 <= i < s.len() ==> char_matches_upper(s[i], pat[i])
}

/// What parsing a color name yields: the six color names, compared
/// case-insensitively; anything else is rejected.
pub open spec fn spec_parse_color(s: Seq<char>) -> Option<Color> {
    if seq_matches_upper(s, "EMPTY"@) {
        Some(Color::Empty)
    } else if seq_matches_upper(s, "BLACK"@) {
        Some(Color::Black)
    } else if seq_matches_upper(s, "WHITE"@) {
        Some(Color::White)
    } else if seq_matches_upper(s, "DAME"@) {
        Some(Color::Dame)
    } else if seq_matches_upper(s, "BLACK_TERRITORY"@) {
        Some(Color::BlackTerritory)
    } else if seq_matches_upper(s, "WHITE_TERRITORY"@) {
        Some(Color::WhiteTerritory)
    } else {
        None
    }
}

/// Rejection token for malformed color text.
#[derive(Debug)]
pub struct ColorParseError(pub ());

/// Case-insensitive comparison of `s` against an upper-case pattern.
pub fn eq_ignoring_case(s: &str, pat: &str) -> (r: bool)
    ensures
        r == seq_matches_upper(s@, pat@),
{
    let sn = s.unicode_len();
    let pn = pat.unicode_len();
    if sn != pn {
        return false;
    }
    let mut i: usize = 0;
    while i < sn
        invariant
            0 <= i <= sn,
            sn == s@.len(),
            sn == pat@.len(),
            forall|j: int| 0 <= j < i ==> char_matches_upper(s@[j], pat@[j]),
        decreases sn - i,
    {
        let c = s.get_char(i) as u32;
        let u = pat.get_char(i) as u32;
        if !(c == u || (65 <= u && u <= 90 && c == u + 32)) {
            return false;
        }
        i += 1;
    }
    true
}

impl Color {
    /// The color denoted by code `u`; only the six codes are meaningful.
    pub fn from_u8(u: u8) -> (r: Color)
        requires
            u == 0 || u == 1 || u == 2 || u == 4 || u == 5 || u == 6,
        ensures
            spec_color_code(r) == u,
    {
        match u {
            0 => Color::Empty,
            1 => Color::Black,
            2 => Color::White,
            4 => Color::Dame,
            5 => Color::BlackTerritory,
            _ => Color::WhiteTerritory,
        }
    }

    /// The numeric code of `color`.
    pub fn f(color: &Color) -> (r: u8)
        ensures
            r == spec_color_code(*color),
    {
        match color {
            Color::Empty => 0,
            Color::Black => 1,
            Color::White => 2,
            Color::Dame => 4,
            Color::BlackTerritory => 5,
            Color::WhiteTerritory => 6,
        }
    }

    /// The dual color: Black and White swap, Empty and Dame swap,
    /// the two territory markers swap.
    pub fn opposite(&self) -> (r: Color)
        ensures
            r == spec_opposite(*self),
    {
        match *self {
            Color::Empty => Color::Dame,
            Color::Black => Color::White,
            Color::White => Color::Black,
            Color::Dame => Color::Empty,
            Color::BlackTerritory => Color::WhiteTerritory,
            Color::WhiteTerritory => Color::BlackTerritory,
        }
    }

    /// The single-character form used by board renderings.
    pub fn as_char(&self) -> (r: char)
        ensures
            r == match *self {
                Color::Empty => '?',
                Color::Black => 'B',
                Color::White => 'W',
                Color::Dame => '.',
                Color::BlackTerritory => 'X',
                Color::WhiteTerritory => 'O',
            },
    {
        match *self {
            Color::Empty => '?',
            Color::Black => 'B',
            Color::White => 'W',
            Color::Dame => '.',
            Color::BlackTerritory => 'X',
            Color::WhiteTerritory => 'O',
        }
    }

    /// Parses a color name, case-insensitively; exactly the six color
    /// names are accepted.
    pub fn from_str(s: &str) -> (r: Result<Color, ColorParseError>)
        ensures
            match r {
                Ok(c) => spec_parse_color(s@) == Some(c),
                Err(_) => spec_parse_color(s@) is None,
            },
    {
        if eq_ignoring_case(s, "EMPTY") {
            Ok(Color::Empty)
        } else if eq_ignoring_case(s, "BLACK") {
            Ok(Color::Black)
        } else if eq_ignoring_case(s, "WHITE") {
            Ok(Color::White)
        } else if eq_ignoring_case(s, "DAME") {
            Ok(Color::Dame)
        } else if eq_ignoring_case(s, "BLACK_TERRITORY") {
            Ok(Color::BlackTerritory)
        } else if eq_ignoring_case(s, "WHITE_TERRITORY") {
            Ok(Color::WhiteTerritory)
        } else {
            Err(ColorParseError(()))
        }
    }

    /// The full textual name of the color.
    pub fn to_text(&self) -> (r: String)
        ensures
            r@ == spec_color_text(*self),
    {
        match *self {
            Color::Empty => String::from_str("Empty"),
            Color::Black => String::from_str("Black"),
            Color::White => String::from_str("White"),
            Color::Dame => String::from_str("Dame"),
            Color::BlackTerritory => String::from_str("Black_Territory"),
            Color::WhiteTerritory => String::from_str("White_Territory"),
        }
    }
}

/// A color name always parses back to the color it names: the textual
/// form of each color matches its own upper-case pattern.
pub proof fn lemma_color_text_round_trip(c: Color)
    ensures
        spec_parse_color(spec_color_text(c)) == Some(c),
{
    reveal_strlit("Empty");
    reveal_strlit("Black");
    reveal_strlit("White");
    reveal_strlit("Dame");
    reveal_strlit("Black_Territory");
    reveal_strlit("White_Territory");
    reveal_strlit("EMPTY");
    reveal_strlit("BLACK");
    reveal_strlit("WHITE");
    reveal_strlit("DAME");
    reveal_strlit("BLACK_TERRITORY");
    reveal_strlit("WHITE_TERRITORY");
    match c {
        Color::Empty => {
            assert(seq_matches_upper("Empty"@, "EMPTY"@)) by {
                assert forall|i: int| 0 <= i < "Empty"@.len() implies char_matches_upper(
                    "Empty"@[i],
                    "EMPTY"@[i],
                ) by {}
            }
        },
        Color::Black => {
            assert(!char_matches_upper("Black"@[0], "EMPTY"@[0]));
            assert(seq_matches_upper("Black"@, "BLACK"@)) by {
                assert forall|i: int| 0 <= i < "Black"@.len() implies char_matches_upper(
                    "Black"@[i],
                    "BLACK"@[i],
                ) by {}
            }
        },
        Color::White => {
            assert(!char_matches_upper("White"@[0], "EMPTY"@[0]));
            assert(!char_matches_upper("White"@[0], "BLACK"@[0]));
            assert(seq_matches_upper("White"@, "WHITE"@)) by {
                assert forall|i: int| 0 <= i < "White"@.len() implies char_matches_upper(
                    "White"@[i],
                    "WHITE"@[i],
                ) by {}
            }
        },
        Color::Dame => {
            assert(seq_matches_upper("Dame"@, "DAME"@)) by {
                assert forall|i: int| 0 <= i < "Dame"@.len() implies char_matches_upper(
                    "Dame"@[i],
                    "DAME"@[i],
                ) by {}
            }
        },
        Color::BlackTerritory => {
            assert(seq_matches_upper("Black_Territory"@, "BLACK_TERRITORY"@)) by {
                assert forall|i: int| 0 <= i < "Black_Territory"@.len() implies char_matches_upper(
                    "Black_Territory"@[i],
                    "BLACK_TERRITORY"@[i],
                ) by {}
            }
        },
        Color::WhiteTerritory => {
            assert(!char_matches_upper("White_Territory"@[0], "BLACK_TERRITORY"@[0]));
            assert(seq_matches_upper("White_Territory"@, "WHITE_TERRITORY"@)) by {
                assert forall|i: int| 0 <= i < "White_Territory"@.len() implies char_matches_upper(
                    "White_Territory"@[i],
                    "WHITE_TERRITORY"@[i],
                ) by {}
            }
        },
    }
}

} // verus!
