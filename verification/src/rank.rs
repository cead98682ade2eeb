//! Player ranks: professional, dan and kyu grades with an optional
//! confirmation mark. The textual grammar is one or two digits, an
//! optionally abbreviated grade word, and an optional trailing qualifier,
//! with spaces allowed between the parts; `?` leaves the rank unconfirmed.

use vstd::prelude::*;

use crate::color::{seq_matches_upper, eq_ignoring_case};
use crate::coord::{dec_value, is_digit_char};
use crate::numtext::spec_decimal_u32;

verus! {

/// A player's rank; the flag is false when the rank is unconfirmed.
#[derive(Clone, Copy, PartialEq, Eq, Structural, Debug, Hash)]
pub enum Rank {
    Pro(u8, bool),
    Dan(u8, bool),
    Kyu(u8, bool),
    Unknown,
}

/// The length of the run of spaces in `s` starting at `i`.
pub open spec fn spec_space_run(s: Seq<char>, i: int) -> int
    decreases s.len() - i,
{
    if i < 0 || i >= s.len() || s[i] != ' ' {
        0
    } else {
        1 + spec_space_run(s, i + 1)
    }
}

/// The grade letter and word length at position `i`: the full words and
/// their one-letter abbreviations, tried longest first, ignoring case.
pub open spec fn spec_rank_word(s: Seq<char>, i: int) -> Option<(char, int)> {
    if i + 3 <= s.len() && seq_matches_upper(s.subrange(i, i + 3), "PRO"@) {
        Some(('p', 3))
    } else if i + 1 <= s.len() && seq_matches_upper(s.subrange(i, i + 1), "P"@) {
        Some(('p', 1))
    } else if i + 3 <= s.len() && seq_matches_upper(s.subrange(i, i + 3), "DAN"@) {
        Some(('d', 3))
    } else if i + 1 <= s.len() && seq_matches_upper(s.subrange(i, i + 1), "D"@) {
        Some(('d', 1))
    } else if i + 3 <= s.len() && seq_matches_upper(s.subrange(i, i + 3), "KYU"@) {
        Some(('k', 3))
    } else if i + 1 <= s.len() && seq_matches_upper(s.subrange(i, i + 1), "K"@) {
        Some(('k', 1))
    } else {
        None
    }
}

/// What parsing a rank yields: empty or `?` is unknown; otherwise one or
/// two digits, spaces, a grade word, spaces, and at most one qualifier
/// character (`?`, `*` or a backslash), where `?` marks the rank
/// unconfirmed; the number must lie in the grade's range (professionals
/// 1 to 10, dan 1 to 8, kyu 1 to 30).
pub open spec fn spec_parse_rank(s: Seq<char>) -> Option<Rank> {
    if s.len() == 0 || seq_matches_upper(s, "?"@) {
        Some(Rank::Unknown)
    } else if !is_digit_char(s[0]) {
        None
    } else {
        let nd: int = if s.len() >= 2 && is_digit_char(s[1]) {
            2
        } else {
            1
        };
        let number = dec_value(s.subrange(0, nd));
        let i = nd + spec_space_run(s, nd);
        match spec_rank_word(s, i) {
            None => None,
            Some((cat, wl)) => {
                let k = i + wl + spec_space_run(s, i + wl);
                let qual: Option<bool> = if k == s.len() {
                    Some(true)
                } else if k == s.len() - 1 && (s[k] == '?' || s[k] == '*' || s[k] == '\u{5c}') {
                    Some(s[k] != '?')
                } else {
                    None
                };
                match qual {
                    None => None,
                    Some(q) => if cat == 'p' && 1 <= number <= 10 {
                        Some(Rank::Pro(number as u8, q))
                    } else if cat == 'd' && 1 <= number <= 8 {
                        Some(Rank::Dan(number as u8, q))
                    } else if cat == 'k' && 1 <= number <= 30 {
                        Some(Rank::Kyu(number as u8, q))
                    } else {
                        None
                    },
                }
            },
        }
    }
}

/// The textual form of a rank: the number, the grade letter, and `?`
/// when unconfirmed.
pub open spec fn spec_rank_text(r: Rank) -> Seq<char> {
    match r {
        Rank::Pro(n, b) => spec_decimal_u32(n as int) + "p"@ + if b {
            Seq::<char>::empty()
        } else {
            "?"@
        },
        Rank::Dan(n, b) => spec_decimal_u32(n as int) + "d"@ + if b {
            Seq::<char>::empty()
        } else {
            "?"@
        },
        Rank::Kyu(n, b) => spec_decimal_u32(n as int) + "k"@ + if b {
            Seq::<char>::empty()
        } else {
            "?"@
        },
        Rank::Unknown => "?"@,
    }
}

/// Rejection token for malformed rank text.
#[derive(Debug)]
pub struct RankParseError(pub ());

/// The end of the run of spaces starting at `from`.
fn skip_spaces(s: &str, from: usize) -> (r: usize)
    requires
        from <= s@.len(),
    ensures
        from <= r <= s@.len(),
        r == from + spec_space_run(s@, from as int),
{
    let n = s.unicode_len();
    let mut i: usize = from;
    while i < n && s.get_char(i) == ' '
        invariant
            from <= i <= n,
            n == s@.len(),
            spec_space_run(s@, from as int) == (i - from) + spec_space_run(s@, i as int),
        decreases n - i,
    {
        i += 1;
    }
    i
}

/// Reads the grade word at position `i`, mirroring the grammar's
/// longest-first alternation.
fn rank_word_at(s: &str, i: usize) -> (r: Option<(char, usize)>)
    requires
        i <= s@.len(),
    ensures
        match r {
            Some((c, wl)) => spec_rank_word(s@, i as int) == Some((c, wl as int)) && i + wl
                <= s@.len(),
            None => spec_rank_word(s@, i as int) is None,
        },
{
    let n = s.unicode_len();
    if n - i >= 3 && eq_ignoring_case(s.substring_char(i, i + 3), "PRO") {
        return Some(('p', 3));
    }
    if n - i >= 1 && eq_ignoring_case(s.substring_char(i, i + 1), "P") {
        return Some(('p', 1));
    }
    if n - i >= 3 && eq_ignoring_case(s.substring_char(i, i + 3), "DAN") {
        return Some(('d', 3));
    }
    if n - i >= 1 && eq_ignoring_case(s.substring_char(i, i + 1), "D") {
        return Some(('d', 1));
    }
    if n - i >= 3 && eq_ignoring_case(s.substring_char(i, i + 3), "KYU") {
        return Some(('k', 3));
    }
    if n - i >= 1 && eq_ignoring_case(s.substring_char(i, i + 1), "K") {
        return Some(('k', 1));
    }
    None
}

impl Rank {
    /// Parses a rank such as `5d`, `3 PRO*` or `10 kyu ?`.
    pub fn from_str(s: &str) -> (r: Result<Rank, RankParseError>)
        ensures
            match r {
                Ok(rk) => spec_parse_rank(s@) == Some(rk),
                Err(_) => spec_parse_rank(s@) is None,
            },
    {
        let n = s.unicode_len();
        if n == 0 || eq_ignoring_case(s, "?") {
            return Ok(Rank::Unknown);
        }
        let c0 = s.get_char(0) as u32;
        if c0 < 48 || c0 > 57 {
            return Err(RankParseError(()));
        }
        let mut number: u32 = c0 - 48;
        let mut nd: usize = 1;
        proof {
            assert(s@.subrange(0, 1).drop_last() =~= Seq::<char>::empty());
            assert(s@.subrange(0, 1).last() == s@[0]);
            assert(dec_value(s@.subrange(0, 1).drop_last()) == 0);
            assert(number == dec_value(s@.subrange(0, 1)));
        }
        if n >= 2 {
            let c1 = s.get_char(1) as u32;
            if 48 <= c1 && c1 <= 57 {
                number = number * 10 + (c1 - 48);
                nd = 2;
                proof {
                    assert(s@.subrange(0, 2).drop_last() =~= s@.subrange(0, 1));
                    assert(s@.subrange(0, 2).last() == s@[1]);
                    assert(number == dec_value(s@.subrange(0, 2)));
                }
            }
        }
        assert(number == dec_value(s@.subrange(0, nd as int)));
        let i = skip_spaces(s, nd);
        let (cat, wl) = match rank_word_at(s, i) {
            Some(cw) => cw,
            None => {
                return Err(RankParseError(()));
            },
        };
        let k = skip_spaces(s, i + wl);
        let qual: bool;
        if k == n {
            qual = true;
        } else if k == n - 1 {
            let qc = s.get_char(k);
            if qc == '?' || qc == '*' || qc == '\u{5c}' {
                qual = qc != '?';
            } else {
                return Err(RankParseError(()));
            }
        } else {
            return Err(RankParseError(()));
        }
        if cat == 'p' && 1 <= number && number <= 10 {
            Ok(Rank::Pro(number as u8, qual))
        } else if cat == 'd' && 1 <= number && number <= 8 {
            Ok(Rank::Dan(number as u8, qual))
        } else if cat == 'k' && 1 <= number && number <= 30 {
            Ok(Rank::Kyu(number as u8, qual))
        } else {
            Err(RankParseError(()))
        }
    }

    /// The textual form of the rank.
    pub fn to_text(&self) -> (r: String)
        ensures
            r@ == spec_rank_text(*self),
    {
        match *self {
            Rank::Pro(n, b) => {
                let mut out = String::new();
                crate::numtext::push_decimal(&mut out, n as u32);
                out.append("p");
                if !b {
                    out.append("?");
                }
                proof {
                    assert(out@ =~= spec_rank_text(*self));
                }
                out
            },
            Rank::Dan(n, b) => {
                let mut out = String::new();
                crate::numtext::push_decimal(&mut out, n as u32);
                out.append("d");
                if !b {
                    out.append("?");
                }
                proof {
                    assert(out@ =~= spec_rank_text(*self));
                }
                out
            },
            Rank::Kyu(n, b) => {
                let mut out = String::new();
                crate::numtext::push_decimal(&mut out, n as u32);
                out.append("k");
                if !b {
                    out.append("?");
                }
                proof {
                    assert(out@ =~= spec_rank_text(*self));
                }
                out
            },
            Rank::Unknown => String::from_str("?"),
        }
    }
}

} // verus!
