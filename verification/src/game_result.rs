//! Game outcomes and outcome ranges. Scores are held in half-points, so
//! the customary fractional margins are exact integers: a score of 9
//! half-points reads `4.5`.

use vstd::prelude::*;

use crate::color::{Color, seq_matches_upper, eq_ignoring_case};
use crate::coord::{all_digits, dec_value, is_digit_char};
use crate::numtext::{spec_half_text, push_half_points};

verus! {

/// The outcome of a game: a winning margin in half-points for a color, a
/// non-score win, a draw, a voided game, or an unknown record.
#[derive(Clone, Copy, PartialEq, Eq, Structural, Debug, Hash)]
pub enum GameResult {
    Score(Color, u32),
    Resign(Color),
    Forfeit(Color),
    Time(Color),
    Draw,
    Void,
    Unknown,
}

/// An outcome paired with an uncertainty half-width, in whole points.
#[derive(Clone, Copy, PartialEq, Eq, Structural, Debug, Hash)]
pub struct GameResultRange {
    pub result: GameResult,
    pub range: u16,
}

/// The signed projection used when comparing outcomes, in half-points:
/// Black scores count negative, White scores positive, non-score outcomes
/// count as zero, and Void or Unknown have no projection at all.
pub open spec fn spec_signed_half(r: GameResult) -> Option<int> {
    match r {
        GameResult::Score(c, s) => if c == Color::Black {
            Some(-(s as int))
        } else {
            Some(s as int)
        },
        GameResult::Resign(_) => Some(0),
        GameResult::Forfeit(_) => Some(0),
        GameResult::Time(_) => Some(0),
        GameResult::Draw => Some(0),
        GameResult::Void => None,
        GameResult::Unknown => None,
    }
}

/// The signed projection with Void and Unknown flattened to zero, used
/// by the move-comparison order.
pub open spec fn spec_projection(r: GameResult) -> int {
    match spec_signed_half(r) {
        Some(v) => v,
        None => 0,
    }
}

/// The first position of `c` in `s`, or the length when absent.
pub open spec fn spec_first_index(s: Seq<char>, c: char) -> int
    decreases s.len(),
{
    if s.len() == 0 {
        0
    } else if s[0] == c {
        0
    } else {
        1 + spec_first_index(s.skip(1), c)
    }
}

/// The first-position function finds the first position: nothing before
/// it matches, and it matches unless `c` is absent altogether.
pub proof fn lemma_first_index(s: Seq<char>, c: char)
    ensures
        0 <= spec_first_index(s, c) <= s.len(),
        spec_first_index(s, c) < s.len() ==> s[spec_first_index(s, c)] == c,
        forall|j: int| 0 <= j < spec_first_index(s, c) ==> s[j] != c,
    decreases s.len(),
{
    if s.len() > 0 && s[0] != c {
        lemma_first_index(s.skip(1), c);
        let fi = spec_first_index(s, c);
        assert forall|j: int| 0 <= j < fi implies s[j] != c by {
            if j > 0 {
                assert(s.skip(1)[j - 1] == s[j]);
            }
        }
        if fi < s.len() {
            assert(s.skip(1)[fi - 1] == s[fi]);
        }
    }
}

/// Every fractional digit after the first is a zero.
pub open spec fn spec_zeros_after_first(fp: Seq<char>) -> bool {
    forall|q: int| 1 <= q < fp.len() ==> #[trigger] fp[q] == '0'
}

/// The fractional digits denote exactly zero or exactly a half: nothing,
/// or a `0` or `5` followed by zeros.
pub open spec fn spec_frac_ok(fp: Seq<char>) -> bool {
    fp.len() == 0 || ((fp[0] == '0' || fp[0] == '5') && spec_zeros_after_first(fp))
}

/// What parsing a fractional point count yields, in half-points: digits
/// with an optional dot and fractional digits whose value is exactly a
/// half (`5` then zeros) or nothing (zeros); the whole part must fit the
/// half-point counter.
pub open spec fn spec_parse_half_points(s: Seq<char>) -> Option<int> {
    let d = spec_first_index(s, '.');
    let ip = s.subrange(0, d);
    let fp = if d < s.len() {
        s.subrange(d + 1, s.len() as int)
    } else {
        Seq::<char>::empty()
    };
    if !all_digits(ip) || !all_digits(fp) || ip.len() + fp.len() == 0 {
        None
    } else if !spec_frac_ok(fp) {
        None
    } else if dec_value(ip) > 0x7FFFFFFF {
        None
    } else {
        Some(
            2 * dec_value(ip) + if fp.len() > 0 && fp[0] == '5' {
                1int
            } else {
                0int
            },
        )
    }
}

/// What parsing a result record yields: empty or `?` is the unknown
/// outcome; the fixed words name voids, draws, and non-score wins; and
/// `B+n` or `W+n` (anything after a second separator ignored) is a score
/// for that color. All comparisons ignore ASCII case.
pub open spec fn spec_parse_game_result(s: Seq<char>) -> Option<GameResult> {
    if s.len() == 0 || seq_matches_upper(s, "?"@) {
        Some(GameResult::Unknown)
    } else if seq_matches_upper(s, "VOID"@) {
        Some(GameResult::Void)
    } else if seq_matches_upper(s, "DRAW"@) || seq_matches_upper(s, "0"@) {
        Some(GameResult::Draw)
    } else if seq_matches_upper(s, "B+T"@) || seq_matches_upper(s, "B+TIME"@) {
        Some(GameResult::Time(Color::Black))
    } else if seq_matches_upper(s, "W+T"@) || seq_matches_upper(s, "W+TIME"@) {
        Some(GameResult::Time(Color::White))
    } else if seq_matches_upper(s, "B+R"@) || seq_matches_upper(s, "B+RESIGN"@) {
        Some(GameResult::Resign(Color::Black))
    } else if seq_matches_upper(s, "W+R"@) || seq_matches_upper(s, "W+RESIGN"@) {
        Some(GameResult::Resign(Color::White))
    } else if seq_matches_upper(s, "B+F"@) || seq_matches_upper(s, "B+FORFEIT"@) {
        Some(GameResult::Forfeit(Color::Black))
    } else if seq_matches_upper(s, "W+F"@) || seq_matches_upper(s, "W+FORFEIT"@) {
        Some(GameResult::Forfeit(Color::White))
    } else {
        let i = spec_first_index(s, '+');
        if i >= s.len() {
            None
        } else {
            let colst = s.subrange(0, i);
            let color = if seq_matches_upper(colst, "B"@) {
                Some(Color::Black)
            } else if seq_matches_upper(colst, "W"@) {
                Some(Color::White)
            } else {
                None
            };
            match color {
                None => None,
                Some(c) => {
                    let tail = s.subrange(i + 1, s.len() as int);
                    let seg = tail.subrange(0, spec_first_index(tail, '+'));
                    match spec_parse_half_points(seg) {
                        Some(h) => Some(GameResult::Score(c, h as u32)),
                        None => None,
                    }
                },
            }
        }
    }
}

/// The textual form of an outcome.
pub open spec fn spec_game_result_text(r: GameResult) -> Seq<char> {
    match r {
        GameResult::Score(c, s) => (if c == Color::Black {
            "B+"@
        } else {
            "W+"@
        }) + spec_half_text(s as int),
        GameResult::Resign(c) => if c == Color::Black {
            "B+R"@
        } else {
            "W+R"@
        },
        GameResult::Forfeit(c) => if c == Color::Black {
            "B+F"@
        } else {
            "W+F"@
        },
        GameResult::Time(c) => if c == Color::Black {
            "B+T"@
        } else {
            "W+T"@
        },
        GameResult::Draw => "Draw"@,
        GameResult::Void => "Void"@,
        GameResult::Unknown => "?"@,
    }
}

/// The color an outcome favors, when it names one.
pub open spec fn spec_winner(r: GameResult) -> Option<Color> {
    match r {
        GameResult::Score(c, _) => Some(c),
        GameResult::Resign(c) => Some(c),
        GameResult::Forfeit(c) => Some(c),
        GameResult::Time(c) => Some(c),
        _ => None,
    }
}

/// Rejection token for malformed result text.
#[derive(Debug)]
pub struct GameResultParseError(pub ());

/// The position of the first occurrence of `c` in `s`.
fn first_index_of(s: &str, c: char) -> (r: usize)
    ensures
        r == spec_first_index(s@, c),
{
    proof {
        lemma_first_index(s@, c);
    }
    let n = s.unicode_len();
    let mut i: usize = 0;
    while i < n
        invariant
            0 <= i <= n,
            n == s@.len(),
            forall|j: int| 0 <= j < i ==> s@[j] != c,
        decreases n - i,
    {
        if s.get_char(i) == c {
            proof {
                lemma_first_index(s@, c);
                let fi = spec_first_index(s@, c);
                if fi < i {
                    assert(s@[fi] != c);
                }
            }
            return i;
        }
        i += 1;
    }
    proof {
        lemma_first_index(s@, c);
        let fi = spec_first_index(s@, c);
        if fi < s@.len() {
            assert(s@[fi] != c);
        }
    }
    i
}

/// Parses a fractional point count into half-points.
pub(crate) fn half_points_from_str(s: &str) -> (r: Option<u32>)
    ensures
        match r {
            Some(h) => spec_parse_half_points(s@) == Some(h as int),
            None => spec_parse_half_points(s@) is None,
        },
{
    let n = s.unicode_len();
    let d = first_index_of(s, '.');
    proof {
        lemma_first_index(s@, '.');
    }
    let ghost ip = s@.subrange(0, d as int);
    let ghost fp = if d < n {
        s@.subrange(d as int + 1, n as int)
    } else {
        Seq::<char>::empty()
    };
    if n == 0 || (d == 0 && n == 1) {
        // nothing, or a lone dot: no digits at all
        return None;
    }
    // whole part: digits, accumulated while it stays in range
    let mut acc: u32 = 0;
    let mut i: usize = 0;
    while i < d
        invariant
            0 <= i <= d <= n,
            n == s@.len(),
            d == spec_first_index(s@, '.'),
            ip == s@.subrange(0, d as int),
            all_digits(ip.subrange(0, i as int)),
            acc == dec_value(ip.subrange(0, i as int)),
            acc <= 0x7FFFFFFF,
        decreases d - i,
    {
        let c = s.get_char(i) as u32;
        if c < 48 || c > 57 {
            assert(ip[i as int] == s@[i as int]);
            return None;
        }
        proof {
            let p = ip.subrange(0, i + 1);
            assert(p.drop_last() =~= ip.subrange(0, i as int));
            assert(p.last() == s@[i as int]);
        }
        let wide: u64 = (acc as u64) * 10 + ((c - 48) as u64);
        if wide > 0x7FFFFFFF {
            proof {
                if all_digits(ip) {
                    crate::coord::lemma_dec_value_prefix(ip, i + 1);
                }
            }
            return None;
        }
        acc = wide as u32;
        assert(acc == dec_value(ip.subrange(0, i + 1)));
        i += 1;
    }
    proof {
        assert(ip.subrange(0, d as int) =~= ip);
    }
    // fractional part: a half (5 then zeros), or zeros, or absent
    let mut halves: u32 = 0;
    if d < n {
        let mut k: usize = d + 1;
        if k < n {
            let c0 = s.get_char(k);
            proof {
                assert(fp[0] == s@[d + 1]);
            }
            if c0 == '5' {
                halves = 1;
            } else if c0 != '0' {
                return None;
            }
            k += 1;
            while k < n
                invariant
                    d + 2 <= k <= n,
                    n == s@.len(),
                    d == spec_first_index(s@, '.'),
                    d < n,
                    ip == s@.subrange(0, d as int),
                    fp == s@.subrange(d as int + 1, n as int),
                    all_digits(ip),
                    dec_value(ip) <= 0x7FFFFFFF,
                    forall|j: int| 1 <= j < k - d - 1 ==> fp[j] == '0',
                decreases n - k,
            {
                let c = s.get_char(k);
                proof {
                    assert(fp[k - d - 1] == s@[k as int]);
                }
                if c != '0' {
                    proof {
                        let jj = k - d - 1;
                        assert(!spec_zeros_after_first(fp)) by {
                            assert(fp[jj as int] != '0');
                        }
                        assert(!spec_frac_ok(fp));
                    }
                    return None;
                }
                k += 1;
            }
        }
    }
    proof {
        assert(all_digits(fp));
        if fp.len() > 0 {
            assert(fp[0] == s@[d + 1]);
        }
    }
    Some(2 * acc + halves)
}

impl GameResult {
    /// Whether the outcome is a scored win.
    pub fn is_score(&self) -> (r: bool)
        ensures
            r == (*self matches GameResult::Score(_, _)),
    {
        match self {
            GameResult::Score(_, _) => true,
            _ => false,
        }
    }

    /// Whether the outcome is a win on time.
    pub fn is_time(&self) -> (r: bool)
        ensures
            r == (*self matches GameResult::Time(_)),
    {
        match self {
            GameResult::Time(_) => true,
            _ => false,
        }
    }

    /// Whether the outcome is a win by resignation.
    pub fn is_resign(&self) -> (r: bool)
        ensures
            r == (*self matches GameResult::Resign(_)),
    {
        match self {
            GameResult::Resign(_) => true,
            _ => false,
        }
    }

    /// The color the outcome favors, when it names one.
    pub fn winner(&self) -> (r: Option<Color>)
        ensures
            r == spec_winner(*self),
    {
        match *self {
            GameResult::Score(c, _) => Some(c),
            GameResult::Resign(c) => Some(c),
            GameResult::Forfeit(c) => Some(c),
            GameResult::Time(c) => Some(c),
            _ => None,
        }
    }

    /// Parses a result record such as `W+4.5`, `B+Resign` or `Draw`.
    pub fn from_str(s: &str) -> (r: Result<GameResult, GameResultParseError>)
        ensures
            match r {
                Ok(g) => spec_parse_game_result(s@) == Some(g),
                Err(_) => spec_parse_game_result(s@) is None,
            },
    {
        let n = s.unicode_len();
        if n == 0 || eq_ignoring_case(s, "?") {
            return Ok(GameResult::Unknown);
        }
        if eq_ignoring_case(s, "VOID") {
            return Ok(GameResult::Void);
        }
        if eq_ignoring_case(s, "DRAW") || eq_ignoring_case(s, "0") {
            return Ok(GameResult::Draw);
        }
        if eq_ignoring_case(s, "B+T") || eq_ignoring_case(s, "B+TIME") {
            return Ok(GameResult::Time(Color::Black));
        }
        if eq_ignoring_case(s, "W+T") || eq_ignoring_case(s, "W+TIME") {
            return Ok(GameResult::Time(Color::White));
        }
        if eq_ignoring_case(s, "B+R") || eq_ignoring_case(s, "B+RESIGN") {
            return Ok(GameResult::Resign(Color::Black));
        }
        if eq_ignoring_case(s, "W+R") || eq_ignoring_case(s, "W+RESIGN") {
            return Ok(GameResult::Resign(Color::White));
        }
        if eq_ignoring_case(s, "B+F") || eq_ignoring_case(s, "B+FORFEIT") {
            return Ok(GameResult::Forfeit(Color::Black));
        }
        if eq_ignoring_case(s, "W+F") || eq_ignoring_case(s, "W+FORFEIT") {
            return Ok(GameResult::Forfeit(Color::White));
        }
        let i = first_index_of(s, '+');
        if i >= n {
            return Err(GameResultParseError(()));
        }
        let colst = s.substring_char(0, i);
        let color = if eq_ignoring_case(colst, "B") {
            Color::Black
        } else if eq_ignoring_case(colst, "W") {
            Color::White
        } else {
            return Err(GameResultParseError(()));
        };
        let tail = s.substring_char(i + 1, n);
        let j = first_index_of(tail, '+');
        proof {
            lemma_first_index(tail@, '+');
        }
        let seg = tail.substring_char(0, j);
        match half_points_from_str(seg) {
            Some(h) => Ok(GameResult::Score(color, h)),
            None => Err(GameResultParseError(())),
        }
    }

    /// The textual form of the outcome; a score must name a stone color.
    pub fn to_text(&self) -> (r: String)
        requires
            *self matches GameResult::Score(c, _) ==> c == Color::Black || c == Color::White,
        ensures
            r@ == spec_game_result_text(*self),
    {
        match *self {
            GameResult::Score(c, s) => {
                let mut out = if c == Color::Black {
                    String::from_str("B+")
                } else {
                    String::from_str("W+")
                };
                push_half_points(&mut out, s);
                out
            },
            GameResult::Resign(c) => String::from_str(
                if c == Color::Black {
                    "B+R"
                } else {
                    "W+R"
                },
            ),
            GameResult::Forfeit(c) => String::from_str(
                if c == Color::Black {
                    "B+F"
                } else {
                    "W+F"
                },
            ),
            GameResult::Time(c) => String::from_str(
                if c == Color::Black {
                    "B+T"
                } else {
                    "W+T"
                },
            ),
            GameResult::Draw => String::from_str("Draw"),
            GameResult::Void => String::from_str("Void"),
            GameResult::Unknown => String::from_str("?"),
        }
    }
}

impl GameResultRange {
    /// An outcome with an uncertainty half-width in whole points.
    pub fn new(result: GameResult, range: u16) -> (r: Self)
        ensures
            r.result == result,
            r.range == range,
    {
        GameResultRange { result, range }
    }

    /// Whether `other_result` falls within this range: both outcomes must
    /// project to a signed score (Void and Unknown never do), and the
    /// projections must differ by at most the half-width.
    pub fn includes(&self, other_result: &GameResult) -> (r: bool)
        ensures
            r == match (spec_signed_half(self.result), spec_signed_half(*other_result)) {
                (Some(a), Some(b)) => -2 * self.range <= a - b <= 2 * self.range,
                _ => false,
            },
    {
        let myself: i64 = match self.result {
            GameResult::Score(color, score) => if color == Color::Black {
                -(score as i64)
            } else {
                score as i64
            },
            GameResult::Resign(_) => 0,
            GameResult::Forfeit(_) => 0,
            GameResult::Draw => 0,
            GameResult::Time(_) => 0,
            GameResult::Void => {
                return false;
            },
            GameResult::Unknown => {
                return false;
            },
        };
        let other: i64 = match *other_result {
            GameResult::Score(color, score) => if color == Color::Black {
                -(score as i64)
            } else {
                score as i64
            },
            GameResult::Resign(_) => 0,
            GameResult::Forfeit(_) => 0,
            GameResult::Draw => 0,
            GameResult::Time(_) => 0,
            GameResult::Void => {
                return false;
            },
            GameResult::Unknown => {
                return false;
            },
        };
        let diff = myself - other;
        -2 * (self.range as i64) <= diff && diff <= 2 * (self.range as i64)
    }

    /// Whether this range is a strictly better outcome than `other` for
    /// `color`, under the signed projection: larger is better for White,
    /// smaller for Black.
    pub fn better_than_for(&self, other: &GameResultRange, color: Color) -> (r: bool)
        ensures
            r == if color == Color::White {
                spec_projection(self.result) > spec_projection(other.result)
            } else {
                spec_projection(self.result) < spec_projection(other.result)
            },
    {
        let a = Self::projection(&self.result);
        let b = Self::projection(&other.result);
        if color == Color::White {
            a > b
        } else {
            a < b
        }
    }

    /// The signed projection of an outcome, with Void and Unknown
    /// flattened to zero.
    fn projection(r: &GameResult) -> (p: i64)
        ensures
            p == spec_projection(*r),
    {
        match *r {
            GameResult::Score(color, score) => if color == Color::Black {
                -(score as i64)
            } else {
                score as i64
            },
            _ => 0,
        }
    }

    /// Whether the scored margin lies safely outside the uncertainty: a
    /// win by strictly more than the half-width.
    pub fn safe_win(&self) -> (r: bool)
        ensures
            r == match self.result {
                GameResult::Score(_, s) => s > 2 * self.range,
                _ => false,
            },
    {
        match self.result {
            GameResult::Score(_, s) => s > 2 * (self.range as u32),
            _ => false,
        }
    }
}

} // verus!
