//! Grid positions, their neighborhoods, and their textual forms.

use vstd::prelude::*;

use crate::rng::random_u64;

verus! {

/// A zero-based grid position. `row` 0 is the bottom edge, `col` 0 the
/// left edge; the textual form writes the column as a letter (skipping I)
/// and the row as a one-based number.
#[derive(Clone, Copy, PartialEq, Eq, Structural, Debug, Hash)]
pub struct Coord {
    pub row: u8,
    pub col: u8,
}

/// The column letters in order: A to Z with I left out.
pub open spec fn spec_col_letters() -> Seq<char> {
    "ABCDEFGHJKLMNOPQRSTUVWXYZ"@
}

/// The ten decimal digit characters in order.
pub open spec fn spec_digit_chars() -> Seq<char> {
    "0123456789"@
}

/// ASCII upper-casing on the numeric value of a character.
pub open spec fn upcase_u32(c: char) -> u32 {
    if 97 <= c as u32 <= 122 {
        (c as u32 - 32) as u32
    } else {
        c as u32
    }
}

/// `c` is a decimal digit character.
pub open spec fn is_digit_char(c: char) -> bool {
    48 <= c as u32 <= 57
}

/// The numeric value of a digit character.
pub open spec fn digit_val(c: char) -> int {
    c as u32 - 48
}

/// The value of a sequence of digit characters read as a decimal number.
pub open spec fn dec_value(s: Seq<char>) -> int
    decreases s.len(),
{
    if s.len() == 0 {
        0
    } else {
        dec_value(s.drop_last()) * 10 + digit_val(s.last())
    }
}

/// Every character of `s` is a decimal digit.
pub open spec fn all_digits(s: Seq<char>) -> bool {
    forall|i: int| 0 <= i < s.len() ==> is_digit_char(#[trigger] s[i])
}

/// What parsing a coordinate yields: a column letter (A–Z skipping I,
/// either case) followed by a one-based row number read as a byte-wide
/// unsigned number: at most one leading plus sign, then digits, no
/// larger than 255 and no smaller than 1.
pub open spec fn spec_parse_coord(s: Seq<char>) -> Option<Coord> {
    if s.len() < 2 {
        None
    } else {
        let u = upcase_u32(s[0]);
        if u < 65 || u > 90 || u == 73 {
            None
        } else {
            let col = if u > 73 {
                u - 66
            } else {
                u - 65
            };
            let tail = s.subrange(1, s.len() as int);
            let digits = if tail[0] == '+' {
                tail.subrange(1, tail.len() as int)
            } else {
                tail
            };
            if digits.len() == 0 || !all_digits(digits) {
                None
            } else {
                let v = dec_value(digits);
                if v < 1 || v > 255 {
                    None
                } else {
                    Some(Coord { row: (v - 1) as u8, col: col as u8 })
                }
            }
        }
    }
}

/// The decimal text of `n`, for 1 <= n <= 999.
pub open spec fn spec_decimal(n: int) -> Seq<char> {
    if n < 10 {
        seq![spec_digit_chars()[n]]
    } else if n < 100 {
        seq![spec_digit_chars()[n / 10], spec_digit_chars()[n % 10]]
    } else {
        seq![spec_digit_chars()[n / 100], spec_digit_chars()[(n / 10) % 10], spec_digit_chars()[n % 10]]
    }
}

/// The textual form of a coordinate: column letter, then one-based row.
pub open spec fn spec_coord_text(c: Coord) -> Seq<char> {
    seq![spec_col_letters()[c.col as int]] + spec_decimal(c.row + 1)
}

/// Whether each in-bounds edge-neighbor of `c` exists on a board of side
/// `bs`, in the fixed order north, south, east, west. A coordinate off
/// the board has no neighbors.
pub open spec fn spec_adjacents(c: Coord, bs: u8) -> Seq<Coord> {
    if c.col >= bs || c.row >= bs {
        Seq::empty()
    } else {
        let north: Seq<Coord> = if c.row + 1 < bs {
            seq![Coord { row: (c.row + 1) as u8, col: c.col }]
        } else {
            Seq::empty()
        };
        let south: Seq<Coord> = if c.row >= 1 {
            seq![Coord { row: (c.row - 1) as u8, col: c.col }]
        } else {
            Seq::empty()
        };
        let east: Seq<Coord> = if c.col + 1 < bs {
            seq![Coord { row: c.row, col: (c.col + 1) as u8 }]
        } else {
            Seq::empty()
        };
        let west: Seq<Coord> = if c.col >= 1 {
            seq![Coord { row: c.row, col: (c.col - 1) as u8 }]
        } else {
            Seq::empty()
        };
        north + south + east + west
    }
}

/// What parsing a two-letter game-record coordinate yields: two letters
/// (either case) denoting column and top-based row, both within the board.
pub open spec fn spec_parse_sgf_coord(s: Seq<char>, bs: u8) -> Option<Coord> {
    if s.len() != 2 {
        None
    } else {
        let a = upcase_u32(s[0]);
        let b = upcase_u32(s[1]);
        if a < 65 || b < 65 || a > 250 || b > 250 {
            None
        } else {
            let az = a - 65;
            let bz = b - 65;
            if az >= bs || bz >= bs {
                None
            } else {
                Some(Coord { row: (bs - bz - 1) as u8, col: az as u8 })
            }
        }
    }
}

/// Rejection token for malformed coordinate text.
#[derive(Debug)]
pub struct CoordParseError(pub ());

/// The decimal value of a digit prefix never shrinks as the prefix grows.
proof fn lemma_dec_value_nonneg(s: Seq<char>)
    requires
        all_digits(s),
    ensures
        dec_value(s) >= 0,
    decreases s.len(),
{
    if s.len() > 0 {
        assert(all_digits(s.drop_last())) by {
            assert(forall|i: int|
                0 <= i < s.len() - 1 ==> is_digit_char(#[trigger] s.drop_last()[i]) == is_digit_char(
                    s[i],
                ));
        }
        lemma_dec_value_nonneg(s.drop_last());
    }
}

pub proof fn lemma_dec_value_prefix(s: Seq<char>, i: int)
    requires
        all_digits(s),
        0 <= i <= s.len(),
    ensures
        dec_value(s.subrange(0, i)) <= dec_value(s),
    decreases s.len() - i,
{
    if i < s.len() {
        let p = s.subrange(0, i + 1);
        assert(p.drop_last() =~= s.subrange(0, i));
        assert(all_digits(p.drop_last()));
        lemma_dec_value_nonneg(p.drop_last());
        assert(dec_value(p) == dec_value(s.subrange(0, i)) * 10 + digit_val(s[i]));
        assert(dec_value(s.subrange(0, i)) <= dec_value(p)) by {
            lemma_dec_value_nonneg(s.subrange(0, i));
        }
        lemma_dec_value_prefix(s, i + 1);
        assert(s.subrange(0, s.len() as int) =~= s);
    } else {
        assert(s.subrange(0, i) =~= s);
    }
}

impl Coord {
    /// The coordinate with the given zero-based row and column.
    pub fn new(le_row: u8, le_col: u8) -> (r: Self)
        ensures
            r == (Coord { row: le_row, col: le_col }),
    {
        Coord { row: le_row, col: le_col }
    }

    /// As `new`, from machine-sized indices that fit in a byte.
    pub fn new_us(le_row: usize, le_col: usize) -> (r: Self)
        requires
            le_row < 256,
            le_col < 256,
        ensures
            r == (Coord { row: le_row as u8, col: le_col as u8 }),
    {
        Self::new(le_row as u8, le_col as u8)
    }

    /// A uniformly drawn coordinate of the board; only its bounds are
    /// promised, since the draw is random.
    pub fn random(board_size: usize) -> (r: Self)
        requires
            1 <= board_size <= 255,
        ensures
            r.row < board_size,
            r.col < board_size,
    {
        let bs = board_size as u64;
        let a = random_u64() % bs;
        let b = random_u64() % bs;
        Self::new(a as u8, b as u8)
    }

    /// All coordinates of a board of side `board_size`, in row-major
    /// order of the `row` field.
    pub fn all_possibles(board_size: usize) -> (r: Vec<Self>)
        requires
            board_size < 256,
        ensures
            r@.len() == board_size * board_size,
            forall|i: int|
                0 <= i < r@.len() ==> r@[i] == (Coord {
                    row: (i / board_size as int) as u8,
                    col: (i % board_size as int) as u8,
                }),
    {
        let mut coords: Vec<Coord> = Vec::new();
        let mut x: usize = 0;
        while x < board_size
            invariant
                0 <= x <= board_size < 256,
                coords@.len() == x * board_size,
                forall|i: int|
                    0 <= i < coords@.len() ==> coords@[i] == (Coord {
                        row: (i / board_size as int) as u8,
                        col: (i % board_size as int) as u8,
                    }),
            decreases board_size - x,
        {
            let mut y: usize = 0;
            while y < board_size
                invariant
                    0 <= y <= board_size < 256,
                    x < board_size,
                    coords@.len() == x * board_size + y,
                    forall|i: int|
                        0 <= i < coords@.len() ==> coords@[i] == (Coord {
                            row: (i / board_size as int) as u8,
                            col: (i % board_size as int) as u8,
                        }),
                decreases board_size - y,
            {
                proof {
                    let n = (x * board_size + y) as int;
                    assert(n / board_size as int == x && n % board_size as int == y) by (
                    nonlinear_arith)
                        requires
                            0 <= y < board_size,
                            0 <= x,
                            n == x * board_size + y,
                    ;
                }
                coords.push(Self::new_us(x, y));
                y += 1;
            }
            proof {
                assert((x + 1) * board_size == x * board_size + board_size) by (nonlinear_arith);
            }
            x += 1;
        }
        coords
    }

    /// The in-bounds edge-neighbors of the coordinate, in the order
    /// north, south, east, west.
    pub fn adjacents(&self, board_size: u8) -> (r: Vec<Coord>)
        ensures
            r@ == spec_adjacents(*self, board_size),
    {
        let mut r: Vec<Coord> = Vec::new();
        if self.col >= board_size || self.row >= board_size {
            assert(r@ =~= spec_adjacents(*self, board_size));
            return r;
        }
        if self.row < 255 && self.row + 1 < board_size {
            r.push(Coord::new(self.row + 1, self.col));
        }
        if self.row >= 1 {
            r.push(Coord::new(self.row - 1, self.col));
        }
        if self.col < 255 && self.col + 1 < board_size {
            r.push(Coord::new(self.row, self.col + 1));
        }
        if self.col >= 1 {
            r.push(Coord::new(self.row, self.col - 1));
        }
        assert(r@ =~= spec_adjacents(*self, board_size));
        r
    }

    /// Parses a two-letter game-record coordinate for a board of side
    /// `board_size`; both letters must fall within the board.
    pub fn from_sgf(s: &str, board_size: u8) -> (r: Result<Self, ()>)
        ensures
            match r {
                Ok(c) => spec_parse_sgf_coord(s@, board_size) == Some(c),
                Err(_) => spec_parse_sgf_coord(s@, board_size) is None,
            },
    {
        let n = s.unicode_len();
        if n != 2 {
            return Err(());
        }
        let a0 = s.get_char(0) as u32;
        let b0 = s.get_char(1) as u32;
        let a = if 97 <= a0 && a0 <= 122 {
            a0 - 32
        } else {
            a0
        };
        let b = if 97 <= b0 && b0 <= 122 {
            b0 - 32
        } else {
            b0
        };
        if a < 65 || b < 65 || a > 250 || b > 250 {
            return Err(());
        }
        let az = a - 65;
        let bz = b - 65;
        if az >= board_size as u32 || bz >= board_size as u32 {
            return Err(());
        }
        Ok(Self::new(board_size - bz as u8 - 1, az as u8))
    }

    /// Parses a coordinate such as `D4` or `T19`: a column letter (A–Z
    /// skipping I, either case) and a one-based row number.
    pub fn from_str(s: &str) -> (r: Result<Self, CoordParseError>)
        ensures
            match r {
                Ok(c) => spec_parse_coord(s@) == Some(c),
                Err(_) => spec_parse_coord(s@) is None,
            },
    {
        let n = s.unicode_len();
        if n < 2 {
            return Err(CoordParseError(()));
        }
        let c0 = s.get_char(0) as u32;
        let u = if 97 <= c0 && c0 <= 122 {
            c0 - 32
        } else {
            c0
        };
        if u < 65 || u > 90 || u == 73 {
            return Err(CoordParseError(()));
        }
        let col: u8 = if u > 73 {
            (u - 66) as u8
        } else {
            (u - 65) as u8
        };
        let start: usize = if s.get_char(1) == '+' {
            2
        } else {
            1
        };
        let ghost digits = s@.subrange(start as int, s@.len() as int);
        proof {
            let tail = s@.subrange(1, s@.len() as int);
            assert(tail[0] == s@[1]);
            if s@[1] == '+' {
                assert(tail.subrange(1, tail.len() as int) =~= digits);
            }
        }
        if start >= n {
            return Err(CoordParseError(()));
        }
        let mut acc: u32 = 0;
        let mut i: usize = start;
        while i < n
            invariant
                start <= i <= n,
                1 <= start <= 2,
                2 <= n == s@.len(),
                s@[1] == '+' ==> start == 2,
                s@[1] != '+' ==> start == 1,
                digits == s@.subrange(start as int, s@.len() as int),
                all_digits(digits.subrange(0, i - start)),
                acc == dec_value(digits.subrange(0, i - start)),
                acc <= 255,
            decreases n - i,
        {
            proof {
                let tail = s@.subrange(1, s@.len() as int);
                assert(tail[0] == s@[1]);
                if s@[1] == '+' {
                    assert(tail.subrange(1, tail.len() as int) =~= digits);
                }
            }
            let c = s.get_char(i) as u32;
            if c < 48 || c > 57 {
                assert(!all_digits(digits)) by {
                    assert(digits[i - start] == s@[i as int]);
                }
                return Err(CoordParseError(()));
            }
            proof {
                let p = digits.subrange(0, i - start + 1);
                assert(p.drop_last() =~= digits.subrange(0, i - start));
                assert(p.last() == s@[i as int]);
            }
            acc = acc * 10 + (c - 48);
            assert(acc == dec_value(digits.subrange(0, i - start + 1)));
            assert(all_digits(digits.subrange(0, i - start + 1)));
            if acc > 255 {
                proof {
                    if all_digits(digits) {
                        lemma_dec_value_prefix(digits, i - start + 1);
                    }
                }
                return Err(CoordParseError(()));
            }
            i += 1;
        }
        assert(digits.subrange(0, i - start) =~= digits);
        if acc < 1 {
            return Err(CoordParseError(()));
        }
        Ok(Self::new((acc - 1) as u8, col))
    }

    /// The textual form of the coordinate: column letter (defined for the
    /// 25 lettered columns), then the one-based row number.
    pub fn to_text(&self) -> (r: String)
        requires
            self.col < 25,
        ensures
            r@ == spec_coord_text(*self),
    {
        let letters = "ABCDEFGHJKLMNOPQRSTUVWXYZ";
        let ds = "0123456789";
        proof {
            reveal_strlit("ABCDEFGHJKLMNOPQRSTUVWXYZ");
            reveal_strlit("0123456789");
        }
        assert(letters.is_ascii());
        assert(ds.is_ascii());
        let mut out = String::new();
        let ci = self.col as usize;
        out.append(letters.substring_ascii(ci, ci + 1));
        let n: u16 = self.row as u16 + 1;
        if n < 10 {
            let d0 = n as usize;
            out.append(ds.substring_ascii(d0, d0 + 1));
        } else if n < 100 {
            let d1 = (n / 10) as usize;
            let d0 = (n % 10) as usize;
            out.append(ds.substring_ascii(d1, d1 + 1));
            out.append(ds.substring_ascii(d0, d0 + 1));
        } else {
            let d2 = (n / 100) as usize;
            let d1 = ((n / 10) % 10) as usize;
            let d0 = (n % 10) as usize;
            out.append(ds.substring_ascii(d2, d2 + 1));
            out.append(ds.substring_ascii(d1, d1 + 1));
            out.append(ds.substring_ascii(d0, d0 + 1));
        }
        assert(out@ =~= spec_coord_text(*self));
        out
    }
}

/// Formatting a coordinate and parsing the text back yields the same
/// coordinate, for every coordinate whose column has a letter (the 25
/// lettered columns) and whose one-based row number fits the parser's
/// byte-wide bound.
pub proof fn lemma_coord_round_trip(c: Coord)
    requires
        c.col < 25,
        c.row < 255,
    ensures
        spec_parse_coord(spec_coord_text(c)) == Some(c),
{
    reveal_strlit("ABCDEFGHJKLMNOPQRSTUVWXYZ");
    reveal_strlit("0123456789");
    let t = spec_coord_text(c);
    let letter = spec_col_letters()[c.col as int];
    let n = c.row + 1int;
    assert(t[0] == letter);
    let u = upcase_u32(letter);
    assert(65 <= u <= 90 && u != 73);
    assert(u > 73 ==> u - 66 == c.col);
    assert(u <= 73 ==> u - 65 == c.col);
    let digits = t.subrange(1, t.len() as int);
    assert(digits =~= spec_decimal(n));
    assert(forall|d: int| 0 <= d < 10 ==> is_digit_char(#[trigger] spec_digit_chars()[d]));
    assert(forall|d: int| 0 <= d < 10 ==> digit_val(#[trigger] spec_digit_chars()[d]) == d);
    if n < 10 {
        assert(digits.drop_last() =~= Seq::<char>::empty());
        assert(dec_value(digits.drop_last()) == 0);
        assert(digits.last() == spec_digit_chars()[n]);
        assert(dec_value(digits) == n);
    } else if n < 100 {
        let p1 = digits.drop_last();
        assert(p1 =~= seq![spec_digit_chars()[n / 10]]);
        assert(p1.drop_last() =~= Seq::<char>::empty());
        assert(dec_value(p1.drop_last()) == 0);
        assert(p1.last() == spec_digit_chars()[n / 10]);
        assert(dec_value(p1) == n / 10);
        assert(dec_value(digits) == (n / 10) * 10 + n % 10);
        assert((n / 10) * 10 + n % 10 == n) by (nonlinear_arith);
    } else {
        let p2 = digits.drop_last();
        let p1 = p2.drop_last();
        assert(p1 =~= seq![spec_digit_chars()[n / 100]]);
        assert(p1.drop_last() =~= Seq::<char>::empty());
        assert(dec_value(p1.drop_last()) == 0);
        assert(p1.last() == spec_digit_chars()[n / 100]);
        assert(dec_value(p1) == n / 100);
        assert(p2 =~= seq![spec_digit_chars()[n / 100], spec_digit_chars()[(n / 10) % 10]]);
        assert(dec_value(p2) == (n / 100) * 10 + (n / 10) % 10);
        assert(dec_value(digits) == ((n / 100) * 10 + (n / 10) % 10) * 10 + n % 10);
        assert(((n / 100) * 10 + (n / 10) % 10) * 10 + n % 10 == n) by (nonlinear_arith)
            requires
                100 <= n <= 256,
        ;
    }
    assert(1 <= dec_value(digits) <= 256);
    assert(spec_parse_coord(t) == Some(c));
}

} // verus!
