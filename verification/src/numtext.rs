//! Decimal rendering of the numbers that appear in textual forms.

use vstd::prelude::*;

use crate::coord::spec_digit_chars;

verus! {

/// The decimal text of a nonnegative number.
pub open spec fn spec_decimal_u32(n: int) -> Seq<char>
    recommends
        0 <= n,
    decreases n,
{
    if n < 10 {
        seq![spec_digit_chars()[if 0 <= n {
            n
        } else {
            0
        }]]
    } else {
        spec_decimal_u32(n / 10) + seq![spec_digit_chars()[n % 10]]
    }
}

/// The text of a count of half-points: the whole points, with `.5`
/// appended when the count is odd.
pub open spec fn spec_half_text(h: int) -> Seq<char>
    recommends
        0 <= h,
{
    spec_decimal_u32(h / 2) + if h % 2 == 1 {
        ".5"@
    } else {
        Seq::<char>::empty()
    }
}

/// Appends the decimal text of `n`.
pub fn push_decimal(out: &mut String, n: u32) -> (nothing: ())
    ensures
        final(out)@ == old(out)@ + spec_decimal_u32(n as int),
    decreases n,
{
    let ds = "0123456789";
    proof {
        reveal_strlit("0123456789");
    }
    assert(ds.is_ascii());
    if n >= 10 {
        push_decimal(out, n / 10);
    }
    let d = (n % 10) as usize;
    out.append(ds.substring_ascii(d, d + 1));
    proof {
        assert(out@ =~= old(out)@ + spec_decimal_u32(n as int));
    }
}

/// Appends the text of a count of half-points.
pub fn push_half_points(out: &mut String, h: u32) -> (nothing: ())
    ensures
        final(out)@ == old(out)@ + spec_half_text(h as int),
{
    push_decimal(out, h / 2);
    if h % 2 == 1 {
        out.append(".5");
    }
    proof {
        assert(out@ =~= old(out)@ + spec_half_text(h as int));
    }
}

} // verus!
