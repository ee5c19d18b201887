//! Rendering of millisecond counts as human-readable clock times.

use vstd::prelude::*;
use crate::tas_rec::chars_to_string;

verus! {

/// The character of one decimal digit.
pub open spec fn spec_digit_char(d: nat) -> char {
    if d == 0 {
        '0'
    } else if d == 1 {
        '1'
    } else if d == 2 {
        '2'
    } else if d == 3 {
        '3'
    } else if d == 4 {
        '4'
    } else if d == 5 {
        '5'
    } else if d == 6 {
        '6'
    } else if d == 7 {
        '7'
    } else if d == 8 {
        '8'
    } else {
        '9'
    }
}

/// The decimal text of `v`, zero-padded on the left to at least `width`
/// digits.
pub open spec fn spec_padded(v: nat, width: nat) -> Seq<char>
    decreases v + width,
{
    if v < 10 && width <= 1 {
        seq![spec_digit_char(v)]
    } else {
        spec_padded(v / 10, if width == 0 {
            0
        } else {
            (width - 1) as nat
        }) + seq![spec_digit_char(v % 10)]
    }
}

/// A nonnegative millisecond count rendered as `MM:SS.mmm` (minutes
/// unpadded past two digits).
pub open spec fn spec_clock(ms: nat) -> Seq<char> {
    spec_padded((ms / 1000) / 60, 2) + seq![':'] + spec_padded((ms / 1000) % 60, 2) + seq!['.']
        + spec_padded(ms % 1000, 3)
}

/// Renders a millisecond count as `MM:SS.mmm`, minutes unpadded past two
/// digits, with a leading minus sign for negative counts.
pub fn format_time(t: i32) -> (r: String)
    requires
        t > i32::MIN,
    ensures
        r@ == (if t < 0 {
            seq!['-']
        } else {
            Seq::<char>::empty()
        }) + spec_clock((if t < 0 {
            -t
        } else {
            t as int
        }) as nat),
{
    let mut out: Vec<char> = Vec::new();
    let mut v = t;
    if v < 0 {
        out.push('-');
        v = -v;
    }
    let total = v as u32;
    let minutes = (total / 1000) / 60;
    let seconds = (total / 1000) % 60;
    let millis = total % 1000;
    push_padded(&mut out, minutes, 2);
    out.push(':');
    push_padded(&mut out, seconds, 2);
    out.push('.');
    push_padded(&mut out, millis, 3);
    proof {
        assert(out@ =~= (if t < 0 {
            seq!['-']
        } else {
            Seq::<char>::empty()
        }) + spec_clock((if t < 0 {
            -t
        } else {
            t as int
        }) as nat));
    }
    chars_to_string(&out)
}

/// One decimal digit as a character.
pub(crate) fn digit_char(d: u32) -> (c: char)
    requires
        d < 10,
    ensures
        c == spec_digit_char(d as nat),
{
    if d == 0 {
        '0'
    } else if d == 1 {
        '1'
    } else if d == 2 {
        '2'
    } else if d == 3 {
        '3'
    } else if d == 4 {
        '4'
    } else if d == 5 {
        '5'
    } else if d == 6 {
        '6'
    } else if d == 7 {
        '7'
    } else if d == 8 {
        '8'
    } else {
        '9'
    }
}

/// Pushes `v` in decimal, zero-padded on the left to at least `width`
/// digits.
fn push_padded(out: &mut Vec<char>, v: u32, width: u32)
    ensures
        final(out)@ == old(out)@ + spec_padded(v as nat, width as nat),
    decreases v + width,
{
    if v < 10 && width <= 1 {
        out.push(digit_char(v));
        proof {
            assert(final(out)@ =~= old(out)@ + spec_padded(v as nat, width as nat));
        }
    } else {
        push_padded(out, v / 10, if width == 0 {
            0
        } else {
            width - 1
        });
        out.push(digit_char(v % 10));
        proof {
            assert(final(out)@ =~= old(out)@ + spec_padded(v as nat, width as nat));
        }
    }
}

} // verus!
