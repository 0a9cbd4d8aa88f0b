//! Uppercase hexadecimal rendering of code point and byte values, used by
//! both escape grammars.

use vstd::prelude::*;

verus! {

/// The uppercase hexadecimal digit for a value below 16.
pub open spec fn hex_digit(d: int) -> char {
    if d == 0 {
        '0'
    } else if d == 1 {
        '1'
    } else if d == 2 {
        '2'
    } else if d == 3 {
        '3'
    } else if d == 4 {
        '4'
    } else if d == 5 {
        '5'
    } else if d == 6 {
        '6'
    } else if d == 7 {
        '7'
    } else if d == 8 {
        '8'
    } else if d == 9 {
        '9'
    } else if d == 10 {
        'A'
    } else if d == 11 {
        'B'
    } else if d == 12 {
        'C'
    } else if d == 13 {
        'D'
    } else if d == 14 {
        'E'
    } else {
        'F'
    }
}

/// The uppercase hexadecimal digits of `v`, most significant first, padded
/// with leading zeros to at least `min` digits.
pub open spec fn hex_seq(v: nat, min: nat) -> Seq<char>
    decreases v, min,
{
    if v < 16 && min <= 1 {
        seq![hex_digit(v as int)]
    } else {
        hex_seq(v / 16, (if min <= 1 {
            0
        } else {
            min - 1
        }) as nat) + seq![hex_digit((v % 16) as int)]
    }
}

fn hex_digit_char(d: u32) -> (r: char)
    requires
        d < 16,
    ensures
        r == hex_digit(d as int),
{
    if d < 10 {
        ((48 + d) as u8) as char
    } else {
        ((55 + d) as u8) as char
    }
}

/// Appends the uppercase hexadecimal form of `v`, padded to at least `min`
/// digits, to `out`.
pub fn push_hex(out: &mut Vec<char>, v: u32, min: u32)
    ensures
        final(out)@ == old(out)@ + hex_seq(v as nat, min as nat),
    decreases v, min,
{
    if v < 16 && min <= 1 {
        out.push(hex_digit_char(v));
        assert(out@ =~= old(out)@ + hex_seq(v as nat, min as nat));
    } else {
        let rest: u32 = if min <= 1 {
            0
        } else {
            min - 1
        };
        assert(v as nat / 16 == (v / 16) as nat && v as nat % 16 == (v % 16) as nat);
        push_hex(out, v / 16, rest);
        out.push(hex_digit_char(v % 16));
        assert(out@ =~= old(out)@ + hex_seq(v as nat, min as nat));
    }
}

} // verus!
