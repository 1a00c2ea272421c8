//! Lowercase hexadecimal rendering of digit sequences.
//!
//! The diagnostic textual form of a value is `0x` followed by the digits
//! most significant first. Each digit is rendered at a minimum width of
//! two characters, zero-padded; a digit above `0xff` widens its own
//! field, so the total width varies with the digits' magnitudes.

use vstd::prelude::*;

verus! {

/// The lowercase hexadecimal character for one value below 16.
pub open spec fn hex_char(v: nat) -> char {
    if v == 0 {
        '0'
    } else if v == 1 {
        '1'
    } else if v == 2 {
        '2'
    } else if v == 3 {
        '3'
    } else if v == 4 {
        '4'
    } else if v == 5 {
        '5'
    } else if v == 6 {
        '6'
    } else if v == 7 {
        '7'
    } else if v == 8 {
        '8'
    } else if v == 9 {
        '9'
    } else if v == 10 {
        'a'
    } else if v == 11 {
        'b'
    } else if v == 12 {
        'c'
    } else if v == 13 {
        'd'
    } else if v == 14 {
        'e'
    } else {
        'f'
    }
}

/// The lowercase hexadecimal rendering of `v` without leading zeros; zero
/// itself renders as the single character `0`.
pub open spec fn hex_digits(v: nat) -> Seq<char>
    decreases v,
{
    if v < 16 {
        seq![hex_char(v)]
    } else {
        hex_digits(v / 16).push(hex_char(v % 16))
    }
}

/// The rendering of one digit: `hex_digits`, zero-padded on the left to
/// at least two characters.
pub open spec fn hex_pad2(v: nat) -> Seq<char> {
    if v < 16 {
        seq!['0', hex_char(v)]
    } else {
        hex_digits(v)
    }
}

/// The rendering of a whole digit sequence, most significant digit first.
pub open spec fn hex_render(s: Seq<u64>) -> Seq<char>
    decreases s.len(),
{
    if s.len() == 0 {
        Seq::empty()
    } else {
        hex_render(s.subrange(1, s.len() as int)) + hex_pad2(s[0] as nat)
    }
}

/// Relies on `String::push`: appends one character at the end of the
/// string.
#[verifier::external_body]
pub(crate) fn push_char(s: &mut String, c: char)
    ensures
        final(s)@ == old(s)@.push(c),
{
    s.push(c);
}

/// One hexadecimal character, lowercase.
fn hex_char_exec(v: u64) -> (c: char)
    requires
        v < 16,
    ensures
        c == hex_char(v as nat),
{
    match v {
        0 => '0',
        1 => '1',
        2 => '2',
        3 => '3',
        4 => '4',
        5 => '5',
        6 => '6',
        7 => '7',
        8 => '8',
        9 => '9',
        10 => 'a',
        11 => 'b',
        12 => 'c',
        13 => 'd',
        14 => 'e',
        _ => 'f',
    }
}

/// Appends the unpadded hexadecimal rendering of `v`.
fn push_hex_digits(s: &mut String, v: u64)
    ensures
        final(s)@ == old(s)@ + hex_digits(v as nat),
    decreases v,
{
    let ghost before = s@;
    if v >= 16 {
        push_hex_digits(s, v / 16);
    }
    let c = hex_char_exec(v % 16);
    push_char(s, c);
    proof {
        if v < 16 {
            assert(v % 16 == v);
            assert(s@ =~= before + hex_digits(v as nat));
        } else {
            assert(s@ =~= before + hex_digits(v as nat));
        }
    }
}

/// Appends the rendering of one digit, zero-padded to at least two
/// characters.
pub(crate) fn push_hex_pad2(s: &mut String, v: u64)
    ensures
        final(s)@ == old(s)@ + hex_pad2(v as nat),
{
    let ghost before = s@;
    if v < 16 {
        push_char(s, '0');
        let c = hex_char_exec(v);
        push_char(s, c);
        proof {
            assert(s@ =~= before + hex_pad2(v as nat));
        }
    } else {
        push_hex_digits(s, v);
    }
}

} // verus!
