//! What can be wrong with a board's text.

use vstd::prelude::*;

verus! {

/// Error while reading a board from text.
#[derive(Clone, Copy, Debug, PartialEq, Eq, Structural)]
pub enum ParseError {
    /// A line's length, without white space at its end, is not the one
    /// expected: (line number, expected, actual).
    InvalidLineLength(usize, usize, usize),
    /// The number of lines is not the one expected: (expected, actual).
    InvalidRowCount(usize, usize),
    /// A line holds a character that is neither a digit from 1 to 9 nor `_`:
    /// (line number, character).
    InvalidCharacter(usize, char),
}

/// Decimal digit `d` as a character.
pub open spec fn digit_glyph(d: nat) -> char {
    seq!['0', '1', '2', '3', '4', '5', '6', '7', '8', '9'][d as int]
}

/// `n` written in decimal, without leading zeros.
pub open spec fn decimal(n: nat) -> Seq<char>
    decreases n,
{
    if n < 10 {
        seq![digit_glyph(n)]
    } else {
        decimal(n / 10) + seq![digit_glyph(n % 10)]
    }
}

/// The text that describes an error.
pub open spec fn message_text(e: ParseError) -> Seq<char> {
    match e {
        ParseError::InvalidLineLength(nr, expected, actual) => "Line "@ + decimal(nr as nat)
            + " didn't match expected line length. Expected: "@ + decimal(expected as nat)
            + ", Actual: "@ + decimal(actual as nat),
        ParseError::InvalidRowCount(expected, actual) =>
            "Amount of rows didn't match expected amount. Expected: "@ + decimal(expected as nat)
            + ", Actual: "@ + decimal(actual as nat),
        ParseError::InvalidCharacter(nr, ch) => "Line "@ + decimal(nr as nat)
            + " contains an invalid character '"@ + seq![ch] + "'"@,
    }
}

/// Relies on `String::push`: appends one character.
#[verifier::external_body]
fn push_char(s: &mut String, c: char)
    ensures
        final(s)@ == old(s)@.push(c),
{
    s.push(c);
}

/// Appends `n` in decimal to `s`.
fn push_decimal(s: &mut String, n: usize)
    ensures
        final(s)@ == old(s)@ + decimal(n as nat),
    decreases n,
{
    if n >= 10 {
        push_decimal(s, n / 10);
    }
    let digits = "0123456789";
    proof {
        reveal_strlit("0123456789");
    }
    let c = digits.get_char(n % 10);
    push_char(s, c);
    proof {
        assert(c == digit_glyph((n % 10) as nat));
        if n >= 10 {
            assert(decimal(n as nat) == decimal((n / 10) as nat) + seq![digit_glyph((n % 10) as nat)]);
        }
        assert(s@ =~= old(s)@ + decimal(n as nat));
    }
}

impl ParseError {
    /// The error described in words.
    pub fn message(&self) -> (r: String)
        ensures
            r@ == message_text(*self),
    {
        let mut s = String::new();
        match *self {
            ParseError::InvalidLineLength(nr, expected, actual) => {
                s.append("Line ");
                push_decimal(&mut s, nr);
                s.append(" didn't match expected line length. Expected: ");
                push_decimal(&mut s, expected);
                s.append(", Actual: ");
                push_decimal(&mut s, actual);
            },
            ParseError::InvalidRowCount(expected, actual) => {
                s.append("Amount of rows didn't match expected amount. Expected: ");
                push_decimal(&mut s, expected);
                s.append(", Actual: ");
                push_decimal(&mut s, actual);
            },
            ParseError::InvalidCharacter(nr, ch) => {
                s.append("Line ");
                push_decimal(&mut s, nr);
                s.append(" contains an invalid character '");
                push_char(&mut s, ch);
                s.append("'");
            },
        }
        proof {
            assert(s@ =~= message_text(*self));
        }
        s
    }
}

} // verus!
