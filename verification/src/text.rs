//! Building the texts a frontend shows, on top of std's strings.

use vstd::prelude::*;

verus! {

/// The character a decimal digit is written with.
pub open spec fn digit_char(d: nat) -> char {
    if d == 0 {
        '0'
    } else if d == 1 {
        '1'
    } else if d == 2 {
        '2'
    } else if d == 3 {
        '3'
    } else if d == 4 {
        '4'
    } else if d == 5 {
        '5'
    } else if d == 6 {
        '6'
    } else if d == 7 {
        '7'
    } else if d == 8 {
        '8'
    } else {
        '9'
    }
}

/// `n` written in decimal, without sign or leading zeros.
pub open spec fn decimal_text(n: nat) -> Seq<char>
    decreases n,
{
    if n < 10 {
        seq![digit_char(n)]
    } else {
        decimal_text(n / 10).push(digit_char(n % 10))
    }
}

/// `String::push_str` of std: the text grows by the piece, at its end.
pub assume_specification[ String::push_str ](text: &mut String, piece: &str)
    ensures
        final(text)@ == old(text)@ + piece@,
;

/// `to_string` of std on an unsigned integer: its decimal digits, most
/// significant first, with no sign and no leading zeros.
#[verifier::external_body]
pub(crate) fn decimal(n: u64) -> (text: String)
    ensures
        text@ == decimal_text(n as nat),
{
    n.to_string()
}

/// `to_string` of std on an I/O error: the error's own description, of
/// which nothing is claimed.
#[verifier::external_body]
pub(crate) fn describe_io(error: &std::io::Error) -> String {
    error.to_string()
}

} // verus!
