//! Text from bytes and from characters.

use vstd::prelude::*;
use vstd::utf8::{decode_utf8, valid_utf8};

verus! {

/// `String::from_utf8`: bytes that are valid UTF-8 become the string that
/// they encode, and other bytes are handed back as they came.
#[verifier::external_body]
pub(crate) fn string_from_utf8(bytes: Vec<u8>) -> (r: Result<String, Vec<u8>>)
    ensures
        match r {
            Ok(string) => valid_utf8(bytes@) && string@ == decode_utf8(bytes@),
            Err(rest) => !valid_utf8(bytes@) && rest@ == bytes@,
        },
{
    match String::from_utf8(bytes) {
        Ok(string) => Ok(string),
        Err(error) => Err(error.into_bytes()),
    }
}

/// `String::from` on a character: the string of that one character.
#[verifier::external_body]
pub(crate) fn string_from_char(c: char) -> (r: String)
    ensures
        r@ == seq![c],
{
    String::from(c)
}

/// `String::push`: the character is appended to the string.
#[verifier::external_body]
pub(crate) fn string_push(string: &mut String, c: char)
    ensures
        final(string)@ == old(string)@.push(c),
{
    string.push(c);
}

/// The character of a decimal digit.
pub open spec fn digit(d: nat) -> char {
    ((48 + d) as u8) as char
}

/// The decimal digits of a natural number, without leading zeros.
pub open spec fn digits(n: nat) -> Seq<char>
    decreases n,
{
    if n < 10 {
        seq![digit(n)]
    } else {
        digits(n / 10).push(digit(n % 10))
    }
}

/// An integer in decimal notation: its digits, after a minus sign where it
/// is below zero.
pub open spec fn decimal(n: int) -> Seq<char> {
    if n < 0 {
        seq!['-'] + digits((-n) as nat)
    } else {
        digits(n as nat)
    }
}

fn push_digits(out: &mut String, n: u128)
    ensures
        final(out)@ == old(out)@ + digits(n as nat),
    decreases n,
{
    if n >= 10 {
        push_digits(out, n / 10);
    }
    let d: u8 = (n % 10) as u8;
    string_push(out, (48 + d) as char);
    proof {
        if n >= 10 {
            assert(old(out)@ + digits(n as nat) =~= (old(out)@ + digits((n / 10) as nat)).push(
                digit((n % 10) as nat),
            ));
        } else {
            assert(old(out)@ + digits(n as nat) =~= old(out)@.push(digit(n as nat)));
        }
    }
}

/// An integer in decimal notation.
pub fn decimal_text(n: i128) -> (r: String)
    ensures
        r@ == decimal(n as int),
{
    let mut out = String::new();
    if n < 0 {
        string_push(&mut out, '-');
        let magnitude: u128 = (-(n + 1)) as u128 + 1;
        push_digits(&mut out, magnitude);
    } else {
        push_digits(&mut out, n as u128);
        assert(out@ =~= digits(n as nat));
    }
    out
}

/// The lower-case form of an ASCII capital, and any other character itself.
pub open spec fn ascii_lower(c: char) -> char {
    if 'A' <= c <= 'Z' {
        ((c as u8) + 32) as char
    } else {
        c
    }
}

/// The two texts are the same but for the case of their ASCII letters.
pub open spec fn same_ignoring_case(a: Seq<char>, b: Seq<char>) -> bool {
    &&& a.len() == b.len()
    &&& forall|i: int| 0 <= i < a.len() ==> ascii_lower(#[trigger] a[i]) == ascii_lower(b[i])
}

/// `str::eq_ignore_ascii_case`: whether the two texts match when the case of
/// their ASCII letters is left out of account.
#[verifier::external_body]
pub(crate) fn eq_ignore_ascii_case(a: &str, b: &str) -> (r: bool)
    ensures
        r == same_ignoring_case(a@, b@),
{
    a.eq_ignore_ascii_case(b)
}

/// The text that the bytes encode, where they are valid UTF-8.
pub fn text_from_bytes(bytes: Vec<u8>) -> (r: Option<String>)
    ensures
        match r {
            Some(text) => valid_utf8(bytes@) && text@ == decode_utf8(bytes@),
            None => !valid_utf8(bytes@),
        },
{
    match string_from_utf8(bytes) {
        Ok(text) => Some(text),
        Err(_) => None,
    }
}

} // verus!
