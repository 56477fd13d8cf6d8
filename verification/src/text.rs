//! Showing bytes as text.
//!
//! An alphabet is shown byte by byte: a graphic ASCII byte as its character,
//! any other byte as `\x` and two lower-case hexadecimal digits. A candidate
//! is shown as the text it encodes in UTF-8; one that encodes none is shown
//! as a fixed placeholder, so that a match can always be reported.

use vstd::prelude::*;
use vstd::string::StringSliceAdditionalSpecFns;
use vstd::utf8::{decode_utf8, encode_utf8_decode_utf8, valid_utf8};

verus! {

/// Shown in place of a candidate that is not UTF-8.
pub const NOT_UTF8: &'static str = "<not utf-8>";

/// The byte is a graphic ASCII character: visible, and not the space.
pub open spec fn is_graphic(byte: u8) -> bool {
    0x21 <= byte <= 0x7e
}

/// The lower-case hexadecimal digit of a value below 16.
pub open spec fn hex_digit(value: u8) -> char {
    if value < 10 {
        (0x30 + value) as u8 as char
    } else {
        (0x57 + value) as u8 as char
    }
}

/// How one byte is shown.
pub open spec fn shown_byte(byte: u8) -> Seq<char> {
    if is_graphic(byte) {
        seq![byte as char]
    } else {
        seq!['\\', 'x', hex_digit(byte / 16), hex_digit(byte % 16)]
    }
}

/// How a byte string is shown: its bytes, one after the other.
pub open spec fn shown(bytes: Seq<u8>) -> Seq<char>
    decreases bytes.len(),
{
    if bytes.len() == 0 {
        Seq::empty()
    } else {
        shown(bytes.drop_last()) + shown_byte(bytes.last())
    }
}

/// How a candidate is shown: as the text it encodes, or as the placeholder.
pub open spec fn candidate_shown(bytes: Seq<u8>) -> Seq<char> {
    if valid_utf8(bytes) {
        decode_utf8(bytes)
    } else {
        NOT_UTF8@
    }
}

/// Calls `String::push`, which appends one character to the string.
#[verifier::external_body]
fn push_char(text: &mut String, c: char)
    ensures
        final(text)@ == old(text)@.push(c),
{
    text.push(c)
}

/// Calls `std::str::from_utf8` and drops the description of the error. The
/// call succeeds exactly when the bytes are valid UTF-8, and the string slice
/// it then gives consists of those bytes.
#[verifier::external_body]
fn utf8_text(bytes: &[u8]) -> (text: Option<&str>)
    ensures
        text.is_some() <==> valid_utf8(bytes@),
        text.is_some() ==> text.unwrap().spec_bytes() == bytes@,
{
    std::str::from_utf8(bytes).ok()
}

/// The lower-case hexadecimal digit of `value`.
fn hex_char(value: u8) -> (c: char)
    requires
        value < 16,
    ensures
        c == hex_digit(value),
{
    if value < 10 {
        (0x30 + value) as char
    } else {
        (0x57 + value) as char
    }
}

/// Shows a byte string, byte by byte.
pub fn show_bytes(bytes: &[u8]) -> (text: String)
    ensures
        text@ == shown(bytes@),
{
    let mut text = String::new();
    let n: usize = bytes.len();
    let mut k: usize = 0;
    while k < n
        invariant
            k <= n == bytes@.len(),
            text@ == shown(bytes@.subrange(0, k as int)),
        decreases n - k,
    {
        let byte: u8 = bytes[k];
        let ghost before = text@;
        if 0x21 <= byte && byte <= 0x7e {
            push_char(&mut text, byte as char);
        } else {
            push_char(&mut text, '\\');
            push_char(&mut text, 'x');
            push_char(&mut text, hex_char(byte / 16));
            push_char(&mut text, hex_char(byte % 16));
        }
        proof {
            let upto = bytes@.subrange(0, k + 1);
            assert(upto.drop_last() =~= bytes@.subrange(0, k as int));
            assert(upto.last() == byte);
            assert(text@ =~= before + shown_byte(byte));
        }
        k = k + 1;
    }
    assert(bytes@.subrange(0, n as int) =~= bytes@);
    text
}

/// Shows a candidate: the text that its bytes encode in UTF-8, or the
/// placeholder if they encode none.
pub fn candidate_text(bytes: &[u8]) -> (text: String)
    ensures
        text@ == candidate_shown(bytes@),
{
    match utf8_text(bytes) {
        Some(s) => {
            proof {
                encode_utf8_decode_utf8(s@);
            }
            s.to_owned()
        },
        None => NOT_UTF8.to_owned(),
    }
}

} // verus!
