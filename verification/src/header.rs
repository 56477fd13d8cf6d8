//! The table header and its byte layout.
//!
//! A header is stored at offset 0 of a table file as
//!
//! ```text
//! length of the candidates    4 bytes, little-endian
//! number of alphabet bytes    8 bytes, little-endian
//! alphabet bytes              as many as the number says
//! ```
//!
//! so its size is `12 + alphabet.len()` bytes.

use vstd::prelude::*;
use vstd::arithmetic::div_mod::*;
use crate::radix::{
    compose, digit, digits, lemma_compose_bound, lemma_compose_digits, lemma_digits_in_base,
    lemma_power_monotonic, lemma_power_positive, power,
};

verus! {

/// Bytes taken by the two fixed-width fields in front of the alphabet.
pub const HEADER_FIXED_LEN: usize = 12;

/// The `width` low bytes of `x`, least significant first.
pub open spec fn le_bytes(x: nat, width: nat) -> Seq<u8> {
    Seq::new(width, |k: int| digit(x, 256, k as nat) as u8)
}

/// The number that `bytes` denote, least significant byte first.
pub open spec fn le_value(bytes: Seq<u8>) -> nat {
    compose(byte_digits(bytes), 256)
}

/// The bytes as digits in base 256.
pub open spec fn byte_digits(bytes: Seq<u8>) -> Seq<nat> {
    Seq::new(bytes.len(), |k: int| bytes[k] as nat)
}

/// The stored form of a header.
pub open spec fn header_bytes(len: u32, alphabet: Seq<u8>) -> Seq<u8> {
    le_bytes(len as nat, 4) + le_bytes(alphabet.len(), 8) + alphabet
}

/// Size of the stored form of a header.
pub open spec fn header_size(alphabet: Seq<u8>) -> nat {
    HEADER_FIXED_LEN as nat + alphabet.len()
}

/// `bytes` start with a complete header.
pub open spec fn starts_with_header(bytes: Seq<u8>) -> bool {
    &&& bytes.len() >= HEADER_FIXED_LEN
    &&& HEADER_FIXED_LEN + le_value(bytes.subrange(4, 12)) <= bytes.len()
}

/// What a table was built for: the length of its candidates and the alphabet.
#[derive(Clone, Debug, PartialEq, Eq)]
pub struct TableHeader {
    pub len: u32,
    pub charset: Vec<u8>,
}

/// 256 to the fourth and to the eighth power.
pub proof fn lemma_byte_powers()
    ensures
        power(256, 4) == 0x1_0000_0000,
        power(256, 8) == 0x1_0000_0000_0000_0000,
{
    reveal_with_fuel(power, 9);
}

/// The least significant bytes of a number that fits in `width` bytes denote
/// that number.
pub proof fn lemma_le_round_trip(x: nat, width: nat)
    requires
        x < power(256, width),
    ensures
        le_value(le_bytes(x, width)) == x,
{
    lemma_digits_in_base(x, 256, width);
    assert(byte_digits(le_bytes(x, width)) =~= digits(x, 256, width));
    lemma_compose_digits(x, 256, width);
}

/// A string of bytes denotes a number below `256^len`.
pub proof fn lemma_le_value_bound(bytes: Seq<u8>)
    ensures
        le_value(bytes) < power(256, bytes.len()),
{
    lemma_compose_bound(byte_digits(bytes), 256);
}

/// Appends to `out` the `width` low bytes of `x`, least significant first.
fn put_le(out: &mut Vec<u8>, x: u64, width: usize)
    ensures
        final(out)@ == old(out)@ + le_bytes(x as nat, width as nat),
{
    let mut remain: u64 = x;
    let mut k: usize = 0;
    assert(power(256, 0) == 1);
    assert(out@ =~= old(out)@ + le_bytes(x as nat, 0));
    while k < width
        invariant
            k <= width,
            remain == (x as nat) / power(256, k as nat),
            out@ == old(out)@ + le_bytes(x as nat, k as nat),
        decreases width - k,
    {
        let low: u64 = remain % 256;
        proof {
            lemma_power_positive(256, k as nat);
            lemma_div_denominator(x as int, power(256, k as nat) as int, 256);
            assert(power(256, k as nat) * 256 == 256 * power(256, k as nat)) by (nonlinear_arith);
            assert(low == digit(x as nat, 256, k as nat));
        }
        out.push(low as u8);
        remain = remain / 256;
        k = k + 1;
        assert(out@ =~= old(out)@ + le_bytes(x as nat, k as nat));
    }
}

/// Reads the number that `width` bytes of `bytes`, from offset `at`, denote.
fn get_le(bytes: &[u8], at: usize, width: usize) -> (x: u64)
    requires
        width <= 8,
        at + width <= bytes@.len(),
    ensures
        x == le_value(bytes@.subrange(at as int, at + width)),
{
    let ghost field = bytes@.subrange(at as int, at + width);
    let total: usize = bytes.len();
    let mut x: u64 = 0;
    let mut k: usize = width;
    assert(byte_digits(field.subrange(width as int, width as int)) =~= Seq::<nat>::empty());
    while k > 0
        invariant
            k <= width <= 8,
            at + width <= bytes@.len() == total,
            field == bytes@.subrange(at as int, at + width),
            x == le_value(field.subrange(k as int, width as int)),
        decreases k,
    {
        k = k - 1;
        let byte: u8 = bytes[at + k];
        proof {
            let rest = field.subrange(k + 1, width as int);
            let more = field.subrange(k as int, width as int);
            assert(byte_digits(more).drop_first() =~= byte_digits(rest));
            assert(byte_digits(more)[0] == byte as nat);
            lemma_le_value_bound(rest);
            lemma_le_value_bound(more);
            lemma_byte_powers();
            lemma_power_monotonic(256, more.len(), 8);
        }
        x = x * 256 + byte as u64;
    }
    assert(field.subrange(0, width as int) =~= field);
    x
}

impl TableHeader {
    /// The stored form of the header.
    pub fn encode(&self) -> (bytes: Vec<u8>)
        ensures
            bytes@ == header_bytes(self.len, self.charset@),
            bytes@.len() == header_size(self.charset@),
    {
        let mut bytes: Vec<u8> = Vec::new();
        put_le(&mut bytes, self.len as u64, 4);
        put_le(&mut bytes, self.charset.len() as u64, 8);
        bytes.extend_from_slice(self.charset.as_slice());
        assert(bytes@ =~= header_bytes(self.len, self.charset@));
        bytes
    }

    /// Reads the header that `bytes` start with, and gives its size with it.
    /// `None` exactly when `bytes` end before the header does.
    pub fn decode(bytes: &[u8]) -> (parsed: Option<(TableHeader, usize)>)
        ensures
            parsed.is_some() <==> starts_with_header(bytes@),
            parsed.is_some() ==> {
                let (header, size) = parsed.unwrap();
                &&& header.len == le_value(bytes@.subrange(0, 4))
                &&& header.charset@.len() == le_value(bytes@.subrange(4, 12))
                &&& size == header_size(header.charset@)
                &&& header.charset@ == bytes@.subrange(HEADER_FIXED_LEN as int, size as int)
            },
    {
        if bytes.len() < HEADER_FIXED_LEN {
            return None;
        }
        let len: u64 = get_le(bytes, 0, 4);
        let count: u64 = get_le(bytes, 4, 8);
        proof {
            lemma_le_value_bound(bytes@.subrange(0, 4));
            lemma_byte_powers();
        }
        if count > (bytes.len() - HEADER_FIXED_LEN) as u64 {
            return None;
        }
        let size: usize = HEADER_FIXED_LEN + count as usize;
        let charset: Vec<u8> = vstd::slice::slice_to_vec(
            vstd::slice::slice_subrange(bytes, HEADER_FIXED_LEN, size),
        );
        Some((TableHeader { len: len as u32, charset }, size))
    }
}

/// A header is read back from its stored form, whatever follows it.
pub proof fn lemma_header_round_trip(len: u32, alphabet: Seq<u8>, rest: Seq<u8>)
    requires
        alphabet.len() <= u64::MAX,
    ensures
        ({
            let bytes = header_bytes(len, alphabet) + rest;
            &&& starts_with_header(bytes)
            &&& le_value(bytes.subrange(0, 4)) == len
            &&& le_value(bytes.subrange(4, 12)) == alphabet.len()
            &&& bytes.subrange(HEADER_FIXED_LEN as int, header_size(alphabet) as int) == alphabet
        }),
{
    let bytes = header_bytes(len, alphabet) + rest;
    lemma_byte_powers();
    assert(bytes.subrange(0, 4) =~= le_bytes(len as nat, 4));
    assert(bytes.subrange(4, 12) =~= le_bytes(alphabet.len(), 8));
    lemma_le_round_trip(len as nat, 4);
    lemma_le_round_trip(alphabet.len(), 8);
    assert(bytes.subrange(HEADER_FIXED_LEN as int, header_size(alphabet) as int) =~= alphabet);
}

} // verus!
