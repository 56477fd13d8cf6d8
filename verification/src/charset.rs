//! The enumerator: an ordered alphabet and the numbering of the candidates
//! over it.
//!
//! The candidate of index `i` and length `len` has, at position `k`, the
//! alphabet byte selected by digit `k` of `i` in base `alphabet.len()`. Digit
//! 0 is the least significant one, so the first byte of a candidate changes
//! fastest as the index grows: over `"ab"` the candidates of length 2 come in
//! the order `aa`, `ba`, `ab`, `bb`. This is not alphabetical order.
//!
//! Indices are `u64`. A pair of alphabet and length is supported when
//! `alphabet.len()^len` fits in a `u64`; [`Charset::range`] checks that and
//! rejects every other pair.

use vstd::prelude::*;
use vstd::arithmetic::div_mod::*;
use vstd::arithmetic::mul::*;
use core::ops::Range;
use vstd::string::StringSliceAdditionalSpecFns;
use crate::text::{show_bytes, shown};
use crate::radix::{
    compose, digit, digits, lemma_compose_bound, lemma_compose_digits,
    lemma_compose_suffix, lemma_digits_compose, lemma_digits_in_base, lemma_power_monotonic,
    lemma_power_positive, power,
};

verus! {

/// Number of candidates of length `len` over `alphabet`.
pub open spec fn space_size(alphabet: Seq<u8>, len: nat) -> nat {
    power(alphabet.len(), len)
}

/// The candidate of index `i` and length `len` over `alphabet`.
pub open spec fn candidate(alphabet: Seq<u8>, i: nat, len: nat) -> Seq<u8> {
    Seq::new(len, |k: int| alphabet[digit(i, alphabet.len(), k as nat) as int])
}

/// No byte occurs twice in the alphabet.
pub open spec fn distinct(alphabet: Seq<u8>) -> bool {
    forall|p: int, q: int|
        0 <= p < alphabet.len() && 0 <= q < alphabet.len() && alphabet[p] == alphabet[q] ==> p == q
}

/// Every byte of `word` occurs in the alphabet.
pub open spec fn over_alphabet(alphabet: Seq<u8>, word: Seq<u8>) -> bool {
    forall|k: int| 0 <= k < word.len() ==> alphabet.contains(#[trigger] word[k])
}

/// Where `byte` first occurs in the alphabet; the length of the alphabet if
/// it does not occur.
pub open spec fn position(alphabet: Seq<u8>, byte: u8) -> nat
    decreases alphabet.len(),
{
    if alphabet.len() == 0 || alphabet[0] == byte {
        0
    } else {
        1 + position(alphabet.drop_first(), byte)
    }
}

/// The positions in the alphabet of the bytes of `word`.
pub open spec fn positions(alphabet: Seq<u8>, word: Seq<u8>) -> Seq<nat> {
    Seq::new(word.len(), |k: int| position(alphabet, word[k]))
}

/// The index of `word`: the number whose digits, least significant first,
/// are the positions of its bytes in the alphabet.
pub open spec fn word_index(alphabet: Seq<u8>, word: Seq<u8>) -> nat {
    compose(positions(alphabet, word), alphabet.len())
}

/// An ordered alphabet of bytes. Uniqueness of the bytes is a convention, not
/// an invariant: nothing here enforces it.
#[derive(Clone, PartialEq, Eq)]
pub struct Charset(pub Vec<u8>);

impl View for Charset {
    type V = Seq<u8>;

    open spec fn view(&self) -> Seq<u8> {
        self.0@
    }
}

impl Charset {
    /// The alphabet made of the bytes of `text`, in order.
    pub fn new(text: &str) -> (charset: Charset)
        ensures
            charset@ == text.spec_bytes(),
    {
        Charset(vstd::slice::slice_to_vec(text.as_bytes()))
    }

    /// The bytes of the alphabet, in order.
    pub fn as_bytes(&self) -> (bytes: &[u8])
        ensures
            bytes@ == self@,
    {
        self.0.as_slice()
    }

    /// The alphabet as text: a graphic ASCII byte as its character, any other
    /// byte as `\x` and two hexadecimal digits.
    pub fn describe(&self) -> (text: String)
        ensures
            text@ == shown(self@),
    {
        show_bytes(self.0.as_slice())
    }

    /// The index space of the candidates of length `output_len`: `0..n^len`
    /// for an alphabet of `n` bytes. `None` exactly when `n^len` does not fit
    /// in a `u64`.
    pub fn range(&self, output_len: u32) -> (range: Option<Range<u64>>)
        ensures
            range.is_some() <==> space_size(self@, output_len as nat) <= u64::MAX,
            range.is_some() ==> range.unwrap().start == 0 && range.unwrap().end == space_size(
                self@,
                output_len as nat,
            ),
    {
        let n: usize = self.0.len();
        if n == 0 {
            proof {
                lemma_power_of_zero(output_len as nat);
            }
            let end: u64 = if output_len == 0 { 1 } else { 0 };
            return Some(Range { start: 0, end });
        }
        if n == 1 {
            proof {
                lemma_power_of_one(output_len as nat);
            }
            return Some(Range { start: 0, end: 1 });
        }
        let base: u64 = n as u64;
        let mut size: u64 = 1;
        let mut k: u32 = 0;
        while k < output_len
            invariant
                k <= output_len,
                base == self@.len(),
                base >= 2,
                size == power(base as nat, k as nat),
            decreases output_len - k,
        {
            match size.checked_mul(base) {
                Some(next) => {
                    assert(size * base == base * size) by (nonlinear_arith);
                    size = next;
                    k = k + 1;
                },
                None => {
                    proof {
                        assert(size * base == base * size) by (nonlinear_arith);
                        lemma_power_monotonic(base as nat, (k + 1) as nat, output_len as nat);
                    }
                    return None;
                },
            }
        }
        Some(Range { start: 0, end: size })
    }

    /// Where `byte` first occurs in the alphabet, if it occurs.
    pub fn position_of(&self, byte: u8) -> (found: Option<usize>)
        ensures
            found.is_some() <==> self@.contains(byte),
            found.is_some() ==> found.unwrap() == position(self@, byte),
    {
        let n: usize = self.0.len();
        let mut k: usize = 0;
        while k < n
            invariant
                k <= n == self@.len(),
                forall|q: int| 0 <= q < k ==> self@[q] != byte,
            decreases n - k,
        {
            if self.0[k] == byte {
                proof {
                    lemma_position_first(self@, byte, k as int);
                }
                return Some(k);
            }
            k = k + 1;
        }
        None
    }

    /// The index of `word` among the candidates of its length: the inverse of
    /// [`Charset::get_into`] on an alphabet without repetition. `None` exactly
    /// when a byte of `word` is not in the alphabet or the index does not fit
    /// in a `u64`.
    pub fn index_of(&self, word: &[u8]) -> (index: Option<u64>)
        ensures
            index.is_some() <==> over_alphabet(self@, word@) && word_index(self@, word@)
                <= u64::MAX,
            index.is_some() ==> index.unwrap() == word_index(self@, word@),
    {
        let len: usize = word.len();
        let n: u64 = self.0.len() as u64;
        let mut acc: u64 = 0;
        let mut k: usize = len;
        assert(positions(self@, word@.subrange(len as int, len as int)) =~= Seq::<nat>::empty());
        while k > 0
            invariant
                k <= len == word@.len(),
                n == self@.len(),
                acc == word_index(self@, word@.subrange(k as int, len as int)),
                forall|j: int| k <= j < len ==> self@.contains(#[trigger] word@[j]),
            decreases k,
        {
            k = k - 1;
            let place: u64 = match self.position_of(word[k]) {
                Some(p) => p as u64,
                None => {
                    assert(!self@.contains(word@[k as int]));
                    return None;
                },
            };
            proof {
                let more = word@.subrange(k as int, len as int);
                let rest = word@.subrange(k + 1, len as int);
                assert(positions(self@, more).drop_first() =~= positions(self@, rest));
                assert(positions(self@, more)[0] == place);
                assert(word_index(self@, more) == place + n * acc);
                assert(positions(self@, word@).subrange(k as int, len as int) =~= positions(
                    self@,
                    more,
                ));
                lemma_compose_suffix(positions(self@, word@), n as nat, k as nat);
            }
            let scaled: u64 = match acc.checked_mul(n) {
                Some(v) => v,
                None => {
                    assert(acc * n == n * acc) by (nonlinear_arith);
                    return None;
                },
            };
            assert(acc * n == n * acc) by (nonlinear_arith);
            acc = match scaled.checked_add(place) {
                Some(v) => v,
                None => { return None; },
            };
        }
        assert(word@.subrange(0, len as int) =~= word@);
        Some(acc)
    }

    /// Writes into `buf` the candidate of index `i` whose length is that of
    /// `buf`. Digits of `i` beyond the length of `buf` are ignored.
    pub fn get_into(&self, i: u64, buf: &mut [u8])
        requires
            old(buf)@.len() > 0 ==> self@.len() > 0,
        ensures
            final(buf)@ == candidate(self@, i as nat, old(buf)@.len()),
    {
        let len: usize = buf.len();
        if len == 0 {
            assert(buf@ =~= candidate(self@, i as nat, 0));
            return;
        }
        let n: u64 = self.0.len() as u64;
        let mut remain: u64 = i;
        let mut k: usize = 0;
        assert(power(n as nat, 0) == 1);
        while k < len
            invariant
                k <= len,
                len == buf@.len(),
                n == self@.len(),
                n > 0,
                remain == (i as nat) / power(n as nat, k as nat),
                forall|j: int|
                    0 <= j < k ==> buf@[j] == self@[digit(i as nat, n as nat, j as nat) as int],
            decreases len - k,
        {
            let modulo: u64 = remain % n;
            proof {
                lemma_power_positive(n as nat, k as nat);
                lemma_div_denominator(i as int, power(n as nat, k as nat) as int, n as int);
                assert(power(n as nat, k as nat) * n == n * power(n as nat, k as nat))
                    by (nonlinear_arith);
                lemma_mod_bound(remain as int, n as int);
                assert(modulo == digit(i as nat, n as nat, k as nat));
            }
            assert(modulo < self.0.len());
            let slot: usize = modulo as usize;
            assert(slot == digit(i as nat, n as nat, k as nat));
            let byte: u8 = self.0[slot];
            let ghost before = buf@;
            buf[k] = byte;
            assert(buf@ == before.update(k as int, byte));
            remain = remain / n;
            k = k + 1;
        }
        assert(buf@ =~= candidate(self@, i as nat, len as nat));
    }
}

/// Zero to the power zero is one; every other power of zero is zero.
pub proof fn lemma_power_of_zero(exp: nat)
    ensures
        power(0, exp) == if exp == 0 { 1nat } else { 0nat },
{
    if exp > 0 {
        assert(power(0, exp) == 0 * power(0, (exp - 1) as nat));
    }
}

/// Every power of one is one.
pub proof fn lemma_power_of_one(exp: nat)
    ensures
        power(1, exp) == 1,
    decreases exp,
{
    if exp > 0 {
        lemma_power_of_one((exp - 1) as nat);
    }
}

/// `position` gives the first place at which a byte occurs.
pub proof fn lemma_position_first(alphabet: Seq<u8>, byte: u8, p: int)
    requires
        0 <= p < alphabet.len(),
        alphabet[p] == byte,
        forall|q: int| 0 <= q < p ==> alphabet[q] != byte,
    ensures
        position(alphabet, byte) == p,
    decreases alphabet.len(),
{
    if p > 0 {
        assert(alphabet[0] != byte);
        let rest = alphabet.drop_first();
        assert forall|q: int| 0 <= q < p - 1 implies rest[q] != byte by {
            assert(rest[q] == alphabet[q + 1]);
        }
        lemma_position_first(rest, byte, p - 1);
    }
}

/// A byte that occurs in the alphabet stands at its `position`; one that
/// does not has the length of the alphabet for its `position`.
pub proof fn lemma_position_found(alphabet: Seq<u8>, byte: u8)
    ensures
        position(alphabet, byte) <= alphabet.len(),
        alphabet.contains(byte) <==> position(alphabet, byte) < alphabet.len(),
        alphabet.contains(byte) ==> alphabet[position(alphabet, byte) as int] == byte,
    decreases alphabet.len(),
{
    if alphabet.len() > 0 && alphabet[0] != byte {
        let rest = alphabet.drop_first();
        lemma_position_found(rest, byte);
        if alphabet.contains(byte) {
            let p = choose|p: int| 0 <= p < alphabet.len() && alphabet[p] == byte;
            assert(rest[p - 1] == byte);
        }
        if rest.contains(byte) {
            let q = choose|q: int| 0 <= q < rest.len() && rest[q] == byte;
            assert(alphabet[q + 1] == byte);
        }
    }
}

/// In an alphabet without repetition every byte stands at its own position.
pub proof fn lemma_position_of_distinct(alphabet: Seq<u8>, p: int)
    requires
        distinct(alphabet),
        0 <= p < alphabet.len(),
    ensures
        position(alphabet, alphabet[p]) == p,
{
    lemma_position_found(alphabet, alphabet[p]);
}

/// Decoding an index and composing the index of the candidate again gives
/// the index back.
pub proof fn lemma_index_round_trip(alphabet: Seq<u8>, len: nat, i: nat)
    requires
        distinct(alphabet),
        i < space_size(alphabet, len),
    ensures
        word_index(alphabet, candidate(alphabet, i, len)) == i,
{
    let n = alphabet.len();
    if n == 0 {
        lemma_power_of_zero(len);
        assert(positions(alphabet, candidate(alphabet, i, len)) =~= Seq::<nat>::empty());
    } else {
        let word = candidate(alphabet, i, len);
        lemma_digits_in_base(i, n, len);
        assert(positions(alphabet, word) =~= digits(i, n, len)) by {
            assert forall|k: int| 0 <= k < len implies positions(alphabet, word)[k] == digits(
                i,
                n,
                len,
            )[k] by {
                let d = digits(i, n, len)[k];
                assert(d < n);
                lemma_position_of_distinct(alphabet, d as int);
            }
        }
        lemma_compose_digits(i, n, len);
    }
}

/// Two different indices of one space give two different candidates.
pub proof fn lemma_candidates_distinct(alphabet: Seq<u8>, len: nat, i: nat, j: nat)
    requires
        distinct(alphabet),
        i < space_size(alphabet, len),
        j < space_size(alphabet, len),
        i != j,
    ensures
        candidate(alphabet, i, len) != candidate(alphabet, j, len),
{
    lemma_index_round_trip(alphabet, len, i);
    lemma_index_round_trip(alphabet, len, j);
}

/// Every candidate is a word of its length over the alphabet.
pub proof fn lemma_candidate_over_alphabet(alphabet: Seq<u8>, len: nat, i: nat)
    requires
        len > 0 ==> alphabet.len() > 0,
    ensures
        candidate(alphabet, i, len).len() == len,
        over_alphabet(alphabet, candidate(alphabet, i, len)),
{
    let word = candidate(alphabet, i, len);
    assert forall|k: int| 0 <= k < word.len() implies alphabet.contains(#[trigger] word[k]) by {
        lemma_digits_in_base(i, alphabet.len(), len);
        let d = digits(i, alphabet.len(), len)[k];
        assert(d < alphabet.len());
        assert(alphabet[d as int] == word[k]);
    }
}

/// Every word over the alphabet is the candidate of its index, and that
/// index lies in the space of the words of its length.
pub proof fn lemma_candidates_cover(alphabet: Seq<u8>, word: Seq<u8>)
    requires
        over_alphabet(alphabet, word),
    ensures
        word_index(alphabet, word) < space_size(alphabet, word.len()),
        candidate(alphabet, word_index(alphabet, word), word.len()) == word,
{
    let n = alphabet.len();
    let d = positions(alphabet, word);
    if word.len() == 0 {
        assert(candidate(alphabet, word_index(alphabet, word), 0) =~= word);
    } else {
        assert(alphabet.contains(word[0]));
        assert forall|k: int| 0 <= k < d.len() implies #[trigger] d[k] < n by {
            assert(alphabet.contains(word[k]));
            lemma_position_found(alphabet, word[k]);
        }
        lemma_compose_bound(d, n);
        lemma_digits_compose(d, n);
        let back = candidate(alphabet, compose(d, n), word.len());
        assert forall|k: int| 0 <= k < word.len() implies back[k] == word[k] by {
            assert(digits(compose(d, n), n, d.len())[k] == d[k]);
            assert(alphabet.contains(word[k]));
            lemma_position_found(alphabet, word[k]);
        }
        assert(back =~= word);
    }
}

} // verus!
