//! The searches are exhaustive and report nothing twice.
//!
//! A list of matches is characterised by what it holds: exactly the pairs of
//! an index in range and a record whose stored digest is the digest found for
//! that index, each of them once.

use vstd::prelude::*;
use crate::charset::candidate;
use crate::search::{
    hits, lemma_scan_of_run, lemma_slot_of_run, search_matches, slot, table_matches, MatchView,
};
use crate::table::{digest_at, digest_run};

verus! {

/// `m` pairs an index among the first `upto` slots of `data` with a record
/// that stores the digest held in the slot of that index.
pub open spec fn is_table_match(
    stored: Seq<Seq<u8>>,
    alphabet: Seq<u8>,
    len: nat,
    data: Seq<u8>,
    first: nat,
    upto: nat,
    m: MatchView,
) -> bool {
    &&& first <= m.index < first + upto
    &&& m.record < stored.len()
    &&& stored[m.record as int] == slot(data, (m.index - first) as nat)
    &&& m.candidate == candidate(alphabet, m.index, len)
}

/// `m` pairs an index from `lo` up to, not including, `hi` with a record that
/// stores the digest of the candidate of that index.
pub open spec fn is_search_match(
    stored: Seq<Seq<u8>>,
    alphabet: Seq<u8>,
    len: nat,
    lo: nat,
    hi: nat,
    m: MatchView,
) -> bool {
    &&& lo <= m.index < hi
    &&& m.record < stored.len()
    &&& stored[m.record as int] == digest_at(alphabet, len, m.index)
    &&& m.candidate == candidate(alphabet, m.index, len)
}

/// What two lists hold, one after the other, is what either holds.
pub proof fn lemma_concat_contains<A>(a: Seq<A>, b: Seq<A>, x: A)
    ensures
        (a + b).contains(x) <==> a.contains(x) || b.contains(x),
{
    if a.contains(x) {
        let i = choose|i: int| 0 <= i < a.len() && a[i] == x;
        assert((a + b)[i] == x);
    }
    if b.contains(x) {
        let i = choose|i: int| 0 <= i < b.len() && b[i] == x;
        assert((a + b)[a.len() + i] == x);
    }
    if (a + b).contains(x) {
        let i = choose|i: int| 0 <= i < (a + b).len() && (a + b)[i] == x;
        if i < a.len() {
            assert(a[i] == x);
        } else {
            assert(b[i - a.len()] == x);
        }
    }
}

/// Two lists without repetition that share nothing make one without
/// repetition.
pub proof fn lemma_concat_distinct<A>(a: Seq<A>, b: Seq<A>)
    requires
        a.no_duplicates(),
        b.no_duplicates(),
        forall|x: A| a.contains(x) ==> !b.contains(x),
    ensures
        (a + b).no_duplicates(),
{
    let whole = a + b;
    assert forall|i: int, j: int| 0 <= i < whole.len() && 0 <= j < whole.len() && i != j implies whole[i]
        != whole[j] by {
        if i < a.len() && j >= a.len() {
            assert(a.contains(a[i]));
            assert(b[j - a.len()] == whole[j]);
            assert(b.contains(whole[j]));
        } else if j < a.len() && i >= a.len() {
            assert(a.contains(a[j]));
            assert(b[i - a.len()] == whole[i]);
            assert(b.contains(whole[i]));
        }
    }
}

/// The matches of one index are the records that store its digest.
pub proof fn lemma_hits_contains(
    stored: Seq<Seq<u8>>,
    found: Seq<u8>,
    index: nat,
    word: Seq<u8>,
    upto: nat,
    m: MatchView,
)
    ensures
        hits(stored, found, index, word, upto).contains(m) <==> {
            &&& m.index == index
            &&& m.candidate == word
            &&& m.record < upto
            &&& stored[m.record as int] == found
        },
    decreases upto,
{
    if upto > 0 {
        let r = (upto - 1) as nat;
        let before = hits(stored, found, index, word, r);
        lemma_hits_contains(stored, found, index, word, r, m);
        if stored[r as int] == found {
            let hit = MatchView { record: r, index, candidate: word };
            assert(before.push(hit) =~= before + seq![hit]);
            lemma_concat_contains(before, seq![hit], m);
            assert(seq![hit][0] == hit);
            assert(seq![hit].contains(m) <==> m == hit);
        }
    }
}

/// No record is reported twice for one index.
pub proof fn lemma_hits_distinct(
    stored: Seq<Seq<u8>>,
    found: Seq<u8>,
    index: nat,
    word: Seq<u8>,
    upto: nat,
)
    ensures
        hits(stored, found, index, word, upto).no_duplicates(),
    decreases upto,
{
    if upto > 0 {
        let r = (upto - 1) as nat;
        let before = hits(stored, found, index, word, r);
        lemma_hits_distinct(stored, found, index, word, r);
        if stored[r as int] == found {
            let hit = MatchView { record: r, index, candidate: word };
            assert(before.push(hit) =~= before + seq![hit]);
            assert forall|x: MatchView| before.contains(x) implies !seq![hit].contains(x) by {
                lemma_hits_contains(stored, found, index, word, r, x);
            }
            lemma_concat_distinct(before, seq![hit]);
        }
    }
}

/// A scan reports a pair of index and record exactly when the record stores
/// the digest held in the slot of the index.
pub proof fn lemma_scan_contains(
    stored: Seq<Seq<u8>>,
    alphabet: Seq<u8>,
    len: nat,
    data: Seq<u8>,
    first: nat,
    upto: nat,
    m: MatchView,
)
    ensures
        table_matches(stored, alphabet, len, data, first, upto).contains(m) <==> is_table_match(
            stored,
            alphabet,
            len,
            data,
            first,
            upto,
            m,
        ),
    decreases upto,
{
    if upto > 0 {
        let j = (upto - 1) as nat;
        let before = table_matches(stored, alphabet, len, data, first, j);
        let last = hits(
            stored,
            slot(data, j),
            first + j,
            candidate(alphabet, first + j, len),
            stored.len(),
        );
        lemma_scan_contains(stored, alphabet, len, data, first, j, m);
        lemma_hits_contains(
            stored,
            slot(data, j),
            first + j,
            candidate(alphabet, first + j, len),
            stored.len(),
            m,
        );
        lemma_concat_contains(before, last, m);
    }
}

/// A scan reports no pair of index and record twice.
pub proof fn lemma_scan_distinct(
    stored: Seq<Seq<u8>>,
    alphabet: Seq<u8>,
    len: nat,
    data: Seq<u8>,
    first: nat,
    upto: nat,
)
    ensures
        table_matches(stored, alphabet, len, data, first, upto).no_duplicates(),
    decreases upto,
{
    if upto > 0 {
        let j = (upto - 1) as nat;
        let before = table_matches(stored, alphabet, len, data, first, j);
        let word = candidate(alphabet, first + j, len);
        let last = hits(stored, slot(data, j), first + j, word, stored.len());
        lemma_scan_distinct(stored, alphabet, len, data, first, j);
        lemma_hits_distinct(stored, slot(data, j), first + j, word, stored.len());
        assert forall|x: MatchView| before.contains(x) implies !last.contains(x) by {
            lemma_scan_contains(stored, alphabet, len, data, first, j, x);
            lemma_hits_contains(stored, slot(data, j), first + j, word, stored.len(), x);
        }
        lemma_concat_distinct(before, last);
    }
}

/// A search reports a pair of index and record exactly when the record stores
/// the digest of the candidate of the index, and reports no pair twice.
pub proof fn lemma_search_exact(
    stored: Seq<Seq<u8>>,
    alphabet: Seq<u8>,
    len: nat,
    lo: nat,
    hi: nat,
    m: MatchView,
)
    requires
        lo <= hi,
    ensures
        search_matches(stored, alphabet, len, lo, hi).contains(m) <==> is_search_match(
            stored,
            alphabet,
            len,
            lo,
            hi,
            m,
        ),
        search_matches(stored, alphabet, len, lo, hi).no_duplicates(),
{
    let run = digest_run(alphabet, len, lo, hi);
    let count = (hi - lo) as nat;
    lemma_scan_of_run(stored, alphabet, len, lo, hi, count);
    lemma_scan_contains(stored, alphabet, len, run, lo, count, m);
    lemma_scan_distinct(stored, alphabet, len, run, lo, count);
    if lo <= m.index < hi {
        lemma_slot_of_run(alphabet, len, lo, hi, (m.index - lo) as nat);
    }
}

} // verus!
