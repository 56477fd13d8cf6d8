//! Matching digests against a credential set: over a table, or over the live
//! candidate space.
//!
//! Both searches report the same thing: every pair of an index and a record
//! such that the digest of the candidate of that index is the digest stored
//! in the record. The table scanner reads the digest from the table; the
//! brute-force search computes it. Matches are listed by increasing index,
//! and for one index by increasing position of the record.

use vstd::prelude::*;
use crate::charset::{candidate, lemma_power_of_zero, space_size, Charset};
use crate::digest::{digest, DIGEST_LEN};
use crate::header::{
    header_size, le_value, lemma_header_round_trip, starts_with_header, TableHeader,
    HEADER_FIXED_LEN,
};
use crate::radix::lemma_power_monotonic;
use crate::table::{digest_at, digest_run, table_file, table_file_len, TableError};

verus! {

/// One credential: who it belongs to and the digest of the password.
#[derive(Clone, Debug, PartialEq, Eq)]
pub struct Record {
    pub identity: String,
    pub digest: Vec<u8>,
}

/// A candidate whose digest is the one stored in a record.
#[derive(Clone, Debug, PartialEq, Eq)]
pub struct Match {
    /// Position of the record in the credential set.
    pub record: usize,
    /// Index of the candidate.
    pub index: u64,
    /// The candidate itself.
    pub candidate: Vec<u8>,
}

/// What a `Match` stands for.
pub struct MatchView {
    pub record: nat,
    pub index: nat,
    pub candidate: Seq<u8>,
}

impl View for Match {
    type V = MatchView;

    open spec fn view(&self) -> MatchView {
        MatchView {
            record: self.record as nat,
            index: self.index as nat,
            candidate: self.candidate@,
        }
    }
}

/// The digests of a credential set, in the order of its records.
pub open spec fn stored_digests(records: Seq<Record>) -> Seq<Seq<u8>> {
    Seq::new(records.len(), |r: int| records[r].digest@)
}

/// What a list of matches stands for.
pub open spec fn match_views(found: Seq<Match>) -> Seq<MatchView> {
    Seq::new(found.len(), |j: int| found[j]@)
}

/// The matches of one index among the first `upto` records: one for each
/// record that stores `found`, the digest of `word`.
pub open spec fn hits(
    stored: Seq<Seq<u8>>,
    found: Seq<u8>,
    index: nat,
    word: Seq<u8>,
    upto: nat,
) -> Seq<MatchView>
    decreases upto,
{
    if upto == 0 {
        Seq::empty()
    } else {
        let before = hits(stored, found, index, word, (upto - 1) as nat);
        if stored[upto - 1] == found {
            before.push(MatchView { record: (upto - 1) as nat, index, candidate: word })
        } else {
            before
        }
    }
}

/// Slot `j` of a run of digests.
pub open spec fn slot(data: Seq<u8>, j: nat) -> Seq<u8> {
    data.subrange(j * DIGEST_LEN, j * DIGEST_LEN + DIGEST_LEN)
}

/// The matches found in the first `upto` slots of `data`, a run of digests
/// whose slot 0 belongs to index `first`.
pub open spec fn table_matches(
    stored: Seq<Seq<u8>>,
    alphabet: Seq<u8>,
    len: nat,
    data: Seq<u8>,
    first: nat,
    upto: nat,
) -> Seq<MatchView>
    decreases upto,
{
    if upto == 0 {
        Seq::empty()
    } else {
        let j = (upto - 1) as nat;
        table_matches(stored, alphabet, len, data, first, j) + hits(
            stored,
            slot(data, j),
            first + j,
            candidate(alphabet, first + j, len),
            stored.len(),
        )
    }
}

/// The matches among the candidates of the indices from `lo` up to, not
/// including, `hi`.
pub open spec fn search_matches(
    stored: Seq<Seq<u8>>,
    alphabet: Seq<u8>,
    len: nat,
    lo: nat,
    hi: nat,
) -> Seq<MatchView>
    decreases hi,
{
    if hi <= lo {
        Seq::empty()
    } else {
        let i = (hi - 1) as nat;
        search_matches(stored, alphabet, len, lo, i) + hits(
            stored,
            digest_at(alphabet, len, i),
            i,
            candidate(alphabet, i, len),
            stored.len(),
        )
    }
}

/// Whether two byte strings are the same.
pub fn bytes_equal(a: &[u8], b: &[u8]) -> (same: bool)
    ensures
        same <==> a@ == b@,
{
    if a.len() != b.len() {
        return false;
    }
    let n: usize = a.len();
    let mut k: usize = 0;
    while k < n
        invariant
            k <= n,
            n == a@.len() == b@.len(),
            forall|p: int| 0 <= p < k ==> a@[p] == b@[p],
        decreases n - k,
    {
        if a[k] != b[k] {
            return false;
        }
        k = k + 1;
    }
    assert(a@ =~= b@);
    true
}

/// Appends to `out` the matches of one index, whose digest is `found`. The
/// candidate is decoded only when a record matches.
fn collect_hits(
    charset: &Charset,
    index: u64,
    found: &[u8],
    records: &[Record],
    buf: &mut Vec<u8>,
    out: &mut Vec<Match>,
)
    requires
        old(buf)@.len() > 0 ==> charset@.len() > 0,
    ensures
        final(buf)@.len() == old(buf)@.len(),
        match_views(final(out)@) == match_views(old(out)@) + hits(
            stored_digests(records@),
            found@,
            index as nat,
            candidate(charset@, index as nat, old(buf)@.len()),
            records@.len(),
        ),
{
    let ghost stored = stored_digests(records@);
    let ghost word = candidate(charset@, index as nat, buf@.len());
    let ghost start = match_views(out@);
    let count: usize = records.len();
    let mut r: usize = 0;
    assert(match_views(out@) =~= start + hits(stored, found@, index as nat, word, 0));
    while r < count
        invariant
            r <= count == records@.len(),
            stored == stored_digests(records@),
            buf@.len() == old(buf)@.len(),
            buf@.len() > 0 ==> charset@.len() > 0,
            word == candidate(charset@, index as nat, buf@.len()),
            match_views(out@) == start + hits(stored, found@, index as nat, word, r as nat),
        decreases count - r,
    {
        if bytes_equal(records[r].digest.as_slice(), found) {
            charset.get_into(index, buf.as_mut_slice());
            let hit = Match {
                record: r,
                index,
                candidate: vstd::slice::slice_to_vec(buf.as_slice()),
            };
            let ghost before = out@;
            out.push(hit);
            assert(match_views(out@) =~= match_views(before).push(hit@));
            assert(stored[r as int] == found@);
            assert(match_views(out@) =~= start + hits(
                stored,
                found@,
                index as nat,
                word,
                (r + 1) as nat,
            ));
        } else {
            assert(stored[r as int] != found@);
        }
        r = r + 1;
    }
}

/// Compares every digest of `digests`, a run of table slots whose first one
/// belongs to index `first_index`, with the digest of every record, and lists
/// the matches.
pub fn scan_chunk(
    charset: &Charset,
    len: u32,
    first_index: u64,
    digests: &[u8],
    records: &[Record],
) -> (found: Vec<Match>)
    requires
        digests@.len() % (DIGEST_LEN as nat) == 0,
        first_index + digests@.len() / (DIGEST_LEN as nat) <= u64::MAX,
        digests@.len() > 0 && len > 0 ==> charset@.len() > 0,
    ensures
        match_views(found@) == table_matches(
            stored_digests(records@),
            charset@,
            len as nat,
            digests@,
            first_index as nat,
            digests@.len() / (DIGEST_LEN as nat),
        ),
{
    let total: usize = digests.len();
    let slots: usize = total / DIGEST_LEN;
    let mut buf: Vec<u8> = vec![0u8; len as usize];
    let mut found: Vec<Match> = Vec::new();
    let ghost stored = stored_digests(records@);
    let mut j: usize = 0;
    assert(match_views(found@) =~= table_matches(
        stored,
        charset@,
        len as nat,
        digests@,
        first_index as nat,
        0,
    ));
    while j < slots
        invariant
            j <= slots,
            slots * DIGEST_LEN == total == digests@.len(),
            first_index + slots <= u64::MAX,
            buf@.len() == len,
            slots > 0 && len > 0 ==> charset@.len() > 0,
            stored == stored_digests(records@),
            match_views(found@) == table_matches(
                stored,
                charset@,
                len as nat,
                digests@,
                first_index as nat,
                j as nat,
            ),
        decreases slots - j,
    {
        let at: usize = j * DIGEST_LEN;
        let entry: &[u8] = vstd::slice::slice_subrange(digests, at, at + DIGEST_LEN);
        assert(entry@ == slot(digests@, j as nat));
        collect_hits(charset, first_index + j as u64, entry, records, &mut buf, &mut found);
        j = j + 1;
    }
    found
}

/// Hashes the candidate of every index from `lo` up to, not including, `hi`,
/// compares it with the digest of every record, and lists the matches. The
/// candidates have length `len`.
pub fn search_range(charset: &Charset, len: u32, lo: u64, hi: u64, records: &[Record]) -> (found:
    Vec<Match>)
    requires
        lo < hi && len > 0 ==> charset@.len() > 0,
    ensures
        match_views(found@) == search_matches(
            stored_digests(records@),
            charset@,
            len as nat,
            lo as nat,
            hi as nat,
        ),
{
    let mut buf: Vec<u8> = vec![0u8; len as usize];
    let mut found: Vec<Match> = Vec::new();
    let ghost stored = stored_digests(records@);
    assert(match_views(found@) =~= Seq::<MatchView>::empty());
    if hi <= lo {
        return found;
    }
    let mut i: u64 = lo;
    while i < hi
        invariant
            lo <= i <= hi,
            buf@.len() == len,
            len > 0 ==> charset@.len() > 0,
            stored == stored_digests(records@),
            match_views(found@) == search_matches(
                stored,
                charset@,
                len as nat,
                lo as nat,
                i as nat,
            ),
        decreases hi - i,
    {
        charset.get_into(i, buf.as_mut_slice());
        let value: [u8; 16] = digest(buf.as_slice());
        collect_hits(charset, i, value.as_slice(), records, &mut buf, &mut found);
        i = i + 1;
    }
    found
}

/// The candidate length that the header of `file` declares.
pub open spec fn declared_len(file: Seq<u8>) -> u32 {
    le_value(file.subrange(0, 4)) as u32
}

/// The alphabet that the header of `file` declares.
pub open spec fn declared_alphabet(file: Seq<u8>) -> Seq<u8> {
    file.subrange(
        HEADER_FIXED_LEN as int,
        HEADER_FIXED_LEN + le_value(file.subrange(4, 12)),
    )
}

/// `file` has exactly the length that its header calls for.
pub open spec fn size_matches_header(file: Seq<u8>) -> bool {
    file.len() == table_file_len(declared_alphabet(file), declared_len(file))
}

/// The digests of `file`: what follows its header.
pub open spec fn table_data(file: Seq<u8>) -> Seq<u8> {
    file.subrange(header_size(declared_alphabet(file)) as int, file.len() as int)
}

/// The matches in a table file whose header and length agree.
pub open spec fn file_matches(stored: Seq<Seq<u8>>, file: Seq<u8>) -> Seq<MatchView> {
    table_matches(
        stored,
        declared_alphabet(file),
        declared_len(file) as nat,
        table_data(file),
        0,
        space_size(declared_alphabet(file), declared_len(file) as nat),
    )
}

/// A table file that passed validation: its header, where its digests start
/// and how many there are.
#[derive(Clone, Debug, PartialEq, Eq)]
pub struct TableLayout {
    pub header: TableHeader,
    pub data_offset: usize,
    pub entries: u64,
}

/// Validates a table file: reads its header, computes the number of entries
/// that the header calls for and compares the length of the file with it.
pub fn open_table(file: &[u8]) -> (opened: Result<TableLayout, TableError>)
    ensures
        match opened {
            Ok(layout) => {
                &&& starts_with_header(file@)
                &&& size_matches_header(file@)
                &&& layout.header.len == declared_len(file@)
                &&& layout.header.charset@ == declared_alphabet(file@)
                &&& layout.data_offset == header_size(declared_alphabet(file@))
                &&& layout.entries == space_size(
                    declared_alphabet(file@),
                    declared_len(file@) as nat,
                )
                &&& layout.data_offset + layout.entries * DIGEST_LEN == file@.len()
            },
            Err(TableError::TruncatedHeader) => !starts_with_header(file@),
            Err(TableError::SizeMismatch) => starts_with_header(file@) && !size_matches_header(
                file@,
            ),
            Err(_) => false,
        },
{
    let file_len: usize = file.len();
    let (header, data_offset) = match TableHeader::decode(file) {
        Some(parsed) => parsed,
        None => { return Err(TableError::TruncatedHeader); },
    };
    assert(header.charset@ == declared_alphabet(file@));
    assert(header.len == declared_len(file@));
    let charset = Charset(header.charset);
    let entries: u64 = match charset.range(header.len) {
        Some(range) => range.end,
        None => { return Err(TableError::SizeMismatch); },
    };
    let data_len: u64 = match entries.checked_mul(DIGEST_LEN as u64) {
        Some(bytes) => bytes,
        None => { return Err(TableError::SizeMismatch); },
    };
    if (file_len - data_offset) as u64 != data_len {
        return Err(TableError::SizeMismatch);
    }
    Ok(TableLayout { header: TableHeader { len: header.len, charset: charset.0 }, data_offset, entries })
}

/// Scans a table file: validates it, then compares every digest in it with
/// the digest of every record and lists the matches. A file that is not valid
/// gives an error and no match.
pub fn scan_table(file: &[u8], records: &[Record]) -> (scanned: Result<Vec<Match>, TableError>)
    ensures
        match scanned {
            Ok(found) => {
                &&& starts_with_header(file@)
                &&& size_matches_header(file@)
                &&& match_views(found@) == file_matches(stored_digests(records@), file@)
            },
            Err(TableError::TruncatedHeader) => !starts_with_header(file@),
            Err(TableError::SizeMismatch) => starts_with_header(file@) && !size_matches_header(
                file@,
            ),
            Err(_) => false,
        },
{
    let layout: TableLayout = match open_table(file) {
        Ok(layout) => layout,
        Err(e) => { return Err(e); },
    };
    let charset = Charset(layout.header.charset);
    let data: &[u8] = vstd::slice::slice_subrange(file, layout.data_offset, file.len());
    proof {
        if layout.header.len > 0 && charset@.len() == 0 {
            lemma_power_of_zero(layout.header.len as nat);
        }
        assert(data@.len() == layout.entries * 16);
    }
    Ok(scan_chunk(&charset, layout.header.len, 0, data, records))
}

/// Searches all candidates of length `len` over `charset`. `SpaceTooLarge`
/// exactly when their number does not fit in a `u64`.
pub fn search_length(charset: &Charset, len: u32, records: &[Record]) -> (searched: Result<
    Vec<Match>,
    TableError,
>)
    ensures
        match searched {
            Ok(found) => {
                &&& space_size(charset@, len as nat) <= u64::MAX
                &&& match_views(found@) == search_matches(
                    stored_digests(records@),
                    charset@,
                    len as nat,
                    0,
                    space_size(charset@, len as nat),
                )
            },
            Err(TableError::SpaceTooLarge) => space_size(charset@, len as nat) > u64::MAX,
            Err(_) => false,
        },
{
    match charset.range(len) {
        Some(range) => {
            proof {
                if len > 0 && charset@.len() == 0 {
                    lemma_power_of_zero(len as nat);
                }
            }
            Ok(search_range(charset, len, 0, range.end, records))
        },
        None => Err(TableError::SpaceTooLarge),
    }
}

/// The matches among all candidates whose length is at least `min_len` and
/// below `end_len`, shorter candidates first.
pub open spec fn sweep_matches(
    stored: Seq<Seq<u8>>,
    alphabet: Seq<u8>,
    min_len: nat,
    end_len: nat,
) -> Seq<MatchView>
    decreases end_len,
{
    if end_len <= min_len {
        Seq::empty()
    } else {
        let len = (end_len - 1) as nat;
        sweep_matches(stored, alphabet, min_len, len) + search_matches(
            stored,
            alphabet,
            len,
            0,
            space_size(alphabet, len),
        )
    }
}

/// Searches all candidates over `charset` whose length lies between
/// `min_len` and `max_len`, both included, one length after the other in
/// increasing order. `SpaceTooLarge`, before any candidate is hashed, exactly
/// when for one of these lengths the number of candidates does not fit in a
/// `u64`.
pub fn bruteforce(charset: &Charset, min_len: u32, max_len: u32, records: &[Record]) -> (searched:
    Result<Vec<Match>, TableError>)
    ensures
        match searched {
            Ok(found) => {
                &&& forall|len: nat|
                    min_len <= len <= max_len ==> space_size(charset@, len) <= u64::MAX
                &&& match_views(found@) == sweep_matches(
                    stored_digests(records@),
                    charset@,
                    min_len as nat,
                    (max_len + 1) as nat,
                )
            },
            Err(TableError::SpaceTooLarge) => exists|len: nat|
                min_len <= len <= max_len && space_size(charset@, len) > u64::MAX,
            Err(_) => false,
        },
{
    let mut found: Vec<Match> = Vec::new();
    let ghost stored = stored_digests(records@);
    assert(match_views(found@) =~= Seq::<MatchView>::empty());
    if max_len < min_len {
        return Ok(found);
    }
    if charset.range(max_len).is_none() {
        return Err(TableError::SpaceTooLarge);
    }
    proof {
        assert forall|len: nat| min_len <= len <= max_len implies space_size(charset@, len)
            <= u64::MAX by {
            if charset@.len() == 0 {
                lemma_power_of_zero(len);
            } else {
                lemma_power_monotonic(charset@.len(), len, max_len as nat);
            }
        }
    }
    let mut len: u32 = min_len;
    loop
        invariant
            min_len <= len <= max_len,
            stored == stored_digests(records@),
            forall|l: nat| min_len <= l <= max_len ==> space_size(charset@, l) <= u64::MAX,
            match_views(found@) == sweep_matches(stored, charset@, min_len as nat, len as nat),
        decreases max_len - len,
    {
        let ghost before = match_views(found@);
        match search_length(charset, len, records) {
            Ok(mut more) => {
                let ghost added = match_views(more@);
                found.append(&mut more);
                assert(match_views(found@) =~= before + added);
            },
            Err(e) => {
                assert(space_size(charset@, len as nat) <= u64::MAX);
                return Err(e);
            },
        }
        if len == max_len {
            return Ok(found);
        }
        len = len + 1;
    }
}

/// Slot `j` of a run of digests holds the digest of the index it belongs to.
pub proof fn lemma_slot_of_run(alphabet: Seq<u8>, len: nat, lo: nat, hi: nat, j: nat)
    requires
        lo + j < hi,
    ensures
        slot(digest_run(alphabet, len, lo, hi), j) == digest_at(alphabet, len, lo + j),
{
    let run = digest_run(alphabet, len, lo, hi);
    let entry = slot(run, j);
    let value = digest_at(alphabet, len, lo + j);
    assert((j + 1) * 16 <= (hi - lo) * 16) by (nonlinear_arith)
        requires
            j + 1 <= hi - lo,
    ;
    assert forall|b: int| 0 <= b < 16 implies entry[b] == value[b] by {
        let p = j * 16 + b;
        assert(p / 16 == j && p % 16 == b);
    }
    assert(entry =~= value);
}

/// Scanning a run of digests that holds, for each of its indices, the digest
/// of the candidate finds what searching those indices finds.
pub proof fn lemma_scan_of_run(
    stored: Seq<Seq<u8>>,
    alphabet: Seq<u8>,
    len: nat,
    lo: nat,
    hi: nat,
    upto: nat,
)
    requires
        lo + upto <= hi,
    ensures
        table_matches(stored, alphabet, len, digest_run(alphabet, len, lo, hi), lo, upto)
            == search_matches(stored, alphabet, len, lo, lo + upto),
    decreases upto,
{
    if upto > 0 {
        let j = (upto - 1) as nat;
        lemma_scan_of_run(stored, alphabet, len, lo, hi, j);
        lemma_slot_of_run(alphabet, len, lo, hi, j);
    }
}

/// Scanning a freshly built table finds exactly what the brute-force search
/// of the table's length finds over the same alphabet and credential set.
pub proof fn lemma_scan_agrees_with_search(stored: Seq<Seq<u8>>, alphabet: Seq<u8>, len: u32)
    requires
        alphabet.len() <= u64::MAX,
    ensures
        starts_with_header(table_file(alphabet, len)),
        size_matches_header(table_file(alphabet, len)),
        file_matches(stored, table_file(alphabet, len)) == search_matches(
            stored,
            alphabet,
            len as nat,
            0,
            space_size(alphabet, len as nat),
        ),
{
    let total = space_size(alphabet, len as nat);
    let run = digest_run(alphabet, len as nat, 0, total);
    let file = table_file(alphabet, len);
    lemma_header_round_trip(len, alphabet, run);
    assert(declared_alphabet(file) == alphabet);
    assert(declared_len(file) == len);
    assert(table_data(file) =~= run);
    lemma_scan_of_run(stored, alphabet, len as nat, 0, total, total);
}

/// Searching two adjoining ranges of indices, one after the other, finds
/// what searching the whole range finds.
pub proof fn lemma_search_split(
    stored: Seq<Seq<u8>>,
    alphabet: Seq<u8>,
    len: nat,
    lo: nat,
    mid: nat,
    hi: nat,
)
    requires
        lo <= mid <= hi,
    ensures
        search_matches(stored, alphabet, len, lo, mid) + search_matches(
            stored,
            alphabet,
            len,
            mid,
            hi,
        ) == search_matches(stored, alphabet, len, lo, hi),
    decreases hi,
{
    let left = search_matches(stored, alphabet, len, lo, mid);
    if hi == mid {
        assert(left + Seq::<MatchView>::empty() =~= left);
    } else {
        let i = (hi - 1) as nat;
        lemma_search_split(stored, alphabet, len, lo, mid, i);
        let last = hits(
            stored,
            digest_at(alphabet, len, i),
            i,
            candidate(alphabet, i, len),
            stored.len(),
        );
        assert(left + (search_matches(stored, alphabet, len, mid, i) + last) =~= (left
            + search_matches(stored, alphabet, len, mid, i)) + last);
    }
}

/// The first slots of a run of digests hold the same matches whatever
/// follows them.
pub proof fn lemma_scan_of_prefix(
    stored: Seq<Seq<u8>>,
    alphabet: Seq<u8>,
    len: nat,
    data: Seq<u8>,
    more: Seq<u8>,
    first: nat,
    upto: nat,
)
    requires
        upto * DIGEST_LEN <= data.len(),
    ensures
        table_matches(stored, alphabet, len, data + more, first, upto) == table_matches(
            stored,
            alphabet,
            len,
            data,
            first,
            upto,
        ),
    decreases upto,
{
    if upto > 0 {
        let j = (upto - 1) as nat;
        assert(j * 16 + 16 == upto * 16) by (nonlinear_arith)
            requires
                j + 1 == upto,
        ;
        lemma_scan_of_prefix(stored, alphabet, len, data, more, first, j);
        assert(slot(data + more, j) =~= slot(data, j));
    }
}

/// Scanning two adjoining runs of digests, one after the other, finds what
/// scanning them as one run finds.
pub proof fn lemma_scan_split(
    stored: Seq<Seq<u8>>,
    alphabet: Seq<u8>,
    len: nat,
    left: Seq<u8>,
    right: Seq<u8>,
    first: nat,
    upto: nat,
)
    requires
        left.len() % (DIGEST_LEN as nat) == 0,
        upto * DIGEST_LEN <= right.len(),
    ensures
        table_matches(stored, alphabet, len, left + right, first, left.len() / 16 + upto)
            == table_matches(stored, alphabet, len, left, first, left.len() / 16) + table_matches(
            stored,
            alphabet,
            len,
            right,
            first + left.len() / 16,
            upto,
        ),
    decreases upto,
{
    let slots = left.len() / 16;
    let before = table_matches(stored, alphabet, len, left, first, slots);
    if upto == 0 {
        lemma_scan_of_prefix(stored, alphabet, len, left, right, first, slots);
        assert(before + Seq::<MatchView>::empty() =~= before);
    } else {
        let j = (upto - 1) as nat;
        assert(j * 16 + 16 == upto * 16) by (nonlinear_arith)
            requires
                j + 1 == upto,
        ;
        lemma_scan_split(stored, alphabet, len, left, right, first, j);
        assert((slots + j) * 16 == left.len() + j * 16) by (nonlinear_arith)
            requires
                slots * 16 == left.len(),
        ;
        assert(slot(left + right, slots + j) =~= slot(right, j));
        let last = hits(
            stored,
            slot(right, j),
            first + slots + j,
            candidate(alphabet, first + slots + j, len),
            stored.len(),
        );
        let middle = table_matches(stored, alphabet, len, right, first + slots, j);
        assert(before + (middle + last) =~= (before + middle) + last);
    }
}

} // verus!
