//! The digest table: one digest per index, in index order.
//!
//! A table file is a header followed by the digests of all candidates of the
//! header's length over the header's alphabet. The digest of index `i` lies at
//! offset `header_size + i * DIGEST_LEN`. A file whose length is not
//! `header_size + n^len * DIGEST_LEN` is corrupt.

use vstd::prelude::*;
use crate::charset::{candidate, lemma_power_of_zero, space_size, Charset};
use crate::digest::{digest, digest_of, DIGEST_LEN};
use crate::header::{header_bytes, header_size, TableHeader, HEADER_FIXED_LEN};

verus! {

/// The digest stored for index `i`.
pub open spec fn digest_at(alphabet: Seq<u8>, len: nat, i: nat) -> Seq<u8> {
    digest_of(candidate(alphabet, i, len))
}

/// The digests of the indices from `lo` up to, not including, `hi`, one after
/// the other.
pub open spec fn digest_run(alphabet: Seq<u8>, len: nat, lo: nat, hi: nat) -> Seq<u8> {
    Seq::new(
        ((hi - lo) * DIGEST_LEN) as nat,
        |p: int| digest_at(alphabet, len, (lo + p / 16) as nat)[p % 16],
    )
}

/// The complete table file for candidates of length `len` over `alphabet`.
pub open spec fn table_file(alphabet: Seq<u8>, len: u32) -> Seq<u8> {
    header_bytes(len, alphabet) + digest_run(
        alphabet,
        len as nat,
        0,
        space_size(alphabet, len as nat),
    )
}

/// Length of the complete table file.
pub open spec fn table_file_len(alphabet: Seq<u8>, len: u32) -> nat {
    (header_size(alphabet) + space_size(alphabet, len as nat) * DIGEST_LEN) as nat
}

/// Two adjoining runs of digests make one run.
pub proof fn lemma_digest_run_split(alphabet: Seq<u8>, len: nat, lo: nat, mid: nat, hi: nat)
    requires
        lo <= mid <= hi,
    ensures
        digest_run(alphabet, len, lo, mid) + digest_run(alphabet, len, mid, hi) == digest_run(
            alphabet,
            len,
            lo,
            hi,
        ),
{
    let left = digest_run(alphabet, len, lo, mid);
    let right = digest_run(alphabet, len, mid, hi);
    let whole = digest_run(alphabet, len, lo, hi);
    assert((mid - lo) * 16 + (hi - mid) * 16 == (hi - lo) * 16) by (nonlinear_arith);
    assert forall|p: int| 0 <= p < whole.len() implies (left + right)[p] == whole[p] by {
        if p >= left.len() {
            let q = p - (mid - lo) * 16;
            assert(q / 16 == p / 16 - (mid - lo) && q % 16 == p % 16) by (nonlinear_arith)
                requires
                    q == p - (mid - lo) * 16,
            ;
        }
    }
    assert(left + right =~= whole);
}

/// Overwrites sixteen bytes of `out`, from offset `at`, with a digest.
fn store_digest(out: &mut [u8], at: usize, value: &[u8; 16])
    requires
        at + DIGEST_LEN <= old(out)@.len(),
    ensures
        final(out)@.len() == old(out)@.len(),
        forall|p: int|
            0 <= p < old(out)@.len() ==> final(out)@[p] == if at <= p < at + DIGEST_LEN {
                value@[p - at]
            } else {
                old(out)@[p]
            },
{
    let total: usize = out.len();
    let mut b: usize = 0;
    while b < DIGEST_LEN
        invariant
            b <= DIGEST_LEN,
            at + DIGEST_LEN <= total,
            out@.len() == old(out)@.len() == total,
            forall|p: int|
                0 <= p < total ==> out@[p] == if at <= p < at + b {
                    value@[p - at]
                } else {
                    old(out)@[p]
                },
        decreases DIGEST_LEN - b,
    {
        out[at + b] = value[b];
        b = b + 1;
    }
}

/// Fills `out` with the digests of the indices from `first_index` on, one per
/// slot of `DIGEST_LEN` bytes. The candidates have length `len`.
pub fn fill_chunk(charset: &Charset, len: u32, first_index: u64, out: &mut [u8])
    requires
        old(out)@.len() % (DIGEST_LEN as nat) == 0,
        first_index + old(out)@.len() / (DIGEST_LEN as nat) <= u64::MAX,
        old(out)@.len() > 0 && len > 0 ==> charset@.len() > 0,
    ensures
        final(out)@ == digest_run(
            charset@,
            len as nat,
            first_index as nat,
            (first_index + old(out)@.len() / (DIGEST_LEN as nat)) as nat,
        ),
{
    let total: usize = out.len();
    let slots: usize = total / DIGEST_LEN;
    let mut buf: Vec<u8> = vec![0u8; len as usize];
    let mut j: usize = 0;
    while j < slots
        invariant
            j <= slots,
            slots * DIGEST_LEN == out@.len() == old(out)@.len() == total,
            first_index + slots <= u64::MAX,
            buf@.len() == len,
            slots > 0 && len > 0 ==> charset@.len() > 0,
            forall|p: int|
                0 <= p < j * DIGEST_LEN ==> out@[p] == digest_at(
                    charset@,
                    len as nat,
                    (first_index + p / 16) as nat,
                )[p % 16],
        decreases slots - j,
    {
        let index: u64 = first_index + j as u64;
        charset.get_into(index, buf.as_mut_slice());
        let value: [u8; 16] = digest(buf.as_slice());
        let ghost before = out@;
        store_digest(out, j * DIGEST_LEN, &value);
        proof {
            assert forall|p: int| 0 <= p < (j + 1) * DIGEST_LEN implies out@[p] == digest_at(
                charset@,
                len as nat,
                (first_index + p / 16) as nat,
            )[p % 16] by {
                if p >= j * DIGEST_LEN {
                    assert(p / 16 == j && p % 16 == p - j * 16);
                } else {
                    assert(out@[p] == before[p]);
                }
            }
        }
        j = j + 1;
    }
    assert(out@ =~= digest_run(
        charset@,
        len as nat,
        first_index as nat,
        (first_index + slots) as nat,
    ));
}

/// Why a table cannot be built or read.
#[derive(Clone, Copy, Debug, PartialEq, Eq, Structural)]
pub enum TableError {
    /// The number of candidates, or the length of the file that would hold
    /// their digests, is beyond what can be addressed.
    SpaceTooLarge,
    /// The memory budget of a chunk is smaller than one digest.
    BudgetTooSmall,
    /// The file ends before its header does.
    TruncatedHeader,
    /// The length of the file is not the one that its header calls for.
    SizeMismatch,
}

/// How the index space of a table is cut into chunks that are built one
/// after the other, each within a fixed memory budget.
#[derive(Clone, Copy, Debug, PartialEq, Eq)]
pub struct ChunkPlan {
    /// Number of indices in the table.
    pub total: u64,
    /// Number of indices in every chunk but, possibly, the last.
    pub per_chunk: u64,
    /// Offset of the first digest in the file: the size of the header.
    pub data_offset: u64,
}

/// One chunk of a plan: a run of indices and the window of the file that
/// holds their digests.
#[derive(Clone, Copy, Debug, PartialEq, Eq)]
pub struct Chunk {
    /// First index of the chunk; also the number of digests that the chunks
    /// before it hold.
    pub first_index: u64,
    /// Number of indices in the chunk.
    pub count: u64,
    /// Offset in the file of the chunk's first digest.
    pub file_offset: u64,
    /// Length in bytes of the chunk's window.
    pub byte_len: u64,
}

impl ChunkPlan {
    /// A chunk holds at least one index, and the file length fits in a `u64`.
    pub open spec fn wf(&self) -> bool {
        &&& self.per_chunk > 0
        &&& self.data_offset + self.total * DIGEST_LEN <= u64::MAX
    }

    /// Number of chunks: the last one may be shorter than the others, and no
    /// chunk is empty.
    pub open spec fn chunk_count(&self) -> nat {
        ((self.total + self.per_chunk - 1) / (self.per_chunk as int)) as nat
    }

    /// First index of chunk `k`.
    pub open spec fn chunk_start(&self, k: nat) -> nat {
        (k * self.per_chunk) as nat
    }

    /// First index after chunk `k`.
    pub open spec fn chunk_end(&self, k: nat) -> nat {
        if (k + 1) * self.per_chunk <= self.total {
            ((k + 1) * self.per_chunk) as nat
        } else {
            self.total as nat
        }
    }

    /// The plan for the table of the candidates of length `len` over
    /// `charset`, with chunks of at most `max_bytes_per_chunk` bytes.
    pub fn new(charset: &Charset, len: u32, max_bytes_per_chunk: u64) -> (plan: Result<
        ChunkPlan,
        TableError,
    >)
        ensures
            match plan {
                Ok(plan) => {
                    &&& max_bytes_per_chunk >= DIGEST_LEN
                    &&& table_file_len(charset@, len) <= u64::MAX
                    &&& plan.wf()
                    &&& plan.total == space_size(charset@, len as nat)
                    &&& plan.per_chunk == max_bytes_per_chunk / 16
                    &&& plan.data_offset == header_size(charset@)
                },
                Err(TableError::BudgetTooSmall) => max_bytes_per_chunk < DIGEST_LEN,
                Err(TableError::SpaceTooLarge) => {
                    &&& max_bytes_per_chunk >= DIGEST_LEN
                    &&& table_file_len(charset@, len) > u64::MAX
                },
                Err(_) => false,
            },
    {
        if max_bytes_per_chunk < DIGEST_LEN as u64 {
            return Err(TableError::BudgetTooSmall);
        }
        let per_chunk: u64 = max_bytes_per_chunk / (DIGEST_LEN as u64);
        let total: u64 = match charset.range(len) {
            Some(range) => range.end,
            None => { return Err(TableError::SpaceTooLarge); },
        };
        let data_len: u64 = match total.checked_mul(DIGEST_LEN as u64) {
            Some(bytes) => bytes,
            None => { return Err(TableError::SpaceTooLarge); },
        };
        let data_offset: u64 = match (charset.0.len() as u64).checked_add(HEADER_FIXED_LEN as u64) {
            Some(offset) => offset,
            None => { return Err(TableError::SpaceTooLarge); },
        };
        if data_offset.checked_add(data_len).is_none() {
            return Err(TableError::SpaceTooLarge);
        }
        Ok(ChunkPlan { total, per_chunk, data_offset })
    }

    /// Length of the complete file.
    pub fn file_len(&self) -> (len: u64)
        requires
            self.wf(),
        ensures
            len == self.data_offset + self.total * DIGEST_LEN,
    {
        self.data_offset + self.total * (DIGEST_LEN as u64)
    }

    /// Number of chunks.
    pub fn num_chunks(&self) -> (count: u64)
        requires
            self.wf(),
        ensures
            count == self.chunk_count(),
            self.total == 0 <==> count == 0,
    {
        let full: u64 = self.total / self.per_chunk;
        let partial: u64 = self.total % self.per_chunk;
        proof {
            lemma_chunk_count(self.total as nat, self.per_chunk as nat);
            lemma_no_chunks(self.total as nat, self.per_chunk as nat);
        }
        if partial == 0 {
            full
        } else {
            full + 1
        }
    }

    /// Chunk `k` of the plan. Its `first_index` is the number of digests that
    /// are in place once the chunks before it are built.
    pub fn chunk(&self, k: u64) -> (chunk: Chunk)
        requires
            self.wf(),
            k < self.chunk_count(),
        ensures
            chunk.first_index == self.chunk_start(k as nat),
            chunk.first_index + chunk.count == self.chunk_end(k as nat),
            0 < chunk.count <= self.per_chunk,
            chunk.first_index + chunk.count <= self.total,
            chunk.file_offset == self.data_offset + chunk.first_index * DIGEST_LEN,
            chunk.byte_len == chunk.count * DIGEST_LEN,
    {
        proof {
            lemma_chunk_count(self.total as nat, self.per_chunk as nat);
            lemma_chunk_bounds(self.total as nat, self.per_chunk as nat, k as nat);
        }
        let first_index: u64 = k * self.per_chunk;
        let left: u64 = self.total - first_index;
        let count: u64 = if left < self.per_chunk { left } else { self.per_chunk };
        assert((k + 1) * self.per_chunk == k * self.per_chunk + self.per_chunk)
            by (nonlinear_arith);
        assert(DIGEST_LEN == 16);
        assert(first_index * 16 <= self.total * 16);
        Chunk {
            first_index,
            count,
            file_offset: self.data_offset + first_index * (DIGEST_LEN as u64),
            byte_len: count * (DIGEST_LEN as u64),
        }
    }
}

/// The number of chunks is the quotient of the total by the chunk size,
/// rounded up.
pub proof fn lemma_chunk_count(total: nat, per_chunk: nat)
    requires
        per_chunk > 0,
    ensures
        (total + per_chunk - 1) / (per_chunk as int) == total / per_chunk + if total % per_chunk
            == 0 {
            0int
        } else {
            1int
        },
{
    let q = total / per_chunk;
    let r = total % per_chunk;
    vstd::arithmetic::div_mod::lemma_fundamental_div_mod(total as int, per_chunk as int);
    if r == 0 {
        vstd::arithmetic::div_mod::lemma_fundamental_div_mod_converse(
            total + per_chunk - 1,
            per_chunk as int,
            q as int,
            per_chunk - 1,
        );
    } else {
        assert((q + 1) * per_chunk == q * per_chunk + per_chunk) by (nonlinear_arith);
        vstd::arithmetic::div_mod::lemma_fundamental_div_mod_converse(
            total + per_chunk - 1,
            per_chunk as int,
            q as int + 1,
            r - 1,
        );
    }
}

/// There is no chunk exactly when there is no index.
pub proof fn lemma_no_chunks(total: nat, per_chunk: nat)
    requires
        per_chunk > 0,
    ensures
        (total + per_chunk - 1) / (per_chunk as int) == 0 <==> total == 0,
{
    let q = (total + per_chunk - 1) / (per_chunk as int);
    vstd::arithmetic::div_mod::lemma_fundamental_div_mod(total + per_chunk - 1, per_chunk as int);
    vstd::arithmetic::div_mod::lemma_mod_bound(total + per_chunk - 1, per_chunk as int);
    if q == 0 {
        assert(per_chunk * q == 0) by (nonlinear_arith)
            requires
                q == 0,
        ;
    }
    if total == 0 {
        vstd::arithmetic::div_mod::lemma_basic_div(per_chunk - 1, per_chunk as int);
    }
}

/// Every chunk of a plan starts inside the index space.
pub proof fn lemma_chunk_bounds(total: nat, per_chunk: nat, k: nat)
    requires
        per_chunk > 0,
        k < (total + per_chunk - 1) / (per_chunk as int),
    ensures
        k * per_chunk < total,
{
    if k * per_chunk >= total {
        let q = (total + per_chunk - 1) / (per_chunk as int);
        vstd::arithmetic::div_mod::lemma_fundamental_div_mod(
            total + per_chunk - 1,
            per_chunk as int,
        );
        assert(per_chunk * q <= total + per_chunk - 1);
        assert(per_chunk * (k + 1) <= per_chunk * q) by (nonlinear_arith)
            requires
                k + 1 <= q,
                per_chunk > 0,
        ;
        assert(per_chunk * (k + 1) == k * per_chunk + per_chunk) by (nonlinear_arith);
    }
}

/// The chunks of a plan tile the index space: each one ends where the next
/// one starts, and the last one ends where the space does.
pub proof fn lemma_chunks_tile(plan: ChunkPlan, k: nat)
    requires
        plan.per_chunk > 0,
        k < plan.chunk_count(),
    ensures
        plan.chunk_start(0) == 0,
        plan.chunk_start(k) < plan.chunk_end(k),
        plan.chunk_end(k) == if k + 1 < plan.chunk_count() {
            plan.chunk_start(k + 1)
        } else {
            plan.total as nat
        },
{
    let total = plan.total as nat;
    let per = plan.per_chunk as nat;
    lemma_chunk_bounds(total, per, k);
    assert((k + 1) * per == k * per + per) by (nonlinear_arith);
    if k + 1 < plan.chunk_count() {
        lemma_chunk_bounds(total, per, k + 1);
    } else {
        lemma_chunk_count(total, per);
        vstd::arithmetic::div_mod::lemma_fundamental_div_mod(total as int, per as int);
        let q = total / per;
        if total % per != 0 {
            assert((q + 1) * per == q * per + per) by (nonlinear_arith);
            assert(per * q == q * per) by (nonlinear_arith);
        } else {
            assert(per * q == q * per) by (nonlinear_arith);
        }
    }
}

/// Builds in memory the complete table file for the candidates of length
/// `len` over `charset`: the header, then the digests, filled in chunk by
/// chunk through windows of at most `max_bytes_per_chunk` bytes. The file has
/// its final length before the first digest is written. What is built does
/// not depend on the size of the chunks.
pub fn build_table(charset: &Charset, len: u32, max_bytes_per_chunk: u64) -> (built: Result<
    Vec<u8>,
    TableError,
>)
    ensures
        match built {
            Ok(file) => {
                &&& max_bytes_per_chunk >= DIGEST_LEN
                &&& table_file_len(charset@, len) <= usize::MAX
                &&& file@ == table_file(charset@, len)
            },
            Err(TableError::BudgetTooSmall) => max_bytes_per_chunk < DIGEST_LEN,
            Err(TableError::SpaceTooLarge) => {
                &&& max_bytes_per_chunk >= DIGEST_LEN
                &&& table_file_len(charset@, len) > usize::MAX
            },
            Err(_) => false,
        },
{
    let plan: ChunkPlan = match ChunkPlan::new(charset, len, max_bytes_per_chunk) {
        Ok(plan) => plan,
        Err(e) => { return Err(e); },
    };
    let file_len: u64 = plan.file_len();
    if file_len > usize::MAX as u64 {
        return Err(TableError::SpaceTooLarge);
    }
    let header = TableHeader { len, charset: vstd::slice::slice_to_vec(charset.as_bytes()) };
    let mut file: Vec<u8> = header.encode();
    let data_len: usize = (file_len - plan.data_offset) as usize;
    let blank: Vec<u8> = vec![0u8; data_len];
    file.extend_from_slice(blank.as_slice());
    let chunks: u64 = plan.num_chunks();
    let ghost alphabet = charset@;
    let ghost head = header_bytes(len, alphabet);
    let mut k: u64 = 0;
    let mut done: u64 = 0;
    assert(file@.subrange(0, plan.data_offset as int) =~= head + digest_run(
        alphabet,
        len as nat,
        0,
        0,
    ));
    while k < chunks
        invariant
            plan.wf(),
            alphabet == charset@,
            head == header_bytes(len, alphabet),
            head.len() == plan.data_offset,
            plan.total == space_size(alphabet, len as nat),
            chunks == plan.chunk_count(),
            k <= chunks,
            file@.len() == file_len == plan.data_offset + plan.total * DIGEST_LEN,
            file_len <= usize::MAX,
            done <= plan.total,
            k < chunks ==> done == plan.chunk_start(k as nat),
            k == chunks ==> done == plan.total,
            file@.subrange(0, plan.data_offset + done * DIGEST_LEN) == head + digest_run(
                alphabet,
                len as nat,
                0,
                done as nat,
            ),
        decreases chunks - k,
    {
        let chunk: Chunk = plan.chunk(k);
        let ghost before = file@;
        proof {
            lemma_chunks_tile(plan, k as nat);
            if len > 0 && alphabet.len() == 0 {
                lemma_power_of_zero(len as nat);
            }
        }
        let offset: usize = chunk.file_offset as usize;
        let window_len: usize = chunk.byte_len as usize;
        let whole: &mut [u8] = file.as_mut_slice();
        let (built, rest) = whole.split_at_mut(offset);
        let (window, after) = rest.split_at_mut(window_len);
        assert(window@.len() == window_len);
        assert(window_len / DIGEST_LEN == chunk.count);
        fill_chunk(charset, len, chunk.first_index, window);
        proof {
            let end = chunk.first_index + chunk.count;
            lemma_digest_run_split(alphabet, len as nat, 0, done as nat, end as nat);
            assert(file@.subrange(0, plan.data_offset + end * DIGEST_LEN) =~= before.subrange(
                0,
                plan.data_offset + done * DIGEST_LEN,
            ) + digest_run(alphabet, len as nat, done as nat, end as nat));
        }
        done = chunk.first_index + chunk.count;
        k = k + 1;
    }
    assert(file@.subrange(0, file_len as int) =~= file@);
    Ok(file)
}

/// The digests that are in place once the first `k` chunks of a plan are
/// built, each chunk holding the digests of its own run of indices.
pub open spec fn chunked_run(alphabet: Seq<u8>, len: nat, plan: ChunkPlan, k: nat) -> Seq<u8>
    decreases k,
{
    if k == 0 {
        Seq::empty()
    } else {
        chunked_run(alphabet, len, plan, (k - 1) as nat) + digest_run(
            alphabet,
            len,
            plan.chunk_start((k - 1) as nat),
            plan.chunk_end((k - 1) as nat),
        )
    }
}

/// After `k` chunks the digests of all indices below the start of chunk `k`
/// are in place (of all indices, once every chunk is built), in index order.
pub proof fn lemma_chunked_run_prefix(alphabet: Seq<u8>, len: nat, plan: ChunkPlan, k: nat)
    requires
        plan.per_chunk > 0,
        k <= plan.chunk_count(),
    ensures
        chunked_run(alphabet, len, plan, k) == digest_run(
            alphabet,
            len,
            0,
            if k < plan.chunk_count() {
                plan.chunk_start(k)
            } else {
                plan.total as nat
            },
        ),
    decreases k,
{
    if k == 0 {
        assert(plan.chunk_start(0) == 0);
        lemma_no_chunks(plan.total as nat, plan.per_chunk as nat);
        assert(chunked_run(alphabet, len, plan, 0) =~= digest_run(alphabet, len, 0, 0));
    } else {
        let j = (k - 1) as nat;
        lemma_chunked_run_prefix(alphabet, len, plan, j);
        lemma_chunks_tile(plan, j);
        lemma_digest_run_split(alphabet, len, 0, plan.chunk_start(j), plan.chunk_end(j));
    }
}

/// Building a table in chunks of one size gives byte for byte what building
/// it in chunks of another size gives, whether or not the size divides the
/// number of indices: in both cases the digests of all indices, in index
/// order.
pub proof fn lemma_chunk_size_irrelevant(alphabet: Seq<u8>, len: nat, one: ChunkPlan, other: ChunkPlan)
    requires
        one.per_chunk > 0,
        other.per_chunk > 0,
        one.total == other.total,
    ensures
        chunked_run(alphabet, len, one, one.chunk_count()) == chunked_run(
            alphabet,
            len,
            other,
            other.chunk_count(),
        ),
        chunked_run(alphabet, len, one, one.chunk_count()) == digest_run(
            alphabet,
            len,
            0,
            one.total as nat,
        ),
{
    lemma_chunked_run_prefix(alphabet, len, one, one.chunk_count());
    lemma_chunked_run_prefix(alphabet, len, other, other.chunk_count());
}

} // verus!
