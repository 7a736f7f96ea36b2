//! Commit log on a shared linearizable store.
//!
//! Several nodes may serve `Send` for the same key concurrently, so offset
//! allocation is delegated to the store: a per-key latest-offset entry is
//! advanced by compare-and-swap, and only the winner of the `o - 1 -> o`
//! transition may write the record at offset `o`. The caller performs the
//! store reads, CAS attempts and record writes; the decisions of the retry
//! loop, the assembly of poll and listing replies, and the allocator's
//! correctness argument live here.

use vstd::prelude::*;

use crate::commit_log::Log;

verus! {

/// Whether `cas(key, expected, new, createIfMissing = true)` succeeds
/// against a cell currently holding `cell` (`None`: no entry yet). The
/// store acknowledges exactly when the stored value equals `expected`, or
/// when the entry is absent and may be created.
pub open spec fn cas_accepts(cell: Option<u64>, expected: int) -> bool {
    match cell {
        None => true,
        Some(v) => v == expected,
    }
}

/// The latest-offset cell after a run of successful allocations: the last
/// offset allocated, or `None` before the first.
pub open spec fn cell_after(offs: Seq<u64>) -> Option<u64> {
    if offs.len() == 0 {
        None
    } else {
        Some(offs.last())
    }
}

/// A run of the offset allocator for one key: every allocation of `o` was
/// a successful `cas(latest_key, o - 1, o, create)` against the cell as the
/// previous allocations left it. An allocation that found no cell attempted
/// offset 0: a sender's first attempt is the offset it read, a read of a
/// missing entry yields 0, and a CAS conflict proves the entry exists — so
/// once any offset is allocated, no later attempt sees a missing cell.
pub open spec fn valid_alloc_run(offs: Seq<u64>) -> bool {
    forall|i: int|
        0 <= i < offs.len() ==> {
            let cell = cell_after(#[trigger] offs.take(i));
            &&& cas_accepts(cell, offs[i] - 1)
            &&& (cell is None ==> offs[i] == 0)
        }
}

/// Offset uniqueness: the offsets allocated through the shared cell are
/// the contiguous range starting at 0, in order — so concurrent `Send`s to
/// one key never receive the same offset and never leave a gap.
pub proof fn lemma_offsets_contiguous(offs: Seq<u64>)
    requires
        valid_alloc_run(offs),
    ensures
        forall|i: int| 0 <= i < offs.len() ==> offs[i] == i,
        forall|i: int, j: int| 0 <= i < j < offs.len() ==> offs[i] != offs[j],
    decreases offs.len(),
{
    if offs.len() > 0 {
        let pre = offs.drop_last();
        assert(valid_alloc_run(pre)) by {
            assert forall|i: int| 0 <= i < pre.len() implies {
                let cell = cell_after(#[trigger] pre.take(i));
                &&& cas_accepts(cell, pre[i] - 1)
                &&& (cell is None ==> pre[i] == 0)
            } by {
                assert(pre.take(i) =~= offs.take(i));
                assert(offs[i] == pre[i]);
            }
        }
        lemma_offsets_contiguous(pre);
        let n = offs.len() - 1;
        assert(offs.take(n) =~= pre);
        assert(offs[n] == n) by {
            assert(cas_accepts(cell_after(offs.take(n)), offs[n] - 1));
            if n == 0 {
                assert(cell_after(offs.take(n)) is None);
            } else {
                assert(cell_after(offs.take(n)) == Some(pre.last()));
                assert(pre.last() == pre[n - 1]);
                assert(pre[n - 1] == n - 1);
            }
        }
        assert forall|i: int| 0 <= i < offs.len() implies offs[i] == i by {
            if i < n {
                assert(offs[i] == pre[i]);
            }
        }
    }
}

/// The offset a sender first attempts after reading the key's
/// latest-offset entry: the value read, or 0 when there is no entry yet.
pub fn first_attempt(read: Option<u64>) -> (o: u64)
    ensures
        o == (match read {
            Some(v) => v,
            None => 0u64,
        }),
{
    match read {
        Some(v) => v,
        None => 0,
    }
}

/// The offset tried after a CAS conflict: the next one up.
pub fn next_attempt(o: u64) -> (r: u64)
    requires
        o < u64::MAX,
    ensures
        r == o + 1,
{
    o + 1
}

/// The records assembled from one poll walk of a key: the store was read
/// at offsets `start`, `start + 1`, ... until the first missing entry, and
/// `values` is what came back, in order.
pub fn poll_entries(start: u64, values: &Vec<u64>) -> (r: Vec<Log>)
    requires
        start + values@.len() <= u64::MAX,
    ensures
        r@.len() == values@.len(),
        forall|i: int|
            0 <= i < r@.len() ==> r@[i] == (Log { offset: (start + i) as u64, message: values@[i] }),
{
    let mut out: Vec<Log> = Vec::new();
    let mut i: usize = 0;
    while i < values.len()
        invariant
            start + values@.len() <= u64::MAX,
            0 <= i <= values@.len(),
            out@.len() == i,
            forall|j: int|
                0 <= j < i ==> out@[j] == (Log {
                    offset: (start + j) as u64,
                    message: values@[j],
                }),
        decreases values@.len() - i,
    {
        out.push(Log { offset: start + (i as u64), message: values[i] });
        i = i + 1;
    }
    out
}

/// The listing assembled from per-key reads of the committed-offset
/// entries, as `ListCommittedOffsets` answers it: requested keys in order,
/// restricted to those whose entry exists.
pub open spec fn listing_of(keys: Seq<String>, reads: Seq<Option<u64>>) -> Seq<(String, u64)>
    decreases keys.len(),
{
    if keys.len() == 0 || keys.len() != reads.len() {
        Seq::empty()
    } else {
        let rest = listing_of(keys.drop_last(), reads.drop_last());
        match reads.last() {
            Some(v) => rest.push((keys.last(), v)),
            None => rest,
        }
    }
}

/// Assemble the committed-offset reply: `reads[i]` is what the store holds
/// for `keys[i]` (`None`: no entry); keys with no entry are omitted.
pub fn committed_listing(keys: &Vec<String>, reads: &Vec<Option<u64>>) -> (r: Vec<(String, u64)>)
    requires
        keys@.len() == reads@.len(),
    ensures
        r@ == listing_of(keys@, reads@),
{
    let mut out: Vec<(String, u64)> = Vec::new();
    let mut i: usize = 0;
    while i < keys.len()
        invariant
            keys@.len() == reads@.len(),
            0 <= i <= keys@.len(),
            out@ == listing_of(keys@.take(i as int), reads@.take(i as int)),
        decreases keys@.len() - i,
    {
        proof {
            assert(keys@.take(i + 1).drop_last() =~= keys@.take(i as int));
            assert(reads@.take(i + 1).drop_last() =~= reads@.take(i as int));
            assert(keys@.take(i + 1).last() == keys@[i as int]);
            assert(reads@.take(i + 1).last() == reads@[i as int]);
        }
        match reads[i] {
            Some(v) => {
                out.push((keys[i].clone(), v));
            },
            None => {},
        }
        i = i + 1;
    }
    proof {
        assert(keys@.take(keys@.len() as int) =~= keys@);
        assert(reads@.take(reads@.len() as int) =~= reads@);
    }
    out
}

} // verus!
