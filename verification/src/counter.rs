//! Grow-only distributed counter built from per-node buckets.
//!
//! Every node owns one unsigned bucket in the external store and raises it
//! with compare-and-swap; the counter's value is the sum of all buckets.
//! The functions here are the verified compute steps of that protocol: the
//! caller performs the store reads, CAS attempts and peer RPCs, and hands
//! the plain values back in.

use vstd::prelude::*;

verus! {

/// Mathematical sum of a sequence of bucket values.
pub open spec fn sum(s: Seq<u64>) -> int
    decreases s.len(),
{
    if s.len() == 0 {
        0
    } else {
        sum(s.drop_last()) + s.last()
    }
}

/// The bucket value proposed by one `Add(delta)` attempt that observed
/// `current`: the CAS attempt is `cas(own_key, current, result, create)`.
/// A bucket never decreases.
pub fn bucket_after_add(current: u64, delta: u64) -> (r: u64)
    requires
        current + delta <= u64::MAX,
    ensures
        r == current + delta,
        r >= current,
{
    current + delta
}

/// Total counter value: the sum of every node's bucket, as gathered by one
/// `Read`. Returns `None` exactly when the mathematical sum does not fit
/// in a machine word.
pub fn total(buckets: &Vec<u64>) -> (r: Option<u64>)
    ensures
        r is Some <==> sum(buckets@) <= u64::MAX,
        r is Some ==> r->0 == sum(buckets@),
{
    let mut acc: u64 = 0;
    let mut i: usize = 0;
    while i < buckets.len()
        invariant
            0 <= i <= buckets.len(),
            acc == sum(buckets@.take(i as int)),
            acc <= u64::MAX,
        decreases buckets.len() - i,
    {
        proof {
            assert(buckets@.take(i + 1).drop_last() =~= buckets@.take(i as int));
            assert(buckets@.take(i + 1).last() == buckets@[i as int]);
        }
        if acc > u64::MAX - buckets[i] {
            proof {
                lemma_sum_prefix_bound(buckets@, i + 1);
            }
            assert(buckets@.take(buckets@.len() as int) =~= buckets@);
            return None;
        }
        acc = acc + buckets[i];
        i = i + 1;
    }
    proof {
        assert(buckets@.take(buckets@.len() as int) =~= buckets@);
    }
    Some(acc)
}

/// The bucket value after a chain of successful CAS increments: each
/// acknowledged `Add(delta)` is exactly one CAS success, which replaced the
/// value it observed with that value plus its delta.
pub open spec fn bucket_after(initial: u64, deltas: Seq<u64>) -> int
    decreases deltas.len(),
{
    if deltas.len() == 0 {
        initial as int
    } else {
        bucket_after(initial, deltas.drop_last()) + deltas.last()
    }
}

/// A sum of unsigned buckets is never negative.
pub proof fn lemma_sum_nonneg(s: Seq<u64>)
    ensures
        sum(s) >= 0,
    decreases s.len(),
{
    if s.len() > 0 {
        lemma_sum_nonneg(s.drop_last());
    }
}

/// No delta is lost: however CAS retries interleave, chaining the
/// successful transitions of any number of `Add` calls leaves the bucket at
/// its initial value plus the sum of all their deltas — and so never below
/// its initial value.
pub proof fn lemma_adds_accumulate(initial: u64, deltas: Seq<u64>)
    ensures
        bucket_after(initial, deltas) == initial + sum(deltas),
        bucket_after(initial, deltas) >= initial,
    decreases deltas.len(),
{
    lemma_sum_nonneg(deltas);
    if deltas.len() > 0 {
        lemma_adds_accumulate(initial, deltas.drop_last());
    }
}

/// Read monotonicity: a total computed from bucket values that are each at
/// least the contribution already acknowledged to a client is at least the
/// sum those acknowledgments imply.
pub proof fn lemma_read_monotone(acked: Seq<u64>, buckets: Seq<u64>)
    requires
        acked.len() == buckets.len(),
        forall|i: int| 0 <= i < acked.len() ==> acked[i] <= buckets[i],
    ensures
        sum(acked) <= sum(buckets),
    decreases acked.len(),
{
    if acked.len() > 0 {
        lemma_read_monotone(acked.drop_last(), buckets.drop_last());
    }
}

/// A prefix of a sequence of naturals never sums to more than the whole.
proof fn lemma_sum_prefix_bound(s: Seq<u64>, n: int)
    requires
        0 <= n <= s.len(),
    ensures
        sum(s.take(n)) <= sum(s),
    decreases s.len() - n,
{
    if n < s.len() {
        lemma_sum_prefix_bound(s, n + 1);
        assert(s.take(n + 1).drop_last() =~= s.take(n));
    } else {
        assert(s.take(n) =~= s);
    }
}

} // verus!
