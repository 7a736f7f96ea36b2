//! Best-effort replicated multi-key transactional store.
//!
//! Each node keeps its own key-value map and applies a transaction's
//! operations in order under exclusive access; the accumulated write set is
//! then shipped to every peer with no acknowledgment, and a peer merges a
//! received batch as last-write-wins. The store is linearizable for a node
//! observing its own transactions and only eventually, best-effort
//! consistent across nodes.

use vstd::prelude::*;

verus! {

/// One operation of a transaction. A read of a key never written is
/// answered with an explicit absent marker, distinct from every value.
#[derive(Clone, Copy, PartialEq, Eq, Structural, Debug)]
pub enum TxnOp {
    Write { key: u64, value: u64 },
    Read { key: u64 },
}

/// The echo of one operation in the transaction's reply: writes unchanged,
/// reads with the value found (or the absent marker).
#[derive(Clone, Copy, PartialEq, Eq, Structural, Debug)]
pub enum TxnOpResult {
    Write { key: u64, value: u64 },
    Read { key: u64, value: Option<u64> },
}

/// The map an association list denotes: later pairs win.
pub open spec fn pairs_map(s: Seq<(u64, u64)>) -> Map<u64, u64>
    decreases s.len(),
{
    if s.len() == 0 {
        Map::empty()
    } else {
        pairs_map(s.drop_last()).insert(s.last().0, s.last().1)
    }
}

spec fn ukeys_distinct(s: Seq<(u64, u64)>) -> bool {
    forall|i: int, j: int| 0 <= i < j < s.len() ==> s[i].0 != s[j].0
}

/// The key-value map after the operations of a transaction have been
/// applied in order to `m`.
pub open spec fn map_after(m: Map<u64, u64>, ops: Seq<TxnOp>) -> Map<u64, u64>
    decreases ops.len(),
{
    if ops.len() == 0 {
        m
    } else {
        let rest = map_after(m, ops.drop_last());
        match ops.last() {
            TxnOp::Write { key, value } => rest.insert(key, value),
            TxnOp::Read { .. } => rest,
        }
    }
}

/// The reply a transaction earns against initial map `m`: each operation
/// echoed in order, reads answered from the map as left by the operations
/// before them.
pub open spec fn results_of(m: Map<u64, u64>, ops: Seq<TxnOp>) -> Seq<TxnOpResult>
    decreases ops.len(),
{
    if ops.len() == 0 {
        Seq::empty()
    } else {
        let rest = results_of(m, ops.drop_last());
        let cur = map_after(m, ops.drop_last());
        match ops.last() {
            TxnOp::Write { key, value } => rest.push(TxnOpResult::Write { key, value }),
            TxnOp::Read { key } => rest.push(
                TxnOpResult::Read {
                    key,
                    value: if cur.contains_key(key) {
                        Some(cur[key])
                    } else {
                        None
                    },
                },
            ),
        }
    }
}

/// A transaction's write set: the keys it writes, each with the last value
/// written to it within the transaction.
pub open spec fn write_set(ops: Seq<TxnOp>) -> Map<u64, u64>
    decreases ops.len(),
{
    if ops.len() == 0 {
        Map::empty()
    } else {
        let rest = write_set(ops.drop_last());
        match ops.last() {
            TxnOp::Write { key, value } => rest.insert(key, value),
            TxnOp::Read { .. } => rest,
        }
    }
}

/// One node's transactional store.
pub struct TxnStore {
    kv: Vec<(u64, u64)>,
}

impl TxnStore {
    /// The key-value map this node holds.
    pub closed spec fn map(self) -> Map<u64, u64> {
        pairs_map(self.kv@)
    }

    pub closed spec fn wf(self) -> bool {
        ukeys_distinct(self.kv@)
    }

    pub fn new() -> (r: TxnStore)
        ensures
            r.wf(),
            r.map() == Map::<u64, u64>::empty(),
    {
        TxnStore { kv: Vec::new() }
    }

    /// The value stored for `key`, or the absent marker.
    pub fn read(&self, key: u64) -> (r: Option<u64>)
        requires
            self.wf(),
        ensures
            r == (if self.map().contains_key(key) {
                Some(self.map()[key])
            } else {
                None
            }),
    {
        assoc_get(&self.kv, key)
    }

    /// Apply a transaction under exclusive access: operations in order,
    /// writes stored and echoed, reads answered from the state the earlier
    /// operations left (read-your-write within the transaction). Returns
    /// the echoed reply and the transaction's write set, which the caller
    /// ships to every peer without awaiting acknowledgment.
    pub fn apply_txn(&mut self, ops: &Vec<TxnOp>) -> (r: (Vec<TxnOpResult>, Vec<(u64, u64)>))
        requires
            old(self).wf(),
        ensures
            final(self).wf(),
            final(self).map() == map_after(old(self).map(), ops@),
            r.0@ == results_of(old(self).map(), ops@),
            pairs_map(r.1@) == write_set(ops@),
            forall|i: int, j: int| 0 <= i < j < r.1@.len() ==> r.1@[i].0 != r.1@[j].0,
    {
        let ghost m0 = self.map();
        let mut results: Vec<TxnOpResult> = Vec::new();
        let mut changes: Vec<(u64, u64)> = Vec::new();
        let mut i: usize = 0;
        while i < ops.len()
            invariant
                0 <= i <= ops@.len(),
                self.wf(),
                self.map() == map_after(m0, ops@.take(i as int)),
                results@ == results_of(m0, ops@.take(i as int)),
                ukeys_distinct(changes@),
                pairs_map(changes@) == write_set(ops@.take(i as int)),
            decreases ops@.len() - i,
        {
            let op = ops[i];
            proof {
                assert(ops@.take(i + 1).drop_last() =~= ops@.take(i as int));
                assert(ops@.take(i + 1).last() == ops@[i as int]);
            }
            match op {
                TxnOp::Write { key, value } => {
                    assoc_upsert(&mut self.kv, key, value);
                    assoc_upsert(&mut changes, key, value);
                    results.push(TxnOpResult::Write { key, value });
                },
                TxnOp::Read { key } => {
                    let value = assoc_get(&self.kv, key);
                    results.push(TxnOpResult::Read { key, value });
                },
            }
            i = i + 1;
        }
        proof {
            assert(ops@.take(ops@.len() as int) =~= ops@);
        }
        (results, changes)
    }

    /// Merge a peer's replicated write set: every entry stored as
    /// last-write-wins, with no version comparison — arrival order decides.
    pub fn apply_sync(&mut self, changes: &Vec<(u64, u64)>)
        requires
            old(self).wf(),
        ensures
            final(self).wf(),
            final(self).map() == old(self).map().union_prefer_right(pairs_map(changes@)),
    {
        let ghost m0 = self.map();
        let mut i: usize = 0;
        while i < changes.len()
            invariant
                0 <= i <= changes@.len(),
                self.wf(),
                self.map() == m0.union_prefer_right(pairs_map(changes@.take(i as int))),
            decreases changes@.len() - i,
        {
            let (key, value) = changes[i];
            assoc_upsert(&mut self.kv, key, value);
            proof {
                assert(changes@.take(i + 1).drop_last() =~= changes@.take(i as int));
                assert(changes@.take(i + 1).last() == changes@[i as int]);
                assert(m0.union_prefer_right(pairs_map(changes@.take(i as int))).insert(key, value)
                    =~= m0.union_prefer_right(pairs_map(changes@.take(i + 1))));
            }
            i = i + 1;
        }
        proof {
            assert(changes@.take(changes@.len() as int) =~= changes@);
        }
    }
}

/// The value an association list with unique keys holds for `key`.
fn assoc_get(v: &Vec<(u64, u64)>, key: u64) -> (r: Option<u64>)
    requires
        ukeys_distinct(v@),
    ensures
        r == (if pairs_map(v@).contains_key(key) {
            Some(pairs_map(v@)[key])
        } else {
            None
        }),
{
    let mut i: usize = 0;
    while i < v.len()
        invariant
            0 <= i <= v@.len(),
            ukeys_distinct(v@),
            forall|k: int| 0 <= k < i ==> (#[trigger] v@[k]).0 != key,
        decreases v@.len() - i,
    {
        if v[i].0 == key {
            proof {
                lemma_pairs_map_index(v@, i as int);
            }
            return Some(v[i].1);
        }
        i = i + 1;
    }
    proof {
        lemma_pairs_map_absent(v@, key);
    }
    None
}

/// Store `key -> value` in an association list with unique keys,
/// overwriting the key's pair if one exists.
fn assoc_upsert(v: &mut Vec<(u64, u64)>, key: u64, value: u64)
    requires
        ukeys_distinct(old(v)@),
    ensures
        ukeys_distinct(final(v)@),
        pairs_map(final(v)@) == pairs_map(old(v)@).insert(key, value),
{
    let mut i: usize = 0;
    while i < v.len()
        invariant
            *v == *old(v),
            ukeys_distinct(v@),
            0 <= i <= v@.len(),
            forall|k: int| 0 <= k < i ==> (#[trigger] v@[k]).0 != key,
        decreases v@.len() - i,
    {
        if v[i].0 == key {
            v[i] = (key, value);
            proof {
                lemma_pairs_map_update(old(v)@, i as int, key, value);
            }
            return ;
        }
        i = i + 1;
    }
    v.push((key, value));
    proof {
        assert(final(v)@.drop_last() =~= old(v)@);
    }
}

/// In an association list with unique keys, the pair at any index is what
/// the denoted map holds for its key.
proof fn lemma_pairs_map_index(s: Seq<(u64, u64)>, i: int)
    requires
        ukeys_distinct(s),
        0 <= i < s.len(),
    ensures
        pairs_map(s).contains_key(s[i].0),
        pairs_map(s)[s[i].0] == s[i].1,
    decreases s.len(),
{
    if i < s.len() - 1 {
        lemma_pairs_map_index(s.drop_last(), i);
    }
}

/// A key no pair carries is absent from the denoted map.
proof fn lemma_pairs_map_absent(s: Seq<(u64, u64)>, key: u64)
    requires
        forall|k: int| 0 <= k < s.len() ==> (#[trigger] s[k]).0 != key,
    ensures
        !pairs_map(s).contains_key(key),
    decreases s.len(),
{
    if s.len() > 0 {
        lemma_pairs_map_absent(s.drop_last(), key);
    }
}

/// Overwriting the unique pair of a key denotes inserting into the map.
proof fn lemma_pairs_map_update(s: Seq<(u64, u64)>, i: int, key: u64, value: u64)
    requires
        ukeys_distinct(s),
        0 <= i < s.len(),
        s[i].0 == key,
    ensures
        ukeys_distinct(s.update(i, (key, value))),
        pairs_map(s.update(i, (key, value))) == pairs_map(s).insert(key, value),
    decreases s.len(),
{
    let t = s.update(i, (key, value));
    if i == s.len() - 1 {
        assert(t.drop_last() =~= s.drop_last());
        assert(pairs_map(t) =~= pairs_map(s).insert(key, value));
    } else {
        lemma_pairs_map_update(s.drop_last(), i, key, value);
        assert(t.drop_last() =~= s.drop_last().update(i, (key, value)));
        assert(t.last() == s.last());
        assert(s.last().0 != key);
        assert(pairs_map(t) =~= pairs_map(s).insert(key, value));
    }
}

/// The write that a transaction's last write to `key` records survives to
/// its write set.
proof fn lemma_write_set_last(ops: Seq<TxnOp>, i: int, key: u64, value: u64)
    requires
        0 <= i < ops.len(),
        ops[i] == (TxnOp::Write { key, value }),
        forall|k: int|
            i < k < ops.len() ==> ((#[trigger] ops[k]) matches TxnOp::Write { key: wk, .. } ==> wk != key),
    ensures
        write_set(ops).contains_key(key),
        write_set(ops)[key] == value,
    decreases ops.len(),
{
    if i == ops.len() - 1 {
    } else {
        assert(ops.drop_last()[i] == ops[i]);
        lemma_write_set_last(ops.drop_last(), i, key, value);
    }
}

/// The number of echoed results equals the number of operations.
proof fn lemma_results_len(m: Map<u64, u64>, ops: Seq<TxnOp>)
    ensures
        results_of(m, ops).len() == ops.len(),
    decreases ops.len(),
{
    if ops.len() > 0 {
        lemma_results_len(m, ops.drop_last());
    }
}

/// The reply to a prefix of a transaction is the prefix of the reply.
proof fn lemma_results_prefix(m: Map<u64, u64>, ops: Seq<TxnOp>, k: int)
    requires
        0 <= k <= ops.len(),
    ensures
        results_of(m, ops.take(k)) == results_of(m, ops).take(k),
    decreases ops.len(),
{
    lemma_results_len(m, ops);
    if k == ops.len() {
        assert(ops.take(k) =~= ops);
        assert(results_of(m, ops).take(k) =~= results_of(m, ops));
    } else {
        lemma_results_len(m, ops.drop_last());
        lemma_results_prefix(m, ops.drop_last(), k);
        assert(ops.drop_last().take(k) =~= ops.take(k));
        assert(results_of(m, ops).take(k) =~= results_of(m, ops.drop_last()).take(k));
    }
}

/// Between two points with no write to `key`, the evolving map's answer
/// for `key` does not change.
proof fn lemma_no_write_window(m: Map<u64, u64>, ops: Seq<TxnOp>, a: int, b: int, key: u64)
    requires
        0 <= a <= b <= ops.len(),
        forall|k: int| a <= k < b ==> ((#[trigger] ops[k]) matches TxnOp::Write { key: wk, .. } ==> wk != key),
    ensures
        map_after(m, ops.take(b)).contains_key(key) == map_after(m, ops.take(a)).contains_key(key),
        map_after(m, ops.take(a)).contains_key(key) ==> map_after(m, ops.take(b))[key] == map_after(
            m,
            ops.take(a),
        )[key],
    decreases b - a,
{
    if a < b {
        lemma_no_write_window(m, ops, a, b - 1, key);
        assert(ops.take(b).drop_last() =~= ops.take(b - 1));
        assert(ops.take(b).last() == ops[b - 1]);
    }
}

/// Read-your-write within one transaction: a read of a key written earlier
/// in the same operation sequence, with no write to that key in between,
/// echoes the value just written.
pub proof fn lemma_read_your_write(
    m: Map<u64, u64>,
    ops: Seq<TxnOp>,
    i: int,
    j: int,
    key: u64,
    value: u64,
)
    requires
        0 <= i < j < ops.len(),
        ops[i] == (TxnOp::Write { key, value }),
        ops[j] == (TxnOp::Read { key }),
        forall|k: int| i < k < j ==> ((#[trigger] ops[k]) matches TxnOp::Write { key: wk, .. } ==> wk != key),
    ensures
        results_of(m, ops)[j] == (TxnOpResult::Read { key, value: Some(value) }),
{
    lemma_results_len(m, ops);
    lemma_results_prefix(m, ops, j + 1);
    let pre = ops.take(j + 1);
    assert(pre.drop_last() =~= ops.take(j));
    assert(pre.last() == ops[j]);
    lemma_results_len(m, ops.take(j));
    assert(ops.take(i + 1).drop_last() =~= ops.take(i));
    assert(ops.take(i + 1).last() == ops[i]);
    assert(map_after(m, ops.take(i + 1)) == map_after(m, ops.take(i)).insert(key, value));
    lemma_no_write_window(m, ops, i + 1, j, key);
    assert(results_of(m, ops)[j] == results_of(m, pre)[j]);
}

/// Absent-key semantics: a read of a key never written, neither before the
/// transaction nor by it so far, echoes the absent marker.
pub proof fn lemma_absent_key(m: Map<u64, u64>, ops: Seq<TxnOp>, j: int, key: u64)
    requires
        0 <= j < ops.len(),
        ops[j] == (TxnOp::Read { key }),
        !m.contains_key(key),
        forall|k: int| 0 <= k < j ==> ((#[trigger] ops[k]) matches TxnOp::Write { key: wk, .. } ==> wk != key),
    ensures
        results_of(m, ops)[j] == (TxnOpResult::Read { key, value: None }),
{
    lemma_results_len(m, ops);
    lemma_results_prefix(m, ops, j + 1);
    let pre = ops.take(j + 1);
    assert(pre.drop_last() =~= ops.take(j));
    assert(pre.last() == ops[j]);
    lemma_results_len(m, ops.take(j));
    assert(ops.take(0) =~= Seq::<TxnOp>::empty());
    assert(map_after(m, ops.take(0)) == m);
    lemma_no_write_window(m, ops, 0, j, key);
    assert(results_of(m, ops)[j] == results_of(m, pre)[j]);
}

/// Replication convergence: a transaction whose last write to `key` stored
/// `value` yields a write set carrying exactly that value, and a peer that
/// merges this write set — with no conflicting write arriving later —
/// thereafter reads `value` for `key`.
pub proof fn lemma_replication_convergence(
    ops: Seq<TxnOp>,
    peer: Map<u64, u64>,
    i: int,
    key: u64,
    value: u64,
)
    requires
        0 <= i < ops.len(),
        ops[i] == (TxnOp::Write { key, value }),
        forall|k: int|
            i < k < ops.len() ==> ((#[trigger] ops[k]) matches TxnOp::Write { key: wk, .. } ==> wk != key),
    ensures
        write_set(ops).contains_key(key),
        write_set(ops)[key] == value,
        peer.union_prefer_right(write_set(ops)).contains_key(key),
        peer.union_prefer_right(write_set(ops))[key] == value,
{
    lemma_write_set_last(ops, i, key, value);
}

} // verus!
