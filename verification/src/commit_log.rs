//! Single-authority replicated commit log.
//!
//! One node holds every named log in memory and serializes all requests, so
//! offsets can be assigned without compare-and-swap: the next offset of a
//! key is simply one past the last one appended. Offsets within one named
//! log are contiguous from 0, and for a fixed (key, offset) pair at most one
//! value is ever committed.

use vstd::prelude::*;

verus! {

/// How many records one poll returns per key, at most.
pub const POLL_BATCH: usize = 3;

/// One committed record: its position in the named log and its payload.
#[derive(Clone, Copy, PartialEq, Eq, Structural, Debug)]
pub struct Log {
    pub offset: u64,
    pub message: u64,
}

/// All records of one named log, in offset order.
struct KeyLog {
    key: String,
    entries: Vec<Log>,
}

/// In-memory state of the commit log node: the named logs and the table of
/// offsets consumers have acknowledged processing through.
pub struct NodeState {
    logs: Vec<KeyLog>,
    committed: Vec<(String, u64)>,
}

/// Entries of a named log are stored at their own offset: record `j` sits
/// at offset `j`, so assigned offsets are contiguous from 0.
spec fn entries_contiguous(es: Seq<Log>) -> bool {
    forall|j: int| 0 <= j < es.len() ==> (#[trigger] es[j]).offset == j
}

spec fn log_keys_distinct(s: Seq<KeyLog>) -> bool {
    forall|i: int, j: int| 0 <= i < j < s.len() ==> s[i].key@ != s[j].key@
}

spec fn has_key_in(s: Seq<KeyLog>, key: Seq<char>) -> bool {
    exists|i: int| 0 <= i < s.len() && (#[trigger] s[i]).key@ == key
}

spec fn index_of_key(s: Seq<KeyLog>, key: Seq<char>) -> int {
    choose|i: int| 0 <= i < s.len() && (#[trigger] s[i]).key@ == key
}

spec fn entries_of(s: Seq<KeyLog>, key: Seq<char>) -> Seq<Log> {
    if has_key_in(s, key) {
        s[index_of_key(s, key)].entries@
    } else {
        Seq::empty()
    }
}

spec fn ckeys_distinct(s: Seq<(String, u64)>) -> bool {
    forall|i: int, j: int| 0 <= i < j < s.len() ==> s[i].0@ != s[j].0@
}

spec fn has_ckey_in(s: Seq<(String, u64)>, key: Seq<char>) -> bool {
    exists|i: int| 0 <= i < s.len() && (#[trigger] s[i]).0@ == key
}

spec fn index_of_ckey(s: Seq<(String, u64)>, key: Seq<char>) -> int {
    choose|i: int| 0 <= i < s.len() && (#[trigger] s[i]).0@ == key
}

/// The offset committed for `key` among the recorded pairs, if any.
spec fn coffset_of(s: Seq<(String, u64)>, key: Seq<char>) -> Option<u64> {
    if has_ckey_in(s, key) {
        Some(s[index_of_ckey(s, key)].1)
    } else {
        None
    }
}

/// The value the last pair for `key` carries, if the batch mentions it:
/// what a batch of commit requests leaves in the table for that key.
pub open spec fn last_write(pairs: Seq<(String, u64)>, key: Seq<char>) -> Option<u64>
    decreases pairs.len(),
{
    if pairs.len() == 0 {
        None
    } else if pairs.last().0@ == key {
        Some(pairs.last().1)
    } else {
        last_write(pairs.drop_last(), key)
    }
}

/// A base table value overridden by a batch of commits.
pub open spec fn merged_offset(
    base: Option<u64>,
    pairs: Seq<(String, u64)>,
    key: Seq<char>,
) -> Option<u64> {
    match last_write(pairs, key) {
        Some(v) => Some(v),
        None => base,
    }
}

impl NodeState {
    /// The records of the named log, in offset order; empty when the name
    /// is fresh.
    pub closed spec fn log_entries(self, key: Seq<char>) -> Seq<Log> {
        entries_of(self.logs@, key)
    }

    /// The payloads of the named log, in offset order.
    pub open spec fn log_messages(self, key: Seq<char>) -> Seq<u64> {
        self.log_entries(key).map_values(|e: Log| e.message)
    }

    /// The offset a consumer group has acknowledged for `key`, if any.
    pub closed spec fn committed_of(self, key: Seq<char>) -> Option<u64> {
        coffset_of(self.committed@, key)
    }

    /// Key names are unique in both tables and each log's records sit at
    /// their own offset.
    pub closed spec fn wf(self) -> bool {
        &&& log_keys_distinct(self.logs@)
        &&& forall|i: int|
            0 <= i < self.logs@.len() ==> entries_contiguous(
                (#[trigger] self.logs@[i]).entries@,
            )
        &&& ckeys_distinct(self.committed@)
    }

    /// What one poll returns for `key` from `offset`: the batch of up to
    /// `POLL_BATCH` contiguous records starting there, or nothing when the
    /// log has no record at that offset.
    pub open spec fn batch_at(self, key: Seq<char>, offset: u64) -> Option<Seq<Log>> {
        let es = self.log_entries(key);
        if offset < es.len() {
            if offset + POLL_BATCH <= es.len() {
                Some(es.subrange(offset as int, offset + POLL_BATCH))
            } else {
                Some(es.subrange(offset as int, es.len() as int))
            }
        } else {
            None
        }
    }

    /// What one poll returns for a batch of requested (key, start offset)
    /// pairs: the batches of the keys that have records at their requested
    /// offset, in request order; the others are omitted.
    pub open spec fn poll_result(self, reqs: Seq<(String, u64)>) -> Seq<(String, Seq<Log>)>
        decreases reqs.len(),
    {
        if reqs.len() == 0 {
            Seq::empty()
        } else {
            let rest = self.poll_result(reqs.drop_last());
            match self.batch_at(reqs.last().0@, reqs.last().1) {
                Some(b) => rest.push((reqs.last().0, b)),
                None => rest,
            }
        }
    }

    /// The committed-offset table restricted to the requested keys, in
    /// request order; keys with no committed offset are omitted.
    pub open spec fn listing(self, keys: Seq<String>) -> Seq<(String, u64)>
        decreases keys.len(),
    {
        if keys.len() == 0 {
            Seq::empty()
        } else {
            let rest = self.listing(keys.drop_last());
            match self.committed_of(keys.last()@) {
                Some(v) => rest.push((keys.last(), v)),
                None => rest,
            }
        }
    }

    pub fn new() -> (r: NodeState)
        ensures
            r.wf(),
            forall|k: Seq<char>| r.log_entries(k) == Seq::<Log>::empty(),
            forall|k: Seq<char>| r.committed_of(k) is None,
    {
        NodeState { logs: Vec::new(), committed: Vec::new() }
    }

    /// Append `msg` to the named log and return its assigned offset: one
    /// past the last offset of the key, or 0 for a fresh key. Safe without
    /// CAS because this node serializes all requests against its state.
    pub fn send(&mut self, key: &String, msg: u64) -> (off: u64)
        requires
            old(self).wf(),
            old(self).log_entries(key@).len() < u64::MAX,
        ensures
            final(self).wf(),
            off == old(self).log_entries(key@).len(),
            final(self).log_entries(key@) == old(self).log_entries(key@).push(
                Log { offset: off, message: msg },
            ),
            forall|k: Seq<char>|
                k != key@ ==> final(self).log_entries(k) == old(self).log_entries(k),
            forall|k: Seq<char>| final(self).committed_of(k) == old(self).committed_of(k),
    {
        let found = self.find_log(key);
        match found {
            Some(i) => {
                let n = self.logs[i].entries.len();
                let entry = Log { offset: n as u64, message: msg };
                self.logs[i].entries.push(entry);
                proof {
                    lemma_update_same_key(
                        old(self).logs@,
                        self.logs@,
                        i as int,
                        key@,
                    );
                }
                n as u64
            },
            None => {
                let entry = Log { offset: 0, message: msg };
                let mut entries: Vec<Log> = Vec::new();
                entries.push(entry);
                let kl = KeyLog { key: key.clone(), entries };
                self.logs.push(kl);
                proof {
                    lemma_push_new_key(old(self).logs@, self.logs@, key@);
                    assert(final(self).log_entries(key@) =~= old(self).log_entries(key@).push(
                        Log { offset: 0, message: msg },
                    ));
                }
                0
            },
        }
    }

    /// The number of records of the named log so far: the offset the next
    /// send to it will be assigned.
    pub fn log_len(&self, key: &String) -> (r: usize)
        requires
            self.wf(),
        ensures
            r == self.log_entries(key@).len(),
    {
        let found = self.find_log(key);
        match found {
            Some(i) => self.logs[i].entries.len(),
            None => 0,
        }
    }

    /// The index of the named log in storage, if the name is known.
    fn find_log(&self, key: &String) -> (r: Option<usize>)
        requires
            self.wf(),
        ensures
            match r {
                Some(i) => i < self.logs@.len() && self.logs@[i as int].key@ == key@
                    && has_key_in(self.logs@, key@) && index_of_key(self.logs@, key@) == i,
                None => !has_key_in(self.logs@, key@),
            },
    {
        let mut i: usize = 0;
        while i < self.logs.len()
            invariant
                self.wf(),
                0 <= i <= self.logs@.len(),
                forall|k: int| 0 <= k < i ==> (#[trigger] self.logs@[k]).key@ != key@,
            decreases self.logs@.len() - i,
        {
            if self.logs[i].key == *key {
                proof {
                    lemma_index_of_found(self.logs@, i as int, key@);
                }
                return Some(i);
            }
            i = i + 1;
        }
        None
    }

    /// Up to `POLL_BATCH` records of the named log starting exactly at
    /// `offset`, or nothing when no record carries that offset.
    pub fn get_logs_from_offset(&self, key: &String, offset: u64) -> (r: Option<Vec<Log>>)
        requires
            self.wf(),
        ensures
            match r {
                Some(batch) => self.batch_at(key@, offset) == Some(batch@),
                None => self.batch_at(key@, offset) is None,
            },
    {
        let found = self.find_log(key);
        match found {
            Some(i) => {
                let len = self.logs[i].entries.len();
                if offset < len as u64 {
                    let start = offset as usize;
                    let end = if len - start > POLL_BATCH {
                        start + POLL_BATCH
                    } else {
                        len
                    };
                    let mut batch: Vec<Log> = Vec::new();
                    let mut k = start;
                    while k < end
                        invariant
                            self.wf(),
                            i < self.logs@.len(),
                            start <= k <= end <= self.logs@[i as int].entries@.len(),
                            batch@ == self.logs@[i as int].entries@.subrange(
                                start as int,
                                k as int,
                            ),
                        decreases end - k,
                    {
                        batch.push(self.logs[i].entries[k]);
                        proof {
                            assert(batch@ =~= self.logs@[i as int].entries@.subrange(
                                start as int,
                                k + 1,
                            ));
                        }
                        k = k + 1;
                    }
                    Some(batch)
                } else {
                    None
                }
            },
            None => None,
        }
    }

    /// Answer one poll: for every requested key with records at the
    /// requested offset, its batch, in request order.
    pub fn poll(&self, requests: &Vec<(String, u64)>) -> (r: Vec<(String, Vec<Log>)>)
        requires
            self.wf(),
        ensures
            r@.len() == self.poll_result(requests@).len(),
            forall|i: int|
                0 <= i < r@.len() ==> (#[trigger] r@[i]).0 == self.poll_result(requests@)[i].0
                    && r@[i].1@ == self.poll_result(requests@)[i].1,
    {
        let mut out: Vec<(String, Vec<Log>)> = Vec::new();
        let mut i: usize = 0;
        while i < requests.len()
            invariant
                self.wf(),
                0 <= i <= requests@.len(),
                out@.len() == self.poll_result(requests@.take(i as int)).len(),
                forall|j: int|
                    0 <= j < out@.len() ==> (#[trigger] out@[j]).0 == self.poll_result(
                        requests@.take(i as int),
                    )[j].0 && out@[j].1@ == self.poll_result(requests@.take(i as int))[j].1,
            decreases requests@.len() - i,
        {
            let (key, off) = (requests[i].0.clone(), requests[i].1);
            let batch = self.get_logs_from_offset(&key, off);
            proof {
                assert(requests@.take(i + 1).drop_last() =~= requests@.take(i as int));
                assert(requests@.take(i + 1).last() == requests@[i as int]);
            }
            match batch {
                Some(b) => {
                    out.push((key, b));
                },
                None => {},
            }
            i = i + 1;
        }
        proof {
            assert(requests@.take(requests@.len() as int) =~= requests@);
        }
        out
    }

    /// Record acknowledged offsets: each given pair overwrites (or creates)
    /// the table entry of its key; within one batch the last pair for a key
    /// wins. Entries of keys not named stay as they were.
    pub fn commit_offsets(&mut self, offsets: &Vec<(String, u64)>)
        requires
            old(self).wf(),
        ensures
            final(self).wf(),
            forall|k: Seq<char>|
                final(self).committed_of(k) == merged_offset(
                    old(self).committed_of(k),
                    offsets@,
                    k,
                ),
            forall|k: Seq<char>| final(self).log_entries(k) == old(self).log_entries(k),
    {
        let mut i: usize = 0;
        while i < offsets.len()
            invariant
                self.wf(),
                0 <= i <= offsets@.len(),
                forall|k: Seq<char>|
                    self.committed_of(k) == merged_offset(
                        old(self).committed_of(k),
                        offsets@.take(i as int),
                        k,
                    ),
                self.logs@ == old(self).logs@,
            decreases offsets@.len() - i,
        {
            let (key, off) = (offsets[i].0.clone(), offsets[i].1);
            self.upsert_committed(&key, off);
            proof {
                assert(offsets@.take(i + 1).drop_last() =~= offsets@.take(i as int));
                assert(offsets@.take(i + 1).last() == offsets@[i as int]);
            }
            i = i + 1;
        }
        proof {
            assert(offsets@.take(offsets@.len() as int) =~= offsets@);
        }
    }

    /// Overwrite or create the committed-offset entry of one key.
    fn upsert_committed(&mut self, key: &String, off: u64)
        requires
            old(self).wf(),
        ensures
            final(self).wf(),
            final(self).committed_of(key@) == Some(off),
            forall|k: Seq<char>|
                k != key@ ==> final(self).committed_of(k) == old(self).committed_of(k),
            final(self).logs@ == old(self).logs@,
    {
        let mut i: usize = 0;
        while i < self.committed.len()
            invariant
                *self == *old(self),
                self.wf(),
                0 <= i <= self.committed@.len(),
                forall|k: int| 0 <= k < i ==> (#[trigger] self.committed@[k]).0@ != key@,
            decreases self.committed@.len() - i,
        {
            if self.committed[i].0 == *key {
                self.committed[i] = (key.clone(), off);
                proof {
                    lemma_cupdate_same_key(old(self).committed@, self.committed@, i as int, key@);
                }
                return ;
            }
            i = i + 1;
        }
        self.committed.push((key.clone(), off));
        proof {
            lemma_cpush_new_key(old(self).committed@, self.committed@, key@);
        }
    }

    /// Answer one committed-offset listing, restricted to the requested
    /// keys.
    pub fn list_committed_offsets(&self, keys: &Vec<String>) -> (r: Vec<(String, u64)>)
        requires
            self.wf(),
        ensures
            r@ == self.listing(keys@),
    {
        let mut out: Vec<(String, u64)> = Vec::new();
        let mut i: usize = 0;
        while i < keys.len()
            invariant
                self.wf(),
                0 <= i <= keys@.len(),
                out@ == self.listing(keys@.take(i as int)),
            decreases keys@.len() - i,
        {
            let key = keys[i].clone();
            let got = self.committed_lookup(&key);
            proof {
                assert(keys@.take(i + 1).drop_last() =~= keys@.take(i as int));
                assert(keys@.take(i + 1).last() == keys@[i as int]);
            }
            match got {
                Some(v) => {
                    out.push((key, v));
                },
                None => {},
            }
            i = i + 1;
        }
        proof {
            assert(keys@.take(keys@.len() as int) =~= keys@);
        }
        out
    }

    /// The committed offset recorded for one key, if any.
    pub fn committed_lookup(&self, key: &String) -> (r: Option<u64>)
        requires
            self.wf(),
        ensures
            r == self.committed_of(key@),
    {
        let mut i: usize = 0;
        while i < self.committed.len()
            invariant
                self.wf(),
                0 <= i <= self.committed@.len(),
                forall|k: int| 0 <= k < i ==> (#[trigger] self.committed@[k]).0@ != key@,
            decreases self.committed@.len() - i,
        {
            if self.committed[i].0 == *key {
                proof {
                    lemma_cindex_of_found(self.committed@, i as int, key@);
                }
                return Some(self.committed[i].1);
            }
            i = i + 1;
        }
        None
    }
}

/// A scan hit under distinct keys is the key's unique index.
proof fn lemma_index_of_found(s: Seq<KeyLog>, i: int, key: Seq<char>)
    requires
        log_keys_distinct(s),
        0 <= i < s.len(),
        s[i].key@ == key,
    ensures
        has_key_in(s, key),
        index_of_key(s, key) == i,
{
    assert(has_key_in(s, key));
    let j = index_of_key(s, key);
    if j != i {
        assert(s[i].key@ != s[j].key@);
    }
}

/// Replacing one log with another of the same key changes that key's
/// entries and nothing else.
proof fn lemma_update_same_key(s: Seq<KeyLog>, t: Seq<KeyLog>, i: int, key: Seq<char>)
    requires
        log_keys_distinct(s),
        0 <= i < s.len(),
        s[i].key@ == key,
        t.len() == s.len(),
        t[i].key@ == key,
        forall|k: int| 0 <= k < s.len() && k != i ==> t[k] == s[k],
    ensures
        log_keys_distinct(t),
        entries_of(t, key) == t[i].entries@,
        forall|k: Seq<char>| k != key ==> entries_of(t, k) == entries_of(s, k),
{
    assert forall|a: int, b: int| 0 <= a < b < t.len() implies t[a].key@ != t[b].key@ by {
        assert(s[a].key@ != s[b].key@);
    }
    lemma_index_of_found(t, i, key);
    assert forall|k: Seq<char>| k != key implies entries_of(t, k) == entries_of(s, k) by {
        if has_key_in(s, k) {
            let j = index_of_key(s, k);
            assert(j != i);
            lemma_index_of_found(t, j, k);
        } else {
            if has_key_in(t, k) {
                let j = choose|j: int| 0 <= j < t.len() && (#[trigger] t[j]).key@ == k;
                assert(s[j].key@ == k);
            }
        }
    }
}

/// Appending a log under a fresh key creates that key's entries and leaves
/// every other key's entries unchanged.
proof fn lemma_push_new_key(s: Seq<KeyLog>, t: Seq<KeyLog>, key: Seq<char>)
    requires
        log_keys_distinct(s),
        !has_key_in(s, key),
        t.len() == s.len() + 1,
        t.last().key@ == key,
        forall|k: int| 0 <= k < s.len() ==> t[k] == s[k],
    ensures
        log_keys_distinct(t),
        entries_of(t, key) == t.last().entries@,
        forall|k: Seq<char>| k != key ==> entries_of(t, k) == entries_of(s, k),
{
    assert forall|a: int, b: int| 0 <= a < b < t.len() implies t[a].key@ != t[b].key@ by {
        if b < s.len() {
            assert(s[a].key@ != s[b].key@);
        } else {
            assert(t[a] == s[a]);
        }
    }
    lemma_index_of_found(t, s.len() as int, key);
    assert forall|k: Seq<char>| k != key implies entries_of(t, k) == entries_of(s, k) by {
        if has_key_in(s, k) {
            let j = index_of_key(s, k);
            lemma_index_of_found(t, j, k);
        } else {
            if has_key_in(t, k) {
                let j = choose|j: int| 0 <= j < t.len() && (#[trigger] t[j]).key@ == k;
                assert(j == s.len());
            }
        }
    }
}

/// A scan hit under distinct committed keys is the key's unique index.
proof fn lemma_cindex_of_found(s: Seq<(String, u64)>, i: int, key: Seq<char>)
    requires
        ckeys_distinct(s),
        0 <= i < s.len(),
        s[i].0@ == key,
    ensures
        has_ckey_in(s, key),
        index_of_ckey(s, key) == i,
{
    assert(has_ckey_in(s, key));
    let j = index_of_ckey(s, key);
    if j != i {
        assert(s[i].0@ != s[j].0@);
    }
}

/// Replacing one committed pair with another of the same key changes that
/// key's offset and nothing else.
proof fn lemma_cupdate_same_key(s: Seq<(String, u64)>, t: Seq<(String, u64)>, i: int, key: Seq<char>)
    requires
        ckeys_distinct(s),
        0 <= i < s.len(),
        s[i].0@ == key,
        t.len() == s.len(),
        t[i].0@ == key,
        forall|k: int| 0 <= k < s.len() && k != i ==> t[k] == s[k],
    ensures
        ckeys_distinct(t),
        coffset_of(t, key) == Some(t[i].1),
        forall|k: Seq<char>| k != key ==> coffset_of(t, k) == coffset_of(s, k),
{
    assert forall|a: int, b: int| 0 <= a < b < t.len() implies t[a].0@ != t[b].0@ by {
        assert(s[a].0@ != s[b].0@);
    }
    lemma_cindex_of_found(t, i, key);
    assert forall|k: Seq<char>| k != key implies coffset_of(t, k) == coffset_of(s, k) by {
        if has_ckey_in(s, k) {
            let j = index_of_ckey(s, k);
            assert(j != i);
            lemma_cindex_of_found(t, j, k);
        } else {
            if has_ckey_in(t, k) {
                let j = choose|j: int| 0 <= j < t.len() && (#[trigger] t[j]).0@ == k;
                assert(s[j].0@ == k);
            }
        }
    }
}

/// Appending a committed pair under a fresh key records that key's offset
/// and leaves every other key's entry unchanged.
proof fn lemma_cpush_new_key(s: Seq<(String, u64)>, t: Seq<(String, u64)>, key: Seq<char>)
    requires
        ckeys_distinct(s),
        !has_ckey_in(s, key),
        t.len() == s.len() + 1,
        t.last().0@ == key,
        forall|k: int| 0 <= k < s.len() ==> t[k] == s[k],
    ensures
        ckeys_distinct(t),
        coffset_of(t, key) == Some(t.last().1),
        forall|k: Seq<char>| k != key ==> coffset_of(t, k) == coffset_of(s, k),
{
    assert forall|a: int, b: int| 0 <= a < b < t.len() implies t[a].0@ != t[b].0@ by {
        if b < s.len() {
            assert(s[a].0@ != s[b].0@);
        } else {
            assert(t[a] == s[a]);
        }
    }
    lemma_cindex_of_found(t, s.len() as int, key);
    assert forall|k: Seq<char>| k != key implies coffset_of(t, k) == coffset_of(s, k) by {
        if has_ckey_in(s, k) {
            let j = index_of_ckey(s, k);
            lemma_cindex_of_found(t, j, k);
        } else {
            if has_ckey_in(t, k) {
                let j = choose|j: int| 0 <= j < t.len() && (#[trigger] t[j]).0@ == k;
                assert(j == s.len());
            }
        }
    }
}

/// Committing an offset and listing it back returns exactly that offset:
/// the round trip law. The premise is `commit_offsets`' postcondition for a
/// batch of the single pair (key, off).
pub proof fn lemma_commit_round_trip(pre: NodeState, post: NodeState, key: String, off: u64)
    requires
        forall|k: Seq<char>|
            post.committed_of(k) == merged_offset(
                pre.committed_of(k),
                seq![(key, off)],
                k,
            ),
    ensures
        post.listing(seq![key]) == seq![(key, off)],
{
    let pairs = seq![(key, off)];
    assert(pairs.last().0@ == key@);
    assert(last_write(pairs, key@) == Some(off));
    assert(post.committed_of(key@) == Some(off));
    let keys = seq![key];
    assert(keys.drop_last() =~= Seq::<String>::empty());
    assert(post.listing(keys.drop_last()) == Seq::<(String, u64)>::empty());
    assert(post.listing(keys) =~= seq![(key, off)]);
}

} // verus!
