//! Epidemic (gossip) broadcast dissemination.
//!
//! A node keeps the set of message values it has seen and, once its
//! neighbors are known, periodically pushes the full set to each of them
//! with no acknowledgment: a lost push is repaired by the next round, since
//! every round resends a superset. The caller runs that timer loop and the
//! sends; the state and every decision about it live here.

use vstd::prelude::*;

verus! {

/// State of one node's broadcaster: the set of values seen so far (kept
/// duplicate-free) and the neighbor list, set once from a topology message.
pub struct Broadcaster {
    messages: Vec<u64>,
    neighbors: Vec<String>,
    neighbors_set: bool,
}

impl Broadcaster {
    /// The set of message values this node has observed. Grows
    /// monotonically; every mutating method's contract keeps the old set
    /// inside the new one.
    pub closed spec fn seen(self) -> Set<u64> {
        self.messages@.to_set()
    }

    /// The stored value list carries no duplicates, so membership tests
    /// and the returned snapshots are faithful to `seen`.
    pub closed spec fn wf(self) -> bool {
        forall|i: int, j: int|
            0 <= i < j < self.messages@.len() ==> self.messages@[i] != self.messages@[j]
    }

    /// Whether a topology assignment has arrived yet.
    pub closed spec fn configured(self) -> bool {
        self.neighbors_set
    }

    /// The neighbor list, as a sequence of node identifiers.
    pub closed spec fn spec_neighbors(self) -> Seq<String> {
        self.neighbors@
    }

    pub fn new() -> (r: Broadcaster)
        ensures
            r.wf(),
            r.seen() == Set::<u64>::empty(),
            !r.configured(),
    {
        let r = Broadcaster { messages: Vec::new(), neighbors: Vec::new(), neighbors_set: false };
        proof {
            assert(r.messages@.to_set() =~= Set::<u64>::empty());
        }
        r
    }

    /// Handle a client `broadcast` request: insert the value if it is
    /// absent, and report whether it was new. Idempotent.
    pub fn try_add_msg(&mut self, msg: u64) -> (fresh: bool)
        requires
            old(self).wf(),
        ensures
            final(self).wf(),
            final(self).seen() == old(self).seen().insert(msg),
            fresh == !old(self).seen().contains(msg),
            final(self).spec_neighbors() == old(self).spec_neighbors(),
            final(self).configured() == old(self).configured(),
    {
        let present = contains_value(&self.messages, msg);
        if present {
            proof {
                assert(self.seen() =~= self.seen().insert(msg));
            }
            false
        } else {
            self.messages.push(msg);
            proof {
                old(self).messages@.lemma_push_to_set_commute(msg);
            }
            true
        }
    }

    /// Handle a peer's gossip push: union the peer's full seen set into the
    /// local one. No reply is owed.
    pub fn receive_gossip(&mut self, seen: &Vec<u64>)
        requires
            old(self).wf(),
        ensures
            final(self).wf(),
            final(self).seen() == old(self).seen().union(seen@.to_set()),
            final(self).spec_neighbors() == old(self).spec_neighbors(),
            final(self).configured() == old(self).configured(),
    {
        let mut i: usize = 0;
        while i < seen.len()
            invariant
                0 <= i <= seen.len(),
                self.wf(),
                self.seen() == old(self).seen().union(seen@.take(i as int).to_set()),
                self.spec_neighbors() == old(self).spec_neighbors(),
                self.configured() == old(self).configured(),
            decreases seen.len() - i,
        {
            self.try_add_msg(seen[i]);
            proof {
                lemma_take_to_set_step(seen@, i as int);
                assert(self.seen() =~= old(self).seen().union(seen@.take(i + 1).to_set()));
            }
            i = i + 1;
        }
        proof {
            assert(seen@.take(seen@.len() as int) =~= seen@);
        }
    }

    /// Handle a client `read` request: a snapshot of the seen set.
    pub fn get_messages(&self) -> (r: Vec<u64>)
        requires
            self.wf(),
        ensures
            r@.to_set() == self.seen(),
            forall|i: int, j: int| 0 <= i < j < r@.len() ==> r@[i] != r@[j],
    {
        let mut out: Vec<u64> = Vec::new();
        let mut i: usize = 0;
        while i < self.messages.len()
            invariant
                0 <= i <= self.messages.len(),
                out@ == self.messages@.take(i as int),
            decreases self.messages.len() - i,
        {
            out.push(self.messages[i]);
            proof {
                assert(out@ =~= self.messages@.take(i + 1));
            }
            i = i + 1;
        }
        proof {
            assert(out@ =~= self.messages@);
        }
        out
    }

    /// Record the neighbor list from the topology assignment. Only the
    /// first assignment takes effect; the result says whether it did, and
    /// with it whether the caller must start the dissemination loop (which
    /// therefore starts exactly once).
    pub fn set_neighbors(&mut self, neighbors: Vec<String>) -> (started: bool)
        requires
            old(self).wf(),
        ensures
            final(self).wf(),
            final(self).seen() == old(self).seen(),
            started == !old(self).configured(),
            final(self).configured(),
            started ==> final(self).spec_neighbors() == neighbors@,
            !started ==> final(self).spec_neighbors() == old(self).spec_neighbors(),
    {
        if self.neighbors_set {
            false
        } else {
            self.neighbors = neighbors;
            self.neighbors_set = true;
            true
        }
    }

    /// The neighbor list one gossip round pushes to.
    pub fn neighbors(&self) -> (r: &Vec<String>)
        ensures
            r@ == self.spec_neighbors(),
    {
        &self.neighbors
    }
}

/// Taking one more element of a sequence inserts that element into the set
/// of elements taken so far.
proof fn lemma_take_to_set_step(s: Seq<u64>, i: int)
    requires
        0 <= i < s.len(),
    ensures
        s.take(i + 1).to_set() == s.take(i).to_set().insert(s[i]),
{
    assert(s.take(i + 1) =~= s.take(i).push(s[i]));
    s.take(i).lemma_push_to_set_commute(s[i]);
}

/// Linear membership scan, the duplicate check behind `try_add_msg`.
fn contains_value(v: &Vec<u64>, x: u64) -> (r: bool)
    ensures
        r == v@.contains(x),
{
    let mut i: usize = 0;
    while i < v.len()
        invariant
            0 <= i <= v.len(),
            forall|k: int| 0 <= k < i ==> v@[k] != x,
        decreases v.len() - i,
    {
        if v[i] == x {
            return true;
        }
        i = i + 1;
    }
    false
}

// ---------------------------------------------------------------------------
// Convergence model: one gossip delivery unions the sender's set into the
// receiver's, exactly what `receive_gossip` ensures when a round hands it a
// `get_messages` snapshot. The lemmas below state that relaying along any
// path of deliveries carries every value to the path's end, and never loses
// one anywhere: eventual convergence on a non-partitioned neighbor graph.
// ---------------------------------------------------------------------------

/// Cluster-wide view: the seen set of each node, indexed by node. One
/// delivery of `from`'s full set to `to`.
pub open spec fn push_step(sets: Seq<Set<u64>>, from: int, to: int) -> Seq<Set<u64>> {
    sets.update(to, sets[to].union(sets[from]))
}

/// A chain of deliveries along consecutive nodes of `path`.
pub open spec fn relay(sets: Seq<Set<u64>>, path: Seq<int>) -> Seq<Set<u64>>
    decreases path.len(),
{
    if path.len() <= 1 {
        sets
    } else {
        relay(push_step(sets, path[0], path[1]), path.drop_first())
    }
}

pub open spec fn path_in_bounds(path: Seq<int>, n: int) -> bool {
    forall|i: int| 0 <= i < path.len() ==> 0 <= #[trigger] path[i] < n
}

/// Gossip never shrinks any node's set: after any chain of deliveries,
/// every node's set contains what it started with.
pub proof fn lemma_relay_monotone(sets: Seq<Set<u64>>, path: Seq<int>, j: int)
    requires
        path_in_bounds(path, sets.len() as int),
        0 <= j < sets.len(),
    ensures
        relay(sets, path).len() == sets.len(),
        sets[j].subset_of(relay(sets, path)[j]),
    decreases path.len(),
{
    if path.len() > 1 {
        let stepped = push_step(sets, path[0], path[1]);
        assert(path_in_bounds(path.drop_first(), sets.len() as int)) by {
            assert(forall|i: int|
                0 <= i < path.drop_first().len() ==> #[trigger] path.drop_first()[i] == path[i
                    + 1]);
        }
        lemma_relay_monotone(stepped, path.drop_first(), j);
    }
}

/// Gossip convergence along a path: a value present at the head of a
/// delivery chain is present at its end once each hop has delivered.
pub proof fn lemma_relay_delivers(sets: Seq<Set<u64>>, path: Seq<int>, v: u64)
    requires
        path.len() >= 1,
        path_in_bounds(path, sets.len() as int),
        sets[path[0]].contains(v),
    ensures
        relay(sets, path)[path.last()].contains(v),
    decreases path.len(),
{
    if path.len() == 1 {
    } else {
        let stepped = push_step(sets, path[0], path[1]);
        let rest = path.drop_first();
        assert(path_in_bounds(rest, sets.len() as int)) by {
            assert(forall|i: int| 0 <= i < rest.len() ==> #[trigger] rest[i] == path[i + 1]);
        }
        assert(stepped[rest[0]].contains(v));
        lemma_relay_delivers(stepped, rest, v);
        assert(rest.last() == path.last());
    }
}

} // verus!
