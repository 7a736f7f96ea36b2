//! Cluster membership: the node identifiers of the whole cluster and this
//! node's own, delivered once at initialization and immutable afterwards.
//! The counter uses it to know every bucket to sum; the transaction store
//! uses it to know every replication target.

use vstd::prelude::*;

verus! {

#[derive(Clone)]
pub struct Membership {
    nodes: Vec<String>,
    self_id: String,
}

impl Membership {
    /// Every node identifier in the cluster, in the order delivered.
    pub closed spec fn spec_nodes(self) -> Seq<String> {
        self.nodes@
    }

    /// This node's own identifier.
    pub closed spec fn spec_self_id(self) -> Seq<char> {
        self.self_id@
    }

    /// The replication targets: every node but this one.
    pub open spec fn spec_peers(self) -> Seq<String> {
        self.spec_nodes().filter(|n: String| n@ != self.spec_self_id())
    }

    pub fn new(nodes: Vec<String>, self_id: String) -> (r: Membership)
        ensures
            r.spec_nodes() == nodes@,
            r.spec_self_id() == self_id@,
    {
        Membership { nodes, self_id }
    }

    /// Whether the given identifier names this node itself.
    pub fn is_self(&self, node: &String) -> (r: bool)
        ensures
            r == (node@ == self.spec_self_id()),
    {
        *node == self.self_id
    }

    pub fn node_count(&self) -> (r: usize)
        ensures
            r == self.spec_nodes().len(),
    {
        self.nodes.len()
    }

    pub fn node_at(&self, i: usize) -> (r: &String)
        requires
            i < self.spec_nodes().len(),
        ensures
            r == self.spec_nodes()[i as int],
    {
        &self.nodes[i]
    }

    pub fn self_id(&self) -> (r: &String)
        ensures
            r@ == self.spec_self_id(),
    {
        &self.self_id
    }

    /// Every other node of the cluster, in delivery order.
    pub fn peers(&self) -> (r: Vec<String>)
        ensures
            r@ == self.spec_peers(),
    {
        let mut out: Vec<String> = Vec::new();
        let mut i: usize = 0;
        while i < self.nodes.len()
            invariant
                0 <= i <= self.nodes@.len(),
                out@ == self.nodes@.take(i as int).filter(
                    |n: String| n@ != self.spec_self_id(),
                ),
            decreases self.nodes@.len() - i,
        {
            let node = self.nodes[i].clone();
            proof {
                let pred = |n: String| n@ != self.spec_self_id();
                reveal_with_fuel(Seq::filter, 2);
                assert(self.nodes@.take(i + 1).drop_last() =~= self.nodes@.take(i as int));
                assert(self.nodes@.take(i + 1).last() == self.nodes@[i as int]);
                assert(self.nodes@.take(i + 1).filter(pred) == if pred(self.nodes@[i as int]) {
                    self.nodes@.take(i as int).filter(pred).push(self.nodes@[i as int])
                } else {
                    self.nodes@.take(i as int).filter(pred)
                });
            }
            if !self.is_self(&node) {
                out.push(node);
            }
            i = i + 1;
        }
        proof {
            assert(self.nodes@.take(self.nodes@.len() as int) =~= self.nodes@);
        }
        out
    }
}

} // verus!
