//! The best-first frontier of open nodes. Among a minimization problem's
//! open nodes the one with the smallest LP lower bound surfaces first, so a
//! pop returns a node whose objective is no larger than that of any node
//! left behind.

use vstd::prelude::*;
use vstd::seq_lib::group_seq_properties;

use crate::common::Node;

verus! {

/// The set of open branch-and-bound nodes, popped in best-first order.
pub struct Frontier {
    nodes: Vec<Node>,
}

impl View for Frontier {
    type V = Seq<Node>;

    closed spec fn view(&self) -> Seq<Node> {
        self.nodes@
    }
}

impl Frontier {
    pub fn new() -> (r: Frontier)
        ensures
            r@ == Seq::<Node>::empty(),
    {
        Frontier { nodes: Vec::new() }
    }

    pub fn len(&self) -> (r: usize)
        ensures
            r == self@.len(),
    {
        self.nodes.len()
    }

    pub fn is_empty(&self) -> (r: bool)
        ensures
            r == (self@.len() == 0),
    {
        self.nodes.len() == 0
    }

    /// Admit an open node.
    pub fn push(&mut self, node: Node)
        ensures
            final(self)@ == old(self)@.push(node),
    {
        self.nodes.push(node);
    }

    /// Discard every open node.
    pub fn clear(&mut self)
        ensures
            final(self)@ == Seq::<Node>::empty(),
    {
        self.nodes = Vec::new();
    }

    /// Remove and return an open node with the smallest LP objective, or
    /// None when no node is open. The rest of the frontier is untouched:
    /// what remains is exactly the old contents with one occurrence of the
    /// popped node taken out.
    pub fn pop(&mut self) -> (r: Option<Node>)
        ensures
            match r {
                None => old(self)@.len() == 0 && final(self)@ == old(self)@,
                Some(n) => {
                    &&& old(self)@.len() > 0
                    &&& final(self)@.len() == old(self)@.len() - 1
                    &&& old(self)@.contains(n)
                    &&& old(self)@.to_multiset() == final(self)@.to_multiset().insert(n)
                    &&& forall|k: int|
                        0 <= k < old(self)@.len() ==> n.objective_val <= (#[trigger] old(
                            self,
                        )@[k]).objective_val
                },
            },
    {
        if self.nodes.len() == 0 {
            return None;
        }
        let mut min_idx: usize = 0;
        let mut i: usize = 1;
        while i < self.nodes.len()
            invariant
                min_idx < i <= self.nodes@.len(),
                forall|k: int|
                    0 <= k < i ==> self.nodes@[min_idx as int].objective_val <= (
                    #[trigger] self.nodes@[k]).objective_val,
            decreases self.nodes@.len() - i,
        {
            if self.nodes[i].objective_val < self.nodes[min_idx].objective_val {
                min_idx = i;
            }
            i = i + 1;
        }
        let n = self.nodes.remove(min_idx);
        proof {
            broadcast use group_seq_properties;

            assert(old(self)@.to_multiset() =~= final(self)@.to_multiset().insert(n));
        }
        Some(n)
    }
}

/// Frontier ordering law: pops are non-decreasing in the LP objective. If an
/// earlier pop returned a node no larger than everything then on the
/// frontier, and every node present at a later pop either remained from that
/// earlier frontier or was pushed with an objective no smaller than the
/// earlier pop's, then the later pop is no smaller than the earlier one.
pub proof fn lemma_pops_non_decreasing(
    earlier: Seq<Node>,
    first: Node,
    later: Seq<Node>,
    second: Node,
)
    requires
        forall|k: int|
            0 <= k < earlier.len() ==> first.objective_val <= (#[trigger] earlier[k]).objective_val,
        forall|k: int|
            0 <= k < later.len() ==> earlier.to_multiset().count(#[trigger] later[k]) > 0
                || first.objective_val <= later[k].objective_val,
        later.contains(second),
    ensures
        first.objective_val <= second.objective_val,
{
    broadcast use group_seq_properties;

    let k = choose|k: int| 0 <= k < later.len() && later[k] == second;
    if earlier.to_multiset().count(second) > 0 {
        assert(earlier.contains(second));
    }
}

} // verus!
