//! The tree in document order, for printing it as an indented outline.

use vstd::prelude::*;

use crate::dom::Dom;
use crate::node::NodeId;

verus! {

/// The depth of a child: one more, up to `usize::MAX`.
pub open spec fn next_depth(depth: nat) -> nat {
    if depth < usize::MAX {
        depth + 1
    } else {
        depth
    }
}

impl Dom {
    /// The subtree of `node` in document order, each node with its depth
    /// (`node` itself at `depth`); depths stop growing at `usize::MAX`.
    pub open spec fn preorder(&self, node: int, depth: nat) -> Seq<(nat, int)>
        decreases self.rank_bound@ - self.rank_of(node), 1nat,
    {
        seq![(depth, node)] + self.forest(node, next_depth(depth), self.children_of(node).len() as int)
    }

    /// The subtrees of the first `k` children of `node`, one after another.
    pub open spec fn forest(&self, node: int, depth: nat, k: int) -> Seq<(nat, int)>
        decreases self.rank_bound@ - self.rank_of(node), 0nat, k,
    {
        if k <= 0 || !(0 <= node < self.nodes.len()) {
            Seq::empty()
        } else {
            let c = self.children_of(node)[k - 1] as int;
            if self.ranked_below(node, c) && self.rank_of(c) < self.rank_bound@ {
                self.forest(node, depth, k - 1) + self.preorder(c, depth)
            } else {
                self.forest(node, depth, k - 1)
            }
        }
    }

    /// The subtree of `node` in document order, with depths counted from
    /// `depth`: the lines of an indented tree outline.
    pub fn outline(&self, node: NodeId, depth: usize) -> (r: Vec<(usize, NodeId)>)
        requires
            self.wf(),
            self.valid(node as int),
        ensures
            r@.map_values(|p: (usize, NodeId)| (p.0 as nat, p.1 as int)) == self.preorder(
                node as int,
                depth as nat,
            ),
        decreases self.rank_bound@ - self.rank_of(node as int),
    {
        let mut out: Vec<(usize, NodeId)> = Vec::new();
        out.push((depth, node));
        proof {
            assert(self.node_wf(node as int));
        }
        let child_depth = if depth < usize::MAX { depth + 1 } else { depth };
        let children = &self.nodes[node].children;
        let mut k: usize = 0;
        while k < children.len()
            invariant
                self.wf(),
                self.valid(node as int),
                child_depth as nat == next_depth(depth as nat),
                children@ == self.children_of(node as int),
                k <= children.len(),
                out@.map_values(|p: (usize, NodeId)| (p.0 as nat, p.1 as int)) == seq![(depth as nat, node as int)]
                    + self.forest(node as int, child_depth as nat, k as int),
            decreases children.len() - k,
        {
            let c = children[k];
            proof {
                assert(self.node_wf(node as int));
                assert(c < self.nodes.len());
                assert(self.node_wf(c as int));
            }
            let sub = self.outline(c, child_depth);
            let ghost before = out@;
            let mut j: usize = 0;
            while j < sub.len()
                invariant
                    j <= sub.len(),
                    out@ == before + sub@.take(j as int),
                decreases sub.len() - j,
            {
                out.push(sub[j]);
                j = j + 1;
                proof {
                    assert(sub@.take(j as int) =~= sub@.take(j as int - 1).push(sub@[j - 1]));
                }
            }
            proof {
                assert(sub@.take(j as int) =~= sub@);
                let f = |p: (usize, NodeId)| (p.0 as nat, p.1 as int);
                assert((before + sub@).map_values(f) =~= before.map_values(f) + sub@.map_values(f));
                assert(self.forest(node as int, child_depth as nat, k + 1) == self.forest(node as int, child_depth as nat, k as int) + self.preorder(c as int, child_depth as nat));
                assert(out@.map_values(f) =~= seq![(depth as nat, node as int)]
                    + self.forest(node as int, child_depth as nat, k + 1));
            }
            k = k + 1;
        }
        proof {
            let f = |p: (usize, NodeId)| (p.0 as nat, p.1 as int);
            assert(out@.map_values(f) =~= self.preorder(node as int, depth as nat));
        }
        out
    }
}

} // verus!
