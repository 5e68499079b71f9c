//! The finished tree node and its mathematical view.

use vstd::prelude::*;

verus! {

/// One finalized vertex of the Merkle tree.  Leaves sit at even positions
/// and carry the appended block in `data`; internal nodes sit at odd
/// positions and carry no data.  A node is never mutated once created.
pub struct Node {
    /// Position of this node in the flat in-order numbering.
    pub index: u64,
    /// Position of this node's parent in the same numbering.
    pub parent: u64,
    /// The node's digest, as the injected hash function produced it.
    pub hash: Vec<u8>,
    /// The appended block for a leaf; absent for an internal node.
    pub data: Option<Vec<u8>>,
    /// Byte length of the block for a leaf; the sum of both children's
    /// sizes for an internal node.
    pub size: usize,
}

/// The mathematical content of a `Node`.
pub ghost struct NodeView {
    pub index: nat,
    pub parent: nat,
    pub hash: Seq<u8>,
    pub data: Option<Seq<u8>>,
    pub size: nat,
}

impl View for Node {
    type V = NodeView;

    open spec fn view(&self) -> NodeView {
        NodeView {
            index: self.index as nat,
            parent: self.parent as nat,
            hash: self.hash@,
            data: match self.data {
                Option::Some(d) => Option::Some(d@),
                Option::None => Option::None,
            },
            size: self.size as nat,
        }
    }
}

/// The views of a sequence of nodes, in order.
pub open spec fn node_views(s: Seq<Node>) -> Seq<NodeView> {
    s.map_values(|n: Node| n@)
}

fn clone_bytes(v: &Vec<u8>) -> (r: Vec<u8>)
    ensures
        r@ == v@,
{
    let mut r: Vec<u8> = Vec::new();
    let mut i: usize = 0;
    while i < v.len()
        invariant
            i <= v.len(),
            r@ == v@.take(i as int),
        decreases v.len() - i,
    {
        r.push(v[i]);
        i = i + 1;
        proof {
            assert(r@ =~= v@.take(i as int));
        }
    }
    proof {
        assert(r@ =~= v@);
    }
    r
}

impl Clone for Node {
    /// A clone is an independent node with the same view.
    fn clone(&self) -> (r: Self)
        ensures
            r@ == self@,
    {
        Node {
            index: self.index,
            parent: self.parent,
            hash: clone_bytes(&self.hash),
            data: match &self.data {
                Option::Some(d) => Option::Some(clone_bytes(d)),
                Option::None => Option::None,
            },
            size: self.size,
        }
    }
}

} // verus!
