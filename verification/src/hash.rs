//! The injected hash functions and their failure.

use crate::node::node_views;
use crate::node::Node;
use crate::node::NodeView;
use vstd::prelude::*;

verus! {

/// Returned by `Generator::next` when an injected hash function could not
/// produce a digest; the generator's state is then exactly as it was before
/// the call.
#[derive(Clone, Copy, Debug, PartialEq, Eq, Structural)]
pub struct HashError;

/// The pluggable hashing strategy: one operation digests a fresh leaf, the
/// other combines two sibling subtree roots into their parent's digest.
///
/// Implementations must be deterministic, pure functions of their
/// arguments: the spec functions `leaf_hash` and `parent_hash` name the
/// digest a successful call returns, and `leaf_hash_ok` and
/// `parent_hash_ok` say on which inputs the call succeeds at all.
pub trait Hasher: Sized {
    /// The digest a successful `hash_leaf` returns.
    spec fn leaf_hash(&self, leaf: NodeView, roots: Seq<NodeView>) -> Seq<u8>;

    /// Whether `hash_leaf` succeeds on these inputs.
    spec fn leaf_hash_ok(&self, leaf: NodeView, roots: Seq<NodeView>) -> bool;

    /// The digest a successful `hash_parent` returns.
    spec fn parent_hash(&self, left: NodeView, right: NodeView) -> Seq<u8>;

    /// Whether `hash_parent` succeeds on these inputs.
    spec fn parent_hash_ok(&self, left: NodeView, right: NodeView) -> bool;

    /// Digest a provisional leaf (its `hash` still empty), with the current
    /// forest roots as read-only context.
    fn hash_leaf(&self, leaf: &Node, roots: &Vec<Node>) -> (r: Result<Vec<u8>, HashError>)
        ensures
            r is Ok <==> self.leaf_hash_ok(leaf@, node_views(roots@)),
            (r matches Ok(h) ==> h@ == self.leaf_hash(leaf@, node_views(roots@))),
    ;

    /// Digest a parent node from its two finished children.
    fn hash_parent(&self, left: &Node, right: &Node) -> (r: Result<Vec<u8>, HashError>)
        ensures
            r is Ok <==> self.parent_hash_ok(left@, right@),
            (r matches Ok(h) ==> h@ == self.parent_hash(left@, right@)),
    ;
}

} // verus!
