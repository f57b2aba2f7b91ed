//! Anything that node features can be read from.
use vstd::prelude::*;
use crate::graph::csr::NodeId;
use super::header::placed;

verus! {

/// Reading node features from any backing store.
pub trait NodeFeatureSource {
    /// The source can be read.
    spec fn ready(&self) -> bool;

    /// Number of features per node.
    spec fn width(&self) -> nat;

    /// The features of a node, if the node exists.
    spec fn node_row(&self, node: NodeId) -> Option<Seq<u32>>;

    /// Whether buffers of `len` values are taken.
    spec fn takes(&self, len: nat) -> bool;

    /// Number of features per node.
    fn feature_dim(&self) -> (n: usize)
        ensures
            n == self.width(),
    ;

    /// Reads the features of `node` into the start of `out`. Returns `true` if
    /// the node exists and the buffer is one that is taken; else `out` is left
    /// alone.
    fn read_node(&self, node: NodeId, out: &mut [u32]) -> (done: bool)
        requires
            self.ready(),
        ensures
            done == (self.node_row(node) is Some && self.takes(old(out)@.len())),
            done ==> final(out)@ == placed(old(out)@, 0, self.node_row(node)->0),
            !done ==> final(out)@ == old(out)@,
    ;
}

} // verus!
