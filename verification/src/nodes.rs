use vstd::prelude::*;

use crate::activations::Activation;
use crate::genes::Gene;
use crate::ids::Id;

verus! {

/// A node gene: an identity and the activation the network adapter will
/// give the node. The id alone is the structural identity; the activation
/// is payload and may change on hidden nodes.
#[derive(Clone, Copy, Debug, PartialEq, Eq, Structural, Hash)]
pub struct Node {
    pub id: Id,
    pub activation: Activation,
}

impl Node {
    pub fn new(id: Id, activation: Activation) -> (n: Node)
        ensures
            n.id == id,
            n.activation == activation,
    {
        Node { id, activation }
    }
}

impl Gene for Node {
    open spec fn identity(&self) -> (u64, u64) {
        (self.id.0, self.id.0)
    }

    fn key(&self) -> (k: (u64, u64)) {
        (self.id.0, self.id.0)
    }
}

} // verus!
