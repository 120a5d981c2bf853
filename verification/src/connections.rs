use vstd::prelude::*;

use crate::genes::Gene;
use crate::ids::Id;
use crate::weights::Weight;

verus! {

/// A connection gene: the directed edge from `input` to `output` with a
/// weight. The (input, output) pair alone is the structural identity; the
/// weight is mutable payload. Feed-forward and recurrent connections are
/// kept in disjoint sets of these.
#[derive(Clone, Copy, Debug)]
pub struct Connection {
    pub input: Id,
    pub weight: Weight,
    pub output: Id,
}

impl Connection {
    pub fn new(input: Id, weight: Weight, output: Id) -> (c: Connection)
        ensures
            c.input == input,
            c.weight == weight,
            c.output == output,
    {
        Connection { input, weight, output }
    }

    /// The connection's identity as a pair of node ids.
    pub fn id(&self) -> (r: (Id, Id))
        ensures
            r == (self.input, self.output),
    {
        (self.input, self.output)
    }
}

impl Gene for Connection {
    open spec fn identity(&self) -> (u64, u64) {
        (self.input.0, self.output.0)
    }

    fn key(&self) -> (k: (u64, u64)) {
        (self.input.0, self.output.0)
    }
}

} // verus!
