use vstd::prelude::*;

use crate::activations::Activation;
use crate::connections::Connection;
use crate::genes::{key_lt, lemma_sorted_insert_is_push, Gene, Genes};
use crate::ids::{Id, IdGenerator};
use crate::nodes::Node;
use crate::parameters::Parameters;
use crate::rng::NeatRng;
use crate::weights::{Weight, WeightDistribution};

verus! {

/// The node set `s` holds a node with id `id`.
pub open spec fn node_in(s: Genes<Node>, id: Id) -> bool {
    s.has_key((id.0, id.0))
}

/// The connection set `c` (as a sequence) holds an edge from `a` to `b`.
pub open spec fn edge_in(c: Seq<Connection>, a: Id, b: Id) -> bool {
    exists|i: int| 0 <= i < c.len() && (#[trigger] c[i]).input == a && c[i].output == b
}

/// `p` is a walk along edges of `c`: at least one step, each step an edge.
pub open spec fn is_path(c: Seq<Connection>, p: Seq<Id>) -> bool {
    p.len() >= 2 && forall|i: int| 0 <= i < p.len() - 1 ==> edge_in(c, #[trigger] p[i], p[i + 1])
}

/// A walk of at least one edge leads from `from` to `to` in `c`.
pub open spec fn reaches(c: Seq<Connection>, from: Id, to: Id) -> bool {
    exists|p: Seq<Id>| #[trigger] is_path(c, p) && p[0] == from && p.last() == to
}

/// A genome: the typed gene sets of one network encoding. Input and
/// output node sets are fixed for a run; hidden nodes and the two
/// connection sets grow under mutation. Feed-forward connections must
/// keep the feed-forward subgraph acyclic; recurrent ones may close
/// cycles, which the network adapter unrolls with a one-step delay.
#[derive(Debug)]
pub struct Genome {
    pub inputs: Genes<Node>,
    pub hidden: Genes<Node>,
    pub outputs: Genes<Node>,
    pub feed_forward: Genes<Connection>,
    pub recurrent: Genes<Connection>,
}

impl Genome {
    /// All five gene sets are well-formed.
    pub open spec fn wf(&self) -> bool {
        &&& self.inputs.wf()
        &&& self.hidden.wf()
        &&& self.outputs.wf()
        &&& self.feed_forward.wf()
        &&& self.recurrent.wf()
    }

    /// Some node set of the genome holds `id`.
    pub open spec fn has_node(&self, id: Id) -> bool {
        node_in(self.inputs, id) || node_in(self.hidden, id) || node_in(self.outputs, id)
    }

    /// Connections never dangle: every endpoint of every connection is a
    /// node of the genome.
    pub open spec fn linked(&self) -> bool {
        &&& forall|i: int|
            0 <= i < self.feed_forward.seq().len() ==> self.has_node(
                (#[trigger] self.feed_forward.seq()[i]).input,
            ) && self.has_node(self.feed_forward.seq()[i].output)
        &&& forall|i: int|
            0 <= i < self.recurrent.seq().len() ==> self.has_node(
                (#[trigger] self.recurrent.seq()[i]).input,
            ) && self.has_node(self.recurrent.seq()[i].output)
    }

    /// Every node id of the genome lies below `n` — tied to the id
    /// generator's `next_free` so that fresh ids are really fresh.
    pub open spec fn ids_below(&self, n: u64) -> bool {
        &&& forall|i: int|
            0 <= i < self.inputs.seq().len() ==> (#[trigger] self.inputs.seq()[i]).id.0 < n
        &&& forall|i: int|
            0 <= i < self.hidden.seq().len() ==> (#[trigger] self.hidden.seq()[i]).id.0 < n
        &&& forall|i: int|
            0 <= i < self.outputs.seq().len() ==> (#[trigger] self.outputs.seq()[i]).id.0 < n
    }

    /// A fresh genome: `input_dimension` input nodes with the fixed linear
    /// activation and `output_dimension` output nodes with the configured
    /// output activation, all with consecutive fresh ids; no hidden nodes
    /// and no connections yet.
    pub fn new(id_gen: &mut IdGenerator, parameters: &Parameters) -> (g: Genome)
        requires
            old(id_gen).wf(),
            parameters.wf(),
            old(id_gen).next_free() + parameters.setup.input_dimension
                + parameters.setup.output_dimension <= u64::MAX,
        ensures
            final(id_gen).wf(),
            final(id_gen).next_free() == old(id_gen).next_free()
                + parameters.setup.input_dimension + parameters.setup.output_dimension,
            forall|key: (Id, Id)| #[trigger] final(id_gen).cached(key) == old(id_gen).cached(key),
            g.wf(),
            g.linked(),
            g.hidden.seq().len() == 0,
            g.feed_forward.seq().len() == 0,
            g.recurrent.seq().len() == 0,
            g.inputs.seq().len() == parameters.setup.input_dimension,
            g.outputs.seq().len() == parameters.setup.output_dimension,
            forall|i: int|
                0 <= i < g.inputs.seq().len() ==> (#[trigger] g.inputs.seq()[i]).id.0 == old(
                    id_gen,
                ).next_free() + i && g.inputs.seq()[i].activation == Activation::Linear,
            forall|i: int|
                0 <= i < g.outputs.seq().len() ==> (#[trigger] g.outputs.seq()[i]).id.0 == old(
                    id_gen,
                ).next_free() + parameters.setup.input_dimension + i
                    && g.outputs.seq()[i].activation == parameters.activations.output_nodes,
            g.ids_below(final(id_gen).next_free()),
    {
        let ghost base = id_gen.next_free();
        let mut inputs: Genes<Node> = Genes::empty();
        let mut i: usize = 0;
        while i < parameters.setup.input_dimension
            invariant
                i <= parameters.setup.input_dimension,
                id_gen.wf(),
                id_gen.next_free() == base + i,
                base + parameters.setup.input_dimension + parameters.setup.output_dimension
                    <= u64::MAX,
                forall|key: (Id, Id)| #[trigger] id_gen.cached(key) == old(id_gen).cached(key),
                inputs.wf(),
                inputs.seq().len() == i,
                forall|j: int|
                    0 <= j < i ==> (#[trigger] inputs.seq()[j]).id.0 == base + j
                        && inputs.seq()[j].activation == Activation::Linear,
            decreases parameters.setup.input_dimension - i,
        {
            let id = id_gen.next_id();
            let node = Node::new(id, Activation::Linear);
            let ghost pre = inputs;
            let inserted = inputs.insert(node);
            proof {
                lemma_sorted_insert_is_push(pre, inputs, node);
            }
            i = i + 1;
        }
        let mut outputs: Genes<Node> = Genes::empty();
        let mut k: usize = 0;
        while k < parameters.setup.output_dimension
            invariant
                k <= parameters.setup.output_dimension,
                id_gen.wf(),
                id_gen.next_free() == base + parameters.setup.input_dimension + k,
                base + parameters.setup.input_dimension + parameters.setup.output_dimension
                    <= u64::MAX,
                forall|key: (Id, Id)| #[trigger] id_gen.cached(key) == old(id_gen).cached(key),
                outputs.wf(),
                outputs.seq().len() == k,
                forall|j: int|
                    0 <= j < k ==> (#[trigger] outputs.seq()[j]).id.0 == base
                        + parameters.setup.input_dimension + j && outputs.seq()[j].activation
                        == parameters.activations.output_nodes,
            decreases parameters.setup.output_dimension - k,
        {
            let id = id_gen.next_id();
            let node = Node::new(id, parameters.activations.output_nodes);
            let ghost pre = outputs;
            let inserted = outputs.insert(node);
            proof {
                lemma_sorted_insert_is_push(pre, outputs, node);
            }
            k = k + 1;
        }
        Genome {
            inputs,
            hidden: Genes::empty(),
            outputs,
            feed_forward: Genes::empty(),
            recurrent: Genes::empty(),
        }
    }

    /// All nodes of the genome: inputs, then hidden, then outputs.
    pub fn nodes(&self) -> (r: Vec<Node>)
        ensures
            r@ == self.inputs.seq() + self.hidden.seq() + self.outputs.seq(),
    {
        let mut r = self.inputs.to_vec();
        let mut h = self.hidden.to_vec();
        let mut o = self.outputs.to_vec();
        r.append(&mut h);
        r.append(&mut o);
        r
    }

    /// How many connection genes the genome carries, over both kinds.
    pub fn len(&self) -> (n: usize)
        requires
            self.feed_forward.seq().len() + self.recurrent.seq().len() <= usize::MAX,
        ensures
            n == self.feed_forward.seq().len() + self.recurrent.seq().len(),
    {
        self.feed_forward.len() + self.recurrent.len()
    }

    pub fn is_empty(&self) -> (r: bool)
        ensures
            r == (self.feed_forward.seq().len() == 0 && self.recurrent.seq().len() == 0),
    {
        self.feed_forward.is_empty() && self.recurrent.is_empty()
    }

    /// Whether the two nodes are already joined, in the set picked by
    /// `recurrent`, by an edge from `start_node` to `end_node`.
    pub fn are_connected(&self, start_node: &Node, end_node: &Node, recurrent: bool) -> (r: bool)
        requires
            self.wf(),
        ensures
            r == if recurrent {
                self.recurrent.has_key((start_node.id.0, end_node.id.0))
            } else {
                self.feed_forward.has_key((start_node.id.0, end_node.id.0))
            },
    {
        if recurrent {
            self.recurrent.contains_key((start_node.id.0, end_node.id.0))
        } else {
            self.feed_forward.contains_key((start_node.id.0, end_node.id.0))
        }
    }

    /// Whether inserting the feed-forward edge `start_node` -> `end_node`
    /// would close a cycle: true exactly when the existing feed-forward
    /// edges already lead from `end_node` back to `start_node`.
    pub fn would_form_cycle(&self, start_node: &Node, end_node: &Node) -> (r: bool)
        requires
            self.wf(),
        ensures
            r == reaches(self.feed_forward.seq(), end_node.id, start_node.id),
    {
        let ghost c = self.feed_forward.seq();
        let edges = self.feed_forward.to_vec();
        let start = start_node.id;
        let end = end_node.id;
        let ghost universe = c.map_values(|conn: Connection| conn.output).to_set().insert(end);
        let mut visited: Vec<Id> = Vec::new();
        let mut frontier: Vec<Id> = Vec::new();
        frontier.push(end);
        proof {
            broadcast use vstd::seq_lib::group_seq_properties;

        }
        while frontier.len() > 0
            invariant
                edges@ == c,
                c == self.feed_forward.seq(),
                start == start_node.id,
                end == end_node.id,
                universe == c.map_values(|conn: Connection| conn.output).to_set().insert(end),
                universe.finite(),
                visited@.len() <= universe.len(),
                visited@.no_duplicates(),
                forall|i: int| 0 <= i < visited@.len() ==> universe.contains(#[trigger] visited@[i]),
                forall|i: int|
                    0 <= i < frontier@.len() ==> universe.contains(#[trigger] frontier@[i]),
                forall|i: int|
                    0 <= i < visited@.len() ==> #[trigger] visited@[i] == end || reaches(
                        c,
                        end,
                        visited@[i],
                    ),
                forall|i: int|
                    0 <= i < frontier@.len() ==> #[trigger] frontier@[i] == end || reaches(
                        c,
                        end,
                        frontier@[i],
                    ),
                bfs_closed(c, visited@, frontier@, start),
                visited@.contains(end) || frontier@.contains(end),
            decreases universe.len() - visited@.len(), frontier@.len(),
        {
            let ghost pre_frontier = frontier@;
            let v = match frontier.pop() {
                Some(v) => v,
                None => {
                    proof {
                        assert(false);
                    }
                    end
                },
            };
            proof {
                assert(visited@.contains(end) || frontier@.contains(end) || v == end) by {
                    if !visited@.contains(end) && !frontier@.contains(end) {
                        let i = choose|i: int|
                            0 <= i < pre_frontier.len() && pre_frontier[i] == end;
                        if i < pre_frontier.len() - 1 {
                            assert(frontier@[i] == end);
                        } else {
                            assert(v == end);
                        }
                    }
                }
            }
            if id_in_vec(&visited, v) {
                proof {
                    assert(visited@.contains(end) || frontier@.contains(end));
                    assert forall|vi: int, ei: int|
                        0 <= vi < visited@.len() && 0 <= ei < c.len() && (#[trigger] c[ei]).input
                            == #[trigger] visited@[vi] implies c[ei].output != start && (
                    visited@.contains(c[ei].output) || frontier@.contains(c[ei].output)) by {
                        assert(c[ei].output != start && (visited@.contains(c[ei].output)
                            || pre_frontier.contains(c[ei].output)));
                        if !visited@.contains(c[ei].output) {
                            let w = choose|w: int|
                                0 <= w < pre_frontier.len() && pre_frontier[w] == c[ei].output;
                            if w < pre_frontier.len() - 1 {
                                assert(frontier@[w] == c[ei].output);
                            } else {
                                assert(c[ei].output == v);
                                assert(visited@.contains(v));
                            }
                        }
                    }
                }
                continue;
            }
            let ghost pre_visited = visited@;
            visited.push(v);
            proof {
                assert(visited@.drop_last() =~= pre_visited);
                assert(visited@.no_duplicates());
                assert(visited@.to_set().subset_of(universe)) by {
                    assert forall|x: Id| visited@.to_set().contains(x) implies universe.contains(
                        x,
                    ) by {
                        let i = choose|i: int| 0 <= i < visited@.len() && visited@[i] == x;
                    }
                }
                visited@.unique_seq_to_set();
                vstd::set_lib::lemma_len_subset(visited@.to_set(), universe);
                assert(visited@[visited@.len() - 1] == v);
                assert(visited@.contains(end) || frontier@.contains(end)) by {
                    if v == end {
                        assert(visited@[visited@.len() - 1] == end);
                    } else if pre_visited.contains(end) {
                        let w = choose|w: int|
                            0 <= w < pre_visited.len() && pre_visited[w] == end;
                        assert(visited@[w] == end);
                    }
                }
                assert forall|vi: int, ei: int|
                    0 <= vi < pre_visited.len() && 0 <= ei < c.len() && (#[trigger] c[ei]).input
                        == #[trigger] pre_visited[vi] implies c[ei].output != start && (
                visited@.contains(c[ei].output) || frontier@.contains(c[ei].output)) by {
                    assert(c[ei].output != start && (pre_visited.contains(c[ei].output)
                        || pre_frontier.contains(c[ei].output)));
                    if pre_visited.contains(c[ei].output) {
                        let w = choose|w: int|
                            0 <= w < pre_visited.len() && pre_visited[w] == c[ei].output;
                        assert(visited@[w] == c[ei].output);
                    } else if !frontier@.contains(c[ei].output) {
                        let w = choose|w: int|
                            0 <= w < pre_frontier.len() && pre_frontier[w] == c[ei].output;
                        if w < pre_frontier.len() - 1 {
                            assert(frontier@[w] == c[ei].output);
                        } else {
                            assert(c[ei].output == v);
                            assert(visited@[visited@.len() - 1] == c[ei].output);
                        }
                    }
                }
            }
            let mut e: usize = 0;
            while e < edges.len()
                invariant
                    edges@ == c,
                    c == self.feed_forward.seq(),
                    start == start_node.id,
                    end == end_node.id,
                    e <= edges@.len(),
                    universe == c.map_values(|conn: Connection| conn.output).to_set().insert(end),
                    universe.finite(),
                    visited@ == pre_visited.push(v),
                    visited@.len() <= universe.len(),
                    visited@.no_duplicates(),
                    forall|i: int|
                        0 <= i < visited@.len() ==> universe.contains(#[trigger] visited@[i]),
                    forall|i: int|
                        0 <= i < frontier@.len() ==> universe.contains(#[trigger] frontier@[i]),
                    forall|i: int|
                        0 <= i < visited@.len() ==> #[trigger] visited@[i] == end || reaches(
                            c,
                            end,
                            visited@[i],
                        ),
                    forall|i: int|
                        0 <= i < frontier@.len() ==> #[trigger] frontier@[i] == end || reaches(
                            c,
                            end,
                            frontier@[i],
                        ),
                    forall|vi: int, ei: int|
                        0 <= vi < pre_visited.len() && 0 <= ei < c.len() && (
                        #[trigger] c[ei]).input == #[trigger] pre_visited[vi] ==> c[ei].output
                            != start && (visited@.contains(c[ei].output) || frontier@.contains(
                            c[ei].output,
                        )),
                    forall|ei: int|
                        0 <= ei < e && (#[trigger] c[ei]).input == v ==> c[ei].output != start && (
                        visited@.contains(c[ei].output) || frontier@.contains(c[ei].output)),
                    visited@.contains(end) || frontier@.contains(end),
                decreases edges@.len() - e,
            {
                let edge = edges[e];
                if edge.input.0 == v.0 {
                    proof {
                        assert(edge.input == v);
                        assert(edge_in(c, v, edge.output)) by {
                            assert((#[trigger] c[e as int]).input == v && c[e as int].output
                                == edge.output);
                        }
                        if v == end {
                            lemma_edge_reaches(c, end, edge.output);
                        } else {
                            assert(visited@[visited@.len() - 1] == v);
                            assert(reaches(c, end, v));
                            lemma_reaches_step(c, end, v, edge.output);
                        }
                        assert(reaches(c, end, edge.output));
                    }
                    if edge.output.0 == start.0 {
                        proof {
                            assert(edge.output == start);
                        }
                        return true;
                    }
                    if !id_in_vec(&visited, edge.output) && !id_in_vec(&frontier, edge.output) {
                        let ghost pf = frontier@;
                        frontier.push(edge.output);
                        proof {
                            assert(pf.push(edge.output).drop_last() =~= pf);
                            assert(frontier@[frontier@.len() - 1] == edge.output);
                            assert(frontier@.contains(edge.output));
                            assert(universe.contains(edge.output)) by {
                                assert(c.map_values(|conn: Connection| conn.output)[e as int]
                                    == edge.output);
                            }
                            assert forall|i: int| 0 <= i < frontier@.len() implies universe.contains(
                                #[trigger] frontier@[i],
                            ) by {
                                if i < pf.len() {
                                    assert(frontier@[i] == pf[i]);
                                }
                            }
                            assert forall|vi: int, ei: int|
                                0 <= vi < pre_visited.len() && 0 <= ei < c.len() && (
                            #[trigger] c[ei]).input == #[trigger] pre_visited[vi] implies c[ei].output
                                != start && (visited@.contains(c[ei].output) || frontier@.contains(
                                c[ei].output,
                            )) by {
                                if !visited@.contains(c[ei].output) {
                                    assert(pf.contains(c[ei].output));
                                    let w = choose|w: int|
                                        0 <= w < pf.len() && pf[w] == c[ei].output;
                                    assert(frontier@[w] == c[ei].output);
                                }
                            }
                            assert forall|ei: int|
                                0 <= ei < e && (#[trigger] c[ei]).input == v implies c[ei].output
                                != start && (visited@.contains(c[ei].output) || frontier@.contains(
                                c[ei].output,
                            )) by {
                                if !visited@.contains(c[ei].output) {
                                    assert(pf.contains(c[ei].output));
                                    let w = choose|w: int|
                                        0 <= w < pf.len() && pf[w] == c[ei].output;
                                    assert(frontier@[w] == c[ei].output);
                                }
                            }
                        }
                    }
                    proof {
                        assert forall|ei: int|
                            0 <= ei < e + 1 && (#[trigger] c[ei]).input == v implies c[ei].output
                            != start && (visited@.contains(c[ei].output) || frontier@.contains(
                            c[ei].output,
                        )) by {
                            if ei == e as int {
                                assert(c[ei].output == edge.output);
                                assert(visited@.contains(edge.output) || frontier@.contains(
                                    edge.output,
                                ));
                            }
                        }
                    }
                } else {
                    proof {
                        assert(c[e as int].input != v);
                    }
                }
                e = e + 1;
            }
            proof {
                assert forall|vi: int, ei: int|
                    0 <= vi < visited@.len() && 0 <= ei < c.len() && (#[trigger] c[ei]).input
                        == #[trigger] visited@[vi] implies c[ei].output != start && (
                visited@.contains(c[ei].output) || frontier@.contains(c[ei].output)) by {
                    if vi < visited@.len() - 1 {
                        assert(pre_visited[vi] == visited@[vi]);
                    } else {
                        assert(visited@[vi] == v);
                    }
                }
            }
        }
        proof {
            assert(visited@.contains(end));
            assert(!reaches(c, end, start)) by {
                if reaches(c, end, start) {
                    let p = choose|p: Seq<Id>|
                        #[trigger] is_path(c, p) && p[0] == end && p.last() == start;
                    lemma_closed_blocks_paths(c, visited@, start, p);
                }
            }
        }
        false
    }

    /// Connects a uniformly random, non-empty share of the inputs to every
    /// output, with fresh weights from the distribution. The genome must
    /// not have been initialized before.
    pub fn init<W: WeightDistribution>(
        &mut self,
        rng: &mut NeatRng,
        parameters: &Parameters,
        weights: &mut W,
    )
        requires
            old(self).wf(),
            old(self).inputs.seq().len() >= 1,
            old(self).outputs.seq().len() >= 1,
            old(self).inputs.seq().len() * old(self).outputs.seq().len() <= usize::MAX,
            old(self).feed_forward.seq().len() == 0,
        ensures
            final(self).wf(),
            final(self).inputs == old(self).inputs,
            final(self).hidden == old(self).hidden,
            final(self).outputs == old(self).outputs,
            final(self).recurrent == old(self).recurrent,
            forall|i: int|
                0 <= i < final(self).feed_forward.seq().len() ==> node_in(
                    old(self).inputs,
                    (#[trigger] final(self).feed_forward.seq()[i]).input,
                ) && node_in(old(self).outputs, final(self).feed_forward.seq()[i].output),
            exists|count: int|
                1 <= count <= old(self).inputs.seq().len() && final(self).feed_forward.seq().len()
                    == #[trigger] (count * old(self).outputs.seq().len()),
            final(self).feed_forward.seq().len() >= old(self).outputs.seq().len(),
            exists|chosen: Seq<Node>| #[trigger] init_post(*old(self), *final(self), chosen),
    {
        let input_count = self.inputs.len();
        let out_vec = self.outputs.to_vec();
        let out_len = out_vec.len();
        let count = 1 + rng.below(input_count);
        let chosen = self.inputs.rotated(rng);
        let ghost old_self = *old(self);
        let mut j: usize = 0;
        while j < count
            invariant
                1 <= count <= input_count,
                input_count == old_self.inputs.seq().len(),
                out_len == out_vec@.len(),
                out_vec@ == old_self.outputs.seq(),
                old_self.outputs.wf(),
                old_self.inputs.wf(),
                input_count * out_len <= usize::MAX,
                chosen@.len() == input_count,
                forall|a: int, b: int|
                    0 <= a < b < chosen@.len() ==> (#[trigger] chosen@[a]).identity() != (
                    #[trigger] chosen@[b]).identity(),
                forall|a: int|
                    0 <= a < chosen@.len() ==> old_self.inputs.has_key(
                        (#[trigger] chosen@[a]).identity(),
                    ),
                j <= count,
                self.inputs == old_self.inputs,
                self.hidden == old_self.hidden,
                self.outputs == old_self.outputs,
                self.recurrent == old_self.recurrent,
                self.feed_forward.wf(),
                self.feed_forward.seq().len() == j * out_len,
                forall|e: int|
                    0 <= e < self.feed_forward.seq().len() ==> edge_from_done(
                        self.feed_forward.seq()[e],
                        chosen@,
                        out_vec@,
                        j as int,
                        0,
                    ),
                forall|j2: int, k2: int|
                    done_pair(j2, k2, j as int, 0) && 0 <= j2 && 0 <= k2 < out_len
                        ==> #[trigger] self.feed_forward.has_key(
                        (chosen@[j2].id.0, out_vec@[k2].id.0),
                    ),
            decreases count - j,
        {
            let input = chosen[j];
            let mut k: usize = 0;
            while k < out_len
                invariant
                    1 <= count <= input_count,
                    input_count == old_self.inputs.seq().len(),
                    out_len == out_vec@.len(),
                    out_vec@ == old_self.outputs.seq(),
                    old_self.outputs.wf(),
                    old_self.inputs.wf(),
                    input_count * out_len <= usize::MAX,
                    chosen@.len() == input_count,
                    forall|a: int, b: int|
                        0 <= a < b < chosen@.len() ==> (#[trigger] chosen@[a]).identity() != (
                        #[trigger] chosen@[b]).identity(),
                    forall|a: int|
                        0 <= a < chosen@.len() ==> old_self.inputs.has_key(
                            (#[trigger] chosen@[a]).identity(),
                        ),
                    j < count,
                    k <= out_len,
                    input == chosen@[j as int],
                    self.inputs == old_self.inputs,
                    self.hidden == old_self.hidden,
                    self.outputs == old_self.outputs,
                    self.recurrent == old_self.recurrent,
                    self.feed_forward.wf(),
                    self.feed_forward.seq().len() == j * out_len + k,
                    forall|e: int|
                        0 <= e < self.feed_forward.seq().len() ==> edge_from_done(
                            self.feed_forward.seq()[e],
                            chosen@,
                            out_vec@,
                            j as int,
                            k as int,
                        ),
                    forall|j2: int, k2: int|
                        done_pair(j2, k2, j as int, k as int) && 0 <= j2 && 0 <= k2 < out_len
                            ==> #[trigger] self.feed_forward.has_key(
                            (chosen@[j2].id.0, out_vec@[k2].id.0),
                        ),
                decreases out_len - k,
            {
                let output = out_vec[k];
                let edge = Connection::new(input.id, weights.initial_weight(), output.id);
                proof {
                    lemma_mul_bounds(j as int, k as int, count as int, out_len as int);
                    assert(!self.feed_forward.has_key(edge.identity())) by {
                        if self.feed_forward.has_key(edge.identity()) {
                            let e = choose|e: int|
                                0 <= e < self.feed_forward.seq().len() && (
                                #[trigger] self.feed_forward.seq()[e]).identity()
                                    == edge.identity();
                            assert(edge_from_done(
                                self.feed_forward.seq()[e],
                                chosen@,
                                out_vec@,
                                j as int,
                                k as int,
                            ));
                            let (j2, k2) = choose|j2: int, k2: int|
                                done_pair(j2, k2, j as int, k as int) && 0 <= j2 < chosen@.len()
                                    && 0 <= k2 < out_vec@.len() && (#[trigger] chosen@[j2]).id
                                    == self.feed_forward.seq()[e].input && (
                                #[trigger] out_vec@[k2]).id == self.feed_forward.seq()[e].output;
                            if j2 != j as int {
                                assert(chosen@[j2].identity() != chosen@[j as int].identity());
                            } else {
                                old_self.outputs.lemma_sorted();
                                assert(key_lt(
                                    out_vec@[k2].identity(),
                                    out_vec@[k as int].identity(),
                                ));
                            }
                        }
                    }
                }
                let ghost pre = self.feed_forward.seq();
                let inserted = self.feed_forward.insert(edge);
                proof {
                    let pos = choose|pos: int|
                        0 <= pos <= pre.len() && self.feed_forward.seq() =~= #[trigger] pre.insert(
                            pos,
                            edge,
                        );
                    pre.insert_ensures(pos, edge);
                    assert forall|e: int| 0 <= e < self.feed_forward.seq().len() implies
                        edge_from_done(self.feed_forward.seq()[e], chosen@, out_vec@, j as int, k + 1) by {
                        if e == pos {
                            assert(self.feed_forward.seq()[e] == edge);
                            assert(done_pair(j as int, k as int, j as int, k + 1) && 0 <= (
                            j as int) < chosen@.len() && 0 <= (k as int) < out_vec@.len() && (
                            #[trigger] chosen@[j as int]).id == edge.input && (
                            #[trigger] out_vec@[k as int]).id == edge.output);
                        } else {
                            let eo: int = if e < pos {
                                e
                            } else {
                                e - 1
                            };
                            assert(self.feed_forward.seq()[e] == pre[eo]);
                            assert(edge_from_done(pre[eo], chosen@, out_vec@, j as int, k as int));
                            let (j2, k2) = choose|j2: int, k2: int|
                                done_pair(j2, k2, j as int, k as int) && 0 <= j2 < chosen@.len()
                                    && 0 <= k2 < out_vec@.len() && (#[trigger] chosen@[j2]).id
                                    == pre[eo].input && (#[trigger] out_vec@[k2]).id
                                    == pre[eo].output;
                            assert(done_pair(j2, k2, j as int, k + 1) && 0 <= j2 < chosen@.len()
                                && 0 <= k2 < out_vec@.len() && (#[trigger] chosen@[j2]).id
                                == self.feed_forward.seq()[e].input && (#[trigger] out_vec@[k2]).id
                                == self.feed_forward.seq()[e].output);
                        }
                    }
                }
                k = k + 1;
            }
            proof {
                assert forall|e: int| 0 <= e < self.feed_forward.seq().len() implies edge_from_done(
                    self.feed_forward.seq()[e],
                    chosen@,
                    out_vec@,
                    j + 1,
                    0,
                ) by {
                    assert(edge_from_done(
                        self.feed_forward.seq()[e],
                        chosen@,
                        out_vec@,
                        j as int,
                        out_len as int,
                    ));
                    let (j2, k2) = choose|j2: int, k2: int|
                        done_pair(j2, k2, j as int, out_len as int) && 0 <= j2 < chosen@.len() && 0
                            <= k2 < out_vec@.len() && (#[trigger] chosen@[j2]).id
                            == self.feed_forward.seq()[e].input && (#[trigger] out_vec@[k2]).id
                            == self.feed_forward.seq()[e].output;
                    assert(done_pair(j2, k2, j + 1, 0) && 0 <= j2 < chosen@.len() && 0 <= k2
                        < out_vec@.len() && (#[trigger] chosen@[j2]).id
                        == self.feed_forward.seq()[e].input && (#[trigger] out_vec@[k2]).id
                        == self.feed_forward.seq()[e].output);
                }
                assert((j + 1) * out_len == j * out_len + out_len) by (nonlinear_arith);
            }
            j = j + 1;
        }
        proof {
            lemma_mul_at_least(count as int, out_len as int);
            assert(1 <= count as int <= old(self).inputs.seq().len() && self.feed_forward.seq().len()
                == #[trigger] ((count as int) * old(self).outputs.seq().len()));
            assert forall|i: int| 0 <= i < self.feed_forward.seq().len() implies node_in(
                old(self).inputs,
                (#[trigger] self.feed_forward.seq()[i]).input,
            ) && node_in(old(self).outputs, self.feed_forward.seq()[i].output) by {
                let (j2, k2) = choose|j2: int, k2: int|
                    done_pair(j2, k2, count as int, 0) && 0 <= j2 < chosen@.len() && 0 <= k2
                        < out_vec@.len() && (#[trigger] chosen@[j2]).id
                        == self.feed_forward.seq()[i].input && (#[trigger] out_vec@[k2]).id
                        == self.feed_forward.seq()[i].output;
                assert(old(self).inputs.has_key(chosen@[j2].identity()));
                old(self).outputs.lemma_at_key(k2);
            }
            let prefix = chosen@.take(count as int);
            assert(init_post(*old(self), *self, prefix)) by {
                assert forall|a: int| 0 <= a < prefix.len() implies node_in(
                    old(self).inputs,
                    (#[trigger] prefix[a]).id,
                ) by {
                    assert(prefix[a] == chosen@[a]);
                    assert(old(self).inputs.has_key(chosen@[a].identity()));
                }
                assert forall|a: int, b: int| 0 <= a < b < prefix.len() implies (
                #[trigger] prefix[a]).id != (#[trigger] prefix[b]).id by {
                    assert(prefix[a] == chosen@[a] && prefix[b] == chosen@[b]);
                    assert(chosen@[a].identity() != chosen@[b].identity());
                }
                assert forall|a: int, k2: int|
                    0 <= a < prefix.len() && 0 <= k2 < old(
                        self,
                    ).outputs.seq().len() implies #[trigger] self.feed_forward.has_key(
                    (prefix[a].id.0, old(self).outputs.seq()[k2].id.0),
                ) by {
                    assert(prefix[a] == chosen@[a]);
                    assert(done_pair(a, k2, count as int, 0));
                    assert(self.feed_forward.has_key((chosen@[a].id.0, out_vec@[k2].id.0)));
                }
                assert forall|e: int| 0 <= e < self.feed_forward.seq().len() implies
                    edge_from_done(
                    #[trigger] self.feed_forward.seq()[e],
                    prefix,
                    old(self).outputs.seq(),
                    prefix.len() as int,
                    0,
                ) by {
                    let (j2, k2) = choose|j2: int, k2: int|
                        done_pair(j2, k2, count as int, 0) && 0 <= j2 < chosen@.len() && 0 <= k2
                            < out_vec@.len() && (#[trigger] chosen@[j2]).id
                            == self.feed_forward.seq()[e].input && (#[trigger] out_vec@[k2]).id
                            == self.feed_forward.seq()[e].output;
                    assert(done_pair(j2, k2, prefix.len() as int, 0) && 0 <= j2 < prefix.len()
                        && 0 <= k2 < old(self).outputs.seq().len() && (#[trigger] prefix[j2]).id
                        == self.feed_forward.seq()[e].input && (#[trigger] old(
                        self,
                    ).outputs.seq()[k2]).id == self.feed_forward.seq()[e].output);
                }
            }
        }
    }

    /// Whether some node set of the genome holds `id`.
    fn has_node_exec(&self, id: Id) -> (r: bool)
        requires
            self.wf(),
        ensures
            r == self.has_node(id),
    {
        self.inputs.contains_key((id.0, id.0)) || self.hidden.contains_key((id.0, id.0))
            || self.outputs.contains_key((id.0, id.0))
    }

    /// The first of the cached ids that no node of this genome uses yet.
    fn find_unused(&self, cached: &Vec<Id>) -> (r: Option<Id>)
        requires
            self.wf(),
        ensures
            match r {
                Some(id) => !self.has_node(id) && exists|t: int|
                    0 <= t < cached@.len() && #[trigger] cached@[t] == id && (forall|u: int|
                        0 <= u < t ==> self.has_node(#[trigger] cached@[u])),
                None => forall|i: int|
                    0 <= i < cached@.len() ==> self.has_node(#[trigger] cached@[i]),
            },
    {
        let mut i: usize = 0;
        while i < cached.len()
            invariant
                i <= cached@.len(),
                self.wf(),
                forall|j: int| 0 <= j < i ==> self.has_node(#[trigger] cached@[j]),
            decreases cached@.len() - i,
        {
            let cid = cached[i];
            if !self.has_node_exec(cid) {
                proof {
                    assert(0 <= (i as int) < cached@.len() && cached@[i as int] == cid && (
                    forall|u: int| 0 <= u < i as int ==> self.has_node(#[trigger] cached@[u])));
                }
                return Some(cid);
            }
            i = i + 1;
        }
        None
    }

    /// Splits a uniformly random feed-forward connection `c` at a new
    /// hidden node: the node gets an identity from the split cache — the
    /// first one not already used in this genome, or a fresh id that the
    /// cache then remembers — and a uniformly random candidate
    /// activation; two connections replace `c`'s traffic, carrying weight
    /// one into the node and `c`'s weight out of it, while `c` itself
    /// stays, disabled with weight zero.
    pub fn add_node(&mut self, rng: &mut NeatRng, id_gen: &mut IdGenerator, parameters: &Parameters)
        requires
            old(self).wf(),
            old(self).linked(),
            old(self).feed_forward.seq().len() >= 1,
            parameters.wf(),
            old(id_gen).wf(),
            old(id_gen).next_free() < u64::MAX,
            old(self).ids_below(old(id_gen).next_free()),
        ensures
            final(self).wf(),
            final(self).linked(),
            final(id_gen).wf(),
            old(id_gen).next_free() <= final(id_gen).next_free() <= old(id_gen).next_free() + 1,
            final(self).ids_below(final(id_gen).next_free()),
            final(self).inputs == old(self).inputs,
            final(self).outputs == old(self).outputs,
            final(self).recurrent == old(self).recurrent,
            final(self).feed_forward.seq().len() == old(self).feed_forward.seq().len() + 2,
            final(self).hidden.seq().len() == old(self).hidden.seq().len() + 1,
            exists|c: Connection, new_id: Id| #[trigger] split_post(
                *old(self),
                *final(self),
                parameters.activations.hidden_nodes@,
                c,
                new_id,
            ) && split_id_from_cache(*old(self), *old(id_gen), *final(id_gen), c, new_id),
    {
        let picked = match self.feed_forward.random(rng) {
            Some(c) => c,
            None => {
                proof {
                    assert(false);
                }
                Connection::new(Id(0), Weight::zero(), Id(0))
            },
        };
        let key_pair = picked.id();
        let cached = id_gen.split_ids(key_pair);
        let new_id = match self.find_unused(&cached) {
            Some(id) => {
                proof {
                    id_gen.lemma_cached_below(key_pair);
                    let w = choose|w: int| 0 <= w < cached@.len() && cached@[w] == id;
                    assert(cached@[w].0 < id_gen.next_free());
                    assert(split_id_from_cache(*self, *old(id_gen), *id_gen, picked, id));
                }
                id
            },
            None => {
                let fresh = id_gen.next_id();
                id_gen.remember_split(key_pair, fresh);
                proof {
                    assert(split_id_from_cache(*self, *old(id_gen), *id_gen, picked, fresh));
                    assert(!self.has_node(fresh)) by {
                        if node_in(self.inputs, fresh) {
                            let i = choose|i: int|
                                0 <= i < self.inputs.seq().len() && (
                                #[trigger] self.inputs.seq()[i]).identity() == (fresh.0, fresh.0);
                        }
                        if node_in(self.hidden, fresh) {
                            let i = choose|i: int|
                                0 <= i < self.hidden.seq().len() && (
                                #[trigger] self.hidden.seq()[i]).identity() == (fresh.0, fresh.0);
                        }
                        if node_in(self.outputs, fresh) {
                            let i = choose|i: int|
                                0 <= i < self.outputs.seq().len() && (
                                #[trigger] self.outputs.seq()[i]).identity() == (fresh.0, fresh.0);
                        }
                    }
                }
                fresh
            },
        };
        let act_pick = rng.below(parameters.activations.hidden_nodes.len());
        let activation = parameters.activations.hidden_nodes[act_pick];
        let new_node = Node::new(new_id, activation);
        let ghost before = *self;
        proof {
            let pi = choose|pi: int|
                0 <= pi < self.feed_forward.seq().len() && (
                #[trigger] self.feed_forward.seq()[pi]).identity() == picked.identity();
            assert(self.has_node(self.feed_forward.seq()[pi].input) && self.has_node(
                self.feed_forward.seq()[pi].output,
            ));
            self.feed_forward.lemma_at_key(pi);
            assert(self.feed_forward.seq()[pi] == picked);
            assert(self.has_node(picked.input) && self.has_node(picked.output));
            assert(picked.input.0 != new_id.0) by {
                if picked.input.0 == new_id.0 {
                    assert(node_in(self.inputs, picked.input) == node_in(self.inputs, new_id));
                    assert(node_in(self.hidden, picked.input) == node_in(self.hidden, new_id));
                    assert(node_in(self.outputs, picked.input) == node_in(self.outputs, new_id));
                }
            }
            assert(picked.output.0 != new_id.0) by {
                if picked.output.0 == new_id.0 {
                    assert(node_in(self.inputs, picked.output) == node_in(self.inputs, new_id));
                    assert(node_in(self.hidden, picked.output) == node_in(self.hidden, new_id));
                    assert(node_in(self.outputs, picked.output) == node_in(self.outputs, new_id));
                }
            }
            assert(!self.feed_forward.has_key((picked.input.0, new_id.0))) by {
                if self.feed_forward.has_key((picked.input.0, new_id.0)) {
                    let e = choose|e: int|
                        0 <= e < self.feed_forward.seq().len() && (
                        #[trigger] self.feed_forward.seq()[e]).identity() == (
                        picked.input.0,
                        new_id.0,
                        );
                    assert(self.has_node(self.feed_forward.seq()[e].output));
                    assert(node_in(self.inputs, self.feed_forward.seq()[e].output) == node_in(
                        self.inputs,
                        new_id,
                    ));
                    assert(node_in(self.hidden, self.feed_forward.seq()[e].output) == node_in(
                        self.hidden,
                        new_id,
                    ));
                    assert(node_in(self.outputs, self.feed_forward.seq()[e].output) == node_in(
                        self.outputs,
                        new_id,
                    ));
                }
            }
            assert(!self.feed_forward.has_key((new_id.0, picked.output.0))) by {
                if self.feed_forward.has_key((new_id.0, picked.output.0)) {
                    let e = choose|e: int|
                        0 <= e < self.feed_forward.seq().len() && (
                        #[trigger] self.feed_forward.seq()[e]).identity() == (
                        new_id.0,
                        picked.output.0,
                        );
                    assert(self.has_node(self.feed_forward.seq()[e].input));
                    assert(node_in(self.inputs, self.feed_forward.seq()[e].input) == node_in(
                        self.inputs,
                        new_id,
                    ));
                    assert(node_in(self.hidden, self.feed_forward.seq()[e].input) == node_in(
                        self.hidden,
                        new_id,
                    ));
                    assert(node_in(self.outputs, self.feed_forward.seq()[e].input) == node_in(
                        self.outputs,
                        new_id,
                    ));
                }
            }
        }
        let inserted_in = self.feed_forward.insert(
            Connection::new(picked.input, Weight::one(), new_id),
        );
        let inserted_out = self.feed_forward.insert(
            Connection::new(new_id, picked.weight, picked.output),
        );
        let inserted_node = self.hidden.insert(new_node);
        self.feed_forward.replace(Connection::new(picked.input, Weight::zero(), picked.output));
        proof {
            assert(split_post(
                before,
                *self,
                parameters.activations.hidden_nodes@,
                picked,
                new_id,
            ) && split_id_from_cache(before, *old(id_gen), *id_gen, picked, new_id)) by {
                assert(parameters.activations.hidden_nodes@.contains(activation)) by {
                    assert(parameters.activations.hidden_nodes@[act_pick as int] == activation);
                }
            }
            assert forall|i: int| 0 <= i < self.feed_forward.seq().len() implies self.has_node(
                (#[trigger] self.feed_forward.seq()[i]).input,
            ) && self.has_node(self.feed_forward.seq()[i].output) by {
                self.feed_forward.lemma_at_key(i);
                let k = self.feed_forward.seq()[i].identity();
                if before.feed_forward.has_key(k) && k != picked.identity() && k != (
                picked.input.0,
                new_id.0,
                ) && k != (new_id.0, picked.output.0) {
                    let e = choose|e: int|
                        0 <= e < before.feed_forward.seq().len() && (
                        #[trigger] before.feed_forward.seq()[e]).identity() == k;
                    before.feed_forward.lemma_at_key(e);
                    assert(self.feed_forward.seq()[i] == before.feed_forward.seq()[e]);
                    assert(before.has_node(before.feed_forward.seq()[e].input) && before.has_node(
                        before.feed_forward.seq()[e].output,
                    ));
                }
            }
            assert forall|i: int| 0 <= i < self.recurrent.seq().len() implies self.has_node(
                (#[trigger] self.recurrent.seq()[i]).input,
            ) && self.has_node(self.recurrent.seq()[i].output) by {
                assert(before.has_node(before.recurrent.seq()[i].input) && before.has_node(
                    before.recurrent.seq()[i].output,
                ));
            }
            assert forall|i: int| 0 <= i < self.hidden.seq().len() implies (
            #[trigger] self.hidden.seq()[i]).id.0 < id_gen.next_free() by {
                self.hidden.lemma_at_key(i);
                let k = self.hidden.seq()[i].identity();
                if k != (new_id.0, new_id.0) {
                    let e = choose|e: int|
                        0 <= e < before.hidden.seq().len() && (
                        #[trigger] before.hidden.seq()[e]).identity() == k;
                    before.hidden.lemma_at_key(e);
                    assert(self.hidden.seq()[i] == before.hidden.seq()[e]);
                }
            }
        }
    }

    /// Perturbs the weight of every feed-forward and every recurrent
    /// connection through the distribution, visiting each set from a
    /// uniformly random rotation point; exactly the same connections
    /// remain, with only their weights changed.
    pub fn change_weights<W: WeightDistribution>(&mut self, rng: &mut NeatRng, weights: &mut W)
        requires
            old(self).wf(),
        ensures
            final(self).wf(),
            final(self).inputs == old(self).inputs,
            final(self).hidden == old(self).hidden,
            final(self).outputs == old(self).outputs,
            final(self).feed_forward.seq().len() == old(self).feed_forward.seq().len(),
            final(self).recurrent.seq().len() == old(self).recurrent.seq().len(),
            forall|k: (u64, u64)| #[trigger]
                final(self).feed_forward.has_key(k) == old(self).feed_forward.has_key(k),
            forall|k: (u64, u64)| #[trigger]
                final(self).recurrent.has_key(k) == old(self).recurrent.has_key(k),
            old(self).linked() ==> final(self).linked(),
            forall|n: u64| #[trigger] final(self).ids_below(n) == old(self).ids_below(n),
    {
        self.feed_forward = perturb_all(&self.feed_forward, rng, weights);
        self.recurrent = perturb_all(&self.recurrent, rng, weights);
        proof {
            lemma_same_keys_same_edges(old(self).feed_forward, self.feed_forward);
            lemma_same_keys_same_edges(old(self).recurrent, self.recurrent);
            if old(self).linked() {
                assert forall|i: int| 0 <= i < self.feed_forward.seq().len() implies self.has_node(
                    (#[trigger] self.feed_forward.seq()[i]).input,
                ) && self.has_node(self.feed_forward.seq()[i].output) by {
                    let e = self.feed_forward.seq()[i];
                    assert(edge_in(self.feed_forward.seq(), e.input, e.output));
                    assert(edge_in(old(self).feed_forward.seq(), e.input, e.output));
                    let m = choose|m: int|
                        0 <= m < old(self).feed_forward.seq().len() && (#[trigger] old(
                        self,
                    ).feed_forward.seq()[m]).input == e.input && old(self).feed_forward.seq()[m].output
                        == e.output;
                    assert(old(self).has_node(old(self).feed_forward.seq()[m].input) && old(
                        self,
                    ).has_node(old(self).feed_forward.seq()[m].output));
                }
                assert forall|i: int| 0 <= i < self.recurrent.seq().len() implies self.has_node(
                    (#[trigger] self.recurrent.seq()[i]).input,
                ) && self.has_node(self.recurrent.seq()[i].output) by {
                    let e = self.recurrent.seq()[i];
                    assert(edge_in(self.recurrent.seq(), e.input, e.output));
                    assert(edge_in(old(self).recurrent.seq(), e.input, e.output));
                    let m = choose|m: int|
                        0 <= m < old(self).recurrent.seq().len() && (#[trigger] old(
                        self,
                    ).recurrent.seq()[m]).input == e.input && old(self).recurrent.seq()[m].output
                        == e.output;
                    assert(old(self).has_node(old(self).recurrent.seq()[m].input) && old(
                        self,
                    ).has_node(old(self).recurrent.seq()[m].output));
                }
            }
        }
    }

    /// Reassigns one uniformly random hidden node's activation to a
    /// uniformly random candidate other than its current one; when no
    /// other candidate exists, or there is no hidden node, nothing
    /// changes.
    pub fn alter_activation(&mut self, rng: &mut NeatRng, parameters: &Parameters)
        requires
            old(self).wf(),
            parameters.activations.hidden_nodes@.len() >= 1,
        ensures
            final(self).wf(),
            final(self).inputs == old(self).inputs,
            final(self).outputs == old(self).outputs,
            final(self).feed_forward == old(self).feed_forward,
            final(self).recurrent == old(self).recurrent,
            old(self).hidden.seq().len() == 0 ==> final(self).hidden == old(self).hidden,
            old(self).hidden.seq().len() > 0 ==> exists|i: int|
                0 <= i < old(self).hidden.seq().len() && altered_at(
                    old(self).hidden.seq(),
                    final(self).hidden.seq(),
                    parameters.activations.hidden_nodes@,
                    i,
                ),
            old(self).linked() ==> final(self).linked(),
            forall|n: u64| #[trigger] final(self).ids_below(n) == old(self).ids_below(n),
            forall|k: (u64, u64)| #[trigger]
                final(self).hidden.has_key(k) == old(self).hidden.has_key(k),
    {
        if self.hidden.is_empty() {
            return ;
        }
        let idx = rng.below(self.hidden.len());
        let node = self.hidden.nth(idx);
        let candidates = &parameters.activations.hidden_nodes;
        let mut others: Vec<Activation> = Vec::new();
        let mut ci: usize = 0;
        while ci < candidates.len()
            invariant
                ci <= candidates@.len(),
                forall|k: int| 0 <= k < others@.len() ==> #[trigger] others@[k] != node.activation,
                forall|k: int|
                    0 <= k < others@.len() ==> candidates@.contains(#[trigger] others@[k]),
                others@.len() == 0 ==> forall|k: int|
                    0 <= k < ci ==> #[trigger] candidates@[k] == node.activation,
            decreases candidates@.len() - ci,
        {
            let candidate = candidates[ci];
            if !matches_activation(candidate, node.activation) {
                others.push(candidate);
                proof {
                    assert(candidates@[ci as int] == candidate);
                }
            }
            ci = ci + 1;
        }
        if others.len() == 0 {
            proof {
                assert(altered_at(
                    self.hidden.seq(),
                    self.hidden.seq(),
                    parameters.activations.hidden_nodes@,
                    idx as int,
                )) by {
                    assert(!has_alternative(
                        parameters.activations.hidden_nodes@,
                        self.hidden.seq()[idx as int].activation,
                    ));
                }
            }
            return ;
        }
        let pick = others[rng.below(others.len())];
        let updated = Node::new(node.id, pick);
        let ghost before = self.hidden.seq();
        proof {
            self.hidden.lemma_at_key(idx as int);
        }
        self.hidden.replace(updated);
        proof {
            let i = choose|i: int|
                0 <= i < before.len() && (#[trigger] before[i]).identity() == updated.identity()
                    && self.hidden.seq() =~= before.update(i, updated);
            assert(before[idx as int].identity() == updated.identity());
            if i != idx as int {
                old(self).hidden.lemma_sorted();
                if i < idx as int {
                    assert(key_lt(before[i].identity(), before[idx as int].identity()));
                } else {
                    assert(key_lt(before[idx as int].identity(), before[i].identity()));
                }
            }
            assert(altered_at(
                before,
                self.hidden.seq(),
                parameters.activations.hidden_nodes@,
                idx as int,
            )) by {
                assert(self.hidden.seq()[idx as int] == updated);
                assert(has_alternative(
                    parameters.activations.hidden_nodes@,
                    before[idx as int].activation,
                )) by {
                    let k = choose|k: int| 0 <= k < others@.len() && others@[k] == pick;
                    assert(others@.contains(pick));
                    let m = choose|m: int|
                        0 <= m < parameters.activations.hidden_nodes@.len()
                            && parameters.activations.hidden_nodes@[m] == pick;
                }
            }
            assert forall|j: int| 0 <= j < self.hidden.seq().len() implies (
            #[trigger] self.hidden.seq()[j]).id == before[j].id by {
                if j != idx as int {
                    assert(self.hidden.seq()[j] == before[j]);
                }
            }
            lemma_same_node_ids_same_keys(old(self).hidden, self.hidden);
            assert forall|n: u64| #[trigger] self.ids_below(n) == old(self).ids_below(n) by {
                if old(self).ids_below(n) {
                    assert forall|j: int| 0 <= j < self.hidden.seq().len() implies (
                    #[trigger] self.hidden.seq()[j]).id.0 < n by {
                        assert(before[j].id.0 < n);
                    }
                }
                if self.ids_below(n) {
                    assert forall|j: int| 0 <= j < before.len() implies (
                    #[trigger] before[j]).id.0 < n by {
                        assert(self.hidden.seq()[j].id.0 < n);
                    }
                }
            }
            if old(self).linked() {
                assert forall|j: int| 0 <= j < self.feed_forward.seq().len() implies self.has_node(
                    (#[trigger] self.feed_forward.seq()[j]).input,
                ) && self.has_node(self.feed_forward.seq()[j].output) by {
                    assert(old(self).has_node(old(self).feed_forward.seq()[j].input) && old(
                        self,
                    ).has_node(old(self).feed_forward.seq()[j].output));
                }
                assert forall|j: int| 0 <= j < self.recurrent.seq().len() implies self.has_node(
                    (#[trigger] self.recurrent.seq()[j]).input,
                ) && self.has_node(self.recurrent.seq()[j].output) by {
                    assert(old(self).has_node(old(self).recurrent.seq()[j].input) && old(
                        self,
                    ).has_node(old(self).recurrent.seq()[j].output));
                }
            }
        }
    }

    /// The first end node in `ends` that makes an acceptable new edge
    /// from `s` of the chosen kind.
    fn find_end(&self, ends: &Vec<Node>, s: Node, is_recurrent: bool) -> (r: Option<Node>)
        requires
            self.wf(),
        ensures
            match r {
                Some(e) => ends@.contains(e) && acceptable(*self, is_recurrent, s, e),
                None => forall|ei: int|
                    0 <= ei < ends@.len() ==> !acceptable(*self, is_recurrent, s, #[trigger] ends@[ei]),
            },
    {
        let mut ei: usize = 0;
        while ei < ends.len()
            invariant
                ei <= ends@.len(),
                self.wf(),
                forall|k: int|
                    0 <= k < ei ==> !acceptable(*self, is_recurrent, s, #[trigger] ends@[k]),
            decreases ends@.len() - ei,
        {
            let e = ends[ei];
            let ok = e.id.0 != s.id.0 && !self.are_connected(&s, &e, is_recurrent) && (is_recurrent
                || !self.would_form_cycle(&s, &e));
            if ok {
                assert(ends@[ei as int] == e);
                return Some(e);
            }
            ei = ei + 1;
        }
        None
    }

    /// Tries to grow one new connection. A weighted coin picks recurrent
    /// or feed-forward; candidate starts are the inputs and hidden nodes,
    /// candidate ends the hidden and output nodes. Starting from a
    /// uniformly random rotation of the starts, the first pair that is
    /// not self-joining, not already connected in the chosen set and —
    /// for the feed-forward kind — does not close a cycle is inserted
    /// with a sampled weight. When no pair qualifies, nothing changes and
    /// the expected "no connection possible" condition is reported.
    pub fn add_connection<W: WeightDistribution>(
        &mut self,
        rng: &mut NeatRng,
        parameters: &Parameters,
        weights: &mut W,
    ) -> (r: Result<(), &'static str>)
        requires
            old(self).wf(),
            old(self).linked(),
        ensures
            final(self).wf(),
            final(self).linked(),
            final(self).inputs == old(self).inputs,
            final(self).hidden == old(self).hidden,
            final(self).outputs == old(self).outputs,
            forall|n: u64| #[trigger] final(self).ids_below(n) == old(self).ids_below(n),
            final(self).feed_forward.seq().len() >= old(self).feed_forward.seq().len(),
            match r {
                Ok(_) => exists|is_rec: bool, s: Node, e: Node| #[trigger] connection_added(
                    *old(self),
                    *final(self),
                    is_rec,
                    s,
                    e,
                ),
                Err(m) => *final(self) == *old(self) && (no_acceptable(*old(self), true)
                    || no_acceptable(*old(self), false)) && m@ == "no connection possible"@,
            },
            parameters.mutation.connection_is_recurrent_chance.0 == 0 ==> match r {
                Ok(_) => exists|s: Node, e: Node| #[trigger] connection_added(
                    *old(self),
                    *final(self),
                    false,
                    s,
                    e,
                ),
                Err(_) => no_acceptable(*old(self), false),
            },
            parameters.mutation.connection_is_recurrent_chance.0 >= crate::rng::CHANCE_ALWAYS
                ==> match r {
                Ok(_) => exists|s: Node, e: Node| #[trigger] connection_added(
                    *old(self),
                    *final(self),
                    true,
                    s,
                    e,
                ),
                Err(_) => no_acceptable(*old(self), true),
            },
    {
        let is_recurrent = rng.gamble(parameters.mutation.connection_is_recurrent_chance);
        let mut starts = self.inputs.to_vec();
        let mut start_tail = self.hidden.to_vec();
        starts.append(&mut start_tail);
        let mut ends = self.hidden.to_vec();
        let mut end_tail = self.outputs.to_vec();
        ends.append(&mut end_tail);
        proof {
            assert(starts@ == start_candidates(*self));
            assert(ends@ == end_candidates(*self));
        }
        let rot = crate::genes::rotated_vec(&starts, rng);
        let ghost before = *self;
        let mut si: usize = 0;
        while si < rot.len()
            invariant
                parameters.mutation.connection_is_recurrent_chance.0 == 0 ==> !is_recurrent,
                parameters.mutation.connection_is_recurrent_chance.0 >= crate::rng::CHANCE_ALWAYS
                    ==> is_recurrent,
                *self == before,
                before == *old(self),
                before.linked(),
                self.wf(),
                starts@ == start_candidates(*self),
                ends@ == end_candidates(*self),
                rot@.len() == starts@.len(),
                forall|i: int| 0 <= i < rot@.len() ==> starts@.contains(#[trigger] rot@[i]),
                forall|j: int| 0 <= j < starts@.len() ==> rot@.contains(#[trigger] starts@[j]),
                si <= rot@.len(),
                forall|k: int, ei: int|
                    0 <= k < si && 0 <= ei < ends@.len() ==> !acceptable(
                        *self,
                        is_recurrent,
                        #[trigger] rot@[k],
                        #[trigger] ends@[ei],
                    ),
            decreases rot@.len() - si,
        {
            let s_node = rot[si];
            match self.find_end(&ends, s_node, is_recurrent) {
                Some(e_node) => {
                    let weight = weights.perturb_weight(Weight::zero());
                    let edge = Connection::new(s_node.id, weight, e_node.id);
                    if is_recurrent {
                        let inserted = self.recurrent.insert(edge);
                        proof {
                            assert(starts@.contains(rot@[si as int]));
                            assert(connection_added(before, *self, is_recurrent, s_node, e_node));
                            lemma_connection_added_linked(before, *self, is_recurrent, s_node, e_node);
                        }
                    } else {
                        let inserted = self.feed_forward.insert(edge);
                        proof {
                            assert(starts@.contains(rot@[si as int]));
                            assert(connection_added(before, *self, is_recurrent, s_node, e_node));
                            lemma_connection_added_linked(before, *self, is_recurrent, s_node, e_node);
                        }
                    }
                    return Ok(());
                },
                None => {
                },
            }
            si = si + 1;
        }
        proof {
            assert forall|si2: int, ei: int|
                0 <= si2 < start_candidates(*self).len() && 0 <= ei < end_candidates(
                    *self,
                ).len() implies !acceptable(
                *self,
                is_recurrent,
                #[trigger] start_candidates(*self)[si2],
                #[trigger] end_candidates(*self)[ei],
            ) by {
                assert(rot@.contains(starts@[si2]));
                let k = choose|k: int| 0 <= k < rot@.len() && rot@[k] == starts@[si2];
                assert(!acceptable(*self, is_recurrent, rot@[k], ends@[ei]));
            }
            assert(no_acceptable(*self, is_recurrent));
        }
        Err("no connection possible")
    }

    /// A gene-for-gene copy.
    pub fn duplicate(&self) -> (g: Genome)
        ensures
            g.inputs.seq() == self.inputs.seq(),
            g.hidden.seq() == self.hidden.seq(),
            g.outputs.seq() == self.outputs.seq(),
            g.feed_forward.seq() == self.feed_forward.seq(),
            g.recurrent.seq() == self.recurrent.seq(),
            self.wf() ==> g.wf(),
    {
        Genome {
            inputs: self.inputs.duplicate(),
            hidden: self.hidden.duplicate(),
            outputs: self.outputs.duplicate(),
            feed_forward: self.feed_forward.duplicate(),
            recurrent: self.recurrent.duplicate(),
        }
    }

    /// One generation's worth of mutation: weights are always perturbed;
    /// then, each gated by its configured chance, a connection may be
    /// added, a connection may be split at a new node, and a hidden
    /// node's activation may change.
    pub fn mutate<W: WeightDistribution>(
        &mut self,
        rng: &mut NeatRng,
        id_gen: &mut IdGenerator,
        parameters: &Parameters,
        weights: &mut W,
    )
        requires
            old(self).wf(),
            old(self).linked(),
            old(self).feed_forward.seq().len() >= 1,
            parameters.wf(),
            old(id_gen).wf(),
            old(id_gen).next_free() < u64::MAX,
            old(self).ids_below(old(id_gen).next_free()),
        ensures
            final(self).wf(),
            final(self).linked(),
            final(id_gen).wf(),
            old(id_gen).next_free() <= final(id_gen).next_free() <= old(id_gen).next_free() + 1,
            final(self).ids_below(final(id_gen).next_free()),
            final(self).feed_forward.seq().len() >= 1,
            final(self).inputs.seq() == old(self).inputs.seq(),
            final(self).outputs.seq() == old(self).outputs.seq(),
            acyclic(old(self).feed_forward.seq()) ==> acyclic(final(self).feed_forward.seq()),
    {
        let ghost entry = *self;
        self.change_weights(rng, weights);
        proof {
            lemma_same_keys_same_edges(entry.feed_forward, self.feed_forward);
            lemma_same_edges_same_reach(entry.feed_forward.seq(), self.feed_forward.seq());
        }
        if rng.gamble(parameters.mutation.new_connection_chance) {
            let ghost pre = *self;
            let outcome = self.add_connection(rng, parameters, weights);
            proof {
                if acyclic(pre.feed_forward.seq()) {
                    match outcome {
                        Ok(_) => {
                            let (is_rec, s_node, e_node) = choose|is_rec: bool, s_node: Node, e_node: Node|
                                #[trigger] connection_added(pre, *self, is_rec, s_node, e_node);
                            lemma_add_connection_keeps_acyclic(pre, *self, is_rec, s_node, e_node);
                        },
                        Err(_) => {
                        },
                    }
                }
            }
        }
        if rng.gamble(parameters.mutation.new_node_chance) {
            let ghost pre = *self;
            self.add_node(rng, id_gen, parameters);
            proof {
                if acyclic(pre.feed_forward.seq()) {
                    let (c, new_id) = choose|c: Connection, new_id: Id|
                        #[trigger] split_post(
                            pre,
                            *self,
                            parameters.activations.hidden_nodes@,
                            c,
                            new_id,
                        );
                    lemma_add_node_keeps_acyclic(
                        pre,
                        *self,
                        parameters.activations.hidden_nodes@,
                        c,
                        new_id,
                    );
                }
            }
        }
        if rng.gamble(parameters.mutation.change_activation_function_chance) {
            self.alter_activation(rng, parameters);
        }
    }

    /// Crossover with `self` as the fitter side: input and output nodes
    /// are taken from `self` as they stand, and each evolving gene set is
    /// the pairwise crossover of `self`'s with `other`'s.
    pub fn cross_in(&self, other: &Genome, rng: &mut NeatRng) -> (child: Genome)
        requires
            self.wf(),
            other.wf(),
        ensures
            child.wf(),
            child.inputs.seq() == self.inputs.seq(),
            child.outputs.seq() == self.outputs.seq(),
            Genes::crossed(self.feed_forward, other.feed_forward, child.feed_forward),
            Genes::crossed(self.recurrent, other.recurrent, child.recurrent),
            Genes::crossed(self.hidden, other.hidden, child.hidden),
    {
        let feed_forward = self.feed_forward.cross_in(&other.feed_forward, rng);
        let recurrent = self.recurrent.cross_in(&other.recurrent, rng);
        let hidden = self.hidden.cross_in(&other.hidden, rng);
        Genome {
            feed_forward,
            recurrent,
            hidden,
            inputs: self.inputs.duplicate(),
            outputs: self.outputs.duplicate(),
        }
    }
}

/// How a split chose the new node's identity from the id generator: the
/// first id cached for the split connection that no node of this genome
/// uses yet — so independent lineages splitting the same connection
/// converge on the same new identity — or, when every cached id is in
/// use, a fresh id that the cache then remembers for later splits of the
/// same connection.
pub open spec fn split_id_from_cache(
    before: Genome,
    gen_before: IdGenerator,
    gen_after: IdGenerator,
    c: Connection,
    new_id: Id,
) -> bool {
    let cached = gen_before.cached((c.input, c.output));
    ||| ((exists|t: int|
        0 <= t < cached.len() && #[trigger] cached[t] == new_id && (forall|u: int|
            0 <= u < t ==> before.has_node(#[trigger] cached[u]))) && gen_after == gen_before)
    ||| ((forall|u: int| 0 <= u < cached.len() ==> before.has_node(#[trigger] cached[u]))
        && new_id.0 == gen_before.next_free() && gen_after.next_free() == gen_before.next_free()
        + 1 && gen_after.cached((c.input, c.output)) == cached.push(new_id) && (forall|k: (
        Id,
        Id,
    )|
        k != (c.input, c.output) ==> #[trigger] gen_after.cached(k) == gen_before.cached(k)))
}

/// `after` is `before` with the connection `c` split at the fresh hidden
/// node `new_id`: the node set gains that one node with a candidate
/// activation; the feed-forward set gains the edge into the node with
/// weight one and the edge out of it with `c`'s weight, and `c` itself
/// is disabled with weight zero. Everything else is untouched.
pub open spec fn split_post(
    before: Genome,
    after: Genome,
    candidates: Seq<Activation>,
    c: Connection,
    new_id: Id,
) -> bool {
    &&& before.feed_forward.has_key(c.identity())
    &&& before.feed_forward.at_key(c.identity()) == c
    &&& !before.has_node(new_id)
    &&& after.inputs == before.inputs
    &&& after.outputs == before.outputs
    &&& after.recurrent == before.recurrent
    &&& after.hidden.seq().len() == before.hidden.seq().len() + 1
    &&& forall|k: (u64, u64)| #[trigger]
        after.hidden.has_key(k) == (before.hidden.has_key(k) || k == (new_id.0, new_id.0))
    &&& after.hidden.at_key((new_id.0, new_id.0)).id == new_id
    &&& candidates.contains(after.hidden.at_key((new_id.0, new_id.0)).activation)
    &&& forall|k: (u64, u64)|
        k != (new_id.0, new_id.0) && before.hidden.has_key(k) ==> #[trigger] after.hidden.at_key(k)
            == before.hidden.at_key(k)
    &&& after.feed_forward.seq().len() == before.feed_forward.seq().len() + 2
    &&& forall|k: (u64, u64)| #[trigger]
        after.feed_forward.has_key(k) == (before.feed_forward.has_key(k) || k == (
        c.input.0,
        new_id.0,
        ) || k == (new_id.0, c.output.0))
    &&& after.feed_forward.at_key((c.input.0, new_id.0)) == (Connection {
        input: c.input,
        weight: Weight(crate::scalar::R_ONE),
        output: new_id,
    })
    &&& after.feed_forward.at_key((new_id.0, c.output.0)) == (Connection {
        input: new_id,
        weight: c.weight,
        output: c.output,
    })
    &&& after.feed_forward.at_key(c.identity()) == (Connection {
        input: c.input,
        weight: Weight(crate::scalar::R_ZERO),
        output: c.output,
    })
    &&& forall|k: (u64, u64)|
        k != c.identity() && k != (c.input.0, new_id.0) && k != (new_id.0, c.output.0)
            && before.feed_forward.has_key(k) ==> #[trigger] after.feed_forward.at_key(k)
            == before.feed_forward.at_key(k)
}

/// The nodes a new connection may start at: inputs and hidden nodes.
pub open spec fn start_candidates(g: Genome) -> Seq<Node> {
    g.inputs.seq() + g.hidden.seq()
}

/// The nodes a new connection may end at: hidden and output nodes.
pub open spec fn end_candidates(g: Genome) -> Seq<Node> {
    g.hidden.seq() + g.outputs.seq()
}

/// The pair (s, e) makes an acceptable new edge of the chosen kind: not
/// self-joining, not already present in that set, and — feed-forward
/// only — not closing a cycle.
pub open spec fn acceptable(g: Genome, is_recurrent: bool, s: Node, e: Node) -> bool {
    &&& s.id != e.id
    &&& if is_recurrent {
        !g.recurrent.has_key((s.id.0, e.id.0))
    } else {
        !g.feed_forward.has_key((s.id.0, e.id.0))
    }
    &&& (is_recurrent || !reaches(g.feed_forward.seq(), e.id, s.id))
}

/// No candidate pair makes an acceptable new edge of the chosen kind:
/// the "no connection possible" condition.
pub open spec fn no_acceptable(g: Genome, is_recurrent: bool) -> bool {
    forall|si: int, ei: int|
        0 <= si < start_candidates(g).len() && 0 <= ei < end_candidates(g).len() ==> !acceptable(
            g,
            is_recurrent,
            #[trigger] start_candidates(g)[si],
            #[trigger] end_candidates(g)[ei],
        )
}

/// `after` is `before` with one acceptable edge from `s` to `e` added to
/// the set picked by `is_recurrent`; nodes and the other set are
/// untouched, and the new edge's weight is whatever the distribution
/// returned.
pub open spec fn connection_added(
    before: Genome,
    after: Genome,
    is_recurrent: bool,
    s: Node,
    e: Node,
) -> bool {
    &&& start_candidates(before).contains(s)
    &&& end_candidates(before).contains(e)
    &&& acceptable(before, is_recurrent, s, e)
    &&& after.inputs == before.inputs
    &&& after.hidden == before.hidden
    &&& after.outputs == before.outputs
    &&& if is_recurrent {
        &&& after.feed_forward == before.feed_forward
        &&& after.recurrent.seq().len() == before.recurrent.seq().len() + 1
        &&& forall|k: (u64, u64)| #[trigger]
            after.recurrent.has_key(k) == (before.recurrent.has_key(k) || k == (s.id.0, e.id.0))
        &&& after.recurrent.at_key((s.id.0, e.id.0)).input == s.id
        &&& after.recurrent.at_key((s.id.0, e.id.0)).output == e.id
        &&& forall|k: (u64, u64)|
            k != (s.id.0, e.id.0) && before.recurrent.has_key(k) ==> #[trigger] after.recurrent.at_key(
                k,
            ) == before.recurrent.at_key(k)
    } else {
        &&& after.recurrent == before.recurrent
        &&& after.feed_forward.seq().len() == before.feed_forward.seq().len() + 1
        &&& forall|k: (u64, u64)| #[trigger]
            after.feed_forward.has_key(k) == (before.feed_forward.has_key(k) || k == (
            s.id.0,
            e.id.0,
            ))
        &&& after.feed_forward.at_key((s.id.0, e.id.0)).input == s.id
        &&& after.feed_forward.at_key((s.id.0, e.id.0)).output == e.id
        &&& forall|k: (u64, u64)|
            k != (s.id.0, e.id.0) && before.feed_forward.has_key(k)
                ==> #[trigger] after.feed_forward.at_key(k) == before.feed_forward.at_key(k)
    }
}

/// Adding an edge between two existing nodes keeps connections free of
/// dangling endpoints.
proof fn lemma_connection_added_linked(
    before: Genome,
    after: Genome,
    is_recurrent: bool,
    s: Node,
    e: Node,
)
    requires
        before.wf(),
        after.wf(),
        before.linked(),
        connection_added(before, after, is_recurrent, s, e),
    ensures
        after.linked(),
{
    let sc = start_candidates(before);
    let ec = end_candidates(before);
    let si = choose|si: int| 0 <= si < sc.len() && sc[si] == s;
    let ei = choose|ei: int| 0 <= ei < ec.len() && ec[ei] == e;
    assert(before.has_node(s.id)) by {
        if si < before.inputs.seq().len() {
            before.inputs.lemma_at_key(si);
            assert(before.inputs.seq()[si] == s);
        } else {
            before.hidden.lemma_at_key(si - before.inputs.seq().len());
            assert(before.hidden.seq()[si - before.inputs.seq().len()] == s);
        }
    }
    assert(before.has_node(e.id)) by {
        if ei < before.hidden.seq().len() {
            before.hidden.lemma_at_key(ei);
            assert(before.hidden.seq()[ei] == e);
        } else {
            before.outputs.lemma_at_key(ei - before.hidden.seq().len());
            assert(before.outputs.seq()[ei - before.hidden.seq().len()] == e);
        }
    }
    if is_recurrent {
        assert forall|i: int| 0 <= i < after.recurrent.seq().len() implies after.has_node(
            (#[trigger] after.recurrent.seq()[i]).input,
        ) && after.has_node(after.recurrent.seq()[i].output) by {
            after.recurrent.lemma_at_key(i);
            let k = after.recurrent.seq()[i].identity();
            if k == (s.id.0, e.id.0) {
                assert(node_in(before.inputs, after.recurrent.seq()[i].input) == node_in(
                    before.inputs,
                    s.id,
                ));
                assert(node_in(before.hidden, after.recurrent.seq()[i].input) == node_in(
                    before.hidden,
                    s.id,
                ));
                assert(node_in(before.outputs, after.recurrent.seq()[i].input) == node_in(
                    before.outputs,
                    s.id,
                ));
                assert(node_in(before.inputs, after.recurrent.seq()[i].output) == node_in(
                    before.inputs,
                    e.id,
                ));
                assert(node_in(before.hidden, after.recurrent.seq()[i].output) == node_in(
                    before.hidden,
                    e.id,
                ));
                assert(node_in(before.outputs, after.recurrent.seq()[i].output) == node_in(
                    before.outputs,
                    e.id,
                ));
            } else {
                let j = choose|j: int|
                    0 <= j < before.recurrent.seq().len() && (
                    #[trigger] before.recurrent.seq()[j]).identity() == k;
                before.recurrent.lemma_at_key(j);
                assert(after.recurrent.seq()[i] == before.recurrent.seq()[j]);
                assert(before.has_node(before.recurrent.seq()[j].input) && before.has_node(
                    before.recurrent.seq()[j].output,
                ));
            }
        }
    } else {
        assert forall|i: int| 0 <= i < after.feed_forward.seq().len() implies after.has_node(
            (#[trigger] after.feed_forward.seq()[i]).input,
        ) && after.has_node(after.feed_forward.seq()[i].output) by {
            after.feed_forward.lemma_at_key(i);
            let k = after.feed_forward.seq()[i].identity();
            if k == (s.id.0, e.id.0) {
                assert(node_in(before.inputs, after.feed_forward.seq()[i].input) == node_in(
                    before.inputs,
                    s.id,
                ));
                assert(node_in(before.hidden, after.feed_forward.seq()[i].input) == node_in(
                    before.hidden,
                    s.id,
                ));
                assert(node_in(before.outputs, after.feed_forward.seq()[i].input) == node_in(
                    before.outputs,
                    s.id,
                ));
                assert(node_in(before.inputs, after.feed_forward.seq()[i].output) == node_in(
                    before.inputs,
                    e.id,
                ));
                assert(node_in(before.hidden, after.feed_forward.seq()[i].output) == node_in(
                    before.hidden,
                    e.id,
                ));
                assert(node_in(before.outputs, after.feed_forward.seq()[i].output) == node_in(
                    before.outputs,
                    e.id,
                ));
            } else {
                let j = choose|j: int|
                    0 <= j < before.feed_forward.seq().len() && (
                    #[trigger] before.feed_forward.seq()[j]).identity() == k;
                before.feed_forward.lemma_at_key(j);
                assert(after.feed_forward.seq()[i] == before.feed_forward.seq()[j]);
                assert(before.has_node(before.feed_forward.seq()[j].input) && before.has_node(
                    before.feed_forward.seq()[j].output,
                ));
            }
        }
    }
}

/// Node sets whose nodes carry pointwise equal ids hold the same keys.
proof fn lemma_same_node_ids_same_keys(a: Genes<Node>, b: Genes<Node>)
    requires
        b.seq().len() == a.seq().len(),
        forall|i: int| 0 <= i < a.seq().len() ==> (#[trigger] b.seq()[i]).id == a.seq()[i].id,
    ensures
        forall|k: (u64, u64)| #[trigger] a.has_key(k) == b.has_key(k),
{
    assert forall|k: (u64, u64)| #[trigger] a.has_key(k) == b.has_key(k) by {
        if a.has_key(k) {
            let i = choose|i: int|
                0 <= i < a.seq().len() && (#[trigger] a.seq()[i]).identity() == k;
            assert(b.seq()[i].identity() == k);
        }
        if b.has_key(k) {
            let i = choose|i: int|
                0 <= i < b.seq().len() && (#[trigger] b.seq()[i]).identity() == k;
            assert(a.seq()[i].identity() == k);
        }
    }
}

/// Some candidate differs from `act`.
pub open spec fn has_alternative(candidates: Seq<Activation>, act: Activation) -> bool {
    exists|k: int| 0 <= k < candidates.len() && #[trigger] candidates[k] != act
}

/// `after` is `before` with the node at `i` re-activated: ids and all
/// other nodes untouched, and the activation changed to another candidate
/// exactly when another candidate exists.
pub open spec fn altered_at(
    before: Seq<Node>,
    after: Seq<Node>,
    candidates: Seq<Activation>,
    i: int,
) -> bool {
    &&& after.len() == before.len()
    &&& forall|j: int| 0 <= j < before.len() && j != i ==> #[trigger] after[j] == before[j]
    &&& after[i].id == before[i].id
    &&& if has_alternative(candidates, before[i].activation) {
        after[i].activation != before[i].activation && candidates.contains(after[i].activation)
    } else {
        after[i] == before[i]
    }
}

/// Whether two activation tags are the same.
fn matches_activation(a: Activation, b: Activation) -> (r: bool)
    ensures
        r == (a == b),
{
    match (a, b) {
        (Activation::Linear, Activation::Linear) => true,
        (Activation::Sigmoid, Activation::Sigmoid) => true,
        (Activation::Tanh, Activation::Tanh) => true,
        (Activation::Gaussian, Activation::Gaussian) => true,
        (Activation::Step, Activation::Step) => true,
        (Activation::Sine, Activation::Sine) => true,
        (Activation::Cosine, Activation::Cosine) => true,
        (Activation::Inverse, Activation::Inverse) => true,
        (Activation::Absolute, Activation::Absolute) => true,
        (Activation::Relu, Activation::Relu) => true,
        (Activation::Squared, Activation::Squared) => true,
        _ => false,
    }
}

/// One gene set with every weight passed through the distribution,
/// visited from a uniformly random rotation point: the same keys, each
/// exactly once, with fresh weights.
fn perturb_all<W: WeightDistribution>(
    set: &Genes<Connection>,
    rng: &mut NeatRng,
    weights: &mut W,
) -> (r: Genes<Connection>)
    requires
        set.wf(),
    ensures
        r.wf(),
        r.seq().len() == set.seq().len(),
        forall|k: (u64, u64)| #[trigger] r.has_key(k) == set.has_key(k),
{
    let order = set.rotated(rng);
    let mut fresh: Genes<Connection> = Genes::empty();
    let mut i: usize = 0;
    while i < order.len()
        invariant
            set.wf(),
            fresh.wf(),
            order@.len() == set.seq().len(),
            forall|a: int, b: int|
                0 <= a < b < order@.len() ==> (#[trigger] order@[a]).identity() != (
                #[trigger] order@[b]).identity(),
            forall|a: int|
                0 <= a < order@.len() ==> set.has_key((#[trigger] order@[a]).identity()),
            i <= order@.len(),
            fresh.seq().len() == i,
            forall|t: int| 0 <= t < i ==> fresh.has_key((#[trigger] order@[t]).identity()),
            forall|k: (u64, u64)| #[trigger]
                fresh.has_key(k) ==> exists|t: int|
                    0 <= t < i && (#[trigger] order@[t]).identity() == k,
        decreases order@.len() - i,
    {
        let conn = order[i];
        let perturbed = Connection::new(
            conn.input,
            weights.perturb_weight(conn.weight),
            conn.output,
        );
        proof {
            assert(perturbed.identity() == order@[i as int].identity());
            assert(!fresh.has_key(perturbed.identity())) by {
                if fresh.has_key(perturbed.identity()) {
                    let t = choose|t: int|
                        0 <= t < i && (#[trigger] order@[t]).identity() == perturbed.identity();
                    assert(order@[t].identity() != order@[i as int].identity());
                }
            }
        }
        let ghost pre = fresh;
        let inserted = fresh.insert(perturbed);
        proof {
            assert forall|k: (u64, u64)| #[trigger] fresh.has_key(k) implies exists|t: int|
                0 <= t < i + 1 && (#[trigger] order@[t]).identity() == k by {
                if pre.has_key(k) {
                    let t = choose|t: int|
                        0 <= t < i && (#[trigger] order@[t]).identity() == k;
                    assert(0 <= t < i + 1 && order@[t].identity() == k);
                } else {
                    assert(order@[i as int].identity() == k);
                }
            }
        }
        i = i + 1;
    }
    proof {
        assert forall|k: (u64, u64)| #[trigger] fresh.has_key(k) == set.has_key(k) by {
            if fresh.has_key(k) {
                let t = choose|t: int|
                    0 <= t < order@.len() && (#[trigger] order@[t]).identity() == k;
                assert(set.has_key(order@[t].identity()));
            }
            if set.has_key(k) {
                let j = choose|j: int|
                    0 <= j < set.seq().len() && (#[trigger] set.seq()[j]).identity() == k;
                assert(order@.contains(set.seq()[j]));
                let t = choose|t: int| 0 <= t < order@.len() && order@[t] == set.seq()[j];
                assert(fresh.has_key(order@[t].identity()));
            }
        }
    }
    fresh
}

/// In a genome whose feed-forward edges all leave input nodes/// In a genome whose feed-forward edges all leave input nodes — as they
/// do right after initialization — no edge out of a non-input node
/// exists, so no still-addable edge ending at a non-input node can close
/// a cycle.
pub proof fn lemma_layered_acyclic(g: Genome, s: Id, e: Id)
    requires
        forall|i: int|
            0 <= i < g.feed_forward.seq().len() ==> node_in(
                g.inputs,
                (#[trigger] g.feed_forward.seq()[i]).input,
            ),
        !node_in(g.inputs, e),
    ensures
        !reaches(g.feed_forward.seq(), e, s),
{
    let c = g.feed_forward.seq();
    if reaches(c, e, s) {
        let p = choose|p: Seq<Id>| #[trigger] is_path(c, p) && p[0] == e && p.last() == s;
        assert(edge_in(c, p[0], p[1]));
        let ei = choose|ei: int|
            0 <= ei < c.len() && (#[trigger] c[ei]).input == p[0] && c[ei].output == p[1];
        assert(node_in(g.inputs, c[ei].input));
    }
}

/// A crossover child carries exactly the fitter parent's edge
/// identities, so it holds a reciprocal pair of feed-forward edges only
/// where the fitter parent already did.
pub proof fn lemma_cross_in_no_reciprocal(
    parent: Genome,
    other: Genome,
    child: Genome,
    a: Id,
    b: Id,
)
    requires
        Genes::crossed(parent.feed_forward, other.feed_forward, child.feed_forward),
        !(parent.feed_forward.has_key((a.0, b.0)) && parent.feed_forward.has_key((b.0, a.0))),
    ensures
        !(child.feed_forward.has_key((a.0, b.0)) && child.feed_forward.has_key((b.0, a.0))),
{
}

/// The pair (j2, k2) comes before the cursor (j, k) in the nested
/// initialization scan.
pub open spec fn done_pair(j2: int, k2: int, j: int, k: int) -> bool {
    j2 < j || (j2 == j && k2 < k)
}

/// `after` is `before` initialized: a non-empty selection of distinct
/// input nodes, each wired to every output node — exactly those edges
/// and no others.
pub open spec fn init_post(before: Genome, after: Genome, chosen: Seq<Node>) -> bool {
    &&& 1 <= chosen.len() <= before.inputs.seq().len()
    &&& forall|a: int| 0 <= a < chosen.len() ==> node_in(before.inputs, (#[trigger] chosen[a]).id)
    &&& forall|a: int, b: int|
        0 <= a < b < chosen.len() ==> (#[trigger] chosen[a]).id != (#[trigger] chosen[b]).id
    &&& after.feed_forward.seq().len() == chosen.len() * before.outputs.seq().len()
    &&& forall|a: int, k: int|
        0 <= a < chosen.len() && 0 <= k < before.outputs.seq().len()
            ==> #[trigger] after.feed_forward.has_key(
            (chosen[a].id.0, before.outputs.seq()[k].id.0),
        )
    &&& forall|e: int|
        0 <= e < after.feed_forward.seq().len() ==> edge_from_done(
            #[trigger] after.feed_forward.seq()[e],
            chosen,
            before.outputs.seq(),
            chosen.len() as int,
            0,
        )
}

/// The edge joins an already-visited (input, output) pair of the
/// initialization scan.
pub open spec fn edge_from_done(
    edge: Connection,
    chosen: Seq<Node>,
    outs: Seq<Node>,
    j: int,
    k: int,
) -> bool {
    exists|j2: int, k2: int|
        done_pair(j2, k2, j, k) && 0 <= j2 < chosen.len() && 0 <= k2 < outs.len() && (
        #[trigger] chosen[j2]).id == edge.input && (#[trigger] outs[k2]).id == edge.output
}

/// Whether `v@[i] == id` for some `i`.
fn id_in_vec(v: &Vec<Id>, id: Id) -> (r: bool)
    ensures
        r == v@.contains(id),
{
    let mut i: usize = 0;
    while i < v.len()
        invariant
            i <= v@.len(),
            forall|j: int| 0 <= j < i ==> #[trigger] v@[j] != id,
        decreases v@.len() - i,
    {
        if v[i].0 == id.0 {
            assert(v@[i as int] == id);
            return true;
        }
        i = i + 1;
    }
    assert(!v@.contains(id));
    false
}

/// The search is closed: no visited node has an edge to `start`, and every
/// edge out of a visited node lands in the visited or the frontier set.
pub open spec fn bfs_closed(c: Seq<Connection>, visited: Seq<Id>, frontier: Seq<Id>, start: Id) -> bool {
    forall|vi: int, ei: int|
        0 <= vi < visited.len() && 0 <= ei < c.len() && (#[trigger] c[ei]).input == #[trigger] visited[vi]
            ==> c[ei].output != start && (visited.contains(c[ei].output) || frontier.contains(
            c[ei].output,
        ))
}

/// A single edge is a walk.
proof fn lemma_edge_reaches(c: Seq<Connection>, a: Id, b: Id)
    requires
        edge_in(c, a, b),
    ensures
        reaches(c, a, b),
{
    let p = seq![a, b];
    assert(is_path(c, p)) by {
        assert forall|i: int| 0 <= i < p.len() - 1 implies edge_in(c, #[trigger] p[i], p[i + 1]) by {
            assert(p[0] == a && p[1] == b);
        }
    }
    assert(p[0] == a && p.last() == b);
}

/// Extending a walk by one edge keeps it a walk.
proof fn lemma_reaches_step(c: Seq<Connection>, a: Id, b: Id, d: Id)
    requires
        reaches(c, a, b),
        edge_in(c, b, d),
    ensures
        reaches(c, a, d),
{
    let p = choose|p: Seq<Id>| #[trigger] is_path(c, p) && p[0] == a && p.last() == b;
    let q = p.push(d);
    assert(is_path(c, q)) by {
        assert forall|i: int| 0 <= i < q.len() - 1 implies edge_in(c, #[trigger] q[i], q[i + 1]) by {
            if i < p.len() - 1 {
                assert(q[i] == p[i] && q[i + 1] == p[i + 1]);
                assert(edge_in(c, p[i], p[i + 1]));
            } else {
                assert(q[i] == p.last() && q[i + 1] == d);
            }
        }
    }
    assert(q[0] == a && q.last() == d);
}

/// Once the search is closed with an empty frontier, no walk that starts
/// inside the visited set can end at `start`.
proof fn lemma_closed_blocks_paths(c: Seq<Connection>, visited: Seq<Id>, start: Id, p: Seq<Id>)
    requires
        is_path(c, p),
        visited.contains(p[0]),
        bfs_closed(c, visited, Seq::<Id>::empty(), start),
    ensures
        p.last() != start,
    decreases p.len(),
{
    assert(edge_in(c, p[0], p[1]));
    let ei = choose|ei: int|
        0 <= ei < c.len() && (#[trigger] c[ei]).input == p[0] && c[ei].output == p[1];
    let vi = choose|vi: int| 0 <= vi < visited.len() && visited[vi] == p[0];
    assert(c[ei].input == visited[vi]);
    assert(c[ei].output != start && (visited.contains(c[ei].output) || Seq::<Id>::empty().contains(
        c[ei].output,
    )));
    assert(!Seq::<Id>::empty().contains(c[ei].output));
    if p.len() == 2 {
        assert(p.last() == p[1]);
    } else {
        let q = p.drop_first();
        assert(is_path(c, q)) by {
            assert forall|i: int| 0 <= i < q.len() - 1 implies edge_in(c, #[trigger] q[i], q[i + 1]) by {
                assert(q[i] == p[i + 1] && q[i + 1] == p[i + 2]);
                assert(edge_in(c, p[i + 1], p[i + 2]));
            }
        }
        assert(q[0] == p[1] && q.last() == p.last());
        lemma_closed_blocks_paths(c, visited, start, q);
    }
}

/// `a` equals `b` or a walk leads from `a` to `b`.
pub open spec fn reaches_or_eq(c: Seq<Connection>, a: Id, b: Id) -> bool {
    a == b || reaches(c, a, b)
}

/// No node of `c` lies on a cycle: no walk leads from any node back to
/// itself.
pub open spec fn acyclic(c: Seq<Connection>) -> bool {
    forall|x: Id| !reaches(c, x, x)
}

/// Walks compose.
pub proof fn lemma_reaches_trans(c: Seq<Connection>, a: Id, b: Id, d: Id)
    requires
        reaches(c, a, b),
        reaches(c, b, d),
    ensures
        reaches(c, a, d),
{
    let p = choose|p: Seq<Id>| #[trigger] is_path(c, p) && p[0] == a && p.last() == b;
    let q = choose|q: Seq<Id>| #[trigger] is_path(c, q) && q[0] == b && q.last() == d;
    let r = p + q.skip(1);
    assert(is_path(c, r)) by {
        assert forall|i: int| 0 <= i < r.len() - 1 implies edge_in(c, #[trigger] r[i], r[i + 1]) by {
            if i < p.len() - 1 {
                assert(r[i] == p[i] && r[i + 1] == p[i + 1]);
                assert(edge_in(c, p[i], p[i + 1]));
            } else if i == p.len() - 1 {
                assert(r[i] == p.last() && r[i + 1] == q[1]);
                assert(edge_in(c, q[0], q[1]));
            } else {
                let j = i - (p.len() - 1);
                assert(r[i] == q[j] && r[i + 1] == q[j + 1]);
                assert(edge_in(c, q[j], q[j + 1]));
            }
        }
    }
    assert(r[0] == a && r.last() == d);
}

/// An edge relation holds between two connection sets exactly when their
/// key sets say so: an edge from `x` to `y` is a gene keyed (x, y).
pub proof fn lemma_edge_in_iff_has_key(g: Genes<Connection>, x: Id, y: Id)
    ensures
        edge_in(g.seq(), x, y) <==> g.has_key((x.0, y.0)),
{
    if edge_in(g.seq(), x, y) {
        let i = choose|i: int|
            0 <= i < g.seq().len() && (#[trigger] g.seq()[i]).input == x && g.seq()[i].output == y;
        assert(g.seq()[i].identity() == (x.0, y.0));
    }
    if g.has_key((x.0, y.0)) {
        let i = choose|i: int|
            0 <= i < g.seq().len() && (#[trigger] g.seq()[i]).identity() == (x.0, y.0);
        assert(g.seq()[i].input == x && g.seq()[i].output == y);
    }
}

/// Any walk of the graph grown by the single edge `s -> e` either already
/// existed, or can be cut at the first use of the new edge: the walk then
/// starts at or reaches `s`, and `e` is or reaches its end — provided the
/// old graph has no walk from `e` back to `s`.
proof fn lemma_path_through_new_edge(
    c: Seq<Connection>,
    c2: Seq<Connection>,
    s: Id,
    e: Id,
    p: Seq<Id>,
)
    requires
        is_path(c2, p),
        s != e,
        !reaches(c, e, s),
        forall|x: Id, y: Id| #[trigger]
            edge_in(c2, x, y) <==> (edge_in(c, x, y) || (x == s && y == e)),
    ensures
        reaches(c, p[0], p.last()) || (reaches_or_eq(c, p[0], s) && reaches_or_eq(c, e, p.last())),
    decreases p.len(),
{
    assert(edge_in(c2, p[0], p[1]));
    if p.len() == 2 {
        if edge_in(c, p[0], p[1]) {
            lemma_edge_reaches(c, p[0], p[1]);
        }
    } else {
        let rest = p.drop_first();
        assert(is_path(c2, rest)) by {
            assert forall|i: int| 0 <= i < rest.len() - 1 implies edge_in(
                c2,
                #[trigger] rest[i],
                rest[i + 1],
            ) by {
                assert(rest[i] == p[i + 1] && rest[i + 1] == p[i + 2]);
                assert(edge_in(c2, p[i + 1], p[i + 2]));
            }
        }
        assert(rest[0] == p[1] && rest.last() == p.last());
        lemma_path_through_new_edge(c, c2, s, e, rest);
        if edge_in(c, p[0], p[1]) {
            lemma_edge_reaches(c, p[0], p[1]);
            if reaches(c, p[1], p.last()) {
                lemma_reaches_trans(c, p[0], p[1], p.last());
            } else {
                if p[1] != s {
                    lemma_reaches_trans(c, p[0], p[1], s);
                }
            }
        } else {
            assert(p[0] == s && p[1] == e);
            if !reaches(c, p[1], p.last()) {
                assert(reaches_or_eq(c, e, s));
                assert(false);
            }
        }
    }
}

/// Inserting the edge `s -> e` into an acyclic graph keeps it acyclic
/// when no walk led from `e` back to `s` — exactly what
/// `would_form_cycle` ruled out before `add_connection` accepted the
/// pair.
pub proof fn lemma_new_edge_keeps_acyclic(c: Seq<Connection>, c2: Seq<Connection>, s: Id, e: Id)
    requires
        acyclic(c),
        !reaches(c, e, s),
        s != e,
        forall|x: Id, y: Id| #[trigger]
            edge_in(c2, x, y) <==> (edge_in(c, x, y) || (x == s && y == e)),
    ensures
        acyclic(c2),
{
    assert forall|x: Id| !reaches(c2, x, x) by {
        if reaches(c2, x, x) {
            let p = choose|p: Seq<Id>| #[trigger] is_path(c2, p) && p[0] == x && p.last() == x;
            lemma_path_through_new_edge(c, c2, s, e, p);
            if !reaches(c, x, x) {
                assert(reaches_or_eq(c, x, s) && reaches_or_eq(c, e, x));
                if e == x {
                    if x != s {
                        assert(reaches(c, e, s));
                    }
                } else {
                    if x == s {
                        assert(reaches(c, e, s));
                    } else {
                        lemma_reaches_trans(c, e, x, s);
                    }
                }
            }
        }
    }
}

/// `add_connection` on the feed-forward set keeps the feed-forward graph
/// acyclic; on the recurrent set it leaves that graph untouched.
pub proof fn lemma_add_connection_keeps_acyclic(
    before: Genome,
    after: Genome,
    is_recurrent: bool,
    s: Node,
    e: Node,
)
    requires
        connection_added(before, after, is_recurrent, s, e),
        acyclic(before.feed_forward.seq()),
    ensures
        acyclic(after.feed_forward.seq()),
{
    if is_recurrent {
    } else {
        assert forall|x: Id, y: Id| #[trigger]
            edge_in(after.feed_forward.seq(), x, y) <==> (edge_in(before.feed_forward.seq(), x, y)
                || (x == s.id && y == e.id)) by {
            lemma_edge_in_iff_has_key(before.feed_forward, x, y);
            lemma_edge_in_iff_has_key(after.feed_forward, x, y);
            if after.feed_forward.has_key((x.0, y.0)) && !before.feed_forward.has_key((x.0, y.0)) {
                assert((x.0, y.0) == (s.id.0, e.id.0));
                assert(x == s.id && y == e.id);
            }
            if x == s.id && y == e.id {
                assert(after.feed_forward.has_key((s.id.0, e.id.0)));
            }
        }
        lemma_new_edge_keeps_acyclic(
            before.feed_forward.seq(),
            after.feed_forward.seq(),
            s.id,
            e.id,
        );
    }
}

/// Any walk of a graph grown by splitting the edge `a -> b` at the fresh
/// node `n` — whose only edges are `a -> n` and `n -> b` — maps back to a
/// walk of the old graph, as long as it neither starts nor ends at `n`:
/// every passage through `n` can take the old edge `a -> b` instead.
proof fn lemma_split_path(
    c: Seq<Connection>,
    c2: Seq<Connection>,
    a: Id,
    b: Id,
    n: Id,
    p: Seq<Id>,
)
    requires
        is_path(c2, p),
        p[0] != n,
        p.last() != n,
        a != n,
        b != n,
        edge_in(c, a, b),
        forall|x: Id| !edge_in(c, x, n) && !edge_in(c, n, x),
        forall|x: Id, y: Id| #[trigger]
            edge_in(c2, x, y) <==> (edge_in(c, x, y) || (x == a && y == n) || (x == n && y == b)),
    ensures
        reaches(c, p[0], p.last()),
    decreases p.len(),
{
    assert(edge_in(c2, p[0], p[1]));
    if p[1] == n {
        assert(p[0] == a) by {
            assert(!edge_in(c, p[0], n));
        }
        assert(p.len() >= 3);
        assert(edge_in(c2, p[1], p[2]));
        assert(p[2] == b) by {
            assert(!edge_in(c, n, p[2]));
            assert(p[1] == n && n != a);
        }
        if p.len() == 3 {
            lemma_edge_reaches(c, a, b);
        } else {
            let rest = p.skip(2);
            assert(is_path(c2, rest)) by {
                assert forall|i: int| 0 <= i < rest.len() - 1 implies edge_in(
                    c2,
                    #[trigger] rest[i],
                    rest[i + 1],
                ) by {
                    assert(rest[i] == p[i + 2] && rest[i + 1] == p[i + 3]);
                    assert(edge_in(c2, p[i + 2], p[i + 3]));
                }
            }
            assert(rest[0] == b && rest.last() == p.last());
            lemma_split_path(c, c2, a, b, n, rest);
            lemma_edge_reaches(c, a, b);
            lemma_reaches_trans(c, a, b, p.last());
        }
    } else {
        assert(edge_in(c, p[0], p[1])) by {
            assert(p[1] != n);
        }
        if p.len() == 2 {
            lemma_edge_reaches(c, p[0], p[1]);
        } else {
            let rest = p.drop_first();
            assert(is_path(c2, rest)) by {
                assert forall|i: int| 0 <= i < rest.len() - 1 implies edge_in(
                    c2,
                    #[trigger] rest[i],
                    rest[i + 1],
                ) by {
                    assert(rest[i] == p[i + 1] && rest[i + 1] == p[i + 2]);
                    assert(edge_in(c2, p[i + 1], p[i + 2]));
                }
            }
            assert(rest[0] == p[1] && rest.last() == p.last());
            lemma_split_path(c, c2, a, b, n, rest);
            lemma_edge_reaches(c, p[0], p[1]);
            lemma_reaches_trans(c, p[0], p[1], p.last());
        }
    }
}

/// `add_node` keeps the feed-forward graph acyclic: the split inserts
/// `a -> n` and `n -> b` at a node `n` fresh to the genome, beside the
/// already-present edge `a -> b`.
pub proof fn lemma_add_node_keeps_acyclic(
    before: Genome,
    after: Genome,
    candidates: Seq<Activation>,
    c: Connection,
    new_id: Id,
)
    requires
        split_post(before, after, candidates, c, new_id),
        before.wf(),
        before.linked(),
        acyclic(before.feed_forward.seq()),
    ensures
        acyclic(after.feed_forward.seq()),
{
    let ff = before.feed_forward.seq();
    let ff2 = after.feed_forward.seq();
    let a = c.input;
    let b = c.output;
    let n = new_id;
    assert(edge_in(ff, a, b)) by {
        lemma_edge_in_iff_has_key(before.feed_forward, a, b);
    }
    assert(a != n && b != n) by {
        let i = choose|i: int|
            0 <= i < ff.len() && (#[trigger] ff[i]).identity() == c.identity();
        assert(before.has_node(ff[i].input) && before.has_node(ff[i].output));
        assert(ff[i].input == a && ff[i].output == b);
        assert(node_in(before.inputs, a) == node_in(before.inputs, n) || a.0 != n.0);
        assert(node_in(before.hidden, a) == node_in(before.hidden, n) || a.0 != n.0);
        assert(node_in(before.outputs, a) == node_in(before.outputs, n) || a.0 != n.0);
        assert(node_in(before.inputs, b) == node_in(before.inputs, n) || b.0 != n.0);
        assert(node_in(before.hidden, b) == node_in(before.hidden, n) || b.0 != n.0);
        assert(node_in(before.outputs, b) == node_in(before.outputs, n) || b.0 != n.0);
    }
    assert forall|x: Id| !edge_in(ff, x, n) && !edge_in(ff, n, x) by {
        if edge_in(ff, x, n) {
            let i = choose|i: int|
                0 <= i < ff.len() && (#[trigger] ff[i]).input == x && ff[i].output == n;
            assert(before.has_node(ff[i].output));
            assert(node_in(before.inputs, n) || node_in(before.hidden, n) || node_in(
                before.outputs,
                n,
            ));
        }
        if edge_in(ff, n, x) {
            let i = choose|i: int|
                0 <= i < ff.len() && (#[trigger] ff[i]).input == n && ff[i].output == x;
            assert(before.has_node(ff[i].input));
            assert(node_in(before.inputs, n) || node_in(before.hidden, n) || node_in(
                before.outputs,
                n,
            ));
        }
    }
    assert forall|x: Id, y: Id| #[trigger]
        edge_in(ff2, x, y) <==> (edge_in(ff, x, y) || (x == a && y == n) || (x == n && y
            == b)) by {
        lemma_edge_in_iff_has_key(before.feed_forward, x, y);
        lemma_edge_in_iff_has_key(after.feed_forward, x, y);
        if after.feed_forward.has_key((x.0, y.0)) && !before.feed_forward.has_key((x.0, y.0)) {
            assert((x.0, y.0) == (a.0, n.0) || (x.0, y.0) == (n.0, b.0));
        }
        if x == a && y == n {
            assert(after.feed_forward.has_key((a.0, n.0)));
        }
        if x == n && y == b {
            assert(after.feed_forward.has_key((n.0, b.0)));
        }
    }
    assert forall|x: Id| !reaches(ff2, x, x) by {
        if reaches(ff2, x, x) {
            let p = choose|p: Seq<Id>| #[trigger] is_path(ff2, p) && p[0] == x && p.last() == x;
            if x != n {
                lemma_split_path(ff, ff2, a, b, n, p);
            } else {
                assert(edge_in(ff2, p[0], p[1]));
                assert(p[1] == b) by {
                    assert(!edge_in(ff, n, p[1]));
                }
                assert(p.len() >= 3) by {
                    if p.len() == 2 {
                        assert(p[1] == p.last());
                        assert(b != n);
                    }
                }
                assert(edge_in(ff2, p[p.len() - 2], p.last()));
                let before_last = p[p.len() - 2];
                assert(before_last == a) by {
                    assert(!edge_in(ff, before_last, n));
                    assert(b != n);
                }
                if p.len() == 3 {
                    assert(a == b);
                    lemma_edge_reaches(ff, a, b);
                    assert(reaches(ff, a, a));
                } else {
                    let q = p.subrange(1, p.len() - 1);
                    assert(is_path(ff2, q)) by {
                        assert forall|i: int| 0 <= i < q.len() - 1 implies edge_in(
                            ff2,
                            #[trigger] q[i],
                            q[i + 1],
                        ) by {
                            assert(q[i] == p[i + 1] && q[i + 1] == p[i + 2]);
                            assert(edge_in(ff2, p[i + 1], p[i + 2]));
                        }
                    }
                    assert(q[0] == b && q.last() == a);
                    lemma_split_path(ff, ff2, a, b, n, q);
                    lemma_edge_reaches(ff, a, b);
                    lemma_reaches_trans(ff, b, a, b);
                    assert(reaches(ff, b, b));
                }
            }
        }
    }
}

/// Right after initialization every feed-forward edge runs from an input
/// node to an output node; with the two roles disjoint, such a two-layer
/// graph has no cycle.
pub proof fn lemma_layered_graph_acyclic(g: Genome)
    requires
        forall|i: int|
            0 <= i < g.feed_forward.seq().len() ==> node_in(
                g.inputs,
                (#[trigger] g.feed_forward.seq()[i]).input,
            ) && node_in(g.outputs, g.feed_forward.seq()[i].output),
        forall|id: Id| !(#[trigger] node_in(g.inputs, id) && node_in(g.outputs, id)),
    ensures
        acyclic(g.feed_forward.seq()),
{
    let c = g.feed_forward.seq();
    assert forall|x: Id| !reaches(c, x, x) by {
        if reaches(c, x, x) {
            let p = choose|p: Seq<Id>| #[trigger] is_path(c, p) && p[0] == x && p.last() == x;
            assert(edge_in(c, p[0], p[1]));
            let i = choose|i: int|
                0 <= i < c.len() && (#[trigger] c[i]).input == p[0] && c[i].output == p[1];
            assert(node_in(g.outputs, p[1]));
            if p.len() == 2 {
                assert(node_in(g.inputs, p[1]));
            } else {
                assert(edge_in(c, p[1], p[2]));
                let j = choose|j: int|
                    0 <= j < c.len() && (#[trigger] c[j]).input == p[1] && c[j].output == p[2];
                assert(node_in(g.inputs, p[1]));
            }
        }
    }
}

/// Graphs with the same edge relation have the same walks.
pub proof fn lemma_same_edges_same_reach(c1: Seq<Connection>, c2: Seq<Connection>)
    requires
        forall|x: Id, y: Id| #[trigger] edge_in(c1, x, y) == edge_in(c2, x, y),
    ensures
        forall|a: Id, b: Id| #[trigger] reaches(c1, a, b) == reaches(c2, a, b),
        acyclic(c1) == acyclic(c2),
{
    assert forall|a: Id, b: Id| #[trigger] reaches(c1, a, b) == reaches(c2, a, b) by {
        if reaches(c1, a, b) {
            let p = choose|p: Seq<Id>| #[trigger] is_path(c1, p) && p[0] == a && p.last() == b;
            assert(is_path(c2, p)) by {
                assert forall|i: int| 0 <= i < p.len() - 1 implies edge_in(
                    c2,
                    #[trigger] p[i],
                    p[i + 1],
                ) by {
                    assert(edge_in(c1, p[i], p[i + 1]));
                }
            }
        }
        if reaches(c2, a, b) {
            let p = choose|p: Seq<Id>| #[trigger] is_path(c2, p) && p[0] == a && p.last() == b;
            assert(is_path(c1, p)) by {
                assert forall|i: int| 0 <= i < p.len() - 1 implies edge_in(
                    c1,
                    #[trigger] p[i],
                    p[i + 1],
                ) by {
                    assert(edge_in(c2, p[i], p[i + 1]));
                }
            }
        }
    }
    assert forall|x: Id| #[trigger] reaches(c1, x, x) == reaches(c2, x, x) by {}
    if acyclic(c1) && !acyclic(c2) {
        let x = choose|x: Id| reaches(c2, x, x);
        assert(reaches(c1, x, x));
    }
    if acyclic(c2) && !acyclic(c1) {
        let x = choose|x: Id| reaches(c1, x, x);
        assert(reaches(c2, x, x));
    }
}

/// Gene sets with the same keys have the same edge relation.
pub proof fn lemma_same_keys_same_edges(g1: Genes<Connection>, g2: Genes<Connection>)
    requires
        forall|k: (u64, u64)| #[trigger] g1.has_key(k) == g2.has_key(k),
    ensures
        forall|x: Id, y: Id| #[trigger] edge_in(g1.seq(), x, y) == edge_in(g2.seq(), x, y),
{
    assert forall|x: Id, y: Id| #[trigger] edge_in(g1.seq(), x, y) == edge_in(g2.seq(), x, y) by {
        lemma_edge_in_iff_has_key(g1, x, y);
        lemma_edge_in_iff_has_key(g2, x, y);
    }
}

/// Multiplication facts the initialization loop counts on.
proof fn lemma_mul_bounds(j: int, k: int, count: int, out_len: int)
    requires
        0 <= j < count,
        0 <= k < out_len,
    ensures
        j * out_len + k < count * out_len,
        (j + 1) * out_len == j * out_len + out_len,
{
    assert(j * out_len + k < count * out_len) by (nonlinear_arith)
        requires
            0 <= j < count,
            0 <= k < out_len,
    ;
    assert((j + 1) * out_len == j * out_len + out_len) by (nonlinear_arith);
}

proof fn lemma_mul_at_least(count: int, out_len: int)
    requires
        1 <= count,
        0 <= out_len,
    ensures
        count * out_len >= out_len,
{
    assert(count * out_len >= out_len) by (nonlinear_arith)
        requires
            1 <= count,
            0 <= out_len,
    ;
}

} // verus!
