//! Connection creation: which pairs of nodes may be joined, what joining
//! them does to the layers, and the random choice of a pair.

use crate::model::{
    Connection, NeatBrain, Node, SelectionError, Topology, HIDDEN, OUTPUT, SENSOR,
};
use crate::rng::draw_below;
use vstd::prelude::*;

verus! {

impl Topology {
    /// A connection from the node at position `i` to the node at position
    /// `j` may be added: the source is no output, the target is no sensor
    /// and not below the source, the two differ and are not joined yet.
    pub open spec fn can_link(self, i: int, j: int) -> bool {
        &&& 0 <= i < self.nodes.len()
        &&& 0 <= j < self.nodes.len()
        &&& i != j
        &&& self.nodes[i].subtype != OUTPUT
        &&& self.nodes[j].subtype != SENSOR
        &&& self.nodes[j].layer >= self.nodes[i].layer
        &&& !self.linked(self.nodes[i].node_id, self.nodes[j].node_id)
    }

    /// A connection from the node `input` to the node `output` may be added.
    pub open spec fn can_link_ids(self, input: usize, output: usize) -> bool {
        &&& self.has_node(input)
        &&& self.has_node(output)
        &&& self.can_link(self.slot(input), self.slot(output))
    }

    /// Identifier given to the next connection that is added between two
    /// existing nodes: one more than the number of connections, in 32 bits.
    pub open spec fn next_link_id(self) -> u32 {
        (self.connections.len() as u32).wrapping_add(1)
    }

    /// The layers after making sure that node `j` sits above node `i`: if
    /// the two share a layer, a fresh layer is opened above it and `j` moves
    /// there alone.
    pub open spec fn separated(self, i: int, j: int) -> Topology {
        if self.nodes[i].layer == self.nodes[j].layer {
            let opened = self.opened_above(self.nodes[i].layer);
            Topology {
                nodes: opened.nodes.update(
                    j,
                    Node { layer: (self.nodes[j].layer + 1) as u32, ..self.nodes[j] },
                ),
                ..opened
            }
        } else {
            self
        }
    }

    /// The topology after joining the node at position `i` to the node at
    /// position `j` by an enabled connection of the given weight.
    pub open spec fn with_link(self, i: int, j: int, weight: u32) -> Topology {
        let placed = self.separated(i, j);
        Topology {
            connections: placed.connections.push(
                Connection {
                    connection_id: self.next_link_id(),
                    input: self.nodes[i].node_id,
                    output: self.nodes[j].node_id,
                    weight: weight,
                    status: true,
                },
            ),
            ..placed
        }
    }

    /// The node at position `i` may be joined to some node.
    pub open spec fn has_target(self, i: int) -> bool {
        exists|j: int| self.can_link(i, j)
    }

    /// No pair of nodes can be joined any more.
    pub open spec fn saturated(self) -> bool {
        forall|i: int, j: int| !self.can_link(i, j)
    }

    /// Joining an admissible pair keeps a well-formed topology well formed.
    pub proof fn lemma_with_link_wf(self, i: int, j: int, weight: u32)
        requires
            self.wf(),
            self.layers < u32::MAX,
            self.can_link(i, j),
        ensures
            self.with_link(i, j, weight).wf(),
            self.same_ids(self.with_link(i, j, weight)),
    {
        let after = self.with_link(i, j, weight);
        let last = self.connections.len() as int;
        self.lemma_same_slots(after);
        self.lemma_slot(i);
        self.lemma_slot(j);
        assert(after.kinds_valid());
        assert(after.layers_bounded());
        assert forall|k: int| 0 <= k < after.connections.len() implies #[trigger] after.link_forward(
            k,
        ) by {
            if k < last {
                assert(self.link_forward(k));
                let c = self.connections[k];
                self.lemma_slot_valid(c.input);
                self.lemma_slot_valid(c.output);
            }
        }
        assert forall|k: int, m: int|
            0 <= k < after.connections.len() && 0 <= m < after.connections.len() && k != m implies !((
        #[trigger] after.connections[k]).input == (#[trigger] after.connections[m]).input
            && after.connections[k].output == after.connections[m].output) by {
            if k < last && m < last {
                assert(self.connections[k].input != self.connections[m].input
                    || self.connections[k].output != self.connections[m].output);
            }
        }
        assert forall|x: int|
            0 <= x < after.nodes.len() && (#[trigger] after.nodes[x]).subtype
                == HIDDEN implies after.feeds(after.nodes[x].node_id) by {
            assert(self.nodes[x].subtype == HIDDEN);
            assert(self.feeds(self.nodes[x].node_id));
            let k = choose|k: int|
                0 <= k < self.connections.len() && (#[trigger] self.connections[k]).input
                    == self.nodes[x].node_id;
            assert(after.connections[k].input == after.nodes[x].node_id);
        }
    }
}

impl NeatBrain {
    /// Whether some connection runs from the node `input` to the node
    /// `output`.
    pub fn is_linked(&self, input: usize, output: usize) -> (found: bool)
        ensures
            found == self@.linked(input, output),
    {
        let mut k: usize = 0;
        while k < self.connections.len()
            invariant
                k <= self.connections@.len(),
                forall|m: int|
                    0 <= m < k ==> !((#[trigger] self.connections@[m]).input == input
                        && self.connections@[m].output == output),
            decreases self.connections@.len() - k,
        {
            if self.connections[k].input == input && self.connections[k].output == output {
                assert(self@.connections[k as int].input == input);
                return true;
            }
            k += 1;
        }
        false
    }

    /// Joins the node `input` to the node `output` by a new, enabled
    /// connection of the given weight, if such a connection may be added;
    /// otherwise changes nothing and returns `false`.
    ///
    /// When the two nodes share a layer, a fresh layer is opened above it
    /// and the target moves there.  The counter advances by one for every
    /// connection made.
    pub fn connect(
        &mut self,
        innovation_num: &mut usize,
        input: usize,
        output: usize,
        weight: u32,
    ) -> (made: bool)
        requires
            old(self)@.wf(),
            old(self).layers < u32::MAX,
            *old(innovation_num) < usize::MAX,
        ensures
            made == old(self)@.can_link_ids(input, output),
            made ==> final(self)@ == old(self)@.with_link(
                old(self)@.slot(input),
                old(self)@.slot(output),
                weight,
            ) && *final(innovation_num) == *old(innovation_num) + 1,
            !made ==> final(self)@ == old(self)@ && *final(innovation_num) == *old(innovation_num),
            final(self)@.wf(),
            old(self)@.same_ids(final(self)@),
    {
        let ghost before = self@;
        let i: usize = match self.position(input) {
            Some(i) => i,
            None => { return false; },
        };
        let j: usize = match self.position(output) {
            Some(j) => j,
            None => { return false; },
        };
        proof {
            before.lemma_slot(i as int);
            before.lemma_slot(j as int);
        }
        if i == j || self.nodes[i].subtype == OUTPUT || self.nodes[j].subtype == SENSOR
            || self.nodes[j].layer < self.nodes[i].layer || self.is_linked(input, output) {
            return false;
        }
        proof {
            before.lemma_with_link_wf(i as int, j as int, weight);
        }
        let link_id: u32 = (#[verifier::truncate] (self.connections.len() as u32)).wrapping_add(1);
        if self.nodes[i].layer == self.nodes[j].layer {
            self.update_layers(output);
            let moved: Node = Node { layer: self.nodes[j].layer + 1, ..self.nodes[j] };
            self.nodes[j] = moved;
        }
        *innovation_num += 1;
        self.connections.push(
            Connection {
                connection_id: link_id,
                input: input,
                output: output,
                weight: weight,
                status: true,
            },
        );
        assert(self@.nodes =~= before.with_link(i as int, j as int, weight).nodes);
        true
    }

    /// Positions of the nodes to which the node at position `i` may be
    /// joined, in ascending order.
    pub fn targets(&self, i: usize) -> (found: Vec<usize>)
        ensures
            forall|t: int|
                0 <= t < found@.len() ==> self@.can_link(i as int, #[trigger] found@[t] as int),
            forall|j: int| self@.can_link(i as int, j) ==> found@.contains(j as usize),
            forall|s: int, t: int| 0 <= s < t < found@.len() ==> found@[s] < found@[t],
    {
        let mut found: Vec<usize> = Vec::new();
        if i >= self.nodes.len() || self.nodes[i].subtype == OUTPUT {
            return found;
        }
        let mut j: usize = 0;
        while j < self.nodes.len()
            invariant
                j <= self.nodes@.len(),
                i < self.nodes@.len(),
                self.nodes@[i as int].subtype != OUTPUT,
                forall|t: int|
                    0 <= t < found@.len() ==> self@.can_link(i as int, #[trigger] found@[t] as int),
                forall|x: int|
                    0 <= x < j && self@.can_link(i as int, x) ==> found@.contains(x as usize),
                forall|t: int| 0 <= t < found@.len() ==> #[trigger] found@[t] < j,
                forall|s: int, t: int| 0 <= s < t < found@.len() ==> found@[s] < found@[t],
            decreases self.nodes@.len() - j,
        {
            if j != i && self.nodes[j].subtype != SENSOR && self.nodes[j].layer
                >= self.nodes[i].layer && !self.is_linked(
                self.nodes[i].node_id,
                self.nodes[j].node_id,
            ) {
                let ghost earlier = found@;
                found.push(j);
                proof {
                    assert forall|x: int|
                        0 <= x < j + 1 && self@.can_link(i as int, x) implies found@.contains(
                        x as usize,
                    ) by {
                        if x < j {
                            let t = earlier.index_of(x as usize);
                            assert(found@[t] == x as usize);
                        } else {
                            assert(found@[earlier.len() as int] == j);
                        }
                    }
                }
            }
            j += 1;
        }
        found
    }
    /// Positions of the nodes that may be joined to some node, in
    /// ascending order.
    pub fn sources(&self) -> (found: Vec<usize>)
        ensures
            forall|t: int| 0 <= t < found@.len() ==> self@.has_target(#[trigger] found@[t] as int),
            forall|i: int| self@.has_target(i) ==> found@.contains(i as usize),
            forall|s: int, t: int| 0 <= s < t < found@.len() ==> found@[s] < found@[t],
    {
        let mut found: Vec<usize> = Vec::new();
        let mut i: usize = 0;
        while i < self.nodes.len()
            invariant
                i <= self.nodes@.len(),
                forall|t: int|
                    0 <= t < found@.len() ==> self@.has_target(#[trigger] found@[t] as int),
                forall|x: int| 0 <= x < i && self@.has_target(x) ==> found@.contains(x as usize),
                forall|t: int| 0 <= t < found@.len() ==> #[trigger] found@[t] < i,
                forall|s: int, t: int| 0 <= s < t < found@.len() ==> found@[s] < found@[t],
            decreases self.nodes@.len() - i,
        {
            let reach: Vec<usize> = self.targets(i);
            if reach.len() > 0 {
                let ghost earlier = found@;
                found.push(i);
                proof {
                    assert(self@.can_link(i as int, reach@[0] as int));
                    assert forall|x: int|
                        0 <= x < i + 1 && self@.has_target(x) implies found@.contains(
                        x as usize,
                    ) by {
                        if x < i {
                            let t = earlier.index_of(x as usize);
                            assert(found@[t] == x as usize);
                        } else {
                            assert(found@[earlier.len() as int] == i);
                        }
                    }
                }
            } else {
                proof {
                    if self@.has_target(i as int) {
                        let j = choose|j: int| self@.can_link(i as int, j);
                        assert(reach@.contains(j as usize));
                    }
                }
            }
            i += 1;
        }
        found
    }

    /// Adds one connection of the given weight between a pair of nodes
    /// chosen at random among those that may be joined: the source
    /// uniformly among the nodes that have a target, the target uniformly
    /// among the targets of that source.
    ///
    /// Fails, changing nothing, exactly when no pair can be joined.
    pub fn new_connection(&mut self, innovation_num: &mut usize, weight: u32) -> (made: Result<
        (),
        SelectionError,
    >)
        requires
            old(self)@.wf(),
            old(self).layers < u32::MAX,
            *old(innovation_num) < usize::MAX,
        ensures
            made is Ok <==> !old(self)@.saturated(),
            made is Ok ==> *final(innovation_num) == *old(innovation_num) + 1 && exists|
                i: int,
                j: int,
            |
                old(self)@.can_link(i, j) && final(self)@ == #[trigger] old(self)@.with_link(
                    i,
                    j,
                    weight,
                ),
            made is Err ==> final(self)@ == old(self)@ && *final(innovation_num) == *old(
                innovation_num,
            ),
            final(self)@.wf(),
            old(self)@.same_ids(final(self)@),
    {
        let from: Vec<usize> = self.sources();
        if from.len() == 0 {
            proof {
                assert forall|i: int, j: int| !self@.can_link(i, j) by {
                    if self@.can_link(i, j) {
                        assert(self@.has_target(i));
                        assert(from@.contains(i as usize));
                    }
                }
            }
            return Err(SelectionError::TopologyExhausted);
        }
        let i: usize = from[draw_below(from.len())];
        let to: Vec<usize> = self.targets(i);
        proof {
            assert(self@.has_target(i as int));
            let j = choose|j: int| self@.can_link(i as int, j);
            assert(to@.contains(j as usize));
        }
        let j: usize = to[draw_below(to.len())];
        proof {
            assert(self@.can_link(i as int, j as int));
            self@.lemma_slot(i as int);
            self@.lemma_slot(j as int);
        }
        let input: usize = self.nodes[i].node_id;
        let output: usize = self.nodes[j].node_id;
        self.connect(innovation_num, input, output, weight);
        Ok(())
    }
}

} // verus!
