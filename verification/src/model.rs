//! The data model: nodes, connections, the brain that owns them, and the
//! mathematical view over which every contract of the crate is stated.

use vstd::prelude::*;

verus! {

/// Conventional first reading of an innovation counter.
pub const INNOVATION_NUM: usize = 1;

/// Kind tag of a node that receives an external input value.
pub const SENSOR: u32 = 0;

/// Kind tag of an internal node created by splitting a connection.
pub const HIDDEN: u32 = 1;

/// Kind tag of a node whose value is part of the network's result.
pub const OUTPUT: u32 = 2;

/// Bit pattern of the weight `1.0`.
pub const UNIT_WEIGHT: u32 = 0x3f80_0000;

/// A vertex of the network graph.
#[derive(Clone, Copy, Debug)]
pub struct Node {
    /// Identifier, unique within a brain and issued by the shared counter.
    pub node_id: usize,
    /// One of [`SENSOR`], [`HIDDEN`], [`OUTPUT`].
    pub subtype: u32,
    /// Topological rank; connections run from lower to higher layers.
    pub layer: u32,
    /// Bit pattern of the activation stored by the last evaluation.
    pub value: u32,
}

/// A directed, weighted edge between two nodes, named by their identifiers.
#[derive(Clone, Copy, Debug)]
pub struct Connection {
    /// Number given at creation; it need not be unique.
    pub connection_id: u32,
    /// Identifier of the node the connection reads from.
    pub input: usize,
    /// Identifier of the node the connection feeds.
    pub output: usize,
    /// Bit pattern of the weight.
    pub weight: u32,
    /// `true` while the connection takes part in evaluation.
    pub status: bool,
}

/// A network whose structure grows by mutation.
#[derive(Clone, Debug)]
pub struct NeatBrain {
    /// Nodes in insertion order.
    pub nodes: Vec<Node>,
    /// Connections in insertion order; they are disabled, never removed.
    pub connections: Vec<Connection>,
    /// Number of layers in use: the highest layer any node sits on.
    pub layers: u32,
}

/// Why a random selection could not be made.
#[derive(Clone, Copy, Debug, PartialEq, Eq, Structural)]
pub enum SelectionError {
    /// The set of candidates to choose from is empty.
    TopologyExhausted,
}

/// The mathematical content of a [`NeatBrain`].
pub struct Topology {
    pub nodes: Seq<Node>,
    pub connections: Seq<Connection>,
    pub layers: u32,
}

impl View for NeatBrain {
    type V = Topology;

    open spec fn view(&self) -> Topology {
        Topology { nodes: self.nodes@, connections: self.connections@, layers: self.layers }
    }
}

impl Topology {
    /// Some node carries the identifier `id`.
    pub open spec fn has_node(self, id: usize) -> bool {
        exists|i: int| 0 <= i < self.nodes.len() && (#[trigger] self.nodes[i]).node_id == id
    }

    /// Position of a node that carries the identifier `id`.
    pub open spec fn slot(self, id: usize) -> int {
        choose|i: int| 0 <= i < self.nodes.len() && (#[trigger] self.nodes[i]).node_id == id
    }

    /// The node that carries the identifier `id`.
    pub open spec fn node(self, id: usize) -> Node {
        self.nodes[self.slot(id)]
    }

    /// Every node is a sensor, a hidden node or an output.
    pub open spec fn kinds_valid(self) -> bool {
        forall|i: int| 0 <= i < self.nodes.len() ==> (#[trigger] self.nodes[i]).subtype <= OUTPUT
    }

    /// No identifier is carried by two nodes.
    pub open spec fn ids_distinct(self) -> bool {
        forall|i: int, j: int|
            0 <= i < self.nodes.len() && 0 <= j < self.nodes.len() && i != j ==> (
            #[trigger] self.nodes[i]).node_id != (#[trigger] self.nodes[j]).node_id
    }

    /// Layers start at one, outputs fill the top layer and nothing else
    /// reaches it.
    pub open spec fn layers_bounded(self) -> bool {
        forall|i: int|
            0 <= i < self.nodes.len() ==> {
                let n = #[trigger] self.nodes[i];
                &&& 1 <= n.layer <= self.layers
                &&& n.subtype == OUTPUT <==> n.layer == self.layers
            }
    }

    /// Connection `k` joins two existing nodes, leaves a node that is no
    /// output, enters a node that is no sensor, and climbs at least one layer.
    pub open spec fn link_forward(self, k: int) -> bool {
        let c = self.connections[k];
        &&& self.has_node(c.input)
        &&& self.has_node(c.output)
        &&& self.node(c.input).subtype != OUTPUT
        &&& self.node(c.output).subtype != SENSOR
        &&& self.node(c.input).layer < self.node(c.output).layer
    }

    pub open spec fn links_forward(self) -> bool {
        forall|k: int| 0 <= k < self.connections.len() ==> #[trigger] self.link_forward(k)
    }

    /// Some connection runs from `input` to `output`.
    pub open spec fn linked(self, input: usize, output: usize) -> bool {
        exists|k: int|
            0 <= k < self.connections.len() && (#[trigger] self.connections[k]).input == input
                && self.connections[k].output == output
    }

    /// No ordered pair of nodes is joined twice.
    pub open spec fn links_distinct(self) -> bool {
        forall|k: int, m: int|
            0 <= k < self.connections.len() && 0 <= m < self.connections.len() && k != m ==> !((
            #[trigger] self.connections[k]).input == (#[trigger] self.connections[m]).input
                && self.connections[k].output == self.connections[m].output)
    }

    /// Some connection leaves the node `id`.
    pub open spec fn feeds(self, id: usize) -> bool {
        exists|k: int|
            0 <= k < self.connections.len() && (#[trigger] self.connections[k]).input == id
    }

    /// Every hidden node feeds at least one other node.
    pub open spec fn hidden_feed(self) -> bool {
        forall|i: int|
            0 <= i < self.nodes.len() && (#[trigger] self.nodes[i]).subtype == HIDDEN
                ==> self.feeds(self.nodes[i].node_id)
    }

    /// Well-formedness: what construction establishes and every mutation
    /// preserves.
    pub open spec fn wf(self) -> bool {
        &&& self.kinds_valid()
        &&& self.ids_distinct()
        &&& self.layers_bounded()
        &&& self.links_forward()
        &&& self.links_distinct()
        &&& self.hidden_feed()
    }

    /// Every identifier in use was issued by a counter that now reads
    /// `counter`.
    pub open spec fn issued_by(self, counter: usize) -> bool {
        forall|i: int| 0 <= i < self.nodes.len() ==> (#[trigger] self.nodes[i]).node_id <= counter
    }

    /// With distinct identifiers, the slot of a node's identifier is the
    /// node's own position.
    pub proof fn lemma_slot(self, i: int)
        requires
            self.ids_distinct(),
            0 <= i < self.nodes.len(),
        ensures
            self.has_node(self.nodes[i].node_id),
            self.slot(self.nodes[i].node_id) == i,
    {
    }

    /// The slot of an identifier in use is a position that carries it.
    pub proof fn lemma_slot_valid(self, id: usize)
        requires
            self.has_node(id),
        ensures
            0 <= self.slot(id) < self.nodes.len(),
            self.nodes[self.slot(id)].node_id == id,
    {
    }

    /// `other` carries the same identifiers at the same positions.
    pub open spec fn same_ids(self, other: Topology) -> bool {
        &&& other.nodes.len() == self.nodes.len()
        &&& forall|i: int|
            0 <= i < self.nodes.len() ==> (#[trigger] other.nodes[i]).node_id
                == self.nodes[i].node_id
    }

    /// Topologies with the same identifiers find every identifier at the
    /// same position.
    pub proof fn lemma_same_slots(self, other: Topology)
        requires
            self.ids_distinct(),
            self.same_ids(other),
        ensures
            other.ids_distinct(),
            forall|id: usize| self.has_node(id) <==> other.has_node(id),
            forall|id: usize| self.has_node(id) ==> self.slot(id) == other.slot(id),
    {
        assert forall|i: int, j: int|
            0 <= i < other.nodes.len() && 0 <= j < other.nodes.len() && i != j implies (
        #[trigger] other.nodes[i]).node_id != (#[trigger] other.nodes[j]).node_id by {
            assert(self.nodes[i].node_id != self.nodes[j].node_id);
        }
        assert forall|id: usize| self.has_node(id) implies other.has_node(id) && self.slot(id)
            == other.slot(id) by {
            let i = self.slot(id);
            assert(other.nodes[i].node_id == id);
            other.lemma_slot(i);
        }
        assert forall|id: usize| other.has_node(id) implies self.has_node(id) by {
            let i = other.slot(id);
            assert(self.nodes[i].node_id == id);
        }
    }

    /// Appending a node with an unused identifier leaves every identifier
    /// where it was.
    pub proof fn lemma_push_slots(self, after: Topology, node: Node)
        requires
            self.ids_distinct(),
            !self.has_node(node.node_id),
            after.nodes == self.nodes.push(node),
        ensures
            after.ids_distinct(),
            after.has_node(node.node_id),
            after.slot(node.node_id) == self.nodes.len(),
            forall|id: usize| self.has_node(id) ==> after.has_node(id) && after.slot(id) == self.slot(id),
    {
        let n = self.nodes.len() as int;
        assert forall|i: int, j: int|
            0 <= i < after.nodes.len() && 0 <= j < after.nodes.len() && i != j implies (
        #[trigger] after.nodes[i]).node_id != (#[trigger] after.nodes[j]).node_id by {
            if i < n && j < n {
                assert(self.nodes[i].node_id != self.nodes[j].node_id);
            } else if i < n {
                assert(self.nodes[i].node_id != node.node_id);
            } else {
                assert(self.nodes[j].node_id != node.node_id);
            }
        }
        assert(after.nodes[n].node_id == node.node_id);
        after.lemma_slot(n);
        assert forall|id: usize| self.has_node(id) implies after.has_node(id) && after.slot(id)
            == self.slot(id) by {
            let i = self.slot(id);
            assert(after.nodes[i].node_id == id);
            after.lemma_slot(i);
        }
    }
}

impl Node {
    /// Takes the next identifier from `innovation_num` and makes a node of
    /// the given kind on the given layer, with a stored value of zero.
    pub fn new(innovation_num: &mut usize, subtype: u32, node_layer: u32) -> (node: Node)
        requires
            *old(innovation_num) < usize::MAX,
        ensures
            *final(innovation_num) == *old(innovation_num) + 1,
            node == (Node {
                node_id: *final(innovation_num),
                subtype: subtype,
                layer: node_layer,
                value: 0,
            }),
    {
        *innovation_num += 1;
        Node { node_id: *innovation_num, subtype: subtype, layer: node_layer, value: 0 }
    }
}

impl NeatBrain {
    /// Position of the node that carries `id`, if there is one.
    pub fn position(&self, id: usize) -> (found: Option<usize>)
        ensures
            match found {
                Some(i) => i < self.nodes@.len() && self.nodes@[i as int].node_id == id
                    && forall|j: int| 0 <= j < i ==> (#[trigger] self.nodes@[j]).node_id != id,
                None => !self@.has_node(id),
            },
    {
        let mut i: usize = 0;
        while i < self.nodes.len()
            invariant
                i <= self.nodes@.len(),
                forall|j: int| 0 <= j < i ==> (#[trigger] self.nodes@[j]).node_id != id,
            decreases self.nodes@.len() - i,
        {
            if self.nodes[i].node_id == id {
                return Some(i);
            }
            i += 1;
        }
        None
    }

    /// Position of the node that carries `id`, for an identifier in use.
    pub(crate) fn locate(&self, id: usize) -> (at: usize)
        requires
            self@.has_node(id),
            self@.ids_distinct(),
        ensures
            at == self@.slot(id),
            at < self.nodes@.len(),
            self.nodes@[at as int].node_id == id,
    {
        match self.position(id) {
            Some(at) => {
                proof {
                    self@.lemma_slot(at as int);
                }
                at
            },
            None => vstd::pervasive::unreached(),
        }
    }
}

} // verus!
