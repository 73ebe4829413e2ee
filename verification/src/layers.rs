//! Layer assignment: the two renumbering passes that keep every connection
//! climbing from a lower layer to a higher one.

use crate::model::{NeatBrain, Node, Topology, HIDDEN, OUTPUT, SENSOR};
use vstd::prelude::*;

verus! {

impl Topology {
    /// The same nodes with a fresh, empty layer opened just above `layer`:
    /// every node higher than `layer` moves up by one.
    pub open spec fn opened_above(self, layer: u32) -> Topology {
        Topology {
            nodes: Seq::new(
                self.nodes.len(),
                |i: int|
                    if self.nodes[i].layer > layer {
                        Node { layer: (self.nodes[i].layer + 1) as u32, ..self.nodes[i] }
                    } else {
                        self.nodes[i]
                    },
            ),
            connections: self.connections,
            layers: (self.layers + 1) as u32,
        }
    }

    /// Node `i` is pushed up when a neighbour is about to sit on `layer`
    /// right below the node `id`: either it is that node and sits on `layer`
    /// itself, or a hidden node one layer below that feeds it is pushed.
    pub open spec fn pushed(self, layer: u32, id: usize, i: int) -> bool
        decreases self.nodes[i].layer,
    {
        ||| self.nodes[i].node_id == id && self.nodes[i].layer == layer
        ||| exists|k: int|
            {
                &&& 0 <= k < self.connections.len()
                &&& (#[trigger] self.connections[k]).output == self.nodes[i].node_id
                &&& self.has_node(self.connections[k].input)
                &&& self.node(self.connections[k].input).subtype == HIDDEN
                &&& self.node(self.connections[k].input).layer + 1 == self.nodes[i].layer
                &&& self.pushed(layer, id, self.slot(self.connections[k].input))
            }
    }

    /// Some output node is pushed.
    pub open spec fn top_pushed(self, layer: u32, id: usize) -> bool {
        exists|j: int|
            0 <= j < self.nodes.len() && (#[trigger] self.nodes[j]).subtype == OUTPUT
                && self.pushed(layer, id, j)
    }

    /// Node `i` moves up by one: a hidden node when it is pushed, an output
    /// when any output is pushed (outputs move together), a sensor never.
    pub open spec fn lifted(self, layer: u32, id: usize, i: int) -> bool {
        if self.nodes[i].subtype == HIDDEN {
            self.pushed(layer, id, i)
        } else if self.nodes[i].subtype == OUTPUT {
            self.top_pushed(layer, id)
        } else {
            false
        }
    }

    /// The topology after making room on `layer` below the node `id`.
    pub open spec fn bumped(self, layer: u32, id: usize) -> Topology {
        Topology {
            nodes: Seq::new(
                self.nodes.len(),
                |i: int|
                    if self.lifted(layer, id, i) {
                        Node { layer: (self.nodes[i].layer + 1) as u32, ..self.nodes[i] }
                    } else {
                        self.nodes[i]
                    },
            ),
            connections: self.connections,
            layers: if self.top_pushed(layer, id) {
                (self.layers + 1) as u32
            } else {
                self.layers
            },
        }
    }
}

impl Topology {
    /// In `cur`, node `i` sits one layer above its place in `self`.
    spec fn raised(self, cur: Topology, i: int) -> bool {
        cur.nodes[i].layer == self.nodes[i].layer + 1
    }

    /// `cur` is a stage on the way from `self` to `self.bumped(layer, id)`:
    /// the same graph, each node raised at most once and only when the
    /// result raises it, outputs raised together with the layer count.
    spec fn bumping(self, cur: Topology, layer: u32, id: usize) -> bool {
        &&& cur.nodes.len() == self.nodes.len()
        &&& cur.connections == self.connections
        &&& forall|i: int|
            0 <= i < self.nodes.len() ==> {
                let a = self.nodes[i];
                let b = #[trigger] cur.nodes[i];
                &&& b.node_id == a.node_id
                &&& b.subtype == a.subtype
                &&& b.value == a.value
                &&& (b.layer == a.layer || b.layer == a.layer + 1)
                &&& (b.layer == a.layer + 1 ==> self.lifted(layer, id, i))
                &&& (a.subtype == OUTPUT ==> (b.layer == a.layer + 1 <==> cur.layers
                    == self.layers + 1))
            }
        &&& (cur.layers == self.layers || (cur.layers == self.layers + 1 && self.top_pushed(
            layer,
            id,
        )))
    }

    /// If the hidden node `p` is raised in `cur`, so is every node that it
    /// feeds from directly below.
    spec fn settled(self, cur: Topology, p: int) -> bool {
        self.nodes[p].subtype == HIDDEN && self.raised(cur, p) ==> forall|k: int|
            0 <= k < self.connections.len() && (#[trigger] self.connections[k]).input
                == self.nodes[p].node_id && self.node(self.connections[k].output).layer
                == self.nodes[p].layer + 1 ==> self.raised(
                cur,
                self.slot(self.connections[k].output),
            )
    }

    /// Raising more nodes keeps a node settled, as long as the node itself
    /// is not newly raised.
    proof fn lemma_settled_kept(self, a: Topology, b: Topology, p: int)
        requires
            self.settled(a, p),
            self.nodes[p].subtype == HIDDEN && self.raised(b, p) ==> self.raised(a, p),
            forall|i: int| 0 <= i < self.nodes.len() && self.raised(a, i) ==> self.raised(b, i),
            self.links_forward(),
        ensures
            self.settled(b, p),
    {
        if self.nodes[p].subtype == HIDDEN && self.raised(b, p) {
            assert forall|k: int|
                0 <= k < self.connections.len() && (#[trigger] self.connections[k]).input
                    == self.nodes[p].node_id && self.node(self.connections[k].output).layer
                    == self.nodes[p].layer + 1 implies self.raised(
                b,
                self.slot(self.connections[k].output),
            ) by {
                assert(self.link_forward(k));
                self.lemma_slot_valid(self.connections[k].output);
            }
        }
    }

    /// In a finished stage every pushed node that is no sensor is raised.
    proof fn lemma_pushed_raised(self, cur: Topology, layer: u32, id: usize, i: int)
        requires
            self.wf(),
            self.bumping(cur, layer, id),
            forall|p: int| 0 <= p < self.nodes.len() ==> self.settled(cur, p),
            self.has_node(id) && self.node(id).layer == layer && self.node(id).subtype != SENSOR
                ==> self.raised(cur, self.slot(id)),
            0 <= i < self.nodes.len(),
            self.pushed(layer, id, i),
            self.nodes[i].subtype != SENSOR,
        ensures
            self.raised(cur, i),
        decreases self.nodes[i].layer,
    {
        self.lemma_slot(i);
        if self.nodes[i].node_id == id && self.nodes[i].layer == layer {
        } else {
            let k = choose|k: int|
                {
                    &&& 0 <= k < self.connections.len()
                    &&& (#[trigger] self.connections[k]).output == self.nodes[i].node_id
                    &&& self.has_node(self.connections[k].input)
                    &&& self.node(self.connections[k].input).subtype == HIDDEN
                    &&& self.node(self.connections[k].input).layer + 1 == self.nodes[i].layer
                    &&& self.pushed(layer, id, self.slot(self.connections[k].input))
                };
            let p = self.slot(self.connections[k].input);
            self.lemma_slot_valid(self.connections[k].input);
            self.lemma_pushed_raised(cur, layer, id, p);
            assert(self.settled(cur, p));
        }
    }

    /// A finished stage is the bumped topology.
    proof fn lemma_bump_complete(self, cur: Topology, layer: u32, id: usize)
        requires
            self.wf(),
            self.bumping(cur, layer, id),
            forall|p: int| 0 <= p < self.nodes.len() ==> self.settled(cur, p),
            self.has_node(id) && self.node(id).layer == layer && self.node(id).subtype != SENSOR
                ==> self.raised(cur, self.slot(id)),
        ensures
            cur == self.bumped(layer, id),
    {
        let goal = self.bumped(layer, id);
        if self.top_pushed(layer, id) {
            let j = choose|j: int|
                0 <= j < self.nodes.len() && (#[trigger] self.nodes[j]).subtype == OUTPUT
                    && self.pushed(layer, id, j);
            self.lemma_pushed_raised(cur, layer, id, j);
            assert(cur.nodes[j].layer == self.nodes[j].layer + 1);
        }
        assert(cur.layers == goal.layers);
        assert forall|i: int| 0 <= i < self.nodes.len() implies cur.nodes[i] == goal.nodes[i] by {
            let b = cur.nodes[i];
            if self.lifted(layer, id, i) {
                if self.nodes[i].subtype == HIDDEN {
                    self.lemma_pushed_raised(cur, layer, id, i);
                } else {
                    assert(b.layer == self.nodes[i].layer + 1);
                }
            }
        }
        assert(cur.nodes =~= goal.nodes);
    }
}

impl Topology {
    /// A pushed hidden node pushes every node that it feeds from directly
    /// below.
    pub proof fn lemma_push_spreads(self, layer: u32, id: usize, k: int)
        requires
            self.wf(),
            0 <= k < self.connections.len(),
            self.node(self.connections[k].input).subtype == HIDDEN,
            self.pushed(layer, id, self.slot(self.connections[k].input)),
            self.node(self.connections[k].input).layer + 1 == self.node(
                self.connections[k].output,
            ).layer,
        ensures
            self.pushed(layer, id, self.slot(self.connections[k].output)),
            self.lifted(layer, id, self.slot(self.connections[k].output)),
    {
        assert(self.link_forward(k));
        self.lemma_slot_valid(self.connections[k].output);
        let i = self.slot(self.connections[k].output);
        assert(self.connections[k].output == self.nodes[i].node_id);
    }

    /// Bumping keeps a well-formed topology well formed.
    pub proof fn lemma_bumped_wf(self, layer: u32, id: usize)
        requires
            self.wf(),
            self.layers < u32::MAX,
        ensures
            self.bumped(layer, id).wf(),
            self.same_ids(self.bumped(layer, id)),
    {
        let after = self.bumped(layer, id);
        self.lemma_same_slots(after);
        assert(after.kinds_valid());
        assert(after.links_distinct());
        assert forall|i: int| 0 <= i < after.nodes.len() implies {
            let n = #[trigger] after.nodes[i];
            &&& 1 <= n.layer <= after.layers
            &&& n.subtype == OUTPUT <==> n.layer == after.layers
        } by {
            let n = self.nodes[i];
            if n.subtype == HIDDEN && !self.top_pushed(layer, id) && self.pushed(layer, id, i) {
                self.lemma_slot(i);
                assert(self.feeds(n.node_id));
                let k = choose|k: int|
                    0 <= k < self.connections.len() && (#[trigger] self.connections[k]).input
                        == n.node_id;
                assert(self.link_forward(k));
                self.lemma_slot_valid(self.connections[k].output);
                if n.layer + 1 == self.node(self.connections[k].output).layer {
                    self.lemma_push_spreads(layer, id, k);
                }
            }
        }
        assert forall|k: int| 0 <= k < after.connections.len() implies #[trigger] after.link_forward(
            k,
        ) by {
            assert(self.link_forward(k));
            let c = self.connections[k];
            self.lemma_slot_valid(c.input);
            self.lemma_slot_valid(c.output);
            if self.lifted(layer, id, self.slot(c.input)) && self.node(c.input).layer + 1
                == self.node(c.output).layer {
                self.lemma_push_spreads(layer, id, k);
            }
        }
        assert forall|i: int|
            0 <= i < after.nodes.len() && (#[trigger] after.nodes[i]).subtype
                == HIDDEN implies after.feeds(after.nodes[i].node_id) by {
            assert(self.nodes[i].subtype == HIDDEN);
            assert(self.feeds(self.nodes[i].node_id));
            let k = choose|k: int|
                0 <= k < self.connections.len() && (#[trigger] self.connections[k]).input
                    == self.nodes[i].node_id;
            assert(after.connections[k].input == after.nodes[i].node_id);
        }
    }
}

impl NeatBrain {
    /// Opens a fresh layer just above the node `output`: every node on a
    /// higher layer moves up by one and the layer count grows by one.  An
    /// identifier that no node carries changes nothing.
    pub fn update_layers(&mut self, output: usize)
        requires
            old(self)@.ids_distinct(),
            old(self)@.layers_bounded(),
            old(self).layers < u32::MAX,
        ensures
            old(self)@.has_node(output) ==> final(self)@ == old(self)@.opened_above(
                old(self)@.node(output).layer,
            ),
            !old(self)@.has_node(output) ==> final(self)@ == old(self)@,
    {
        match self.position(output) {
            Some(at) => {
                proof {
                    self@.lemma_slot(at as int);
                }
                let level: u32 = self.nodes[at].layer;
                let ghost before = self@;
                let mut i: usize = 0;
                while i < self.nodes.len()
                    invariant
                        i <= self.nodes@.len(),
                        self.nodes@.len() == before.nodes.len(),
                        self.connections@ == before.connections,
                        self.layers == before.layers,
                        before.layers < u32::MAX,
                        before.layers_bounded(),
                        forall|j: int|
                            0 <= j < i ==> #[trigger] self.nodes@[j] == before.opened_above(
                                level,
                            ).nodes[j],
                        forall|j: int|
                            i <= j < self.nodes@.len() ==> #[trigger] self.nodes@[j]
                                == before.nodes[j],
                    decreases self.nodes@.len() - i,
                {
                    if self.nodes[i].layer > level {
                        let lifted: Node = Node { layer: self.nodes[i].layer + 1, ..self.nodes[i] };
                        self.nodes[i] = lifted;
                    }
                    i += 1;
                }
                self.layers += 1;
                assert(self@.nodes =~= before.opened_above(level).nodes);
            },
            None => {},
        }
    }
    /// Makes room on layer `new_node_layer` below the node `output_node_id`.
    ///
    /// If that node sits on `new_node_layer` it moves up by one.  A hidden
    /// node then pushes, in the same way, every node it feeds; an output
    /// takes all outputs with it and the layer count grows by one.  Nodes
    /// move only along connections, never merely because their layer number
    /// is higher.
    pub fn bump_layers(&mut self, new_node_layer: u32, output_node_id: usize)
        requires
            old(self)@.wf(),
            old(self)@.has_node(output_node_id),
            old(self).layers < u32::MAX,
        ensures
            final(self)@ == old(self)@.bumped(new_node_layer, output_node_id),
            final(self)@.wf(),
    {
        let ghost before = self@;
        proof {
            before.lemma_bumped_wf(new_node_layer, output_node_id);
        }
        self.lift(
            new_node_layer,
            output_node_id,
            Ghost(before),
            Ghost(new_node_layer),
            Ghost(output_node_id),
        );
        proof {
            before.lemma_bump_complete(self@, new_node_layer, output_node_id);
        }
    }

    /// One step of [`NeatBrain::bump_layers`], started on `before` with the
    /// request `(goal_layer, goal_id)`: raises the node `id` if it sits on
    /// `layer`, and whatever that pushes.
    fn lift(
        &mut self,
        layer: u32,
        id: usize,
        Ghost(before): Ghost<Topology>,
        Ghost(goal_layer): Ghost<u32>,
        Ghost(goal_id): Ghost<usize>,
    )
        requires
            before.wf(),
            before.layers < u32::MAX,
            before.bumping(old(self)@, goal_layer, goal_id),
            before.has_node(id),
            old(self)@.nodes[before.slot(id)].layer == layer ==> {
                &&& before.node(id).layer == layer
                &&& before.node(id).subtype != SENSOR ==> before.pushed(
                    goal_layer,
                    goal_id,
                    before.slot(id),
                )
            },
        ensures
            before.bumping(final(self)@, goal_layer, goal_id),
            forall|p: int|
                0 <= p < before.nodes.len() && before.settled(old(self)@, p) ==> before.settled(
                    final(self)@,
                    p,
                ),
            forall|i: int|
                0 <= i < before.nodes.len() && before.raised(old(self)@, i) ==> before.raised(
                    final(self)@,
                    i,
                ),
            before.node(id).layer == layer && before.node(id).subtype != SENSOR ==> before.raised(
                final(self)@,
                before.slot(id),
            ),
        decreases before.layers - layer,
    {
        let ghost entry = self@;
        proof {
            before.lemma_same_slots(entry);
            before.lemma_slot_valid(id);
        }
        let at: usize = self.locate(id);
        let node: Node = self.nodes[at];
        if node.layer == layer {
            if node.subtype == HIDDEN {
                self.nodes[at] = Node { layer: layer + 1, ..node };
                proof {
                    assert forall|p: int|
                        0 <= p < before.nodes.len() && p != at && before.settled(
                            entry,
                            p,
                        ) implies before.settled(self@, p) by {
                        before.lemma_settled_kept(entry, self@, p);
                    }
                }
                let mut k: usize = 0;
                while k < self.connections.len()
                    invariant
                        before.wf(),
                        before.layers < u32::MAX,
                        before.has_node(id),
                        before.slot(id) == at,
                        before.nodes[at as int].subtype == HIDDEN,
                        before.nodes[at as int].layer == layer,
                        before.nodes[at as int].node_id == id,
                        before.pushed(goal_layer, goal_id, at as int),
                        before.bumping(entry, goal_layer, goal_id),
                        before.bumping(self@, goal_layer, goal_id),
                        before.raised(self@, at as int),
                        k <= self.connections@.len(),
                        forall|p: int|
                            0 <= p < before.nodes.len() && p != at && before.settled(entry, p)
                                ==> before.settled(self@, p),
                        forall|i: int|
                            0 <= i < before.nodes.len() && before.raised(entry, i)
                                ==> before.raised(self@, i),
                        forall|m: int|
                            0 <= m < k && (#[trigger] before.connections[m]).input == id
                                && before.node(before.connections[m].output).layer == layer + 1
                                ==> before.raised(self@, before.slot(before.connections[m].output)),
                    decreases self.connections@.len() - k,
                {
                    if self.connections[k].input == id {
                        let next: usize = self.connections[k].output;
                        let ghost mid = self@;
                        proof {
                            assert(before.link_forward(k as int));
                            before.lemma_slot_valid(next);
                        }
                        self.lift(
                            layer + 1,
                            next,
                            Ghost(before),
                            Ghost(goal_layer),
                            Ghost(goal_id),
                        );
                        proof {
                            assert forall|m: int|
                                0 <= m < k && (#[trigger] before.connections[m]).input == id
                                    && before.node(before.connections[m].output).layer == layer
                                    + 1 implies before.raised(
                                self@,
                                before.slot(before.connections[m].output),
                            ) by {
                                assert(before.link_forward(m));
                                before.lemma_slot_valid(before.connections[m].output);
                                assert(before.raised(
                                    mid,
                                    before.slot(before.connections[m].output),
                                ));
                            }
                        }
                    }
                    k += 1;
                }
            } else if node.subtype == OUTPUT {
                let mut i: usize = 0;
                while i < self.nodes.len()
                    invariant
                        i <= self.nodes@.len(),
                        self.nodes@.len() == entry.nodes.len(),
                        self.connections@ == entry.connections,
                        self.layers == entry.layers,
                        forall|j: int|
                            0 <= j < i ==> #[trigger] self.nodes@[j] == (if entry.nodes[j].subtype
                                == OUTPUT {
                                Node { layer: (entry.nodes[j].layer + 1) as u32, ..entry.nodes[j] }
                            } else {
                                entry.nodes[j]
                            }),
                        forall|j: int|
                            i <= j < self.nodes@.len() ==> #[trigger] self.nodes@[j]
                                == entry.nodes[j],
                        forall|j: int|
                            0 <= j < entry.nodes.len() ==> (#[trigger] entry.nodes[j]).layer
                                < u32::MAX,
                    decreases self.nodes@.len() - i,
                {
                    if self.nodes[i].subtype == OUTPUT {
                        let up: Node = Node { layer: self.nodes[i].layer + 1, ..self.nodes[i] };
                        self.nodes[i] = up;
                    }
                    i += 1;
                }
                self.layers += 1;
                proof {
                    assert(before.top_pushed(goal_layer, goal_id));
                    assert forall|p: int|
                        0 <= p < before.nodes.len() && before.settled(
                            entry,
                            p,
                        ) implies before.settled(self@, p) by {
                        before.lemma_settled_kept(entry, self@, p);
                    }
                }
            }
        }
    }
}

} // verus!
