//! Laws of the library: what holds of every well-formed brain, and how
//! evaluation behaves across calls and across a split.

use crate::eval::activation;
use crate::model::{Node, Topology, HIDDEN, OUTPUT, SENSOR, UNIT_WEIGHT};
use vstd::prelude::*;

verus! {

/// The order in which two inputs are added to a sum does not matter to `f`.
pub open spec fn order_free(f: spec_fn(u32, u32, u32) -> u32) -> bool {
    forall|sum: u32, v1: u32, w1: u32, v2: u32, w2: u32|
        #[trigger] f(f(sum, v1, w1), v2, w2) == f(f(sum, v2, w2), v1, w1)
}

impl Topology {
    /// `other` is `self` up to the values stored in the nodes.
    pub open spec fn same_structure(self, other: Topology) -> bool {
        &&& other.connections == self.connections
        &&& other.layers == self.layers
        &&& other.nodes.len() == self.nodes.len()
        &&& forall|i: int|
            0 <= i < self.nodes.len() ==> {
                let a = self.nodes[i];
                let b = #[trigger] other.nodes[i];
                b.node_id == a.node_id && b.subtype == a.subtype && b.layer == a.layer
            }
    }

    /// In a well-formed topology every connection climbs: its target is on
    /// a higher layer than its source, and so is no node joined to itself.
    pub proof fn lemma_connections_climb(self, k: int)
        requires
            self.wf(),
            0 <= k < self.connections.len(),
        ensures
            self.node(self.connections[k].output).layer >= self.node(
                self.connections[k].input,
            ).layer,
            self.connections[k].input != self.connections[k].output,
    {
        assert(self.link_forward(k));
    }

    /// In a well-formed topology no two nodes share an identifier and no
    /// two connections share both ends.
    pub proof fn lemma_names_distinct(self)
        requires
            self.wf(),
        ensures
            forall|i: int, j: int|
                0 <= i < j < self.nodes.len() ==> (#[trigger] self.nodes[i]).node_id != (
                #[trigger] self.nodes[j]).node_id,
            forall|k: int, m: int|
                0 <= k < m < self.connections.len() ==> ((#[trigger] self.connections[k]).input, (
                    self.connections[k]).output) != ((#[trigger] self.connections[m]).input, (
                    self.connections[m]).output),
    {
    }

    /// In a well-formed topology with an output node, the layer count is
    /// the highest layer in use.
    pub proof fn lemma_layer_count_is_highest(self, j: int)
        requires
            self.wf(),
            0 <= j < self.nodes.len(),
            self.nodes[j].subtype == OUTPUT,
        ensures
            self.nodes[j].layer == self.layers,
            forall|i: int| 0 <= i < self.nodes.len() ==> (#[trigger] self.nodes[i]).layer <= self.layers,
    {
    }

    /// Sensors are counted by kind alone.
    pub proof fn lemma_same_sensor_ranks(self, other: Topology, n: int)
        requires
            n <= self.nodes.len(),
            n <= other.nodes.len(),
            forall|i: int| 0 <= i < n ==> (#[trigger] other.nodes[i]).subtype == self.nodes[i].subtype,
        ensures
            other.sensors_before(n) == self.sensors_before(n),
        decreases n,
    {
        if n > 0 {
            self.lemma_same_sensor_ranks(other, n - 1);
        }
    }

    /// The value of a node does not depend on the values stored in the
    /// nodes.
    pub proof fn lemma_value_ignores_stored(
        self,
        other: Topology,
        inputs: Seq<u32>,
        f: spec_fn(u32, u32, u32) -> u32,
        i: int,
    )
        requires
            self.ids_distinct(),
            self.same_structure(other),
            0 <= i < self.nodes.len(),
        ensures
            other.node_value(inputs, f, i) == self.node_value(inputs, f, i),
        decreases self.nodes[i].layer, self.connections.len() + 1,
    {
        if self.nodes[i].subtype == SENSOR {
            self.lemma_same_sensor_ranks(other, i);
        } else {
            self.lemma_incoming_ignores_stored(other, inputs, f, i, self.connections.len());
        }
    }

    /// The running sum of a node does not depend on the values stored in
    /// the nodes.
    pub proof fn lemma_incoming_ignores_stored(
        self,
        other: Topology,
        inputs: Seq<u32>,
        f: spec_fn(u32, u32, u32) -> u32,
        i: int,
        upto: nat,
    )
        requires
            self.ids_distinct(),
            self.same_structure(other),
            0 <= i < self.nodes.len(),
        ensures
            other.incoming(inputs, f, i, upto) == self.incoming(inputs, f, i, upto),
        decreases self.nodes[i].layer, upto,
    {
        if upto == 0 || upto > self.connections.len() {
        } else {
            let k = upto - 1;
            self.lemma_same_slots(other);
            self.lemma_incoming_ignores_stored(other, inputs, f, i, k as nat);
            if self.feeds_into(k, i) {
                let id = self.connections[k].input;
                self.lemma_slot_valid(id);
                self.lemma_value_ignores_stored(other, inputs, f, self.slot(id));
            }
        }
    }

    /// Evaluation is repeatable: evaluating again, on the state that an
    /// evaluation left behind and with the same inputs, stores the same
    /// values and so yields the same outputs.
    pub proof fn lemma_evaluation_repeats(self, inputs: Seq<u32>, f: spec_fn(u32, u32, u32) -> u32)
        requires
            self.ids_distinct(),
        ensures
            self.evaluated(inputs, f).evaluated(inputs, f) == self.evaluated(inputs, f),
            self.evaluated(inputs, f).evaluated(inputs, f).output_values() == self.evaluated(
                inputs,
                f,
            ).output_values(),
    {
        let once = self.evaluated(inputs, f);
        let twice = once.evaluated(inputs, f);
        assert forall|i: int| 0 <= i < self.nodes.len() implies twice.nodes[i] == once.nodes[i] by {
            self.lemma_value_ignores_stored(once, inputs, f, i);
        }
        assert(twice.nodes =~= once.nodes);
    }

    /// A node into which none of the first `upto` connections feeds has a
    /// running sum of zero.
    pub proof fn lemma_incoming_none(
        self,
        inputs: Seq<u32>,
        f: spec_fn(u32, u32, u32) -> u32,
        i: int,
        upto: nat,
    )
        requires
            forall|m: int| 0 <= m < upto ==> !self.feeds_into(m, i),
        ensures
            self.incoming(inputs, f, i, upto) == 0,
        decreases upto,
    {
        if upto == 0 || upto > self.connections.len() {
        } else {
            self.lemma_incoming_none(inputs, f, i, (upto - 1) as nat);
        }
    }

    /// Once the connections that feed into a node are exhausted, the
    /// running sum stays.
    pub proof fn lemma_incoming_rest(
        self,
        inputs: Seq<u32>,
        f: spec_fn(u32, u32, u32) -> u32,
        i: int,
        from: nat,
        upto: nat,
    )
        requires
            from <= upto <= self.connections.len(),
            forall|m: int| from <= m < upto ==> !self.feeds_into(m, i),
        ensures
            self.incoming(inputs, f, i, upto) == self.incoming(inputs, f, i, from),
        decreases upto,
    {
        if upto > from {
            self.lemma_incoming_rest(inputs, f, i, from, (upto - 1) as nat);
        }
    }

    /// The identity check: a node whose only enabled incoming connection
    /// has unit weight and comes from a sensor takes that sensor's input,
    /// provided that adding the product of a value and one to zero gives
    /// the value.
    pub proof fn lemma_unit_link_copies_input(
        self,
        inputs: Seq<u32>,
        f: spec_fn(u32, u32, u32) -> u32,
        k: int,
    )
        requires
            self.wf(),
            forall|v: u32| #[trigger] f(0, v, UNIT_WEIGHT) == v,
            0 <= k < self.connections.len(),
            self.connections[k].status,
            self.connections[k].weight == UNIT_WEIGHT,
            self.node(self.connections[k].input).subtype == SENSOR,
            forall|m: int|
                0 <= m < self.connections.len() && m != k && (#[trigger] self.connections[m]).output
                    == self.connections[k].output ==> !self.connections[m].status,
        ensures
            self.node_value(inputs, f, self.slot(self.connections[k].output)) == inputs[self.sensors_before(
                self.slot(self.connections[k].input),
            ) as int],
    {
        let c = self.connections[k];
        assert(self.link_forward(k));
        self.lemma_slot_valid(c.input);
        self.lemma_slot_valid(c.output);
        let o = self.slot(c.output);
        let a = self.slot(c.input);
        assert(self.feeds_into(k, o));
        self.lemma_incoming_none(inputs, f, o, k as nat);
        self.lemma_incoming_rest(inputs, f, o, (k + 1) as nat, self.connections.len());
        assert(self.incoming(inputs, f, o, (k + 1) as nat) == f(
            self.incoming(inputs, f, o, k as nat),
            self.node_value(inputs, f, a),
            c.weight,
        ));
        assert(self.node_value(inputs, f, o) == activation(
            self.incoming(inputs, f, o, self.connections.len()),
        ));
    }
    /// In a well-formed topology an enabled connection feeds into the node
    /// it ends in, and into no other.
    pub proof fn lemma_feeds_into(self, k: int, i: int)
        requires
            self.wf(),
            0 <= k < self.connections.len(),
            0 <= i < self.nodes.len(),
        ensures
            self.feeds_into(k, i) == (self.connections[k].status && self.connections[k].output
                == self.nodes[i].node_id),
    {
        assert(self.link_forward(k));
        self.lemma_slot(i);
    }

    /// Connection `k` is the last enabled connection into its target.
    pub open spec fn last_into_target(self, k: int) -> bool {
        forall|m: int|
            k < m < self.connections.len() ==> !((#[trigger] self.connections[m]).status
                && self.connections[m].output == self.connections[k].output)
    }

    /// How a split topology relates to the one it came from: the old nodes
    /// keep their names, kinds and positions, and the new node is last.
    pub proof fn lemma_split_shape(self, k: int, counter: usize)
        requires
            self.wf(),
            self.issued_by(counter),
            self.layers < u32::MAX,
            counter < usize::MAX,
            0 <= k < self.connections.len(),
        ensures
            self.with_split(k, counter).wf(),
            !self.has_node((counter + 1) as usize),
            self.with_split(k, counter).has_node((counter + 1) as usize),
            self.with_split(k, counter).slot((counter + 1) as usize) == self.nodes.len(),
            forall|id: usize|
                self.has_node(id) ==> self.with_split(k, counter).has_node(id) && self.with_split(
                    k,
                    counter,
                ).slot(id) == self.slot(id),
            forall|i: int|
                0 <= i < self.nodes.len() ==> {
                    let b = #[trigger] self.with_split(k, counter).nodes[i];
                    b.node_id == self.nodes[i].node_id && b.subtype == self.nodes[i].subtype
                },
    {
        let c = self.connections[k];
        let level = (self.node(c.input).layer + 1) as u32;
        let room = self.bumped(level, c.output);
        let fresh = (counter + 1) as usize;
        let node = Node { node_id: fresh, subtype: HIDDEN, layer: level, value: 0 };
        let after = self.with_split(k, counter);
        self.lemma_with_split_wf(k, counter);
        self.lemma_bumped_wf(level, c.output);
        self.lemma_same_slots(room);
        if self.has_node(fresh) {
            self.lemma_slot_valid(fresh);
        }
        room.lemma_push_slots(after, node);
    }

    /// The node that a split inserts takes the value of the source of the
    /// split connection.
    pub proof fn lemma_split_fresh_value(
        self,
        k: int,
        counter: usize,
        inputs: Seq<u32>,
        f: spec_fn(u32, u32, u32) -> u32,
    )
        requires
            self.wf(),
            self.issued_by(counter),
            self.layers < u32::MAX,
            counter < usize::MAX,
            0 <= k < self.connections.len(),
            forall|v: u32| #[trigger] f(0, v, UNIT_WEIGHT) == v,
        ensures
            self.with_split(k, counter).node_value(inputs, f, self.nodes.len() as int)
                == self.with_split(k, counter).node_value(
                inputs,
                f,
                self.slot(self.connections[k].input),
            ),
    {
        let after = self.with_split(k, counter);
        let n = self.nodes.len() as int;
        let len = self.connections.len();
        let fresh = (counter + 1) as usize;
        self.lemma_split_shape(k, counter);
        assert(self.link_forward(k));
        assert(after.nodes[n].node_id == fresh);
        assert forall|m: int| 0 <= m < len implies !after.feeds_into(m, n) by {
            assert(self.link_forward(m));
            assert(after.connections[m].output == self.connections[m].output);
        }
        after.lemma_incoming_none(inputs, f, n, len);
        after.lemma_feeds_into(len as int, n);
        after.lemma_feeds_into(len as int + 1, n);
        assert(after.incoming(inputs, f, n, len + 1) == f(
            after.incoming(inputs, f, n, len),
            after.node_value(inputs, f, after.slot(after.connections[len as int].input)),
            UNIT_WEIGHT,
        ));
        assert(after.incoming(inputs, f, n, len + 2) == after.incoming(inputs, f, n, len + 1));
        assert(after.node_value(inputs, f, n) == activation(
            after.incoming(inputs, f, n, after.connections.len()),
        ));
    }

    /// A split leaves the value of every old node as it was.
    ///
    /// The new node passes on the value of the source, and the connection
    /// from it to the target, which carries the old weight, is added to the
    /// target's sum last.  So the sum is the same when the split
    /// connection was the last one into its target, and for any connection
    /// when the order of addition does not matter.
    pub proof fn lemma_split_keeps_values(
        self,
        k: int,
        counter: usize,
        inputs: Seq<u32>,
        f: spec_fn(u32, u32, u32) -> u32,
        i: int,
    )
        requires
            self.wf(),
            self.issued_by(counter),
            self.layers < u32::MAX,
            counter < usize::MAX,
            0 <= k < self.connections.len(),
            self.connections[k].status,
            forall|v: u32| #[trigger] f(0, v, UNIT_WEIGHT) == v,
            order_free(f) || self.last_into_target(k),
            0 <= i < self.nodes.len(),
        ensures
            self.with_split(k, counter).node_value(inputs, f, i) == self.node_value(inputs, f, i),
        decreases self.nodes[i].layer, 2int, 0int,
    {
        let after = self.with_split(k, counter);
        let n = self.nodes.len() as int;
        let len = self.connections.len();
        let fresh = (counter + 1) as usize;
        let c = self.connections[k];
        self.lemma_split_shape(k, counter);
        assert(self.link_forward(k));
        self.lemma_slot_valid(c.input);
        self.lemma_slot_valid(c.output);
        self.lemma_slot(i);
        let o = self.slot(c.output);
        let a = self.slot(c.input);
        if self.nodes[i].subtype == SENSOR {
            self.lemma_same_sensor_ranks(after, i);
        } else if i != o {
            self.lemma_split_incoming_same(k, counter, inputs, f, i, len);
            assert forall|m: int| len <= m < len + 2 implies !after.feeds_into(m, i) by {
                after.lemma_feeds_into(m, i);
            }
            after.lemma_incoming_rest(inputs, f, i, len, len + 2);
        } else {
            self.lemma_split_incoming_late(k, counter, inputs, f, len);
            after.lemma_feeds_into(len as int, o);
            after.lemma_feeds_into(len as int + 1, o);
            assert(after.incoming(inputs, f, o, len + 1) == after.incoming(inputs, f, o, len));
            self.lemma_split_fresh_value(k, counter, inputs, f);
            self.lemma_split_keeps_values(k, counter, inputs, f, a);
            assert(after.slot(after.connections[len as int + 1].input) == n);
            assert(after.incoming(inputs, f, o, len + 2) == f(
                after.incoming(inputs, f, o, len + 1),
                after.node_value(inputs, f, n),
                c.weight,
            ));
        }
    }

    /// Before the split connection is reached, and for every node but its
    /// target, the running sums are as they were.
    pub proof fn lemma_split_incoming_same(
        self,
        k: int,
        counter: usize,
        inputs: Seq<u32>,
        f: spec_fn(u32, u32, u32) -> u32,
        i: int,
        upto: nat,
    )
        requires
            self.wf(),
            self.issued_by(counter),
            self.layers < u32::MAX,
            counter < usize::MAX,
            0 <= k < self.connections.len(),
            self.connections[k].status,
            forall|v: u32| #[trigger] f(0, v, UNIT_WEIGHT) == v,
            order_free(f) || self.last_into_target(k),
            0 <= i < self.nodes.len(),
            upto <= self.connections.len(),
            self.nodes[i].node_id != self.connections[k].output || upto <= k,
        ensures
            self.with_split(k, counter).incoming(inputs, f, i, upto) == self.incoming(
                inputs,
                f,
                i,
                upto,
            ),
        decreases self.nodes[i].layer, 1int, upto,
    {
        let after = self.with_split(k, counter);
        if upto > 0 {
            let m = upto - 1;
            self.lemma_split_shape(k, counter);
            self.lemma_split_incoming_same(k, counter, inputs, f, i, m as nat);
            self.lemma_feeds_into(m, i);
            after.lemma_feeds_into(m, i);
            if self.feeds_into(m, i) {
                let id = self.connections[m].input;
                assert(self.link_forward(m));
                self.lemma_slot_valid(id);
                self.lemma_split_keeps_values(k, counter, inputs, f, self.slot(id));
            }
        }
    }

    /// Past the split connection, the target's running sum lacks exactly
    /// the contribution of that connection.
    pub proof fn lemma_split_incoming_late(
        self,
        k: int,
        counter: usize,
        inputs: Seq<u32>,
        f: spec_fn(u32, u32, u32) -> u32,
        upto: nat,
    )
        requires
            self.wf(),
            self.issued_by(counter),
            self.layers < u32::MAX,
            counter < usize::MAX,
            0 <= k < self.connections.len(),
            self.connections[k].status,
            forall|v: u32| #[trigger] f(0, v, UNIT_WEIGHT) == v,
            order_free(f) || self.last_into_target(k),
            k < upto <= self.connections.len(),
        ensures
            f(
                self.with_split(k, counter).incoming(
                    inputs,
                    f,
                    self.slot(self.connections[k].output),
                    upto,
                ),
                self.node_value(inputs, f, self.slot(self.connections[k].input)),
                self.connections[k].weight,
            ) == self.incoming(inputs, f, self.slot(self.connections[k].output), upto),
        decreases self.node(self.connections[k].output).layer, 1int, upto,
    {
        let after = self.with_split(k, counter);
        let c = self.connections[k];
        let m = upto - 1;
        self.lemma_split_shape(k, counter);
        assert(self.link_forward(k));
        self.lemma_slot_valid(c.input);
        self.lemma_slot_valid(c.output);
        let o = self.slot(c.output);
        self.lemma_feeds_into(m, o);
        after.lemma_feeds_into(m, o);
        if m == k {
            self.lemma_split_incoming_same(k, counter, inputs, f, o, k as nat);
        } else {
            self.lemma_split_incoming_late(k, counter, inputs, f, m as nat);
            if self.feeds_into(m, o) {
                let id = self.connections[m].input;
                assert(self.link_forward(m));
                self.lemma_slot_valid(id);
                self.lemma_split_keeps_values(k, counter, inputs, f, self.slot(id));
            }
        }
    }

    /// The stored values of the outputs among the first `n` nodes depend
    /// on those nodes alone.
    pub proof fn lemma_same_outputs(self, other: Topology, n: int)
        requires
            n <= self.nodes.len(),
            n <= other.nodes.len(),
            forall|i: int|
                0 <= i < n ==> (#[trigger] other.nodes[i]).subtype == self.nodes[i].subtype
                    && other.nodes[i].value == self.nodes[i].value,
        ensures
            other.outputs_before(n) == self.outputs_before(n),
        decreases n,
    {
        if n > 0 {
            self.lemma_same_outputs(other, n - 1);
        }
    }

    /// Splitting a connection does not change what the network computes:
    /// evaluated on the same inputs right before and right after the
    /// split, it yields the same outputs.
    ///
    /// This needs that adding the product of a value and one to zero gives
    /// the value.  It holds for the last enabled connection into a node,
    /// and for every connection when the order of addition does not
    /// matter.
    pub proof fn lemma_split_keeps_outputs(
        self,
        k: int,
        counter: usize,
        inputs: Seq<u32>,
        f: spec_fn(u32, u32, u32) -> u32,
    )
        requires
            self.wf(),
            self.issued_by(counter),
            self.layers < u32::MAX,
            counter < usize::MAX,
            0 <= k < self.connections.len(),
            self.connections[k].status,
            forall|v: u32| #[trigger] f(0, v, UNIT_WEIGHT) == v,
            order_free(f) || self.last_into_target(k),
        ensures
            self.with_split(k, counter).evaluated(inputs, f).output_values() == self.evaluated(
                inputs,
                f,
            ).output_values(),
    {
        let n = self.nodes.len() as int;
        let before = self.evaluated(inputs, f);
        let after = self.with_split(k, counter).evaluated(inputs, f);
        self.lemma_split_shape(k, counter);
        assert forall|i: int| 0 <= i < n implies (#[trigger] after.nodes[i]).subtype
            == before.nodes[i].subtype && after.nodes[i].value == before.nodes[i].value by {
            self.lemma_split_keeps_values(k, counter, inputs, f, i);
            assert(self.with_split(k, counter).nodes[i].subtype == self.nodes[i].subtype);
        }
        before.lemma_same_outputs(after, n);
        assert(after.nodes[n].subtype == HIDDEN);
        assert(after.outputs_before(n + 1) == after.outputs_before(n));
    }
}

} // verus!
