//! Forward evaluation: a layer-ordered pass that gives every node its
//! value.
//!
//! Values and weights are bit patterns.  The one arithmetic step, adding
//! the product of a value and a weight to a running sum, is supplied by the
//! caller; the library fixes which steps are taken and in which order.

use crate::model::{Connection, NeatBrain, Node, Topology, OUTPUT, SENSOR};
use vstd::prelude::*;

verus! {

/// The activation applied to the sum of a node's inputs: the identity.
pub open spec fn activation(x: u32) -> u32 {
    x
}

/// The executable `step` computes `g`: whatever it returns is `g` of its
/// arguments.
pub open spec fn computes<F: Fn(u32, u32, u32) -> u32>(
    step: F,
    g: spec_fn(u32, u32, u32) -> u32,
) -> bool {
    forall|sum: u32, value: u32, weight: u32, r: u32|
        call_ensures(step, (sum, value, weight), r) ==> r == g(sum, value, weight)
}

impl Topology {
    /// Number of sensors among the first `n` nodes.
    pub open spec fn sensors_before(self, n: int) -> nat
        decreases n,
    {
        if n <= 0 {
            0
        } else {
            self.sensors_before(n - 1) + if self.nodes[n - 1].subtype == SENSOR {
                1nat
            } else {
                0nat
            }
        }
    }

    /// Number of sensors, which is the number of inputs an evaluation takes.
    pub open spec fn sensor_count(self) -> nat {
        self.sensors_before(self.nodes.len() as int)
    }

    /// Connection `k` takes part in the value of node `i`: it is enabled
    /// and ends in that node, coming from a node on a lower layer.
    pub open spec fn feeds_into(self, k: int, i: int) -> bool {
        let c = self.connections[k];
        &&& c.status
        &&& c.output == self.nodes[i].node_id
        &&& self.has_node(c.input)
        &&& self.node(c.input).layer < self.nodes[i].layer
    }

    /// The value of node `i` for the given inputs.
    ///
    /// A sensor takes the input that corresponds to its rank among the
    /// sensors.  Any other node takes the activation of the sum over its
    /// enabled incoming connections.
    pub open spec fn node_value(
        self,
        inputs: Seq<u32>,
        f: spec_fn(u32, u32, u32) -> u32,
        i: int,
    ) -> u32
        decreases self.nodes[i].layer, self.connections.len() + 1,
    {
        if self.nodes[i].subtype == SENSOR {
            inputs[self.sensors_before(i) as int]
        } else {
            activation(self.incoming(inputs, f, i, self.connections.len()))
        }
    }

    /// The running sum for node `i` after the first `upto` connections
    /// have been looked at, in their order: starting from zero, `f` adds
    /// the weighted value of the source of each connection that feeds
    /// into the node.
    pub open spec fn incoming(
        self,
        inputs: Seq<u32>,
        f: spec_fn(u32, u32, u32) -> u32,
        i: int,
        upto: nat,
    ) -> u32
        decreases self.nodes[i].layer, upto,
    {
        if upto == 0 || upto > self.connections.len() {
            0
        } else {
            let k = upto - 1;
            let sum = self.incoming(inputs, f, i, k as nat);
            if self.feeds_into(k, i) {
                f(
                    sum,
                    self.node_value(inputs, f, self.slot(self.connections[k].input)),
                    self.connections[k].weight,
                )
            } else {
                sum
            }
        }
    }

    /// Node `j` has its value once the layers up to `done` and, on the
    /// next layer, the nodes before position `next` are through: it is a
    /// sensor or has had its turn.
    pub open spec fn reached(self, done: u32, next: int, j: int) -> bool {
        ||| self.nodes[j].subtype == SENSOR
        ||| self.nodes[j].layer <= done
        ||| (self.nodes[j].layer == done + 1 && j < next)
    }

    /// The topology with every node's stored value replaced by its value
    /// for the given inputs.
    pub open spec fn evaluated(self, inputs: Seq<u32>, f: spec_fn(u32, u32, u32) -> u32) -> Topology {
        Topology {
            nodes: Seq::new(
                self.nodes.len(),
                |i: int| Node { value: self.node_value(inputs, f, i), ..self.nodes[i] },
            ),
            ..self
        }
    }

    /// The stored values of the output nodes among the first `n` nodes, in
    /// node order.
    pub open spec fn outputs_before(self, n: int) -> Seq<u32>
        decreases n,
    {
        if n <= 0 {
            Seq::empty()
        } else if self.nodes[n - 1].subtype == OUTPUT {
            self.outputs_before(n - 1).push(self.nodes[n - 1].value)
        } else {
            self.outputs_before(n - 1)
        }
    }

    /// The stored values of all output nodes, in node order.
    pub open spec fn output_values(self) -> Seq<u32> {
        self.outputs_before(self.nodes.len() as int)
    }

    /// There are at most as many sensors before a position as positions.
    pub proof fn lemma_sensors_before_bound(self, n: int)
        requires
            0 <= n,
        ensures
            self.sensors_before(n) <= n,
        decreases n,
    {
        if n > 0 {
            self.lemma_sensors_before_bound(n - 1);
        }
    }

    /// The rank of a sensor is below the number of sensors.
    pub proof fn lemma_sensor_rank(self, i: int, n: int)
        requires
            0 <= i < n,
            self.nodes[i].subtype == SENSOR,
        ensures
            self.sensors_before(i) < self.sensors_before(n),
        decreases n,
    {
        if i < n - 1 {
            self.lemma_sensor_rank(i, n - 1);
        }
    }
}

impl NeatBrain {
    /// Applies the activation function to a sum.
    fn activate(&self, x: u32) -> (y: u32)
        ensures
            y == activation(x),
    {
        x
    }

    /// Evaluates the network on `inputs`, one value per sensor in node
    /// order, and returns the values of the output nodes in node order.
    /// The value of every node is stored in the node.
    ///
    /// `step(sum, value, weight)` is the arithmetic: it returns `sum`
    /// increased by the product of `value` and `weight`.  Nodes are
    /// evaluated layer by layer, and within a layer in node order; the
    /// inputs of a node are summed in the order of the connections.
    /// Whatever function `step` computes, the values stored are the node
    /// values under that function.
    pub fn compute<F: Fn(u32, u32, u32) -> u32>(&mut self, inputs: Vec<u32>, step: F) -> (outputs:
        Vec<u32>)
        requires
            old(self)@.wf(),
            inputs@.len() == old(self)@.sensor_count(),
            forall|sum: u32, value: u32, weight: u32| call_requires(step, (sum, value, weight)),
        ensures
            old(self)@.same_structure(final(self)@),
            forall|g: spec_fn(u32, u32, u32) -> u32| #[trigger]
                computes(step, g) ==> final(self)@ == old(self)@.evaluated(inputs@, g),
            outputs@ == final(self)@.output_values(),
    {
        let ghost before = self@;
        let n: usize = self.nodes.len();
        let mut scratch: Vec<u32> = Vec::new();
        let mut i: usize = 0;
        let mut seen: usize = 0;
        while i < n
            invariant
                i <= n,
                n == self.nodes@.len(),
                self@ == before,
                scratch@.len() == i,
                seen == before.sensors_before(i as int),
                inputs@.len() == before.sensor_count(),
                forall|j: int|
                    0 <= j < i ==> #[trigger] scratch@[j] == (if before.nodes[j].subtype == SENSOR {
                        inputs@[before.sensors_before(j) as int]
                    } else {
                        0
                    }),
            decreases n - i,
        {
            if self.nodes[i].subtype == SENSOR {
                proof {
                    before.lemma_sensor_rank(i as int, n as int);
                    before.lemma_sensors_before_bound(i as int);
                }
                scratch.push(inputs[seen]);
                seen += 1;
            } else {
                scratch.push(0);
            }
            i += 1;
        }
        let mut done: u32 = 0;
        while done < self.layers
            invariant
                done <= self.layers,
                n == self.nodes@.len(),
                self@ == before,
                before.wf(),
                forall|sum: u32, value: u32, weight: u32| call_requires(step, (sum, value, weight)),
                scratch@.len() == n,
                inputs@.len() == before.sensor_count(),
                forall|j: int|
                    0 <= j < n && before.nodes[j].subtype == SENSOR ==> #[trigger] scratch@[j]
                        == inputs@[before.sensors_before(j) as int],
                forall|j: int|
                    0 <= j < n && !before.reached(done, 0, j) ==> #[trigger] scratch@[j] == 0,
                forall|g: spec_fn(u32, u32, u32) -> u32| #[trigger]
                    computes(step, g) ==> forall|j: int|
                        0 <= j < n && before.reached(done, 0, j) ==> #[trigger] scratch@[j]
                            == before.node_value(inputs@, g, j),
            decreases self.layers - done,
        {
            let layer: u32 = done + 1;
            let mut i: usize = 0;
            while i < n
                invariant
                    i <= n,
                    done < self.layers,
                    layer == done + 1,
                    n == self.nodes@.len(),
                    self@ == before,
                    before.wf(),
                    forall|sum: u32, value: u32, weight: u32|
                        call_requires(step, (sum, value, weight)),
                    scratch@.len() == n,
                    inputs@.len() == before.sensor_count(),
                    forall|j: int|
                        0 <= j < n && before.nodes[j].subtype == SENSOR ==> #[trigger] scratch@[j]
                            == inputs@[before.sensors_before(j) as int],
                    forall|j: int|
                        0 <= j < n && !before.reached(done, i as int, j) ==> #[trigger] scratch@[j]
                            == 0,
                    forall|g: spec_fn(u32, u32, u32) -> u32| #[trigger]
                        computes(step, g) ==> forall|j: int|
                            0 <= j < n && before.reached(done, i as int, j) ==> #[trigger] scratch@[j]
                                == before.node_value(inputs@, g, j),
                decreases n - i,
            {
                if self.nodes[i].layer == layer {
                    let id: usize = self.nodes[i].node_id;
                    let ghost sensor = before.nodes[i as int].subtype == SENSOR;
                    let ghost entry = scratch@;
                    let mut sum: u32 = 0;
                    let mut k: usize = 0;
                    proof {
                        before.lemma_slot(i as int);
                    }
                    while k < self.connections.len()
                        invariant
                            k <= self.connections@.len(),
                            i < n,
                            layer == done + 1,
                            n == self.nodes@.len(),
                            self@ == before,
                            before.wf(),
                            before.nodes[i as int].layer == layer,
                            before.nodes[i as int].node_id == id,
                            before.slot(id) == i,
                            sensor == (before.nodes[i as int].subtype == SENSOR),
                            forall|sum: u32, value: u32, weight: u32|
                                call_requires(step, (sum, value, weight)),
                            scratch@.len() == n,
                            entry.len() == n,
                            forall|j: int|
                                0 <= j < n && j != i ==> #[trigger] scratch@[j] == entry[j],
                            forall|j: int|
                                0 <= j < n && !before.reached(done, i as int, j)
                                    ==> #[trigger] entry[j] == 0,
                            forall|g: spec_fn(u32, u32, u32) -> u32| #[trigger]
                                computes(step, g) ==> forall|j: int|
                                    0 <= j < n && before.reached(done, i as int, j)
                                        ==> #[trigger] entry[j] == before.node_value(inputs@, g, j),
                            sensor ==> scratch@[i as int] == entry[i as int],
                            !sensor ==> scratch@[i as int] == activation(sum),
                            forall|g: spec_fn(u32, u32, u32) -> u32| #[trigger]
                                computes(step, g) && !sensor ==> sum == before.incoming(
                                    inputs@,
                                    g,
                                    i as int,
                                    k as nat,
                                ),
                        decreases self.connections@.len() - k,
                    {
                        let c: Connection = self.connections[k];
                        proof {
                            assert(before.link_forward(k as int));
                            before.lemma_slot_valid(c.input);
                            before.lemma_slot_valid(c.output);
                        }
                        if c.output == id && c.status {
                            let from: usize = self.locate(c.input);
                            proof {
                                assert(before.feeds_into(k as int, i as int));
                            }
                            let value: u32 = scratch[from];
                            let ghost earlier = sum;
                            sum = step(sum, value, c.weight);
                            proof {
                                assert forall|g: spec_fn(u32, u32, u32) -> u32| #[trigger]
                                    computes(step, g) && !sensor implies sum == before.incoming(
                                    inputs@,
                                    g,
                                    i as int,
                                    (k + 1) as nat,
                                ) by {
                                    assert(call_ensures(step, (earlier, value, c.weight), sum));
                                    assert(before.reached(done, i as int, from as int));
                                    assert(entry[from as int] == before.node_value(
                                        inputs@,
                                        g,
                                        from as int,
                                    ));
                                }
                            }
                            let stored: u32 = self.activate(sum);
                            scratch[i] = stored;
                        } else {
                            proof {
                                assert(!before.feeds_into(k as int, i as int));
                            }
                        }
                        k += 1;
                    }
                    proof {
                        assert forall|g: spec_fn(u32, u32, u32) -> u32| #[trigger]
                            computes(step, g) implies forall|j: int|
                            0 <= j < n && before.reached(done, i + 1, j) ==> #[trigger] scratch@[j]
                                == before.node_value(inputs@, g, j) by {
                            assert forall|j: int|
                                0 <= j < n && before.reached(
                                    done,
                                    i + 1,
                                    j,
                                ) implies #[trigger] scratch@[j] == before.node_value(
                                inputs@,
                                g,
                                j,
                            ) by {
                                if j != i {
                                    assert(before.reached(done, i as int, j));
                                    assert(scratch@[j] == entry[j]);
                                }
                            }
                        }
                    }
                }
                i += 1;
            }
            done += 1;
        }
        let mut i: usize = 0;
        while i < n
            invariant
                i <= n,
                n == self.nodes@.len(),
                scratch@.len() == n,
                self.connections@ == before.connections,
                self.layers == before.layers,
                before.nodes.len() == n,
                before.wf(),
                forall|j: int|
                    0 <= j < i ==> #[trigger] self.nodes@[j] == (Node {
                        value: scratch@[j],
                        ..before.nodes[j]
                    }),
                forall|j: int| i <= j < n ==> #[trigger] self.nodes@[j] == before.nodes[j],
                forall|g: spec_fn(u32, u32, u32) -> u32| #[trigger]
                    computes(step, g) ==> forall|j: int|
                        0 <= j < n ==> #[trigger] scratch@[j] == before.node_value(inputs@, g, j),
            decreases n - i,
        {
            let kept: Node = Node { value: scratch[i], ..self.nodes[i] };
            self.nodes[i] = kept;
            i += 1;
        }
        proof {
            assert forall|g: spec_fn(u32, u32, u32) -> u32| #[trigger]
                computes(step, g) implies self@ == before.evaluated(inputs@, g) by {
                assert(self@.nodes =~= before.evaluated(inputs@, g).nodes);
            }
        }
        let mut outputs: Vec<u32> = Vec::new();
        let mut i: usize = 0;
        while i < n
            invariant
                i <= n,
                n == self.nodes@.len(),
                outputs@ == self@.outputs_before(i as int),
            decreases n - i,
        {
            if self.nodes[i].subtype == OUTPUT {
                outputs.push(self.nodes[i].value);
            }
            i += 1;
        }
        outputs
    }
}

} // verus!
