//! Structural and weight mutation.

use crate::model::{Connection, NeatBrain, Node, SelectionError, Topology, HIDDEN, UNIT_WEIGHT};
use crate::rng::draw_below;
use vstd::prelude::*;

verus! {

impl Topology {
    /// The same graph with the weight of every connection replaced, position
    /// by position.
    pub open spec fn reweighted(self, weights: Seq<u32>) -> Topology {
        Topology {
            connections: Seq::new(
                self.connections.len(),
                |k: int| Connection { weight: weights[k], ..self.connections[k] },
            ),
            ..self
        }
    }

    /// The topology after splitting connection `k` while the counter reads
    /// `counter`.
    ///
    /// The connection is disabled.  A hidden node, with identifier
    /// `counter + 1`, is placed one layer above the connection's source,
    /// after room has been made there below the connection's target.  Two
    /// enabled connections replace the old one: from the source to the new
    /// node with unit weight and identifier `counter`, and from the new node
    /// to the target with the old weight and identifier `counter + 2`.
    pub open spec fn with_split(self, k: int, counter: usize) -> Topology {
        let c = self.connections[k];
        let level = (self.node(c.input).layer + 1) as u32;
        let room = self.bumped(level, c.output);
        let fresh = (counter + 1) as usize;
        Topology {
            nodes: room.nodes.push(
                Node { node_id: fresh, subtype: HIDDEN, layer: level, value: 0 },
            ),
            connections: room.connections.update(k, Connection { status: false, ..c }).push(
                Connection {
                    connection_id: counter as u32,
                    input: c.input,
                    output: fresh,
                    weight: UNIT_WEIGHT,
                    status: true,
                },
            ).push(
                Connection {
                    connection_id: (counter as u32).wrapping_add(2),
                    input: fresh,
                    output: c.output,
                    weight: c.weight,
                    status: true,
                },
            ),
            layers: room.layers,
        }
    }

    /// The topology after a split was tried on connection `k`: a disabled
    /// connection is not split.
    pub open spec fn after_split(self, k: int, counter: usize) -> Topology {
        if self.connections[k].status {
            self.with_split(k, counter)
        } else {
            self
        }
    }

    /// The counter after a split was tried on connection `k`.
    pub open spec fn counter_after_split(self, k: int, counter: usize) -> int {
        if self.connections[k].status {
            counter + 2
        } else {
            counter as int
        }
    }

    /// `after` arises by trying a split on one of the connections.
    pub open spec fn node_inserted(
        self,
        counter: usize,
        after: Topology,
        counter_after: usize,
    ) -> bool {
        exists|k: int|
            0 <= k < self.connections.len() && after == #[trigger] self.after_split(k, counter)
                && counter_after == self.counter_after_split(k, counter)
    }

    /// `after` arises by joining one admissible pair of nodes.
    pub open spec fn link_added(self, weight: u32, after: Topology) -> bool {
        exists|i: int, j: int|
            self.can_link(i, j) && after == #[trigger] self.with_link(i, j, weight)
    }

    /// The node-insertion step of a mutation, from `self` to `after`: when
    /// wanted, a split is tried on some connection; otherwise nothing
    /// changes.
    pub open spec fn insertion_step(
        self,
        counter: usize,
        wanted: bool,
        after: Topology,
        counter_after: usize,
    ) -> bool {
        if wanted {
            self.node_inserted(counter, after, counter_after)
        } else {
            after == self && counter_after == counter
        }
    }

    /// The connection-addition step of a mutation, from `self` to `after`:
    /// when wanted, one admissible pair is joined and the counter advances,
    /// or the step fails because there is no such pair; otherwise nothing
    /// changes.
    pub open spec fn growth_step(
        self,
        counter: usize,
        wanted: bool,
        weight: u32,
        after: Topology,
        counter_after: usize,
        ok: bool,
    ) -> bool {
        if wanted && !self.saturated() {
            ok && self.link_added(weight, after) && counter_after == counter + 1
        } else {
            after == self && counter_after == counter && (ok <==> !wanted)
        }
    }

    /// What a mutation may do to `self`, the topology whose weights have
    /// already been replaced.
    ///
    /// Asked to insert a node where there is no connection, it fails at
    /// once.  Otherwise the insertion step is followed by the
    /// connection-addition step, and the mutation succeeds when the latter
    /// does.
    pub open spec fn mutation_outcome(
        self,
        counter: usize,
        node_creation: bool,
        connection_creation: bool,
        weight: u32,
        after: Topology,
        counter_after: usize,
        ok: bool,
    ) -> bool {
        if node_creation && self.connections.len() == 0 {
            !ok && after == self && counter_after == counter
        } else {
            exists|mid: Topology, counter_mid: usize|
                #[trigger] self.insertion_step(counter, node_creation, mid, counter_mid)
                    && mid.growth_step(
                    counter_mid,
                    connection_creation,
                    weight,
                    after,
                    counter_after,
                    ok,
                )
        }
    }

    /// Changing weights keeps a well-formed topology well formed.
    pub proof fn lemma_reweighted_wf(self, weights: Seq<u32>)
        requires
            self.wf(),
        ensures
            self.reweighted(weights).wf(),
    {
        let after = self.reweighted(weights);
        self.lemma_same_slots(after);
        assert forall|k: int| 0 <= k < after.connections.len() implies #[trigger] after.link_forward(
            k,
        ) by {
            assert(self.link_forward(k));
        }
        assert forall|k: int, m: int|
            0 <= k < after.connections.len() && 0 <= m < after.connections.len() && k != m implies !((
        #[trigger] after.connections[k]).input == (#[trigger] after.connections[m]).input
            && after.connections[k].output == after.connections[m].output) by {
            assert(self.connections[k].input != self.connections[m].input
                || self.connections[k].output != self.connections[m].output);
        }
        assert forall|x: int|
            0 <= x < after.nodes.len() && (#[trigger] after.nodes[x]).subtype
                == HIDDEN implies after.feeds(after.nodes[x].node_id) by {
            assert(self.feeds(self.nodes[x].node_id));
            let k = choose|k: int|
                0 <= k < self.connections.len() && (#[trigger] self.connections[k]).input
                    == self.nodes[x].node_id;
            assert(after.connections[k].input == after.nodes[x].node_id);
        }
    }

    /// A pushed node sits on the requested layer or above.
    pub proof fn lemma_pushed_floor(self, layer: u32, id: usize, i: int)
        requires
            self.pushed(layer, id, i),
        ensures
            self.nodes[i].layer >= layer,
        decreases self.nodes[i].layer,
    {
        if !(self.nodes[i].node_id == id && self.nodes[i].layer == layer) {
            let k = choose|k: int|
                {
                    &&& 0 <= k < self.connections.len()
                    &&& (#[trigger] self.connections[k]).output == self.nodes[i].node_id
                    &&& self.has_node(self.connections[k].input)
                    &&& self.node(self.connections[k].input).subtype == HIDDEN
                    &&& self.node(self.connections[k].input).layer + 1 == self.nodes[i].layer
                    &&& self.pushed(layer, id, self.slot(self.connections[k].input))
                };
            self.lemma_pushed_floor(layer, id, self.slot(self.connections[k].input));
        }
    }

    /// Splitting a connection keeps a well-formed topology well formed, as
    /// long as the counter has issued every identifier in use.
    pub proof fn lemma_with_split_wf(self, k: int, counter: usize)
        requires
            self.wf(),
            self.issued_by(counter),
            self.layers < u32::MAX,
            counter < usize::MAX,
            0 <= k < self.connections.len(),
        ensures
            self.with_split(k, counter).wf(),
            self.with_split(k, counter).issued_by((counter + 1) as usize),
    {
        let c = self.connections[k];
        let level = (self.node(c.input).layer + 1) as u32;
        let room = self.bumped(level, c.output);
        let fresh = (counter + 1) as usize;
        let node = Node { node_id: fresh, subtype: HIDDEN, layer: level, value: 0 };
        let after = self.with_split(k, counter);
        let n = self.nodes.len() as int;
        let m = self.connections.len() as int;
        assert(self.link_forward(k));
        self.lemma_slot_valid(c.input);
        self.lemma_slot_valid(c.output);
        let a = self.slot(c.input);
        let o = self.slot(c.output);
        self.lemma_bumped_wf(level, c.output);
        self.lemma_same_slots(room);
        assert(room.link_forward(k));
        // The source stays where it is; the target ends up above the new node.
        assert(room.nodes[a].layer == self.nodes[a].layer) by {
            if self.pushed(level, c.output, a) {
                self.lemma_pushed_floor(level, c.output, a);
            }
        }
        assert(room.nodes[o].layer > level) by {
            if self.nodes[o].layer == level {
                assert(self.pushed(level, c.output, o));
            }
        }
        assert(!room.has_node(fresh)) by {
            if room.has_node(fresh) {
                room.lemma_slot_valid(fresh);
                assert(self.nodes[room.slot(fresh)].node_id <= counter);
            }
        }
        room.lemma_push_slots(after, node);
        assert(after.kinds_valid());
        assert(after.layers_bounded());
        assert forall|x: int| 0 <= x < after.connections.len() implies #[trigger] after.link_forward(
            x,
        ) by {
            if x < m {
                assert(room.link_forward(x));
                assert(after.connections[x].input == room.connections[x].input);
                assert(after.connections[x].output == room.connections[x].output);
            }
        }
        assert forall|x: int, y: int|
            0 <= x < after.connections.len() && 0 <= y < after.connections.len() && x != y implies !((
        #[trigger] after.connections[x]).input == (#[trigger] after.connections[y]).input
            && after.connections[x].output == after.connections[y].output) by {
            if x < m {
                assert(room.link_forward(x));
                assert(after.connections[x].input == room.connections[x].input);
                assert(after.connections[x].output == room.connections[x].output);
            }
            if y < m {
                assert(room.link_forward(y));
                assert(after.connections[y].input == room.connections[y].input);
                assert(after.connections[y].output == room.connections[y].output);
            }
            if x < m && y < m {
                assert(self.connections[x].input != self.connections[y].input
                    || self.connections[x].output != self.connections[y].output);
            }
        }
        assert forall|x: int|
            0 <= x < after.nodes.len() && (#[trigger] after.nodes[x]).subtype
                == HIDDEN implies after.feeds(after.nodes[x].node_id) by {
            if x < n {
                assert(room.nodes[x].subtype == HIDDEN);
                assert(room.feeds(room.nodes[x].node_id));
                let w = choose|w: int|
                    0 <= w < room.connections.len() && (#[trigger] room.connections[w]).input
                        == room.nodes[x].node_id;
                assert(after.connections[w].input == after.nodes[x].node_id);
            } else {
                assert(after.connections[m + 1].input == fresh);
            }
        }
    }
}

impl NeatBrain {
    /// Replaces the weight of every connection, position by position.
    pub fn set_weights(&mut self, weights: &Vec<u32>)
        requires
            weights@.len() == old(self)@.connections.len(),
        ensures
            final(self)@ == old(self)@.reweighted(weights@),
    {
        let ghost before = self@;
        let mut k: usize = 0;
        while k < self.connections.len()
            invariant
                k <= self.connections@.len(),
                self.connections@.len() == before.connections.len(),
                weights@.len() == before.connections.len(),
                self.nodes@ == before.nodes,
                self.layers == before.layers,
                forall|m: int|
                    0 <= m < k ==> #[trigger] self.connections@[m] == before.reweighted(
                        weights@,
                    ).connections[m],
                forall|m: int|
                    k <= m < self.connections@.len() ==> #[trigger] self.connections@[m]
                        == before.connections[m],
            decreases self.connections@.len() - k,
        {
            let changed: Connection = Connection { weight: weights[k], ..self.connections[k] };
            self.connections[k] = changed;
            k += 1;
        }
        assert(self@.connections =~= before.reweighted(weights@).connections);
    }

    /// Splits the connection at position `index` by a new hidden node, if
    /// the connection is enabled; a disabled connection is left alone and
    /// `false` is returned.
    ///
    /// The counter advances by two for a split: the new node takes the
    /// identifier in between the identifiers of the two new connections.
    pub fn split_connection(&mut self, innovation_num: &mut usize, index: usize) -> (split: bool)
        requires
            old(self)@.wf(),
            old(self)@.issued_by(*old(innovation_num)),
            old(self).layers < u32::MAX,
            *old(innovation_num) <= usize::MAX - 2,
            index < old(self)@.connections.len(),
        ensures
            split == old(self)@.connections[index as int].status,
            split ==> final(self)@ == old(self)@.with_split(index as int, *old(innovation_num))
                && *final(innovation_num) == *old(innovation_num) + 2,
            !split ==> final(self)@ == old(self)@ && *final(innovation_num) == *old(innovation_num),
            final(self)@.wf(),
            final(self)@.issued_by(*final(innovation_num)),
    {
        let ghost before = self@;
        let old_connection: Connection = self.connections[index];
        if !old_connection.status {
            return false;
        }
        proof {
            before.lemma_with_split_wf(index as int, *innovation_num);
            assert(before.link_forward(index as int));
            before.lemma_slot_valid(old_connection.input);
        }
        let at: usize = self.locate(old_connection.input);
        let level: u32 = self.nodes[at].layer + 1;
        self.bump_layers(level, old_connection.output);
        let first: u32 = #[verifier::truncate] (*innovation_num as u32);
        let second: u32 = first.wrapping_add(2);
        let node: Node = Node::new(innovation_num, HIDDEN, level);
        let fresh: usize = node.node_id;
        self.connections[index] = Connection { status: false, ..old_connection };
        self.nodes.push(node);
        self.connections.push(
            Connection {
                connection_id: first,
                input: old_connection.input,
                output: fresh,
                weight: UNIT_WEIGHT,
                status: true,
            },
        );
        self.connections.push(
            Connection {
                connection_id: second,
                input: fresh,
                output: old_connection.output,
                weight: old_connection.weight,
                status: true,
            },
        );
        *innovation_num += 1;
        assert(self@.connections =~= before.with_split(
            index as int,
            *old(innovation_num),
        ).connections);
        true
    }

    /// Tries a split on a connection chosen uniformly at random.
    ///
    /// Fails, changing nothing, exactly when there is no connection to
    /// choose from.  A disabled connection may be chosen; nothing changes
    /// then either, and the call still succeeds.
    pub fn insert_node(&mut self, innovation_num: &mut usize) -> (made: Result<(), SelectionError>)
        requires
            old(self)@.wf(),
            old(self)@.issued_by(*old(innovation_num)),
            old(self).layers < u32::MAX,
            *old(innovation_num) <= usize::MAX - 2,
        ensures
            made is Ok <==> old(self)@.connections.len() > 0,
            made is Ok ==> old(self)@.node_inserted(
                *old(innovation_num),
                final(self)@,
                *final(innovation_num),
            ),
            made is Err ==> final(self)@ == old(self)@ && *final(innovation_num) == *old(
                innovation_num,
            ),
            final(self)@.wf(),
            final(self)@.issued_by(*final(innovation_num)),
    {
        if self.connections.len() == 0 {
            return Err(SelectionError::TopologyExhausted);
        }
        let index: usize = draw_below(self.connections.len());
        let ghost before = self@;
        self.split_connection(innovation_num, index);
        proof {
            assert(self@ == before.after_split(index as int, *old(innovation_num)));
        }
        Ok(())
    }

    /// Mutates the brain: replaces the weights, then, as asked, inserts a
    /// node and adds a connection, in this order.
    ///
    /// `weights` holds the weight of every connection after perturbation.
    /// With `node_creation`, a split is tried on a connection chosen at
    /// random.  With `connection_creation`, a random admissible pair of
    /// nodes is joined by a connection of weight `new_weight`.  A step that
    /// has nothing to choose from ends the mutation with an error; what
    /// earlier steps did stays.
    pub fn mutate(
        &mut self,
        innovation_num: &mut usize,
        weights: Vec<u32>,
        node_creation: bool,
        connection_creation: bool,
        new_weight: u32,
    ) -> (done: Result<(), SelectionError>)
        requires
            old(self)@.wf(),
            old(self)@.issued_by(*old(innovation_num)),
            weights@.len() == old(self)@.connections.len(),
            old(self).layers < u32::MAX - 1,
            *old(innovation_num) <= usize::MAX - 3,
        ensures
            final(self)@.wf(),
            final(self)@.issued_by(*final(innovation_num)),
            old(self)@.reweighted(weights@).mutation_outcome(
                *old(innovation_num),
                node_creation,
                connection_creation,
                new_weight,
                final(self)@,
                *final(innovation_num),
                done is Ok,
            ),
    {
        proof {
            self@.lemma_reweighted_wf(weights@);
        }
        self.set_weights(&weights);
        let ghost start = self@;
        if node_creation {
            match self.insert_node(innovation_num) {
                Ok(()) => {},
                Err(e) => { return Err(e); },
            }
        }
        let ghost mid = self@;
        let ghost counter_mid = *innovation_num;
        assert(start.insertion_step(*old(innovation_num), node_creation, mid, counter_mid));
        if connection_creation {
            match self.new_connection(innovation_num, new_weight) {
                Ok(()) => {},
                Err(e) => {
                    assert(mid.growth_step(
                        counter_mid,
                        connection_creation,
                        new_weight,
                        self@,
                        *innovation_num,
                        false,
                    ));
                    return Err(e);
                },
            }
        }
        assert(mid.growth_step(
            counter_mid,
            connection_creation,
            new_weight,
            self@,
            *innovation_num,
            true,
        ));
        Ok(())
    }
}

} // verus!
