//! Run-time audit of a brain: deciding well-formedness for callers that
//! build or edit a brain by hand.

use crate::model::{NeatBrain, HIDDEN, OUTPUT, SENSOR};
use vstd::prelude::*;

verus! {

impl NeatBrain {
    /// Whether every node has a valid kind and sits on a layer that the
    /// layer count allows.
    fn nodes_in_bounds(&self) -> (ok: bool)
        ensures
            ok == (self@.kinds_valid() && self@.layers_bounded()),
    {
        let mut i: usize = 0;
        while i < self.nodes.len()
            invariant
                i <= self.nodes@.len(),
                forall|j: int|
                    0 <= j < i ==> {
                        let n = #[trigger] self.nodes@[j];
                        &&& n.subtype <= OUTPUT
                        &&& 1 <= n.layer <= self.layers
                        &&& n.subtype == OUTPUT <==> n.layer == self.layers
                    },
            decreases self.nodes@.len() - i,
        {
            let n = self.nodes[i];
            if n.subtype > OUTPUT || n.layer < 1 || n.layer > self.layers || (n.subtype == OUTPUT)
                != (n.layer == self.layers) {
                assert(!(self@.kinds_valid() && self@.layers_bounded())) by {
                    let n = self@.nodes[i as int];
                }
                return false;
            }
            i += 1;
        }
        true
    }

    /// Whether no identifier is carried by two nodes.
    fn names_distinct(&self) -> (ok: bool)
        ensures
            ok == self@.ids_distinct(),
    {
        let mut i: usize = 0;
        while i < self.nodes.len()
            invariant
                i <= self.nodes@.len(),
                forall|a: int, b: int|
                    0 <= a < i && a < b < self.nodes@.len() ==> (#[trigger] self.nodes@[a]).node_id
                        != (#[trigger] self.nodes@[b]).node_id,
            decreases self.nodes@.len() - i,
        {
            let mut j: usize = i + 1;
            while j < self.nodes.len()
                invariant
                    i < j <= self.nodes@.len(),
                    forall|b: int|
                        i < b < j ==> self.nodes@[i as int].node_id != (
                        #[trigger] self.nodes@[b]).node_id,
                decreases self.nodes@.len() - j,
            {
                if self.nodes[i].node_id == self.nodes[j].node_id {
                    assert(self@.nodes[i as int].node_id == self@.nodes[j as int].node_id);
                    return false;
                }
                j += 1;
            }
            i += 1;
        }
        assert forall|a: int, b: int|
            0 <= a < self.nodes@.len() && 0 <= b < self.nodes@.len() && a != b implies (
        #[trigger] self.nodes@[a]).node_id != (#[trigger] self.nodes@[b]).node_id by {
            if a < b {
            } else {
                assert(self.nodes@[b].node_id != self.nodes@[a].node_id);
            }
        }
        true
    }

    /// Whether every connection joins existing nodes and climbs from a
    /// node that is no output to a node that is no sensor.
    fn links_climb(&self) -> (ok: bool)
        requires
            self@.ids_distinct(),
        ensures
            ok == self@.links_forward(),
    {
        let mut k: usize = 0;
        while k < self.connections.len()
            invariant
                k <= self.connections@.len(),
                self@.ids_distinct(),
                forall|m: int| 0 <= m < k ==> #[trigger] self@.link_forward(m),
            decreases self.connections@.len() - k,
        {
            let c = self.connections[k];
            let good: bool = match (self.position(c.input), self.position(c.output)) {
                (Some(a), Some(b)) => {
                    proof {
                        self@.lemma_slot(a as int);
                        self@.lemma_slot(b as int);
                    }
                    self.nodes[a].subtype != OUTPUT && self.nodes[b].subtype != SENSOR
                        && self.nodes[a].layer < self.nodes[b].layer
                },
                _ => false,
            };
            if !good {
                assert(!self@.link_forward(k as int));
                return false;
            }
            k += 1;
        }
        true
    }

    /// Whether no ordered pair of nodes is joined twice.
    fn links_differ(&self) -> (ok: bool)
        ensures
            ok == self@.links_distinct(),
    {
        let mut k: usize = 0;
        while k < self.connections.len()
            invariant
                k <= self.connections@.len(),
                forall|a: int, b: int|
                    0 <= a < k && a < b < self.connections@.len() ==> !((
                    #[trigger] self.connections@[a]).input == (#[trigger] self.connections@[b]).input
                        && self.connections@[a].output == self.connections@[b].output),
            decreases self.connections@.len() - k,
        {
            let mut m: usize = k + 1;
            while m < self.connections.len()
                invariant
                    k < m <= self.connections@.len(),
                    forall|b: int|
                        k < b < m ==> !(self.connections@[k as int].input == (
                        #[trigger] self.connections@[b]).input && self.connections@[k as int].output
                            == self.connections@[b].output),
                decreases self.connections@.len() - m,
            {
                if self.connections[k].input == self.connections[m].input
                    && self.connections[k].output == self.connections[m].output {
                    assert(self@.connections[k as int].input == self@.connections[m as int].input);
                    return false;
                }
                m += 1;
            }
            k += 1;
        }
        assert forall|a: int, b: int|
            0 <= a < self.connections@.len() && 0 <= b < self.connections@.len() && a != b implies !((
        #[trigger] self.connections@[a]).input == (#[trigger] self.connections@[b]).input
            && self.connections@[a].output == self.connections@[b].output) by {
            if a < b {
            } else {
                assert(!(self.connections@[b].input == self.connections@[a].input
                    && self.connections@[b].output == self.connections@[a].output));
            }
        }
        true
    }

    /// Whether some connection leaves the node `id`.
    fn has_link_from(&self, id: usize) -> (found: bool)
        ensures
            found == self@.feeds(id),
    {
        let mut k: usize = 0;
        while k < self.connections.len()
            invariant
                k <= self.connections@.len(),
                forall|m: int| 0 <= m < k ==> (#[trigger] self.connections@[m]).input != id,
            decreases self.connections@.len() - k,
        {
            if self.connections[k].input == id {
                assert(self@.connections[k as int].input == id);
                return true;
            }
            k += 1;
        }
        false
    }

    /// Whether every hidden node feeds some node.
    fn hidden_nodes_feed(&self) -> (ok: bool)
        ensures
            ok == self@.hidden_feed(),
    {
        let mut i: usize = 0;
        while i < self.nodes.len()
            invariant
                i <= self.nodes@.len(),
                forall|j: int|
                    0 <= j < i && (#[trigger] self.nodes@[j]).subtype == HIDDEN ==> self@.feeds(
                        self.nodes@[j].node_id,
                    ),
            decreases self.nodes@.len() - i,
        {
            if self.nodes[i].subtype == HIDDEN && !self.has_link_from(self.nodes[i].node_id) {
                assert(self@.nodes[i as int].subtype == HIDDEN);
                return false;
            }
            i += 1;
        }
        true
    }

    /// Decides whether the brain is well formed.
    pub fn is_well_formed(&self) -> (ok: bool)
        ensures
            ok == self@.wf(),
    {
        self.nodes_in_bounds() && self.names_distinct() && self.links_climb()
            && self.links_differ() && self.hidden_nodes_feed()
    }

    /// Decides whether every identifier in use is at most `counter`.
    pub fn is_issued_by(&self, counter: usize) -> (ok: bool)
        ensures
            ok == self@.issued_by(counter),
    {
        let mut i: usize = 0;
        while i < self.nodes.len()
            invariant
                i <= self.nodes@.len(),
                forall|j: int| 0 <= j < i ==> (#[trigger] self.nodes@[j]).node_id <= counter,
            decreases self.nodes@.len() - i,
        {
            if self.nodes[i].node_id > counter {
                assert(self@.nodes[i as int].node_id > counter);
                return false;
            }
            i += 1;
        }
        true
    }

    /// Number of sensor nodes: the number of inputs that an evaluation
    /// takes.
    pub fn sensor_count(&self) -> (count: usize)
        ensures
            count == self@.sensor_count(),
    {
        let mut count: usize = 0;
        let mut i: usize = 0;
        while i < self.nodes.len()
            invariant
                i <= self.nodes@.len(),
                count == self@.sensors_before(i as int),
                count <= i,
            decreases self.nodes@.len() - i,
        {
            if self.nodes[i].subtype == SENSOR {
                count += 1;
            }
            i += 1;
        }
        count
    }
}

} // verus!
