//! Construction of the initial brain: sensors, outputs and a number of
//! random connections between them.

use crate::model::{NeatBrain, Node, Topology, OUTPUT, SENSOR};
use vstd::prelude::*;
use vstd::set_lib::{lemma_int_range, lemma_len_subset, lemma_map_size_bound, set_int_range};

verus! {

/// The nodes of a fresh brain: `sensors` sensor nodes on layer one followed
/// by `outputs` output nodes on layer two, numbered upwards from `start + 1`.
pub open spec fn seed_nodes(start: usize, sensors: usize, outputs: usize) -> Seq<Node> {
    Seq::new(
        (sensors + outputs) as nat,
        |t: int|
            Node {
                node_id: (start + t + 1) as usize,
                subtype: if t < sensors {
                    SENSOR
                } else {
                    OUTPUT
                },
                layer: if t < sensors {
                    1
                } else {
                    2
                },
                value: 0,
            },
    )
}

/// One of the first `count` indices names the cell `(i, j)`.
pub open spec fn names_cell(
    count: nat,
    row: spec_fn(int) -> int,
    col: spec_fn(int) -> int,
    i: int,
    j: int,
) -> bool {
    exists|m: int| 0 <= m < count && #[trigger] row(m) == i && col(m) == j
}

/// Counting cells of a grid: if each cell of a grid with `rows` rows and
/// `cols` columns is named by one of the first `count` indices, then there
/// are at least as many indices as cells.
pub proof fn lemma_grid_covered(
    rows: nat,
    cols: nat,
    count: nat,
    row: spec_fn(int) -> int,
    col: spec_fn(int) -> int,
)
    requires
        forall|i: int, j: int|
            0 <= i < rows && 0 <= j < cols ==> #[trigger] names_cell(count, row, col, i, j),
    ensures
        rows * cols <= count,
{
    let indices = set_int_range(0, count as int);
    let cells = set_int_range(0, (rows * cols) as int);
    let code = |m: int| row(m) * cols + col(m);
    let named = indices.map(code);
    lemma_int_range(0, count as int);
    assert(0 <= rows * cols) by (nonlinear_arith);
    lemma_int_range(0, (rows * cols) as int);
    lemma_map_size_bound(indices, named, code);
    assert forall|n: int| cells.contains(n) implies named.contains(n) by {
        assert(cols > 0) by (nonlinear_arith)
            requires
                0 <= n < rows * cols,
        ;
        let i = n / (cols as int);
        let j = n % (cols as int);
        assert(0 <= i < rows && 0 <= j < cols && n == i * cols + j) by (nonlinear_arith)
            requires
                0 <= n < rows * cols,
                cols > 0,
                i == n / (cols as int),
                j == n % (cols as int),
        ;
        assert(names_cell(count, row, col, i, j));
        let m = choose|m: int| 0 <= m < count && #[trigger] row(m) == i && col(m) == j;
        assert(indices.contains(m));
        assert(code(m) == n);
    }
    assert(cells.subset_of(named));
    lemma_len_subset(cells, named);
}

impl Topology {
    /// A fresh brain whose sensors and outputs are not yet all joined can
    /// take another connection.
    pub proof fn lemma_seed_not_saturated(self, start: usize, sensors: usize, outputs: usize)
        requires
            self.nodes == seed_nodes(start, sensors, outputs),
            start + sensors + outputs <= usize::MAX,
            self.connections.len() < sensors * outputs,
        ensures
            !self.saturated(),
    {
        if self.saturated() {
            let row = |m: int| self.slot(self.connections[m].input);
            let col = |m: int| self.slot(self.connections[m].output) - sensors;
            assert(self.ids_distinct());
            assert forall|i: int, j: int|
                0 <= i < sensors && 0 <= j < outputs implies #[trigger] names_cell(
                self.connections.len(),
                row,
                col,
                i,
                j,
            ) by {
                assert(!self.can_link(i, sensors + j));
                let a = self.nodes[i].node_id;
                let b = self.nodes[sensors + j].node_id;
                assert(self.linked(a, b));
                let m = choose|m: int|
                    0 <= m < self.connections.len() && (#[trigger] self.connections[m]).input == a
                        && self.connections[m].output == b;
                self.lemma_slot(i);
                self.lemma_slot(sensors + j);
                assert(row(m) == i && col(m) == j);
            }
            lemma_grid_covered(
                sensors as nat,
                outputs as nat,
                self.connections.len(),
                row,
                col,
            );
        }
    }
}

impl NeatBrain {
    /// Builds a brain from the shape `[sensors, connections, outputs]`.
    ///
    /// The sensors are placed on layer one and the outputs on layer two,
    /// each taking the next identifier from `innovation_num`.  Then
    /// `connections` times a sensor is joined to an output, the pair chosen
    /// at random among those not yet joined; the `k`-th connection gets the
    /// weight `weights[k]`, and the counter advances once more for each.
    ///
    /// There must be enough pairs of a sensor and an output for the
    /// connections asked for.
    pub fn new_brain(network_shape: Vec<usize>, innovation_num: &mut usize, weights: Vec<u32>) -> (brain:
        NeatBrain)
        requires
            network_shape@.len() == 3,
            weights@.len() == network_shape@[1],
            network_shape@[1] <= network_shape@[0] * network_shape@[2],
            *old(innovation_num) + network_shape@[0] + network_shape@[1] + network_shape@[2]
                <= usize::MAX,
        ensures
            brain@.wf(),
            brain@.issued_by(*final(innovation_num)),
            *final(innovation_num) == *old(innovation_num) + network_shape@[0] + network_shape@[1]
                + network_shape@[2],
            brain@.layers == 2,
            brain@.nodes == seed_nodes(*old(innovation_num), network_shape@[0], network_shape@[2]),
            brain@.connections.len() == network_shape@[1],
            forall|k: int|
                0 <= k < brain@.connections.len() ==> {
                    let c = #[trigger] brain@.connections[k];
                    &&& c.status
                    &&& c.weight == weights@[k]
                    &&& c.connection_id == (k as u32).wrapping_add(1)
                    &&& *old(innovation_num) < c.input <= *old(innovation_num) + network_shape@[0]
                    &&& *old(innovation_num) + network_shape@[0] < c.output <= *old(innovation_num)
                        + network_shape@[0] + network_shape@[2]
                },
    {
        let sensors: usize = network_shape[0];
        let links: usize = network_shape[1];
        let outputs: usize = network_shape[2];
        let ghost start: usize = *innovation_num;
        let ghost seed = seed_nodes(start, sensors, outputs);
        let mut nodes: Vec<Node> = Vec::new();
        let mut n: usize = 0;
        while n < sensors
            invariant
                n <= sensors,
                nodes@.len() == n,
                *innovation_num == start + n,
                start + sensors + links + outputs <= usize::MAX,
                seed == seed_nodes(start, sensors, outputs),
                forall|t: int| 0 <= t < n ==> #[trigger] nodes@[t] == seed[t],
            decreases sensors - n,
        {
            let node: Node = Node::new(innovation_num, SENSOR, 1);
            nodes.push(node);
            n += 1;
        }
        let mut n: usize = 0;
        while n < outputs
            invariant
                n <= outputs,
                nodes@.len() == sensors + n,
                *innovation_num == start + sensors + n,
                start + sensors + links + outputs <= usize::MAX,
                seed == seed_nodes(start, sensors, outputs),
                forall|t: int| 0 <= t < sensors + n ==> #[trigger] nodes@[t] == seed[t],
            decreases outputs - n,
        {
            let node: Node = Node::new(innovation_num, OUTPUT, 2);
            nodes.push(node);
            n += 1;
        }
        assert(nodes@ =~= seed);
        let mut brain = NeatBrain { nodes: nodes, connections: Vec::new(), layers: 2 };
        assert(brain@.wf());
        let mut k: usize = 0;
        while k < links
            invariant
                k <= links,
                links <= sensors * outputs,
                weights@.len() == links,
                brain@.wf(),
                brain@.layers == 2,
                brain@.nodes == seed,
                seed == seed_nodes(start, sensors, outputs),
                brain@.connections.len() == k,
                *innovation_num == start + sensors + outputs + k,
                start + sensors + links + outputs <= usize::MAX,
                forall|m: int|
                    0 <= m < k ==> {
                        let c = #[trigger] brain@.connections[m];
                        &&& c.status
                        &&& c.weight == weights@[m]
                        &&& c.connection_id == (m as u32).wrapping_add(1)
                        &&& start < c.input <= start + sensors
                        &&& start + sensors < c.output <= start + sensors + outputs
                    },
            decreases links - k,
        {
            let ghost before = brain@;
            proof {
                before.lemma_seed_not_saturated(start, sensors, outputs);
            }
            match brain.new_connection(innovation_num, weights[k]) {
                Ok(()) => {},
                Err(_) => {
                    proof {
                        assert(false);
                    }
                },
            }
            proof {
                let (i, j) = choose|i: int, j: int|
                    before.can_link(i, j) && brain@ == #[trigger] before.with_link(
                        i,
                        j,
                        weights@[k as int],
                    );
                before.lemma_with_link_wf(i, j, weights@[k as int]);
                assert(before.separated(i, j) == before);
            }
            k += 1;
        }
        brain
    }
}

} // verus!
