use std::collections::HashMap;

use vstd::prelude::*;

use crate::geo::{BoundingBox, Position};

verus! {

/// An edge of the routing graph; its source is the node whose offset range holds it.
#[derive(Clone, Copy, Debug, PartialEq, Eq, Structural)]
pub struct RoutingEdge {
    /// Dense index of the node the edge leads to.
    pub target: usize,
    /// Length in millimetres.
    pub length: u64,
    /// Speed limit in millimetres per second.
    pub speed: u64,
    /// Travel modes allowed on the edge (`FLAG_*` bits).
    pub constraints: u8,
}

/// Position and dense index of a retained OSM node.
#[derive(Clone, Copy, Debug, PartialEq, Eq, Structural)]
pub struct OsmNode {
    pub position: Position,
    pub internal_id: usize,
}

/// The routing graph in compressed sparse row form.
pub struct RoutingData {
    /// OSM id to position and dense index.
    pub osm_nodes: HashMap<i64, OsmNode>,
    /// Dense index to OSM id, ascending.
    pub internal_nodes: Vec<i64>,
    /// All edges, grouped by source node in dense order.
    pub internal_edges: Vec<RoutingEdge>,
    /// `internal_offset[i]..internal_offset[i + 1]` are the edges leaving node `i`.
    pub internal_offset: Vec<usize>,
}

impl RoutingData {
    pub open spec fn node_count(&self) -> nat {
        self.internal_nodes@.len()
    }

    /// Edge `e` leaves dense node `u`.
    pub open spec fn leaves(&self, u: int, e: int) -> bool {
        0 <= u < self.node_count() && self.internal_offset@[u] <= e < self.internal_offset@[u + 1]
    }

    #[verifier::opaque]
    pub open spec fn wf(&self) -> bool {
        let n = self.node_count();
        &&& self.internal_offset@.len() == n + 1
        &&& self.internal_offset@[0] == 0
        &&& self.internal_offset@[n as int] == self.internal_edges@.len()
        &&& forall|i: int, j: int|
            0 <= i <= j <= n ==> self.internal_offset@[i] <= self.internal_offset@[j]
        &&& forall|e: int|
            0 <= e < self.internal_edges@.len() ==> self.internal_edges@[e].target < n
        &&& forall|i: int, j: int|
            0 <= i < j < n ==> self.internal_nodes@[i] < self.internal_nodes@[j]
        &&& forall|id: i64| self.osm_nodes@.contains_key(id) <==> self.internal_nodes@.contains(id)
        &&& forall|i: int|
            0 <= i < n ==> #[trigger] self.osm_nodes@[self.internal_nodes@[i]].internal_id == i
    }
}

impl RoutingData {
    /// An edge leaving a node is an edge of the graph, and leads to a node of the graph.
    pub proof fn lemma_leaves(&self, u: int, e: int)
        requires
            self.wf(),
            self.leaves(u, e),
        ensures
            0 <= e < self.internal_edges@.len(),
            self.internal_edges@[e].target < self.node_count(),
    {
        reveal(RoutingData::wf);
        assert(self.internal_offset@[u + 1] <= self.internal_offset@[self.node_count() as int]);
    }
}

impl RoutingData {
    /// The CSR layout: offsets never decrease, and each node's edge range lies within the edge
    /// array and leads to nodes of the graph.
    pub proof fn lemma_csr_invariant(&self)
        requires
            self.wf(),
        ensures
            forall|i: int, j: int|
                0 <= i <= j <= self.node_count() ==> self.internal_offset@[i] <= self.internal_offset@[j],
            forall|i: int, e: int|
                #[trigger] self.leaves(i, e) ==> e < self.internal_edges@.len()
                    && self.internal_edges@[e].target < self.node_count(),
    {
        reveal(RoutingData::wf);
        assert forall|i: int, e: int|
            #[trigger] self.leaves(i, e) implies e < self.internal_edges@.len()
                && self.internal_edges@[e].target < self.node_count() by {
            self.lemma_leaves(i, e);
        }
    }

    /// Dense indices and OSM ids correspond one to one.
    pub proof fn lemma_node_index_bijection(&self)
        requires
            self.wf(),
        ensures
            forall|i: int|
                0 <= i < self.node_count() ==> #[trigger] self.osm_nodes@[self.internal_nodes@[i]].internal_id == i,
            forall|id: i64| self.osm_nodes@.contains_key(id) <==> self.internal_nodes@.contains(id),
    {
        reveal(RoutingData::wf);
    }
}

impl RoutingData {
    /// The range of edge indices leaving dense node `node`.
    pub fn offset_lookup(&self, node: usize) -> (r: (usize, usize))
        requires
            self.wf(),
            node < self.node_count(),
        ensures
            r.0 == self.internal_offset@[node as int],
            r.1 == self.internal_offset@[node + 1],
            r.0 <= r.1 <= self.internal_edges@.len(),
    {
        proof {
            reveal(RoutingData::wf);
            assert(self.internal_offset@[node + 1] <= self.internal_offset@[self.node_count() as int]);
        }
        let n = self.internal_nodes.len();
        (self.internal_offset[node], self.internal_offset[node + 1])
    }

    /// The dense node that edge `e` leaves, if `e` is an edge of the graph.
    pub fn edge_source(&self, e: usize) -> (r: Option<usize>)
        requires
            self.wf(),
        ensures
            r matches Some(u) ==> self.leaves(u as int, e as int),
            r is None <==> e >= self.internal_edges@.len(),
    {
        proof {
            reveal(RoutingData::wf);
        }
        let n = self.internal_nodes.len();
        if e >= self.internal_edges.len() {
            return None;
        }
        // last node whose first edge is at or before `e`
        let mut lo: usize = 0;
        let mut hi: usize = n;
        while hi - lo > 1
            invariant
                self.wf(),
                n == self.node_count(),
                self.internal_offset@.len() == n + 1,
                0 <= lo < hi <= n,
                self.internal_offset@[lo as int] <= e,
                e < self.internal_offset@[hi as int],
            decreases hi - lo,
        {
            let mid = lo + (hi - lo) / 2;
            if self.internal_offset[mid] <= e {
                lo = mid;
            } else {
                hi = mid;
            }
        }
        proof {
            assert(self.internal_offset@[lo + 1] <= self.internal_offset@[hi as int]);
            if e >= self.internal_offset@[lo + 1] {
                assert(hi == lo + 1);
            }
        }
        Some(lo)
    }
}

/// The OSM ids of one grid cell.
#[derive(Clone, Debug)]
pub struct Bin {
    pub nodes: Vec<i64>,
}

/// A uniform latitude/longitude grid over the nodes, for nearest-node lookup.
pub struct Grid {
    pub bbox: BoundingBox,
    pub bin_count_lat: usize,
    pub bin_count_lon: usize,
    /// Cell `(lat_bin, lon_bin)` is `bins[lat_bin * bin_count_lon + lon_bin]`.
    pub bins: Vec<Bin>,
}

/// A compiled routing graph with its spatial index.
pub struct State {
    pub routing_data: RoutingData,
    pub grid: Grid,
}

} // verus!
