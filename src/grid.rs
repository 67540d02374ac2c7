use vstd::prelude::*;

use crate::data::{Bin, Grid, RoutingData};
use crate::geo::{BoundingBox, Position};

verus! {

/// Padding added around the nodes' bounding box: 0.001 degrees.
pub const GRID_PADDING: i64 = 10000;
/// Intended number of nodes per grid cell.
pub const NODES_PER_BIN: usize = 1024;
/// Largest magnitude of a grid bound, in units of 1e-7 degrees.
pub const COORD_LIMIT: i64 = 0x100_0000_0000;

impl RoutingData {
    /// Position of dense node `i`.
    pub open spec fn position_of(&self, i: int) -> Position {
        self.osm_nodes@[self.internal_nodes@[i]].position
    }
}

/// Cell coordinate of `v` on an axis from `lo` to `hi` cut into `count` cells, clamped.
pub open spec fn bin_coord(v: int, lo: int, hi: int, count: int) -> int {
    if v <= lo {
        0
    } else {
        let b = (v - lo) * count / (hi - lo);
        if b >= count {
            count - 1
        } else {
            b
        }
    }
}

impl Grid {
    pub open spec fn wf(&self) -> bool {
        &&& self.bin_count_lat >= 1
        &&& self.bin_count_lon >= 1
        &&& self.bins@.len() == self.bin_count_lat * self.bin_count_lon
        &&& -COORD_LIMIT <= self.bbox.min_lat < self.bbox.max_lat <= COORD_LIMIT
        &&& -COORD_LIMIT <= self.bbox.min_lon < self.bbox.max_lon <= COORD_LIMIT
    }

    /// Index into `bins` of cell `(a, b)`.
    pub open spec fn cell(&self, a: int, b: int) -> int {
        a * self.bin_count_lon + b
    }

    /// The cell holding position `p` (clamped to the grid).
    pub open spec fn bin_of(&self, p: Position) -> (int, int) {
        (
            bin_coord(p.lat as int, self.bbox.min_lat as int, self.bbox.max_lat as int, self.bin_count_lat as int),
            bin_coord(p.lon as int, self.bbox.min_lon as int, self.bbox.max_lon as int, self.bin_count_lon as int),
        )
    }

    /// Every node of `rd` is filed in the cell of its position, and only nodes of `rd` are
    /// filed.
    pub open spec fn indexes(&self, rd: RoutingData) -> bool {
        &&& forall|i: int|
            0 <= i < rd.node_count() ==> self.bins@[self.cell(
                self.bin_of(rd.position_of(i)).0,
                self.bin_of(rd.position_of(i)).1,
            )].nodes@.contains(#[trigger] rd.internal_nodes@[i])
        &&& forall|c: int, id: i64|
            0 <= c < self.bins@.len() && #[trigger] self.bins@[c].nodes@.contains(id)
                ==> rd.osm_nodes@.contains_key(id)
    }

    /// Index into `bins` of cell `(lat_bin, lon_bin)`.
    pub fn calc_bin_position(&self, lat_bin: usize, lon_bin: usize) -> (r: usize)
        requires
            self.wf(),
            lat_bin < self.bin_count_lat,
            lon_bin < self.bin_count_lon,
        ensures
            r == self.cell(lat_bin as int, lon_bin as int),
            r < self.bins@.len(),
    {
        let total = self.bins.len();
        proof {
            assert(lat_bin * self.bin_count_lon + lon_bin < self.bin_count_lat * self.bin_count_lon) by (nonlinear_arith)
                requires
                    lat_bin < self.bin_count_lat,
                    lon_bin < self.bin_count_lon,
            ;
            assert(0 <= lat_bin * self.bin_count_lon) by (nonlinear_arith);
        }
        lat_bin * self.bin_count_lon + lon_bin
    }

    /// The cell holding `position`, clamped to the grid.
    pub fn calc_bin_index(&self, position: &Position) -> (r: (usize, usize))
        requires
            self.wf(),
        ensures
            r.0 == self.bin_of(*position).0,
            r.1 == self.bin_of(*position).1,
            r.0 < self.bin_count_lat,
            r.1 < self.bin_count_lon,
    {
        let lat_bin = axis_bin(position.lat as i64, self.bbox.min_lat, self.bbox.max_lat, self.bin_count_lat);
        let lon_bin = axis_bin(position.lon as i64, self.bbox.min_lon, self.bbox.max_lon, self.bin_count_lon);
        (lat_bin, lon_bin)
    }
}

fn axis_bin(v: i64, lo: i64, hi: i64, count: usize) -> (r: usize)
    requires
        -COORD_LIMIT <= lo < hi <= COORD_LIMIT,
        count >= 1,
    ensures
        r == bin_coord(v as int, lo as int, hi as int, count as int),
        r < count,
{
    if v <= lo {
        return 0;
    }
    let off: u128 = (v as i128 - lo as i128) as u128;
    let span: u128 = (hi - lo) as u128;
    proof {
        assert(off * (count as u128) <= u128::MAX) by (nonlinear_arith)
            requires
                off <= 0x1_0000_0000_0000_0000u128,
                count <= usize::MAX,
        ;
    }
    let b: u128 = off * (count as u128) / span;
    if b >= count as u128 {
        (count - 1) as usize
    } else {
        b as usize
    }
}

impl RoutingData {
    /// Position of dense node `i`.
    pub fn position(&self, i: usize) -> (r: Position)
        requires
            self.wf(),
            i < self.node_count(),
        ensures
            r == self.position_of(i as int),
    {
        proof {
            reveal(RoutingData::wf);
        }
        let id = self.internal_nodes[i];
        assert(self.internal_nodes@.contains(id)) by {
            assert(self.internal_nodes@[i as int] == id);
        }
        match self.osm_nodes.get(&id) {
            Some(node) => node.position,
            None => Position { lat: 0, lon: 0 },
        }
    }
}

/// The smallest box holding the positions of all nodes of `routing_data`; with no nodes, the
/// empty box from `i64::MAX` to `i64::MIN`.
pub fn calculate_bounding_box(routing_data: &RoutingData) -> (r: BoundingBox)
    requires
        routing_data.wf(),
    ensures
        routing_data.node_count() == 0 ==> r == (BoundingBox {
            min_lat: i64::MAX,
            min_lon: i64::MAX,
            max_lat: i64::MIN,
            max_lon: i64::MIN,
        }),
        forall|i: int|
            0 <= i < routing_data.node_count() ==> r.contains_spec(#[trigger] routing_data.position_of(i)),
        routing_data.node_count() > 0 ==> {
            &&& exists|i: int| 0 <= i < routing_data.node_count() && r.min_lat == routing_data.position_of(i).lat
            &&& exists|i: int| 0 <= i < routing_data.node_count() && r.max_lat == routing_data.position_of(i).lat
            &&& exists|i: int| 0 <= i < routing_data.node_count() && r.min_lon == routing_data.position_of(i).lon
            &&& exists|i: int| 0 <= i < routing_data.node_count() && r.max_lon == routing_data.position_of(i).lon
        },
{
    let mut bbox = BoundingBox { min_lat: i64::MAX, min_lon: i64::MAX, max_lat: i64::MIN, max_lon: i64::MIN };
    let n = routing_data.internal_nodes.len();
    let ghost mut w: (int, int, int, int) = (0, 0, 0, 0);
    let mut i: usize = 0;
    while i < n
        invariant
            routing_data.wf(),
            n == routing_data.node_count(),
            0 <= i <= n,
            i == 0 ==> bbox == (BoundingBox { min_lat: i64::MAX, min_lon: i64::MAX, max_lat: i64::MIN, max_lon: i64::MIN }),
            forall|j: int| 0 <= j < i ==> bbox.contains_spec(#[trigger] routing_data.position_of(j)),
            i > 0 ==> {
                &&& 0 <= w.0 < i && bbox.min_lat == routing_data.position_of(w.0).lat
                &&& 0 <= w.1 < i && bbox.max_lat == routing_data.position_of(w.1).lat
                &&& 0 <= w.2 < i && bbox.min_lon == routing_data.position_of(w.2).lon
                &&& 0 <= w.3 < i && bbox.max_lon == routing_data.position_of(w.3).lon
            },
        decreases n - i,
    {
        let p = routing_data.position(i);
        if (p.lat as i64) > bbox.max_lat {
            bbox.max_lat = p.lat as i64;
            proof { w.1 = i as int; }
        }
        if (p.lon as i64) > bbox.max_lon {
            bbox.max_lon = p.lon as i64;
            proof { w.3 = i as int; }
        }
        if (p.lat as i64) < bbox.min_lat {
            bbox.min_lat = p.lat as i64;
            proof { w.0 = i as int; }
        }
        if (p.lon as i64) < bbox.min_lon {
            bbox.min_lon = p.lon as i64;
            proof { w.2 = i as int; }
        }
        i += 1;
    }
    bbox
}

/// Integer square root: the largest `r` with `r * r <= x`.
fn isqrt(x: u64) -> (r: u64)
    ensures
        r * r <= x < (r + 1) * (r + 1),
{
    let mut lo: u64 = 0;
    let mut hi: u64 = 0x1_0000_0000;
    proof {
        assert(x < hi * hi) by (nonlinear_arith)
            requires
                hi == 0x1_0000_0000u64,
                x <= u64::MAX,
        ;
    }
    while hi - lo > 1
        invariant
            lo < hi <= 0x1_0000_0000,
            lo * lo <= x,
            x < hi * hi,
        decreases hi - lo,
    {
        let mid = lo + (hi - lo) / 2;
        proof {
            assert(mid * mid <= 0x1_0000_0000u64 * 0x1_0000_0000u64) by (nonlinear_arith)
                requires
                    mid <= 0x1_0000_0000u64,
            ;
        }
        if (mid as u128) * (mid as u128) <= x as u128 {
            lo = mid;
        } else {
            hi = mid;
        }
    }
    lo
}

/// Number of cells for `n` nodes: `n / 1024`, at least one.
pub open spec fn cell_target(n: int) -> int {
    if n / (NODES_PER_BIN as int) == 0 {
        1
    } else {
        n / (NODES_PER_BIN as int)
    }
}

/// The squared number of latitude cells wanted for `n` nodes in a box `dlat` by `dlon`:
/// `cells * dlat / dlon`, saturated at `u64::MAX`.
pub open spec fn lat_cells_squared(n: int, dlat: int, dlon: int) -> int {
    let r = cell_target(n) * dlat / dlon;
    if r > u64::MAX {
        u64::MAX as int
    } else {
        r
    }
}

/// `(lat, lon)` are the cell counts for `n` nodes in a box `dlat` by `dlon`, `root` being the
/// integer square root of the wanted number of latitude cells squared.
pub open spec fn dims_for(n: int, dlat: int, dlon: int, lat: int, lon: int, root: int) -> bool {
    &&& 0 <= root
    &&& root * root <= lat_cells_squared(n, dlat, dlon) < (root + 1) * (root + 1)
    &&& (lat, lon) == grid_dims(n, dlat, dlon, root)
}

/// Cell counts `(lat, lon)` for `n` nodes in a box `dlat` by `dlon`: about `n / 1024` cells
/// (at least one), split in proportion to the box's sides.
pub open spec fn grid_dims(n: int, dlat: int, dlon: int, root: int) -> (int, int) {
    let cells = cell_target(n);
    let lat = if root < 1 {
        1
    } else if root > cells {
        cells
    } else {
        root
    };
    let lon = if cells / lat == 0 {
        1
    } else {
        cells / lat
    };
    (lat, lon)
}

/// Ids of the first `k` nodes of `rd` whose position falls in the cell with index `c`, in
/// dense order.
pub open spec fn filed(grid: Grid, rd: RoutingData, c: int, k: int) -> Seq<i64>
    decreases k,
{
    if k <= 0 {
        Seq::empty()
    } else {
        let p = rd.position_of(k - 1);
        if grid.cell(grid.bin_of(p).0, grid.bin_of(p).1) == c {
            filed(grid, rd, c, k - 1).push(rd.internal_nodes@[k - 1])
        } else {
            filed(grid, rd, c, k - 1)
        }
    }
}

/// The ids filed in cell `c` are distinct and are exactly the nodes among the first `k` whose
/// position falls in `c`; with the contents that `build_grid` states, every node is filed in
/// one cell, once.
pub proof fn lemma_filed_exactly_once(grid: Grid, rd: RoutingData, c: int, k: int)
    requires
        rd.wf(),
        0 <= k <= rd.node_count(),
    ensures
        filed(grid, rd, c, k).no_duplicates(),
        forall|i: int|
            0 <= i < rd.node_count() ==> (filed(grid, rd, c, k).contains(#[trigger] rd.internal_nodes@[i]) <==> (i
                < k && grid.cell(grid.bin_of(rd.position_of(i)).0, grid.bin_of(rd.position_of(i)).1) == c)),
    decreases k,
{
    reveal(RoutingData::wf);
    if k > 0 {
        lemma_filed_exactly_once(grid, rd, c, k - 1);
        let prev = filed(grid, rd, c, k - 1);
        let id = rd.internal_nodes@[k - 1];
        let p = rd.position_of(k - 1);
        assert(!prev.contains(id)) by {
            if prev.contains(id) {
                let m = choose|m: int| 0 <= m < prev.len() && prev[m] == id;
                assert(forall|x: i64| #[trigger] prev.contains(x) ==> exists|i: int| 0 <= i < k - 1 && rd.internal_nodes@[i] == x) by {
                    assert forall|x: i64| #[trigger] prev.contains(x) implies exists|i: int| 0 <= i < k - 1 && rd.internal_nodes@[i] == x by {
                        lemma_filed_members(grid, rd, c, k - 1, x);
                    }
                }
                let i = choose|i: int| 0 <= i < k - 1 && rd.internal_nodes@[i] == prev[m];
                assert(rd.internal_nodes@[i] < rd.internal_nodes@[k - 1]);
            }
        }
        if grid.cell(grid.bin_of(p).0, grid.bin_of(p).1) == c {
            let cur = prev.push(id);
            assert forall|a: int, b: int| 0 <= a < cur.len() && 0 <= b < cur.len() && a != b implies cur[a] != cur[b] by {
                if a == cur.len() - 1 {
                    assert(prev.contains(cur[b]) ==> cur[a] != cur[b]);
                    assert(cur[b] == prev[b]);
                } else if b == cur.len() - 1 {
                    assert(cur[a] == prev[a]);
                }
            }
            assert forall|i: int| 0 <= i < rd.node_count() implies (cur.contains(#[trigger] rd.internal_nodes@[i]) <==> (i
                < k && grid.cell(grid.bin_of(rd.position_of(i)).0, grid.bin_of(rd.position_of(i)).1) == c)) by {
                if i == k - 1 {
                    assert(cur[cur.len() - 1] == id);
                } else {
                    if i < k - 1 || i >= k {
                        assert(rd.internal_nodes@[i] != id) by {
                            if i < k - 1 {
                                assert(rd.internal_nodes@[i] < rd.internal_nodes@[k - 1]);
                            } else {
                                assert(rd.internal_nodes@[k - 1] < rd.internal_nodes@[i]);
                            }
                        }
                    }
                    if cur.contains(rd.internal_nodes@[i]) {
                        let m = choose|m: int| 0 <= m < cur.len() && cur[m] == rd.internal_nodes@[i];
                        if m < prev.len() {
                            assert(prev[m] == rd.internal_nodes@[i]);
                        }
                    }
                    if prev.contains(rd.internal_nodes@[i]) {
                        let m = choose|m: int| 0 <= m < prev.len() && prev[m] == rd.internal_nodes@[i];
                        assert(cur[m] == rd.internal_nodes@[i]);
                    }
                }
            }
        } else {
            assert forall|i: int| 0 <= i < rd.node_count() implies (prev.contains(#[trigger] rd.internal_nodes@[i]) <==> (i
                < k && grid.cell(grid.bin_of(rd.position_of(i)).0, grid.bin_of(rd.position_of(i)).1) == c)) by {
            }
        }
    }
}

/// Every id filed among the first `k` nodes is one of them.
proof fn lemma_filed_members(grid: Grid, rd: RoutingData, c: int, k: int, x: i64)
    requires
        filed(grid, rd, c, k).contains(x),
    ensures
        exists|i: int| 0 <= i < k && rd.internal_nodes@[i] == x,
    decreases k,
{
    if k > 0 {
        let prev = filed(grid, rd, c, k - 1);
        let p = rd.position_of(k - 1);
        if grid.cell(grid.bin_of(p).0, grid.bin_of(p).1) == c {
            let cur = prev.push(rd.internal_nodes@[k - 1]);
            let m = choose|m: int| 0 <= m < cur.len() && #[trigger] cur[m] == x;
            if m < prev.len() {
                assert(prev[m] == x);
                lemma_filed_members(grid, rd, c, k - 1, x);
            } else {
                assert(rd.internal_nodes@[k - 1] == x);
            }
        } else {
            lemma_filed_members(grid, rd, c, k - 1, x);
        }
    }
}

proof fn lemma_filed_shape(g1: Grid, g2: Grid, rd: RoutingData, c: int, k: int)
    requires
        g1.bbox == g2.bbox,
        g1.bin_count_lat == g2.bin_count_lat,
        g1.bin_count_lon == g2.bin_count_lon,
    ensures
        filed(g1, rd, c, k) == filed(g2, rd, c, k),
    decreases k,
{
    if k > 0 {
        lemma_filed_shape(g1, g2, rd, c, k - 1);
    }
}

/// `bbox` is the smallest box holding every node of `rd`, widened by `GRID_PADDING` on each
/// side.
pub open spec fn is_padded_box(rd: RoutingData, bbox: BoundingBox) -> bool {
    let n = rd.node_count();
    &&& forall|i: int|
        0 <= i < n ==> bbox.min_lat + GRID_PADDING <= (#[trigger] rd.position_of(i)).lat
            <= bbox.max_lat - GRID_PADDING && bbox.min_lon + GRID_PADDING <= rd.position_of(i).lon
            <= bbox.max_lon - GRID_PADDING
    &&& exists|i: int| 0 <= i < n && bbox.min_lat + GRID_PADDING == rd.position_of(i).lat
    &&& exists|i: int| 0 <= i < n && bbox.max_lat - GRID_PADDING == rd.position_of(i).lat
    &&& exists|i: int| 0 <= i < n && bbox.min_lon + GRID_PADDING == rd.position_of(i).lon
    &&& exists|i: int| 0 <= i < n && bbox.max_lon - GRID_PADDING == rd.position_of(i).lon
}

/// Files every node of `routing_data` in a uniform grid over its padded bounding box.
pub fn build_grid(routing_data: &RoutingData) -> (grid: Grid)
    requires
        routing_data.wf(),
    ensures
        grid.wf(),
        grid.indexes(*routing_data),
        forall|c: int|
            0 <= c < grid.bins@.len() ==> (#[trigger] grid.bins@[c]).nodes@ == filed(
                grid,
                *routing_data,
                c,
                routing_data.node_count() as int,
            ),
        routing_data.node_count() > 0 ==> is_padded_box(*routing_data, grid.bbox),
        routing_data.node_count() == 0 ==> grid.bbox == (BoundingBox {
            min_lat: -10000i64,
            min_lon: -10000i64,
            max_lat: 10000,
            max_lon: 10000,
        }),
        exists|root: int|
            #[trigger] dims_for(
                routing_data.node_count() as int,
                grid.bbox.max_lat - grid.bbox.min_lat,
                grid.bbox.max_lon - grid.bbox.min_lon,
                grid.bin_count_lat as int,
                grid.bin_count_lon as int,
                root,
            ),
{
    let n = routing_data.internal_nodes.len();
    let b = calculate_bounding_box(routing_data);
    let bbox = if n == 0 {
        BoundingBox { min_lat: -GRID_PADDING, min_lon: -GRID_PADDING, max_lat: GRID_PADDING, max_lon: GRID_PADDING }
    } else {
        proof {
            let w = choose|i: int| 0 <= i < n && b.min_lat == routing_data.position_of(i).lat;
            let w2 = choose|i: int| 0 <= i < n && b.max_lat == routing_data.position_of(i).lat;
            let w3 = choose|i: int| 0 <= i < n && b.min_lon == routing_data.position_of(i).lon;
            let w4 = choose|i: int| 0 <= i < n && b.max_lon == routing_data.position_of(i).lon;
        }
        BoundingBox {
            min_lat: b.min_lat - GRID_PADDING,
            min_lon: b.min_lon - GRID_PADDING,
            max_lat: b.max_lat + GRID_PADDING,
            max_lon: b.max_lon + GRID_PADDING,
        }
    };
    if n > 0 {
        assert(b.contains_spec(routing_data.position_of(0)));
    }
    let cells: usize = if n / NODES_PER_BIN == 0 {
        1
    } else {
        n / NODES_PER_BIN
    };
    let dlat = (bbox.max_lat - bbox.min_lat) as u128;
    let dlon = (bbox.max_lon - bbox.min_lon) as u128;
    proof {
        assert((cells as u128) * dlat <= u128::MAX) by (nonlinear_arith)
            requires
                cells <= usize::MAX,
                dlat <= 0x1_0000_0000_0000u128,
        ;
    }
    let ratio: u128 = (cells as u128) * dlat / dlon;
    let root = isqrt(if ratio > u64::MAX as u128 { u64::MAX } else { ratio as u64 });
    let cnt_lat: usize = if root < 1 {
        1
    } else if root > cells as u64 {
        cells
    } else {
        root as usize
    };
    let cnt_lon: usize = if cells / cnt_lat == 0 {
        1
    } else {
        cells / cnt_lat
    };
    proof {
        assert(cnt_lat * cnt_lon <= cells) by (nonlinear_arith)
            requires
                1 <= cnt_lat <= cells,
                cnt_lon == (if cells / cnt_lat == 0 { 1 } else { cells / cnt_lat }),
        ;
    }
    let total = cnt_lat * cnt_lon;
    let mut bins: Vec<Bin> = Vec::new();
    let mut k: usize = 0;
    while k < total
        invariant
            0 <= k <= total,
            bins@.len() == k,
            forall|c: int| 0 <= c < k ==> (#[trigger] bins@[c]).nodes@.len() == 0,
        decreases total - k,
    {
        bins.push(Bin { nodes: Vec::new() });
        k += 1;
    }
    let mut grid = Grid { bbox, bin_count_lat: cnt_lat, bin_count_lon: cnt_lon, bins };
    let ghost g0 = grid;
    let mut i: usize = 0;
    proof {
        assert forall|c: int| 0 <= c < grid.bins@.len() implies (#[trigger] grid.bins@[c]).nodes@ == filed(g0, *routing_data, c, 0) by {
            assert(grid.bins@[c].nodes@ =~= Seq::<i64>::empty());
        }
    }
    while i < n
        invariant
            g0.bbox == bbox,
            g0.bin_count_lat == cnt_lat,
            g0.bin_count_lon == cnt_lon,
            forall|c: int|
                0 <= c < grid.bins@.len() ==> (#[trigger] grid.bins@[c]).nodes@ == filed(g0, *routing_data, c, i as int),
            routing_data.wf(),
            n == routing_data.node_count(),
            0 <= i <= n,
            grid.wf(),
            grid.bbox == bbox,
            grid.bin_count_lat == cnt_lat,
            grid.bin_count_lon == cnt_lon,
            forall|j: int|
                0 <= j < i ==> grid.bins@[grid.cell(
                    grid.bin_of(routing_data.position_of(j)).0,
                    grid.bin_of(routing_data.position_of(j)).1,
                )].nodes@.contains(#[trigger] routing_data.internal_nodes@[j]),
            forall|c: int, id: i64|
                0 <= c < grid.bins@.len() && #[trigger] grid.bins@[c].nodes@.contains(id)
                    ==> routing_data.osm_nodes@.contains_key(id),
        decreases n - i,
    {
        let p = routing_data.position(i);
        let (lat_bin, lon_bin) = grid.calc_bin_index(&p);
        let index = grid.calc_bin_position(lat_bin, lon_bin);
        let id = routing_data.internal_nodes[i];
        proof {
            reveal(RoutingData::wf);
            assert(routing_data.internal_nodes@.contains(id)) by {
                assert(routing_data.internal_nodes@[i as int] == id);
            }
        }
        let ghost before = grid.bins@;
        grid.bins[index].nodes.push(id);
        proof {
            assert(grid.bins@.len() == before.len());
            assert(grid.bins@[index as int].nodes@ == before[index as int].nodes@.push(id));
            assert(forall|c: int| 0 <= c < before.len() && c != index ==> grid.bins@[c] == before[c]);
            assert forall|c: int|
                0 <= c < grid.bins@.len() implies (#[trigger] grid.bins@[c]).nodes@ == filed(g0, *routing_data, c, i + 1) by {
                if c != index {
                    assert(grid.bins@[c] == before[c]);
                }
            }
            assert forall|j: int|
                0 <= j < i + 1 implies grid.bins@[grid.cell(
                    grid.bin_of(routing_data.position_of(j)).0,
                    grid.bin_of(routing_data.position_of(j)).1,
                )].nodes@.contains(#[trigger] routing_data.internal_nodes@[j]) by {
                let c = grid.cell(grid.bin_of(routing_data.position_of(j)).0, grid.bin_of(routing_data.position_of(j)).1);
                lemma_bin_in_range(grid, routing_data.position_of(j));
                if c != index {
                    if j < i {
                        assert(grid.bins@[c] == before[c]);
                    }
                }
                if c == index {
                    if j < i {
                        let m = choose|m: int| 0 <= m < before[c].nodes@.len() && before[c].nodes@[m] == routing_data.internal_nodes@[j];
                        assert(grid.bins@[c].nodes@[m] == routing_data.internal_nodes@[j]);
                    } else {
                        assert(grid.bins@[c].nodes@[before[c].nodes@.len() as int] == id);
                    }
                }
            }
            assert forall|c: int, id2: i64|
                0 <= c < grid.bins@.len() && #[trigger] grid.bins@[c].nodes@.contains(id2)
                    implies routing_data.osm_nodes@.contains_key(id2) by {
                if c != index {
                    assert(grid.bins@[c] == before[c]);
                }
                if c == index {
                    let m = choose|m: int| 0 <= m < grid.bins@[c].nodes@.len() && grid.bins@[c].nodes@[m] == id2;
                    if m < before[c].nodes@.len() {
                        assert(before[c].nodes@[m] == id2);
                        assert(before[c].nodes@.contains(id2));
                    } else {
                        assert(id2 == id);
                    }
                }
            }
        }
        i += 1;
    }
    proof {
        assert forall|c: int|
            0 <= c < grid.bins@.len() implies (#[trigger] grid.bins@[c]).nodes@ == filed(grid, *routing_data, c, n as int) by {
            lemma_filed_shape(g0, grid, *routing_data, c, n as int);
        }
        if n > 0 {
            let w = choose|i: int| 0 <= i < n && b.min_lat == routing_data.position_of(i).lat;
            let w2 = choose|i: int| 0 <= i < n && b.max_lat == routing_data.position_of(i).lat;
            let w3 = choose|i: int| 0 <= i < n && b.min_lon == routing_data.position_of(i).lon;
            let w4 = choose|i: int| 0 <= i < n && b.max_lon == routing_data.position_of(i).lon;
            assert(grid.bbox.min_lat + GRID_PADDING == routing_data.position_of(w).lat);
            assert(grid.bbox.max_lat - GRID_PADDING == routing_data.position_of(w2).lat);
            assert(grid.bbox.min_lon + GRID_PADDING == routing_data.position_of(w3).lon);
            assert(grid.bbox.max_lon - GRID_PADDING == routing_data.position_of(w4).lon);
        }
    }
    assert((grid.bin_count_lat as int, grid.bin_count_lon as int) == grid_dims(
        n as int,
        grid.bbox.max_lat - grid.bbox.min_lat,
        grid.bbox.max_lon - grid.bbox.min_lon,
        root as int,
    ));
    assert(lat_cells_squared(n as int, grid.bbox.max_lat - grid.bbox.min_lat, grid.bbox.max_lon - grid.bbox.min_lon)
        == (if ratio > u64::MAX as u128 { u64::MAX as int } else { ratio as int }));
    assert(dims_for(
        n as int,
        grid.bbox.max_lat - grid.bbox.min_lat,
        grid.bbox.max_lon - grid.bbox.min_lon,
        grid.bin_count_lat as int,
        grid.bin_count_lon as int,
        root as int,
    ));
    grid
}

/// The cell of any position is a cell of the grid.
pub proof fn lemma_bin_in_range(grid: Grid, p: Position)
    requires
        grid.wf(),
    ensures
        0 <= grid.bin_of(p).0 < grid.bin_count_lat,
        0 <= grid.bin_of(p).1 < grid.bin_count_lon,
        0 <= grid.cell(grid.bin_of(p).0, grid.bin_of(p).1) < grid.bins@.len(),
{
    let (a, b) = grid.bin_of(p);
    let off = p.lat as int - grid.bbox.min_lat as int;
    let span = grid.bbox.max_lat as int - grid.bbox.min_lat as int;
    if off > 0 {
        assert(off * grid.bin_count_lat as int / span >= 0) by (nonlinear_arith)
            requires off > 0, span > 0, grid.bin_count_lat >= 1;
    }
    let off2 = p.lon as int - grid.bbox.min_lon as int;
    let span2 = grid.bbox.max_lon as int - grid.bbox.min_lon as int;
    if off2 > 0 {
        assert(off2 * grid.bin_count_lon as int / span2 >= 0) by (nonlinear_arith)
            requires off2 > 0, span2 > 0, grid.bin_count_lon >= 1;
    }
    assert(a * grid.bin_count_lon + b < grid.bin_count_lat * grid.bin_count_lon) by (nonlinear_arith)
        requires
            0 <= a < grid.bin_count_lat,
            0 <= b < grid.bin_count_lon,
    ;
    assert(0 <= a * grid.bin_count_lon) by (nonlinear_arith)
        requires 0 <= a, grid.bin_count_lon >= 1;
}

impl Grid {
    /// Ids filed in cell `(a, b)`; none outside the grid.
    pub open spec fn cell_ids(&self, a: int, b: int) -> Seq<i64> {
        if 0 <= a < self.bin_count_lat && 0 <= b < self.bin_count_lon {
            self.bins@[self.cell(a, b)].nodes@
        } else {
            Seq::empty()
        }
    }

    /// Ids filed in the 3x3 block of cells around the cell of `p`, row by row.
    pub open spec fn block_ids(&self, p: Position) -> Seq<i64> {
        let la = self.bin_of(p).0;
        let lb = self.bin_of(p).1;
        self.cell_ids(la - 1, lb - 1) + self.cell_ids(la - 1, lb) + self.cell_ids(la - 1, lb + 1) + self.cell_ids(la, lb - 1) + self.cell_ids(la, lb) + self.cell_ids(la, lb + 1) + self.cell_ids(la + 1, lb - 1) + self.cell_ids(la + 1, lb) + self.cell_ids(la + 1, lb + 1)
    }

    /// Appends the ids of cell `(la + da - 1, lb + db - 1)` to `out`.
    fn append_cell(&self, la: usize, lb: usize, da: usize, db: usize, out: &mut Vec<i64>)
        requires
            self.wf(),
            la < self.bin_count_lat,
            lb < self.bin_count_lon,
            da <= 2,
            db <= 2,
        ensures
            final(out)@ == old(out)@ + self.cell_ids(la + da - 1, lb + db - 1),
    {
        if (la == 0 && da == 0) || (lb == 0 && db == 0) || da > self.bin_count_lat - la || db
            > self.bin_count_lon - lb {
            assert(out@ =~= old(out)@ + Seq::<i64>::empty());
            return;
        }
        let index = self.calc_bin_position(la + da - 1, lb + db - 1);
        let nodes = &self.bins[index].nodes;
        let ghost start = out@;
        let mut k: usize = 0;
        while k < nodes.len()
            invariant
                0 <= k <= nodes@.len(),
                out@ == start + nodes@.take(k as int),
            decreases nodes@.len() - k,
        {
            out.push(nodes[k]);
            proof {
                assert(nodes@.take(k + 1) =~= nodes@.take(k as int).push(nodes@[k as int]));
            }
            k += 1;
        }
        assert(nodes@.take(k as int) =~= nodes@);
    }

    /// Ids of the 3x3 block of cells around the cell of `position`: the candidates for the
    /// node closest to it.
    pub fn candidates(&self, position: &Position) -> (r: Vec<i64>)
        requires
            self.wf(),
        ensures
            r@ == self.block_ids(*position),
    {
        let (la, lb) = self.calc_bin_index(position);
        let mut out: Vec<i64> = Vec::new();
        self.append_cell(la, lb, 0, 0, &mut out);
        self.append_cell(la, lb, 0, 1, &mut out);
        self.append_cell(la, lb, 0, 2, &mut out);
        self.append_cell(la, lb, 1, 0, &mut out);
        self.append_cell(la, lb, 1, 1, &mut out);
        self.append_cell(la, lb, 1, 2, &mut out);
        self.append_cell(la, lb, 2, 0, &mut out);
        self.append_cell(la, lb, 2, 1, &mut out);
        self.append_cell(la, lb, 2, 2, &mut out);
        assert(out@ =~= self.block_ids(*position));
        out
    }
}

/// `ids[j]` is closest by `dists`, ties going to the smaller id.
pub open spec fn is_closest(ids: Seq<i64>, dists: Seq<u64>, j: int) -> bool {
    &&& 0 <= j < ids.len()
    &&& forall|k: int|
        0 <= k < ids.len() ==> dists[j] < #[trigger] dists[k] || (dists[j] == dists[k] && ids[j] <= ids[k])
}

/// Picks the id whose distance is least, the smaller id on a tie; `None` when there are no
/// candidates.
pub fn pick_closest(ids: &Vec<i64>, dists: &Vec<u64>) -> (r: Option<i64>)
    requires
        ids@.len() == dists@.len(),
    ensures
        r is None <==> ids@.len() == 0,
        r matches Some(id) ==> exists|j: int| is_closest(ids@, dists@, j) && ids@[j] == id,
{
    if ids.len() == 0 {
        return None;
    }
    let mut best: usize = 0;
    let mut k: usize = 1;
    while k < ids.len()
        invariant
            ids@.len() == dists@.len(),
            1 <= k <= ids@.len(),
            best < k,
            forall|m: int|
                0 <= m < k ==> dists@[best as int] < #[trigger] dists@[m] || (dists@[best as int] == dists@[m]
                    && ids@[best as int] <= ids@[m]),
        decreases ids@.len() - k,
    {
        if dists[k] < dists[best] || (dists[k] == dists[best] && ids[k] < ids[best]) {
            best = k;
        }
        k += 1;
    }
    assert(is_closest(ids@, dists@, best as int));
    Some(ids[best])
}

proof fn lemma_bin_coord_step(v: int, w: int, lo: int, hi: int, count: int)
    requires
        lo < hi,
        count >= 1,
        w <= v,
        (v - w) * count <= hi - lo,
    ensures
        bin_coord(w, lo, hi, count) <= bin_coord(v, lo, hi, count) <= bin_coord(w, lo, hi, count) + 1,
{
    let span = hi - lo;
    if v <= lo {
    } else if w <= lo {
        assert((v - lo) * count <= span) by (nonlinear_arith)
            requires
                v - lo <= v - w,
                (v - w) * count <= span,
                count >= 1,
                v > lo,
        ;
        assert((v - lo) * count / span <= 1) by (nonlinear_arith)
            requires
                (v - lo) * count <= span,
                span > 0,
        ;
        assert((v - lo) * count / span >= 0) by (nonlinear_arith)
            requires
                v > lo,
                count >= 1,
                span > 0,
        ;
    } else {
        let a = (v - lo) * count;
        let b = (w - lo) * count;
        assert(b <= a) by (nonlinear_arith)
            requires
                w <= v,
                count >= 1,
                a == (v - lo) * count,
                b == (w - lo) * count,
        ;
        assert(a - b == (v - w) * count) by (nonlinear_arith)
            requires
                a == (v - lo) * count,
                b == (w - lo) * count,
        ;
        assert(b / span <= a / span <= b / span + 1) by (nonlinear_arith)
            requires
                b <= a,
                a - b <= span,
                span > 0,
                b >= 0,
        ;
        assert(b >= 0) by (nonlinear_arith)
            requires
                w > lo,
                count >= 1,
                b == (w - lo) * count,
        ;
    }
}

/// Two values within one cell's span of each other fall in the same or adjacent cells.
pub proof fn lemma_bin_coord_close(v: int, w: int, lo: int, hi: int, count: int)
    requires
        lo < hi,
        count >= 1,
        -(hi - lo) <= (v - w) * count <= hi - lo,
    ensures
        bin_coord(w, lo, hi, count) - 1 <= bin_coord(v, lo, hi, count) <= bin_coord(w, lo, hi, count) + 1,
{
    if w <= v {
        lemma_bin_coord_step(v, w, lo, hi, count);
    } else {
        assert((w - v) * count == -((v - w) * count)) by (nonlinear_arith);
        lemma_bin_coord_step(w, v, lo, hi, count);
    }
}

proof fn lemma_contains_concat(s1: Seq<i64>, s2: Seq<i64>, x: i64)
    requires
        s1.contains(x) || s2.contains(x),
    ensures
        (s1 + s2).contains(x),
{
    if s1.contains(x) {
        let k = choose|k: int| 0 <= k < s1.len() && s1[k] == x;
        assert((s1 + s2)[k] == x);
    } else {
        let k = choose|k: int| 0 <= k < s2.len() && s2[k] == x;
        assert((s1 + s2)[s1.len() + k] == x);
    }
}

/// Every node whose position lies within one cell's height and width of `p` is among the
/// candidates of `p`. So where the cells are at least as large as the distance to the nearest
/// node, the nearest node is a candidate.
pub proof fn lemma_near_nodes_are_candidates(grid: Grid, rd: RoutingData, p: Position, i: int)
    requires
        grid.wf(),
        grid.indexes(rd),
        0 <= i < rd.node_count(),
        -(grid.bbox.max_lat - grid.bbox.min_lat) <= (rd.position_of(i).lat - p.lat) * grid.bin_count_lat
            <= grid.bbox.max_lat - grid.bbox.min_lat,
        -(grid.bbox.max_lon - grid.bbox.min_lon) <= (rd.position_of(i).lon - p.lon) * grid.bin_count_lon
            <= grid.bbox.max_lon - grid.bbox.min_lon,
    ensures
        grid.block_ids(p).contains(rd.internal_nodes@[i]),
{
    let q = rd.position_of(i);
    let id = rd.internal_nodes@[i];
    lemma_bin_coord_close(q.lat as int, p.lat as int, grid.bbox.min_lat as int, grid.bbox.max_lat as int, grid.bin_count_lat as int);
    lemma_bin_coord_close(q.lon as int, p.lon as int, grid.bbox.min_lon as int, grid.bbox.max_lon as int, grid.bin_count_lon as int);
    lemma_bin_in_range(grid, q);
    let (a, b) = grid.bin_of(q);
    let (la, lb) = grid.bin_of(p);
    assert(grid.cell_ids(a, b).contains(id));
    let c00 = grid.cell_ids(la - 1, lb - 1);
    let c01 = grid.cell_ids(la - 1, lb);
    let c02 = grid.cell_ids(la - 1, lb + 1);
    let c10 = grid.cell_ids(la, lb - 1);
    let c11 = grid.cell_ids(la, lb);
    let c12 = grid.cell_ids(la, lb + 1);
    let c20 = grid.cell_ids(la + 1, lb - 1);
    let c21 = grid.cell_ids(la + 1, lb);
    let c22 = grid.cell_ids(la + 1, lb + 1);
    let s1 = c00;
    let s2 = s1 + c01;
    let s3 = s2 + c02;
    let s4 = s3 + c10;
    let s5 = s4 + c11;
    let s6 = s5 + c12;
    let s7 = s6 + c20;
    let s8 = s7 + c21;
    assert(grid.block_ids(p) == s8 + c22);
    if s1.contains(id) || c01.contains(id) {
        lemma_contains_concat(s1, c01, id);
    }
    if s2.contains(id) || c02.contains(id) {
        lemma_contains_concat(s2, c02, id);
    }
    if s3.contains(id) || c10.contains(id) {
        lemma_contains_concat(s3, c10, id);
    }
    if s4.contains(id) || c11.contains(id) {
        lemma_contains_concat(s4, c11, id);
    }
    if s5.contains(id) || c12.contains(id) {
        lemma_contains_concat(s5, c12, id);
    }
    if s6.contains(id) || c20.contains(id) {
        lemma_contains_concat(s6, c20, id);
    }
    if s7.contains(id) || c21.contains(id) {
        lemma_contains_concat(s7, c21, id);
    }
    if s8.contains(id) || c22.contains(id) {
        lemma_contains_concat(s8, c22, id);
    }
}

} // verus!
