use osm_routing::access::FLAG_CAR;
use osm_routing::data::RoutingData;
use osm_routing::geo::{BoundingBox, Position};
use osm_routing::grid::{build_grid, calculate_bounding_box, pick_closest};
use osm_routing::parser::{build_dummy_data, build_routing_data, ParseData, ParsedEdge};

fn haversine(a: Position, b: Position) -> f64 {
    let (lat1, lon1) = (a.lat as f64 / 1e7, a.lon as f64 / 1e7);
    let (lat2, lon2) = (b.lat as f64 / 1e7, b.lon as f64 / 1e7);
    let d_lat = (lat2 - lat1).to_radians();
    let d_lon = (lon2 - lon1).to_radians();
    let h = (d_lat / 2.0).sin().powi(2) + lat1.to_radians().cos() * lat2.to_radians().cos() * (d_lon / 2.0).sin().powi(2);
    2.0 * 6371000.0 * h.sqrt().atan2((1.0 - h).sqrt())
}

fn lattice(rows: i32, cols: i32, step: i32) -> RoutingData {
    let mut pd = ParseData::new();
    let mut id = 1i64;
    for r in 0..rows {
        for c in 0..cols {
            pd.nodes.insert(id, Position { lat: 480_000_000 + r * step, lon: 90_000_000 + c * step });
            pd.node_ids.push(id);
            id += 1;
        }
    }
    pd.edges.push(ParsedEdge { id_from: 1, id_to: 2, length: 1, constraints: FLAG_CAR, speed: 1 });
    build_routing_data(pd)
}

#[test]
fn bounding_box_of_nodes() {
    let rd = lattice(3, 4, 1000);
    let b = calculate_bounding_box(&rd);
    assert_eq!(b, BoundingBox { min_lat: 480_000_000, min_lon: 90_000_000, max_lat: 480_002_000, max_lon: 90_003_000 });
    let empty = build_routing_data(ParseData::new());
    let e = calculate_bounding_box(&empty);
    assert_eq!(e.min_lat, i64::MAX);
    assert_eq!(e.max_lon, i64::MIN);
}

#[test]
fn small_graph_has_one_cell() {
    let data = build_dummy_data();
    let g = &data.grid;
    assert_eq!((g.bin_count_lat, g.bin_count_lon), (1, 1));
    assert_eq!(g.bbox, BoundingBox { min_lat: -10000, min_lon: -10000, max_lat: 10000, max_lon: 10000 });
    assert_eq!(g.calc_bin_index(&Position { lat: 0, lon: 0 }), (0, 0));
    assert_eq!(g.calc_bin_position(0, 0), 0);
    let mut c = g.candidates(&Position { lat: 5, lon: -5 });
    c.sort();
    assert_eq!(c, vec![5000, 5001, 5002, 5003, 5004]);
}

#[test]
fn every_node_is_filed_in_its_cell() {
    let rd = lattice(60, 50, 2000);
    let g = build_grid(&rd);
    assert!(g.bin_count_lat * g.bin_count_lon >= 2);
    assert_eq!(g.bins.len(), g.bin_count_lat * g.bin_count_lon);
    for (i, id) in rd.internal_nodes.iter().enumerate() {
        let p = rd.osm_nodes[id].position;
        let (a, b) = g.calc_bin_index(&p);
        assert!(g.bins[g.calc_bin_position(a, b)].nodes.contains(id), "node {} at {}", id, i);
    }
    let filed: usize = g.bins.iter().map(|b| b.nodes.len()).sum();
    assert_eq!(filed, rd.internal_nodes.len());
}

#[test]
fn nearest_node_lies_in_the_candidate_block() {
    let rd = lattice(60, 50, 2000);
    let g = build_grid(&rd);
    let mut q = 0;
    while q < 40 {
        let p = Position { lat: 480_000_000 + q * 2950 + 17, lon: 90_000_000 + q * 2411 + 3 };
        let mut best = (f64::INFINITY, 0i64);
        for id in &rd.internal_nodes {
            let d = haversine(p, rd.osm_nodes[id].position);
            if d < best.0 {
                best = (d, *id);
            }
        }
        let cand = g.candidates(&p);
        assert!(cand.contains(&best.1));
        let dists: Vec<u64> = cand.iter().map(|id| (haversine(p, rd.osm_nodes[id].position) * 1000.0) as u64).collect();
        let picked = pick_closest(&cand, &dists).unwrap();
        assert_eq!(picked, best.1);
        q += 1;
    }
}

#[test]
fn outside_points_are_clamped() {
    let rd = lattice(60, 50, 2000);
    let g = build_grid(&rd);
    let far = Position { lat: 0, lon: 0 };
    assert_eq!(g.calc_bin_index(&far), (0, 0));
    let beyond = Position { lat: 900_000_000, lon: 1_700_000_000 };
    assert_eq!(g.calc_bin_index(&beyond), (g.bin_count_lat - 1, g.bin_count_lon - 1));
    assert!(!g.candidates(&far).is_empty());
}

#[test]
fn closest_pick_and_ties() {
    assert_eq!(pick_closest(&vec![], &vec![]), None);
    assert_eq!(pick_closest(&vec![7, 3, 9], &vec![5, 5, 1]), Some(9));
    assert_eq!(pick_closest(&vec![7, 3, 9], &vec![5, 5, 6]), Some(3));
}
