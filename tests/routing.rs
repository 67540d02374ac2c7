use osm_routing::access::{FLAG_BIKE, FLAG_CAR, FLAG_WALK};
use osm_routing::data::RoutingData;
use osm_routing::geo::Position;
use osm_routing::parser::{build_dummy_data, build_routing_data, ParseData, ParsedEdge};
use osm_routing::queue::MinQueue;
use osm_routing::route::{
    metric_from_name, vehicle_from_name, edge_cost_distance, edge_cost_time, edge_cost_tmc, run_dijkstra, vehicle_speed, Metric, Route,
    RouteError,
};
use osm_routing::tmc::TMCState;

fn route(data: &RoutingData, from: i64, to: i64, vehicle: u8, metric: Metric, tmc: &TMCState) -> Result<Route, RouteError> {
    run_dijkstra(data, from, to, vehicle, metric, tmc)
}

#[test]
fn test_dijkstra() {
    let data = build_dummy_data();
    let tmc = TMCState::new();
    let path = run_dijkstra(&data.routing_data, 5000, 5003, FLAG_CAR, Metric::Time, &tmc);
    let path = path.ok().expect("a route");
    assert_eq!(path.nodes, vec![5000, 5002, 5003]);
    // 10 m and 1 km at 13.89 m/s, each rounded up to the millisecond
    assert_eq!(path.cost, 720 + 71995);
}

#[test]
fn shortest_to_direct_neighbour() {
    let data = build_dummy_data();
    let tmc = TMCState::new();
    let r = route(&data.routing_data, 5000, 5001, FLAG_CAR, Metric::Distance, &tmc).ok().unwrap();
    assert_eq!(r.cost, 1000);
    assert_eq!(r.nodes, vec![5000, 5001]);
    assert_eq!(r.distance, 1000);
}

#[test]
fn shortest_two_hops() {
    let data = build_dummy_data();
    let tmc = TMCState::new();
    let r = route(&data.routing_data, 5000, 5003, FLAG_CAR, Metric::Distance, &tmc).ok().unwrap();
    assert_eq!(r.cost, 1_010_000);
    assert_eq!(r.nodes, vec![5000, 5002, 5003]);
    assert_eq!(r.edges.len(), 2);
    assert_eq!(r.path.len(), 3);
    assert_eq!(r.path[0], Position { lat: 0, lon: 0 });
}

#[test]
fn shortest_three_hops() {
    let data = build_dummy_data();
    let tmc = TMCState::new();
    let r = route(&data.routing_data, 5000, 5004, FLAG_CAR, Metric::Distance, &tmc).ok().unwrap();
    assert_eq!(r.cost, 101_010_000);
    assert_eq!(r.nodes, vec![5000, 5002, 5003, 5004]);
    assert_eq!(r.distance, 101_010_000);
}

#[test]
fn no_route_from_dead_end() {
    let data = build_dummy_data();
    let tmc = TMCState::new();
    let r = route(&data.routing_data, 5001, 5000, FLAG_CAR, Metric::Distance, &tmc);
    assert!(matches!(r, Err(RouteError::NoRoute)));
}

#[test]
fn no_route_for_bike_on_car_roads() {
    let data = build_dummy_data();
    let tmc = TMCState::new();
    let r = route(&data.routing_data, 5000, 5003, FLAG_BIKE, Metric::Distance, &tmc);
    assert!(matches!(r, Err(RouteError::NoRoute)));
    let w = route(&data.routing_data, 5000, 5003, FLAG_WALK, Metric::Time, &tmc);
    assert!(matches!(w, Err(RouteError::NoRoute)));
}

#[test]
fn unknown_node_is_reported() {
    let data = build_dummy_data();
    let tmc = TMCState::new();
    assert!(matches!(route(&data.routing_data, 4999, 5000, FLAG_CAR, Metric::Distance, &tmc), Err(RouteError::UnknownNode)));
    assert!(matches!(route(&data.routing_data, 5000, 6000, FLAG_CAR, Metric::Distance, &tmc), Err(RouteError::UnknownNode)));
}

#[test]
fn route_to_itself_is_empty() {
    let data = build_dummy_data();
    let tmc = TMCState::new();
    let r = route(&data.routing_data, 5002, 5002, FLAG_CAR, Metric::Distance, &tmc).ok().unwrap();
    assert_eq!(r.cost, 0);
    assert_eq!(r.nodes, vec![5002]);
    assert!(r.edges.is_empty());
}

#[test]
fn traffic_slowdown_is_read() {
    let data = build_dummy_data();
    let mut tmc = TMCState::new();
    let free = route(&data.routing_data, 5000, 5003, FLAG_CAR, Metric::TimeWithTmc, &tmc).ok().unwrap();
    assert_eq!(free.cost, 720 + 71995);
    // edge 1 is 5000 -> 5002; slow it to a tenth
    assert_eq!(data.routing_data.internal_edges[1].target, 2);
    tmc.current_edge_events.insert(1, 100);
    let slowed = route(&data.routing_data, 5000, 5003, FLAG_CAR, Metric::TimeWithTmc, &tmc).ok().unwrap();
    // 10 m at 1.389 m/s, then 1 km at 13.89 m/s
    assert_eq!(slowed.cost, 7200 + 71995);
    assert_eq!(slowed.nodes, vec![5000, 5002, 5003]);
    // the plain time metric ignores traffic
    let plain = route(&data.routing_data, 5000, 5003, FLAG_CAR, Metric::Time, &tmc).ok().unwrap();
    assert_eq!(plain.cost, 720 + 71995);
    assert_eq!(slowed.time, plain.time);
}

fn graph(nodes: &[i64], edges: &[(i64, i64, u64)]) -> RoutingData {
    let mut pd = ParseData::new();
    for id in nodes {
        pd.nodes.insert(*id, Position { lat: 0, lon: 0 });
        pd.node_ids.push(*id);
    }
    for (a, b, l) in edges {
        pd.edges.push(ParsedEdge { id_from: *a, id_to: *b, length: *l, constraints: FLAG_CAR, speed: 10000 });
    }
    build_routing_data(pd)
}

#[test]
fn shorter_injected_path_is_taken() {
    let tmc = TMCState::new();
    let base = graph(&[1, 2, 3, 4], &[(1, 2, 10), (2, 3, 10), (3, 4, 10), (1, 4, 100)]);
    let r = route(&base, 1, 4, FLAG_CAR, Metric::Distance, &tmc).ok().unwrap();
    assert_eq!(r.cost, 30);
    assert_eq!(r.nodes, vec![1, 2, 3, 4]);
    let better = graph(&[1, 2, 3, 4], &[(1, 2, 10), (2, 3, 10), (3, 4, 10), (1, 4, 100), (1, 3, 5)]);
    let r2 = route(&better, 1, 4, FLAG_CAR, Metric::Distance, &tmc).ok().unwrap();
    assert_eq!(r2.cost, 15);
    assert_eq!(r2.nodes, vec![1, 3, 4]);
}

#[test]
fn vehicle_filter_skips_closed_edges() {
    let tmc = TMCState::new();
    let mut pd = ParseData::new();
    for id in [1i64, 2, 3] {
        pd.nodes.insert(id, Position { lat: 0, lon: 0 });
        pd.node_ids.push(id);
    }
    pd.edges.push(ParsedEdge { id_from: 1, id_to: 3, length: 10, constraints: FLAG_CAR, speed: 1000 });
    pd.edges.push(ParsedEdge { id_from: 1, id_to: 2, length: 50, constraints: FLAG_BIKE | FLAG_CAR, speed: 1000 });
    pd.edges.push(ParsedEdge { id_from: 2, id_to: 3, length: 50, constraints: FLAG_BIKE, speed: 1000 });
    let g = build_routing_data(pd);
    let car = route(&g, 1, 3, FLAG_CAR, Metric::Distance, &tmc).ok().unwrap();
    assert_eq!(car.nodes, vec![1, 3]);
    let bike = route(&g, 1, 3, FLAG_BIKE, Metric::Distance, &tmc).ok().unwrap();
    assert_eq!(bike.nodes, vec![1, 2, 3]);
    assert_eq!(bike.cost, 100);
}

#[test]
fn route_path_is_connected() {
    let data = build_dummy_data();
    let tmc = TMCState::new();
    let r = route(&data.routing_data, 5000, 5004, FLAG_CAR, Metric::Time, &tmc).ok().unwrap();
    let g = &data.routing_data;
    assert_eq!(r.nodes[0], 5000);
    assert_eq!(*r.nodes.last().unwrap(), 5004);
    for (k, e) in r.edges.iter().enumerate() {
        let from = g.osm_nodes[&r.nodes[k]].internal_id;
        assert!(g.internal_offset[from] <= *e && *e < g.internal_offset[from + 1]);
        assert_eq!(g.internal_nodes[g.internal_edges[*e].target], r.nodes[k + 1]);
    }
}

#[test]
fn edge_costs() {
    let data = build_dummy_data();
    let e = data.routing_data.internal_edges[1];
    assert_eq!(edge_cost_distance(&e), 10000);
    assert_eq!(edge_cost_time(&e, vehicle_speed(FLAG_CAR)), 720);
    // a walker is slower than the limit
    assert_eq!(edge_cost_time(&e, vehicle_speed(FLAG_WALK)), 7205);
    // a heavy slowdown bottoms out at 1 m/s
    assert_eq!(edge_cost_tmc(&e, vehicle_speed(FLAG_CAR), 1), 10000);
    assert_eq!(edge_cost_tmc(&e, vehicle_speed(FLAG_CAR), 1000), 720);
    // a positive length never takes zero time
    let short = osm_routing::data::RoutingEdge { target: 0, length: 1, speed: 36111, constraints: FLAG_CAR };
    assert_eq!(edge_cost_time(&short, vehicle_speed(FLAG_CAR)), 1);
}

#[test]
fn vehicle_speeds() {
    assert_eq!(vehicle_speed(FLAG_CAR), 36111);
    assert_eq!(vehicle_speed(FLAG_BIKE), 4166);
    assert_eq!(vehicle_speed(FLAG_WALK), 1388);
    assert_eq!(vehicle_speed(0), 36111);
}

#[test]
fn edge_sources_and_ranges() {
    let data = build_dummy_data();
    let rd = &data.routing_data;
    let sources: Vec<Option<usize>> = (0..7).map(|e| rd.edge_source(e)).collect();
    assert_eq!(sources, vec![Some(0), Some(0), Some(2), Some(2), Some(3), Some(3), None]);
    assert_eq!(rd.offset_lookup(0), (0, 2));
    assert_eq!(rd.offset_lookup(1), (2, 2));
    assert_eq!(rd.offset_lookup(4), (6, 6));
}

#[test]
fn query_names() {
    assert_eq!(vehicle_from_name("car"), Some(FLAG_CAR));
    assert_eq!(vehicle_from_name("bike"), Some(FLAG_BIKE));
    assert_eq!(vehicle_from_name("walk"), Some(FLAG_WALK));
    assert_eq!(vehicle_from_name("boat"), None);
    assert_eq!(vehicle_from_name(""), None);
    assert_eq!(metric_from_name("time", true), Some(Metric::TimeWithTmc));
    assert_eq!(metric_from_name("time", false), Some(Metric::Time));
    assert_eq!(metric_from_name("distance", true), Some(Metric::Distance));
    assert_eq!(metric_from_name("fastest", false), None);
}

#[test]
fn queue_hands_out_least_first() {
    let mut q = MinQueue::new();
    for e in [(5u64, 1usize), (3, 9), (3, 2), (8, 0), (0, 4)] {
        q.push(e);
    }
    assert_eq!(q.len(), 5);
    let mut out = Vec::new();
    while let Some(e) = q.pop() {
        out.push(e);
    }
    assert_eq!(out, vec![(0, 4), (3, 2), (3, 9), (5, 1), (8, 0)]);
}
