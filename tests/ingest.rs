use osm_routing::access::{
    bike_denied, check_key_and_value, check_oneway, check_speed, filter_way, init_filter_lists,
    walk_denied, OneWay, Tag, Way, WayConstraints, FLAG_BIKE, FLAG_CAR, FLAG_WALK,
};
use osm_routing::geo::Position;
use osm_routing::parser::{
    build_dummy_data, build_routing_data, first_parse_way, second_parse_node, third_parse_way,
    ParseData, ParsedEdge,
};

fn way(id: i64, nodes: &[i64], tags: &[(&str, &str)]) -> Way {
    Way {
        id,
        nodes: nodes.to_vec(),
        tags: tags.iter().map(|(k, v)| Tag { key: k.to_string(), value: v.to_string() }).collect(),
    }
}

#[test]
fn test_routing_data_gen() {
    let data = build_dummy_data();
    let routing_data = data.routing_data;
    assert_eq!(routing_data.internal_nodes, vec![5000, 5001, 5002, 5003, 5004]);
    // six edges: two each from 5000, 5002 and 5003
    assert_eq!(routing_data.internal_offset, vec![0, 2, 2, 4, 6, 6]);
    assert_eq!(routing_data.internal_edges.len(), 6);
    let targets: Vec<usize> = routing_data.internal_edges.iter().map(|e| e.target).collect();
    assert_eq!(targets, vec![1, 2, 1, 3, 0, 4]);
}

#[test]
fn dummy_offsets_follow_the_spec_layout() {
    let data = build_dummy_data();
    let rd = &data.routing_data;
    // node 5001 has no outgoing edges
    assert_eq!(rd.internal_offset[1], rd.internal_offset[2]);
    for i in 0..rd.internal_nodes.len() {
        assert_eq!(rd.osm_nodes[&rd.internal_nodes[i]].internal_id, i);
    }
}

#[test]
fn build_sorts_and_drops_unknown_endpoints() {
    let mut pd = ParseData::new();
    for id in [30i64, 10, 20, 10] {
        pd.nodes.insert(id, Position { lat: id as i32, lon: 0 });
        pd.node_ids.push(id);
    }
    pd.edges.push(ParsedEdge { id_from: 30, id_to: 10, length: 5, constraints: FLAG_CAR, speed: 1 });
    pd.edges.push(ParsedEdge { id_from: 10, id_to: 99, length: 5, constraints: FLAG_CAR, speed: 1 });
    pd.edges.push(ParsedEdge { id_from: 10, id_to: 20, length: 7, constraints: FLAG_WALK, speed: 2 });
    let rd = build_routing_data(pd);
    assert_eq!(rd.internal_nodes, vec![10, 20, 30]);
    assert_eq!(rd.internal_offset, vec![0, 1, 1, 2]);
    assert_eq!(rd.internal_edges[0].target, 1);
    assert_eq!(rd.internal_edges[0].length, 7);
    assert_eq!(rd.internal_edges[1].target, 0);
    assert_eq!(rd.osm_nodes[&20].position, Position { lat: 20, lon: 0 });
}

#[test]
fn highway_defaults() {
    assert_eq!(init_filter_lists("primary"), Some(WayConstraints { access: FLAG_CAR, speed: 130 }));
    assert_eq!(init_filter_lists("residential"), Some(WayConstraints { access: FLAG_CAR | FLAG_BIKE | FLAG_WALK, speed: 30 }));
    assert_eq!(init_filter_lists("tertiary_link"), Some(WayConstraints { access: FLAG_CAR | FLAG_BIKE | FLAG_WALK, speed: 80 }));
    assert_eq!(init_filter_lists("cycleway"), Some(WayConstraints { access: FLAG_BIKE, speed: 5 }));
    assert_eq!(init_filter_lists("steps"), Some(WayConstraints { access: FLAG_WALK, speed: 5 }));
    assert_eq!(init_filter_lists("raceway"), Some(WayConstraints { access: FLAG_CAR, speed: 300 }));
    assert_eq!(init_filter_lists("proposed"), None);
    assert_eq!(init_filter_lists(""), None);
}

#[test]
fn classification_of_ways() {
    let w = way(1, &[1, 2], &[("highway", "residential")]);
    assert_eq!(filter_way(&w), Some(WayConstraints { access: 7, speed: 30 * 1_000_000 / 3600 }));
    let motorroad = way(1, &[1, 2], &[("highway", "secondary"), ("motorroad", "true")]);
    assert_eq!(filter_way(&motorroad), Some(WayConstraints { access: FLAG_CAR, speed: 100 * 1_000_000 / 3600 }));
    let no_bike = way(1, &[1, 2], &[("highway", "track"), ("bicycle", "false")]);
    assert_eq!(filter_way(&no_bike).unwrap().access, FLAG_CAR | FLAG_WALK);
    let closed = way(1, &[1, 2], &[("highway", "footway"), ("bicycle", "false"), ("foot", "false")]);
    assert_eq!(filter_way(&closed), None);
    assert_eq!(filter_way(&way(1, &[1, 2], &[("highway", "nonsense")])), None);
    assert_eq!(filter_way(&way(1, &[1, 2], &[("name", "Main Street")])), None);
}

#[test]
fn maxspeed_overrides_default() {
    let kmh = way(1, &[], &[("highway", "primary"), ("maxspeed", "50")]);
    assert_eq!(filter_way(&kmh).unwrap().speed, 50 * 1_000_000 / 3600);
    let mph = way(1, &[], &[("highway", "primary"), ("maxspeed", " 30 mph")]);
    assert_eq!(filter_way(&mph).unwrap().speed, 30 * 1_600_000 / 3600);
    let zero = way(1, &[], &[("highway", "primary"), ("maxspeed", "0")]);
    assert_eq!(filter_way(&zero).unwrap().speed, 130 * 1_000_000 / 3600);
    let text = way(1, &[], &[("highway", "primary"), ("maxspeed", "walk")]);
    assert_eq!(filter_way(&text).unwrap().speed, 130 * 1_000_000 / 3600);
    let plus = way(1, &[], &[("highway", "primary"), ("maxspeed", "+70 km/h")]);
    assert_eq!(filter_way(&plus).unwrap().speed, 70 * 1_000_000 / 3600);
    let huge = way(1, &[], &[("highway", "primary"), ("maxspeed", "99999999999")]);
    assert_eq!(filter_way(&huge).unwrap().speed, 130 * 1_000_000 / 3600);
    let mut c = WayConstraints { access: 1, speed: 36 };
    check_speed(&mut c, &way(1, &[], &[]));
    assert_eq!(c, WayConstraints { access: 1, speed: 10000 });
}

#[test]
fn oneway_rules() {
    assert_eq!(check_oneway(&way(1, &[], &[("highway", "motorway")])), OneWay::YES);
    assert_eq!(check_oneway(&way(1, &[], &[("highway", "motorway_link"), ("oneway", "-1")])), OneWay::YES);
    assert_eq!(check_oneway(&way(1, &[], &[("junction", "roundabout")])), OneWay::YES);
    assert_eq!(check_oneway(&way(1, &[], &[("oneway", "yes")])), OneWay::YES);
    assert_eq!(check_oneway(&way(1, &[], &[("oneway", "1")])), OneWay::YES);
    assert_eq!(check_oneway(&way(1, &[], &[("oneway", "reverse")])), OneWay::REVERSE);
    assert_eq!(check_oneway(&way(1, &[], &[("oneway", "-1")])), OneWay::REVERSE);
    assert_eq!(check_oneway(&way(1, &[], &[("oneway", "no")])), OneWay::NO);
    assert_eq!(check_oneway(&way(1, &[], &[])), OneWay::NO);
}

#[test]
fn tag_checks() {
    let w = way(1, &[], &[("motorroad", "true"), ("foot", "false")]);
    assert!(check_key_and_value(&w, "foot", "false"));
    assert!(!check_key_and_value(&w, "foot", "true"));
    assert!(!check_key_and_value(&w, "bicycle", "false"));
    assert!(bike_denied(&w));
    assert!(walk_denied(&w));
    let v = way(1, &[], &[("bicycle", "false")]);
    assert!(bike_denied(&v));
    assert!(!walk_denied(&v));
}

#[test]
fn three_passes() {
    let mut pd = ParseData::new();
    let road = way(7, &[1, 2, 3, 4], &[("highway", "residential")]);
    let oneway = way(8, &[4, 5], &[("highway", "residential"), ("oneway", "yes")]);
    let river = way(9, &[5, 6], &[("waterway", "river")]);
    first_parse_way(&mut pd, &road);
    first_parse_way(&mut pd, &oneway);
    first_parse_way(&mut pd, &river);
    assert_eq!(pd.filtered_ways.len(), 2);
    assert_eq!(pd.nodes_used.len(), 5);
    // node 3 never shows up
    for id in [1i64, 2, 4, 5, 6] {
        second_parse_node(&mut pd, id, Position { lat: id as i32, lon: 0 });
    }
    second_parse_node(&mut pd, 1, Position { lat: 100, lon: 0 });
    assert_eq!(pd.nodes.len(), 4);
    assert_eq!(pd.nodes[&1], Position { lat: 1, lon: 0 });
    third_parse_way(&mut pd, &road, &vec![10, 20, 30]);
    third_parse_way(&mut pd, &oneway, &vec![40]);
    third_parse_way(&mut pd, &river, &vec![50]);
    third_parse_way(&mut pd, &road, &vec![10, 20, 30]);
    let pairs: Vec<(i64, i64, u64)> = pd.edges.iter().map(|e| (e.id_from, e.id_to, e.length)).collect();
    assert_eq!(pairs, vec![(1, 2, 10), (2, 1, 10), (4, 5, 40)]);
    assert_eq!(pd.edges[0].speed, 30 * 1_000_000 / 3600);
    let rd = build_routing_data(pd);
    assert_eq!(rd.internal_nodes, vec![1, 2, 4, 5]);
    assert_eq!(rd.internal_offset, vec![0, 1, 2, 3, 3]);
}

#[test]
fn builder_lays_out_the_sample_graph_alike() {
    let sample = build_dummy_data().routing_data;
    let mut pd = ParseData::new();
    for id in [5004i64, 5002, 5000, 5003, 5001] {
        pd.nodes.insert(id, Position { lat: 0, lon: 0 });
        pd.node_ids.push(id);
    }
    let speed = osm_routing::parser::DUMMY_SPEED;
    for (a, b, l) in [(5000i64, 5001i64, 1000u64), (5000, 5002, 10000), (5002, 5001, 100000), (5002, 5003, 1000000), (5003, 5000, 10000000), (5003, 5004, 100000000)] {
        pd.edges.push(ParsedEdge { id_from: a, id_to: b, length: l, constraints: FLAG_CAR, speed });
    }
    let built = build_routing_data(pd);
    assert_eq!(built.internal_nodes, sample.internal_nodes);
    assert_eq!(built.internal_offset, sample.internal_offset);
    assert_eq!(built.internal_edges, sample.internal_edges);
}

#[test]
fn duplicate_edges_are_kept() {
    let mut pd = ParseData::new();
    for id in [1i64, 2] {
        pd.nodes.insert(id, Position { lat: 0, lon: 0 });
        pd.node_ids.push(id);
    }
    let e = ParsedEdge { id_from: 1, id_to: 2, length: 3, constraints: FLAG_CAR, speed: 1 };
    pd.edges.push(e);
    pd.edges.push(e);
    let rd = build_routing_data(pd);
    assert_eq!(rd.internal_edges.len(), 2);
    assert_eq!(rd.internal_offset, vec![0, 2, 2]);
}
