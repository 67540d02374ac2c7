use osm_routing::access::Tag;
use osm_routing::rds::{rds_line_kind, tmc_tags, RdsLine};
use osm_routing::tmc::{
    build_tmc_range_set, expire, handle_event, lookup_desc, lookup_slowdown, run_tmc_thread,
    TMCKey, TMCRawEvent, TMCState, TSMMapping, EVENT_TTL,
};

fn mapping() -> TSMMapping {
    let mut m = TSMMapping::new();
    m.tsm_next_fwd.insert(1, 2);
    m.tsm_next_fwd.insert(2, 3);
    m.tsm_next_fwd.insert(3, 4);
    m.tsm_next_bwd.insert(3, 2);
    m.tsm_loc_to_edge.insert(1, vec![10, 11]);
    m.tsm_loc_to_edge.insert(2, vec![11, 12]);
    m.tsm_loc_to_edge.insert(4, vec![40]);
    m
}

fn raw(loc: u32, dir: bool, event: u32, ext: u8) -> TMCRawEvent {
    TMCRawEvent { loc, dir, event, ext }
}

#[test]
fn location_chain() {
    let m = mapping();
    assert_eq!(build_tmc_range_set(&raw(1, true, 0, 0), &m), vec![1]);
    assert_eq!(build_tmc_range_set(&raw(1, true, 0, 2), &m), vec![1, 2, 3]);
    assert_eq!(build_tmc_range_set(&raw(1, true, 0, 9), &m), vec![1, 2, 3, 4]);
    assert_eq!(build_tmc_range_set(&raw(3, false, 0, 5), &m), vec![3, 2]);
    assert_eq!(build_tmc_range_set(&raw(8, true, 0, 5), &m), vec![8]);
}

#[test]
fn descriptions_and_factors() {
    assert_eq!(lookup_desc(&701), "event 701".to_string());
    assert_eq!(lookup_desc(&0), "event 0".to_string());
    assert_eq!(lookup_desc(&4294967295), "event 4294967295".to_string());
    assert_eq!(lookup_slowdown(&701), 400);
}

#[test]
fn event_slows_its_edges() {
    let m = mapping();
    let mut st = TMCState::new();
    handle_event(raw(1, true, 701, 1), &mut st, &m, 1000);
    assert_eq!(st.current_tmc_events.len(), 1);
    let ev = &st.current_tmc_events[0];
    assert_eq!(ev.key, TMCKey { loc: 1, dir: true, event: 701 });
    assert_eq!(ev.edges, vec![10, 11, 11, 12]);
    assert_eq!(ev.desc, "event 701");
    assert_eq!(ev.expiry, 1000 + EVENT_TTL);
    assert_eq!(st.edge_slowdown(11), 400);
    assert_eq!(st.edge_slowdown(12), 400);
    assert_eq!(st.edge_slowdown(40), 1000);
}

#[test]
fn event_without_edges_is_dropped() {
    let m = mapping();
    let mut st = TMCState::new();
    handle_event(raw(3, true, 5, 0), &mut st, &m, 0);
    assert!(st.current_tmc_events.is_empty());
    assert!(st.current_edge_events.is_empty());
}

#[test]
fn same_key_replaces_event() {
    let m = mapping();
    let mut st = TMCState::new();
    handle_event(raw(1, true, 701, 1), &mut st, &m, 0);
    handle_event(raw(1, true, 701, 0), &mut st, &m, 50);
    assert_eq!(st.current_tmc_events.len(), 1);
    assert_eq!(st.current_tmc_events[0].edges, vec![10, 11]);
    assert_eq!(st.edge_slowdown(12), 1000);
    assert_eq!(st.edge_slowdown(10), 400);
    handle_event(raw(4, true, 9, 0), &mut st, &m, 50);
    assert_eq!(st.current_tmc_events.len(), 2);
}

#[test]
fn overlapping_events_take_the_minimum_and_expire() {
    let m = mapping();
    let mut st = TMCState::new();
    handle_event(raw(1, true, 1, 0), &mut st, &m, 0);
    handle_event(raw(4, true, 2, 0), &mut st, &m, 20000);
    // an older event with a stronger slowdown on edge 11
    st.current_tmc_events[0].slowdown = 400;
    assert_eq!(st.edge_slowdown(11), 400);
    expire(&mut st, EVENT_TTL);
    assert_eq!(st.current_tmc_events.len(), 1);
    assert_eq!(st.current_tmc_events[0].key.loc, 4);
    assert_eq!(st.edge_slowdown(11), 1000);
    assert_eq!(st.edge_slowdown(40), 400);
    expire(&mut st, u64::MAX);
    assert!(st.current_tmc_events.is_empty());
    assert!(st.current_edge_events.is_empty());
}

#[test]
fn sample_events_are_applied() {
    let mut m = TSMMapping::new();
    m.tsm_loc_to_edge.insert(11602, vec![3]);
    m.tsm_loc_to_edge.insert(11593, vec![4]);
    let mut st = TMCState::new();
    run_tmc_thread(&mut st, &m, 0);
    assert_eq!(st.current_tmc_events.len(), 2);
    assert_eq!(st.edge_slowdown(3), 400);
    assert_eq!(st.edge_slowdown(4), 400);
}

#[test]
fn decoder_lines() {
    assert_eq!(rds_line_kind("GS 1234 5678"), RdsLine::SingleGroup);
    assert_eq!(rds_line_kind("GF 1"), RdsLine::FirstGroup);
    assert_eq!(rds_line_kind("S 99"), RdsLine::Subsequent);
    assert_eq!(rds_line_kind("GS"), RdsLine::Other);
    assert_eq!(rds_line_kind("XS 1"), RdsLine::Other);
    assert_eq!(rds_line_kind(""), RdsLine::Other);
}

#[test]
fn tmc_tag_filter() {
    let tags: Vec<Tag> = [("name", "A8"), ("TMC", "cid_58:tabcd_1"), ("highway", "motorway"), ("tmc", "x")]
        .iter()
        .map(|(k, v)| Tag { key: k.to_string(), value: v.to_string() })
        .collect();
    assert_eq!(tmc_tags(&tags), vec![1, 3]);
    assert!(tmc_tags(&Vec::new()).is_empty());
}
