use std::collections::HashMap;
use std::collections::HashSet;

use vstd::prelude::*;

use crate::access::{check_oneway, filter_way, filter_way_spec, oneway_spec, OneWay, Way, WayConstraints};
use crate::access::FLAG_CAR;
use crate::data::{OsmNode, RoutingData, RoutingEdge, State};
use crate::geo::BoundingBox;
use crate::grid::{build_grid, dims_for, filed, lat_cells_squared, GRID_PADDING};
use crate::geo::Position;

verus! {

broadcast use vstd::seq_lib::group_to_multiset_ensures;

/// A directed edge between two OSM nodes, as emitted by the way pass.
#[derive(Clone, Copy, Debug, PartialEq, Eq, Structural)]
pub struct ParsedEdge {
    pub id_from: i64,
    pub id_to: i64,
    /// Length in millimetres.
    pub length: u64,
    pub constraints: u8,
    /// Speed in millimetres per second.
    pub speed: u64,
}

/// Everything gathered by the three passes over an OSM extract.
pub struct ParseData {
    /// Node ids referenced by kept ways and not yet seen.
    pub nodes_used: HashSet<i64>,
    /// Kept ways and their constraints.
    pub filtered_ways: HashMap<i64, WayConstraints>,
    /// Retained nodes and their positions.
    pub nodes: HashMap<i64, Position>,
    /// The keys of `nodes`, in the order they were recorded.
    pub node_ids: Vec<i64>,
    /// Emitted edges.
    pub edges: Vec<ParsedEdge>,
}

impl ParseData {
    pub open spec fn wf(&self) -> bool {
        forall|id: i64| self.nodes@.contains_key(id) <==> self.node_ids@.contains(id)
    }
}

/// The routing edge at `t` (tagged with its dense source) stands for `pe`.
#[verifier::opaque]
pub open spec fn stands_for(nodes: Seq<i64>, t: (usize, RoutingEdge), pe: ParsedEdge) -> bool {
    &&& t.0 < nodes.len()
    &&& t.1.target < nodes.len()
    &&& nodes[t.0 as int] == pe.id_from
    &&& nodes[t.1.target as int] == pe.id_to
    &&& t.1.length == pe.length
    &&& t.1.speed == pe.speed
    &&& t.1.constraints == pe.constraints
}

/// The parsed edge that the tagged routing edge `t` stands for.
pub open spec fn untag(nodes: Seq<i64>, t: (usize, RoutingEdge)) -> ParsedEdge {
    ParsedEdge {
        id_from: nodes[t.0 as int],
        id_to: nodes[t.1.target as int],
        length: t.1.length,
        constraints: t.1.constraints,
        speed: t.1.speed,
    }
}

proof fn lemma_untag(nodes: Seq<i64>, t: (usize, RoutingEdge), pe: ParsedEdge)
    requires
        stands_for(nodes, t, pe),
    ensures
        untag(nodes, t) == pe,
{
    reveal(stands_for);
}

/// The edges of `edges` whose endpoints are both keys of `nodes`, in order.
pub open spec fn kept_edges(nodes: Map<i64, Position>, edges: Seq<ParsedEdge>) -> Seq<ParsedEdge>
    decreases edges.len(),
{
    if edges.len() == 0 {
        Seq::empty()
    } else if nodes.contains_key(edges.last().id_from) && nodes.contains_key(edges.last().id_to) {
        kept_edges(nodes, edges.drop_last()).push(edges.last())
    } else {
        kept_edges(nodes, edges.drop_last())
    }
}

/// The dense node that edge `e` of `rd` leaves.
pub open spec fn source_of(rd: RoutingData, e: int) -> int {
    choose|u: int| rd.leaves(u, e)
}

/// The edges of `rd` in layout order, written with OSM ids.
pub open spec fn routed_edges(rd: RoutingData) -> Seq<ParsedEdge> {
    Seq::new(
        rd.internal_edges@.len(),
        |e: int|
            ParsedEdge {
                id_from: rd.internal_nodes@[source_of(rd, e)],
                id_to: rd.internal_nodes@[rd.internal_edges@[e].target as int],
                length: rd.internal_edges@[e].length,
                constraints: rd.internal_edges@[e].constraints,
                speed: rd.internal_edges@[e].speed,
            },
    )
}

/// Sequences with the same elements keep the same elements under `f`.
proof fn lemma_map_multiset<A, B>(s1: Seq<A>, s2: Seq<A>, f: spec_fn(A) -> B)
    requires
        s1.to_multiset() == s2.to_multiset(),
    ensures
        s1.map_values(f).to_multiset() == s2.map_values(f).to_multiset(),
    decreases s1.len(),
{
    broadcast use vstd::seq_lib::group_to_multiset_ensures;
    if s1.len() == 0 {
        assert(s2.len() == s2.to_multiset().len());
        assert(s1.len() == s1.to_multiset().len());
        assert(s2.len() == 0);
        assert(s1.map_values(f) =~= s2.map_values(f));
    } else {
        let x = s1.last();
        let d = s1.drop_last();
        assert(s1 =~= d.push(x));
        assert(s1.to_multiset().count(x) > 0);
        assert(s2.contains(x));
        let i = choose|i: int| 0 <= i < s2.len() && s2[i] == x;
        let s2r = s2.remove(i);
        assert(s2r.to_multiset() =~= s2.to_multiset().remove(x));
        assert(d.to_multiset() =~= s1.to_multiset().remove(x));
        lemma_map_multiset(d, s2r, f);
        assert(s1.map_values(f) =~= d.map_values(f).push(f(x)));
        assert(s2.map_values(f).remove(i) =~= s2r.map_values(f));
        assert(s2.map_values(f)[i] == f(x));
        assert(s2r.map_values(f).to_multiset() =~= s2.map_values(f).to_multiset().remove(f(x)));
        assert(s2.map_values(f).to_multiset().count(f(x)) > 0) by {
            assert(s2.map_values(f).contains(f(x)));
        }
        assert(s2.map_values(f).to_multiset() =~= s2r.map_values(f).to_multiset().insert(f(x)));
    }
}

/// Edge `e` of `rd`, leaving dense node `u`, stands for `pe`.
pub open spec fn routing_edge_matches(rd: RoutingData, u: int, e: int, pe: ParsedEdge) -> bool {
    &&& rd.leaves(u, e)
    &&& stands_for(rd.internal_nodes@, (u as usize, rd.internal_edges@[e]), pe)
}

/// Relies on `slice::sort_unstable`: the elements are kept and come out ascending.
#[verifier::external_body]
fn sort_ids(v: &mut Vec<i64>)
    ensures
        final(v)@.to_multiset() == old(v)@.to_multiset(),
        forall|a: int, b: int| 0 <= a <= b < final(v)@.len() ==> final(v)@[a] <= final(v)@[b],
{
    v.sort_unstable()
}

/// Relies on `slice::sort_by_key`: the elements are kept and come out ordered by their first
/// component.
#[verifier::external_body]
fn sort_by_source(v: &mut Vec<(usize, RoutingEdge)>)
    ensures
        final(v)@.to_multiset() == old(v)@.to_multiset(),
        forall|a: int, b: int|
            0 <= a <= b < final(v)@.len() ==> final(v)@[a].0 <= final(v)@[b].0,
{
    v.sort_by_key(|t| t.0)
}

/// Sorted, duplicate-free copy of `ids`.
fn sorted_unique(ids: Vec<i64>) -> (r: Vec<i64>)
    ensures
        forall|i: int, j: int| 0 <= i < j < r@.len() ==> r@[i] < r@[j],
        forall|x: i64| r@.contains(x) <==> ids@.contains(x),
{
    let ghost orig = ids@;
    let mut ids = ids;
    sort_ids(&mut ids);
    proof {
        assert forall|x: i64| ids@.contains(x) <==> orig.contains(x) by {
            assert(ids@.to_multiset().count(x) == orig.to_multiset().count(x));
        }
    }
    let mut out: Vec<i64> = Vec::new();
    let mut k: usize = 0;
    while k < ids.len()
        invariant
            0 <= k <= ids@.len(),
            forall|a: int, b: int| 0 <= a <= b < ids@.len() ==> ids@[a] <= ids@[b],
            forall|x: i64| ids@.contains(x) <==> orig.contains(x),
            forall|i: int, j: int| 0 <= i < j < out@.len() ==> out@[i] < out@[j],
            forall|j: int| 0 <= j < k ==> out@.contains(#[trigger] ids@[j]),
            forall|m: int| 0 <= m < out@.len() ==> ids@.contains(#[trigger] out@[m]),
            k == 0 <==> out@.len() == 0,
            k > 0 ==> out@.last() == ids@[k - 1],
        decreases ids@.len() - k,
    {
        let x = ids[k];
        if out.len() == 0 || out[out.len() - 1] != x {
            let ghost before = out@;
            out.push(x);
            proof {
                assert(out@ == before.push(x));
                assert forall|j: int| 0 <= j <= k implies out@.contains(#[trigger] ids@[j]) by {
                    if j < k {
                        assert(before.contains(ids@[j]));
                        let m = choose|m: int| 0 <= m < before.len() && before[m] == ids@[j];
                        assert(out@[m] == ids@[j]);
                    } else {
                        assert(out@[out@.len() - 1] == ids@[j]);
                    }
                }
            }
        } else {
            proof {
                assert(out@[out@.len() - 1] == ids@[k as int]);
            }
        }
        k += 1;
    }
    proof {
        assert forall|x: i64| out@.contains(x) <==> orig.contains(x) by {
            if orig.contains(x) {
                let j = choose|j: int| 0 <= j < ids@.len() && ids@[j] == x;
                assert(out@.contains(ids@[j]));
            }
            if out@.contains(x) {
                let m = choose|m: int| 0 <= m < out@.len() && out@[m] == x;
                assert(ids@.contains(out@[m]));
            }
        }
    }
    out
}

/// The facts about dense indices that mapping edges onto them relies on.
pub open spec fn indexes(osm_nodes: Map<i64, OsmNode>, internal_nodes: Seq<i64>) -> bool {
    &&& forall|id: i64| osm_nodes.contains_key(id) <==> internal_nodes.contains(id)
    &&& forall|j: int|
        0 <= j < internal_nodes.len() ==> #[trigger] osm_nodes[internal_nodes[j]].internal_id == j
}

/// `pe` with its endpoints replaced by dense indices, when both are known.
fn densify_edge(osm_nodes: &HashMap<i64, OsmNode>, internal_nodes: &Vec<i64>, pe: ParsedEdge) -> (r:
    Option<(usize, RoutingEdge)>)
    requires
        indexes(osm_nodes@, internal_nodes@),
    ensures
        r is Some <==> osm_nodes@.contains_key(pe.id_from) && osm_nodes@.contains_key(pe.id_to),
        r matches Some(t) ==> stands_for(internal_nodes@, t, pe),
{
    match osm_nodes.get(&pe.id_from) {
        Some(a) => match osm_nodes.get(&pe.id_to) {
            Some(b) => {
                proof {
                    assert(internal_nodes@.contains(pe.id_from));
                    assert(internal_nodes@.contains(pe.id_to));
                    let ja = choose|j: int|
                        0 <= j < internal_nodes@.len() && internal_nodes@[j] == pe.id_from;
                    let jb = choose|j: int|
                        0 <= j < internal_nodes@.len() && internal_nodes@[j] == pe.id_to;
                    assert(osm_nodes@[internal_nodes@[ja]].internal_id == ja);
                    assert(osm_nodes@[internal_nodes@[jb]].internal_id == jb);
                }
                proof {
                    reveal(stands_for);
                }
                Some(
                    (
                        a.internal_id,
                        RoutingEdge {
                            target: b.internal_id,
                            length: pe.length,
                            speed: pe.speed,
                            constraints: pe.constraints,
                        },
                    ),
                )
            },
            None => None,
        },
        None => None,
    }
}

/// `t` stands_for one of the first `k` edges of `edges`.
pub open spec fn comes_from(nodes: Seq<i64>, t: (usize, RoutingEdge), edges: Seq<ParsedEdge>, k: int) -> bool {
    exists|kk: int| 0 <= kk < k && stands_for(nodes, t, #[trigger] edges[kk])
}

/// Some element of `tagged` stands_for `pe`.
pub open spec fn covered(nodes: Seq<i64>, tagged: Seq<(usize, RoutingEdge)>, pe: ParsedEdge) -> bool {
    exists|t: (usize, RoutingEdge)| #[trigger] tagged.contains(t) && stands_for(nodes, t, pe)
}

/// The edges of `edges` whose endpoints are both retained, each tagged with its dense source.
fn densify_edges(
    osm_nodes: &HashMap<i64, OsmNode>,
    internal_nodes: &Vec<i64>,
    edges: &Vec<ParsedEdge>,
    nodes: Ghost<Map<i64, Position>>,
) -> (tagged: Vec<(usize, RoutingEdge)>)
    requires
        indexes(osm_nodes@, internal_nodes@),
        forall|id: i64| osm_nodes@.contains_key(id) <==> nodes@.contains_key(id),
    ensures
        forall|q: int|
            0 <= q < tagged@.len() ==> comes_from(internal_nodes@, #[trigger] tagged@[q], edges@, edges@.len() as int),
        forall|kk: int|
            0 <= kk < edges@.len() && nodes@.contains_key(#[trigger] edges@[kk].id_from)
                && nodes@.contains_key(edges@[kk].id_to) ==> covered(internal_nodes@, tagged@, edges@[kk]),
        tagged@.map_values(|t: (usize, RoutingEdge)| untag(internal_nodes@, t)) == kept_edges(nodes@, edges@),
{
    let mut tagged: Vec<(usize, RoutingEdge)> = Vec::new();
    proof {
        assert(edges@.take(0) =~= Seq::<ParsedEdge>::empty());
        assert(tagged@.map_values(|t: (usize, RoutingEdge)| untag(internal_nodes@, t)) =~= Seq::<ParsedEdge>::empty());
    }
    let mut k: usize = 0;
    while k < edges.len()
        invariant
            0 <= k <= edges@.len(),
            indexes(osm_nodes@, internal_nodes@),
            forall|id: i64| osm_nodes@.contains_key(id) <==> nodes@.contains_key(id),
            forall|q: int|
                0 <= q < tagged@.len() ==> comes_from(internal_nodes@, #[trigger] tagged@[q], edges@, k as int),
            forall|kk: int|
                0 <= kk < k && nodes@.contains_key(#[trigger] edges@[kk].id_from)
                    && nodes@.contains_key(edges@[kk].id_to) ==> covered(internal_nodes@, tagged@, edges@[kk]),
            tagged@.map_values(|t: (usize, RoutingEdge)| untag(internal_nodes@, t)) == kept_edges(nodes@, edges@.take(k as int)),
        decreases edges@.len() - k,
    {
        let ghost before = tagged@;
        proof {
            assert(edges@.take(k + 1).drop_last() =~= edges@.take(k as int));
            assert(edges@.take(k + 1).last() == edges@[k as int]);
        }
        let opt = densify_edge(osm_nodes, internal_nodes, edges[k]);
        if let Some(t) = opt {
            tagged.push(t);
        }
        proof {
            if opt is Some {
                assert(tagged@ == before.push(opt->0));
                assert(tagged@[tagged@.len() - 1] == opt->0);
                assert(tagged@.contains(opt->0));
                lemma_untag(internal_nodes@, opt->0, edges@[k as int]);
                assert(tagged@.map_values(|t: (usize, RoutingEdge)| untag(internal_nodes@, t)) =~= before.map_values(
                    |t: (usize, RoutingEdge)| untag(internal_nodes@, t),
                ).push(edges@[k as int]));
            } else {
                assert(tagged@ == before);
            }
            assert forall|q: int| 0 <= q < tagged@.len() implies comes_from(internal_nodes@, #[trigger] tagged@[q], edges@, k + 1) by {
                if q < before.len() {
                    assert(tagged@[q] == before[q]);
                    assert(comes_from(internal_nodes@, before[q], edges@, k as int));
                    let kk = choose|kk: int| 0 <= kk < k && stands_for(internal_nodes@, before[q], #[trigger] edges@[kk]);
                } else {
                    assert(stands_for(internal_nodes@, tagged@[q], edges@[k as int]));
                }
            }
            assert forall|kk: int|
                0 <= kk < k + 1 && nodes@.contains_key(#[trigger] edges@[kk].id_from)
                    && nodes@.contains_key(edges@[kk].id_to) implies covered(internal_nodes@, tagged@, edges@[kk]) by {
                if kk < k {
                    assert(covered(internal_nodes@, before, edges@[kk]));
                    let t = choose|t: (usize, RoutingEdge)| #[trigger] before.contains(t) && stands_for(internal_nodes@, t, edges@[kk]);
                    let m = choose|m: int| 0 <= m < before.len() && before[m] == t;
                    assert(tagged@[m] == t);
                    assert(tagged@.contains(t));
                } else {
                    assert(stands_for(internal_nodes@, opt->0, edges@[kk]));
                }
            }
        }
        k += 1;
    }
    assert(edges@.take(k as int) =~= edges@);
    tagged
}

/// Maps each id of `internal_nodes` to its position and dense index.
fn index_nodes(internal_nodes: &Vec<i64>, nodes: &HashMap<i64, Position>, node_ids: Ghost<Seq<i64>>) -> (osm_nodes: HashMap<i64, OsmNode>)
    requires
        forall|a: int, b: int|
            0 <= a < b < internal_nodes@.len() ==> internal_nodes@[a] < internal_nodes@[b],
        forall|x: i64| internal_nodes@.contains(x) <==> node_ids@.contains(x),
        forall|x: i64| #[trigger] nodes@.contains_key(x) <==> node_ids@.contains(x),
    ensures
        indexes(osm_nodes@, internal_nodes@),
        forall|id: i64| osm_nodes@.contains_key(id) <==> nodes@.contains_key(id),
        forall|id: i64|
            #![trigger osm_nodes@[id]]
            osm_nodes@.contains_key(id) ==> osm_nodes@[id].position == nodes@[id],
{
    let n = internal_nodes.len();
    let mut osm_nodes: HashMap<i64, OsmNode> = HashMap::new();
    let mut i: usize = 0;
    while i < n
        invariant
            0 <= i <= n == internal_nodes@.len(),
            forall|a: int, b: int|
                0 <= a < b < internal_nodes@.len() ==> internal_nodes@[a] < internal_nodes@[b],
            forall|x: i64| internal_nodes@.contains(x) <==> node_ids@.contains(x),
            forall|x: i64| #[trigger] nodes@.contains_key(x) <==> node_ids@.contains(x),
            forall|id: i64|
                osm_nodes@.contains_key(id) <==> exists|j: int|
                    0 <= j < i && #[trigger] internal_nodes@[j] == id,
            forall|j: int|
                0 <= j < i ==> #[trigger] osm_nodes@[internal_nodes@[j]] == (OsmNode {
                    position: nodes@[internal_nodes@[j]],
                    internal_id: j as usize,
                }),
        decreases n - i,
    {
        let id = internal_nodes[i];
        assert(internal_nodes@.contains(id));
        let position = match nodes.get(&id) {
            Some(p) => *p,
            None => Position { lat: 0, lon: 0 },
        };
        osm_nodes.insert(id, OsmNode { position, internal_id: i });
        proof {
            assert forall|j: int| 0 <= j <= i implies #[trigger] osm_nodes@[internal_nodes@[j]]
                == (OsmNode {
                position: nodes@[internal_nodes@[j]],
                internal_id: j as usize,
            }) by {
                if j < i {
                    assert(internal_nodes@[j] != id);
                }
            }
            assert forall|id2: i64| osm_nodes@.contains_key(id2) <==> exists|j: int|
                0 <= j < i + 1 && #[trigger] internal_nodes@[j] == id2 by {
                if id2 == id {
                    assert(internal_nodes@[i as int] == id2);
                }
            }
        }
        i += 1;
    }
    proof {
        assert forall|id: i64| osm_nodes@.contains_key(id) <==> internal_nodes@.contains(id) by {
            if internal_nodes@.contains(id) {
                let j = choose|j: int| 0 <= j < n && internal_nodes@[j] == id;
            }
        }
        assert forall|id: i64| osm_nodes@.contains_key(id) <==> nodes@.contains_key(id) by {
            assert(internal_nodes@.contains(id) <==> nodes@.contains_key(id));
        }
        assert(indexes(osm_nodes@, internal_nodes@));
    }

    proof {
        assert forall|id: i64|
            #![trigger osm_nodes@[id]]
            osm_nodes@.contains_key(id) implies osm_nodes@[id].position == nodes@[id] by {
            let j = choose|j: int| 0 <= j < n && internal_nodes@[j] == id;
        }
    }
    osm_nodes
}

/// Lays out `tagged` (sorted by source) as an edge array and an offset array of length
/// `n + 1`, where `offset[i]` is the first position whose source is at least `i`.
fn layout_csr(tagged: &Vec<(usize, RoutingEdge)>, n: usize) -> (r: (Vec<RoutingEdge>, Vec<usize>))
    requires
        forall|a: int, b: int| 0 <= a <= b < tagged@.len() ==> tagged@[a].0 <= tagged@[b].0,
        forall|q: int| 0 <= q < tagged@.len() ==> (#[trigger] tagged@[q]).0 < n,
    ensures
        r.0@.len() == tagged@.len(),
        forall|q: int| 0 <= q < tagged@.len() ==> #[trigger] r.0@[q] == tagged@[q].1,
        r.1@.len() == n + 1,
        r.1@[n as int] == tagged@.len(),
        forall|a: int, b: int| 0 <= a <= b <= n ==> r.1@[a] <= r.1@[b],
        forall|j: int, q: int|
            0 <= j <= n && 0 <= q < #[trigger] r.1@[j] ==> (#[trigger] tagged@[q]).0 < j,
        forall|j: int|
            0 <= j <= n && r.1@[j] < tagged@.len() ==> tagged@[#[trigger] r.1@[j] as int].0 >= j,
{
    let mut internal_edges: Vec<RoutingEdge> = Vec::new();
    let mut internal_offset: Vec<usize> = Vec::new();
    let mut p: usize = 0;
    let mut i: usize = 0;
    while i < n
        invariant
            0 <= i <= n,
            p <= tagged@.len(),
            internal_offset@.len() == i,
            internal_edges@.len() == p,
            forall|a: int, b: int| 0 <= a <= b < tagged@.len() ==> tagged@[a].0 <= tagged@[b].0,
            forall|q: int| 0 <= q < tagged@.len() ==> (#[trigger] tagged@[q]).0 < n,
            forall|q: int| 0 <= q < p ==> #[trigger] internal_edges@[q] == tagged@[q].1,
            forall|q: int| 0 <= q < p ==> (#[trigger] tagged@[q]).0 < i,
            forall|j: int| 0 <= j < i ==> #[trigger] internal_offset@[j] <= p,
            forall|a: int, b: int|
                0 <= a <= b < i ==> internal_offset@[a] <= internal_offset@[b],
            forall|j: int, q: int|
                0 <= j < i && 0 <= q < internal_offset@[j] ==> (#[trigger] tagged@[q]).0 < j
                    && #[trigger] internal_offset@[j] >= 0,
            forall|j: int|
                0 <= j < i && internal_offset@[j] < tagged@.len() ==> tagged@[
                    #[trigger] internal_offset@[j] as int
                ].0 >= j,
        decreases n - i,
    {
        while p < tagged.len() && tagged[p].0 < i
            invariant
                0 <= i <= n,
                p <= tagged@.len(),
                internal_edges@.len() == p,
                forall|q: int| 0 <= q < p ==> #[trigger] internal_edges@[q] == tagged@[q].1,
                forall|q: int| 0 <= q < p ==> (#[trigger] tagged@[q]).0 < i,
            decreases tagged@.len() - p,
        {
            internal_edges.push(tagged[p].1);
            p += 1;
        }
        internal_offset.push(p);
        i += 1;
    }
    while p < tagged.len()
        invariant
            p <= tagged@.len(),
            internal_edges@.len() == p,
            forall|q: int| 0 <= q < p ==> #[trigger] internal_edges@[q] == tagged@[q].1,
        decreases tagged@.len() - p,
    {
        internal_edges.push(tagged[p].1);
        p += 1;
    }
    let ghost before_last = internal_offset@;
    internal_offset.push(p);
    proof {
        assert(internal_offset@ == before_last.push(p));
        assert forall|j: int, q: int|
            0 <= j <= n && 0 <= q < #[trigger] internal_offset@[j] implies (#[trigger] tagged@[q]).0 < j by {
            if j < n {
                assert(internal_offset@[j] == before_last[j]);
            }
        }
    }
    proof {
        assert forall|a: int, b: int| 0 <= a <= b <= n implies internal_offset@[a] <= internal_offset@[b] by {
            if b == n {
                if a < n {
                    assert(before_last[a] <= p);
                }
            } else {
                assert(before_last[a] <= before_last[b]);
            }
        }
        assert forall|j: int| 0 <= j <= n && internal_offset@[j] < tagged@.len() implies tagged@[#[trigger] internal_offset@[j] as int].0 >= j by {
            if j < n {
                assert(internal_offset@[j] == before_last[j]);
            }
        }
    }
    (internal_edges, internal_offset)
}

/// Compiles the gathered nodes and edges into the CSR routing graph. Nodes get dense indices
/// in ascending OSM id order; edges whose endpoints are not retained nodes are dropped.
pub fn build_routing_data(parse_result: ParseData) -> (r: RoutingData)
    requires
        parse_result.wf(),
    ensures
        r.wf(),
        forall|id: i64| r.osm_nodes@.contains_key(id) <==> parse_result.nodes@.contains_key(id),
        forall|id: i64|
            #![trigger r.osm_nodes@[id]]
            r.osm_nodes@.contains_key(id) ==> r.osm_nodes@[id].position
                == parse_result.nodes@[id],
        forall|u: int, e: int|
            #![trigger r.leaves(u, e)]
            r.leaves(u, e) ==> exists|k: int|
                0 <= k < parse_result.edges@.len() && routing_edge_matches(
                    r,
                    u,
                    e,
                    #[trigger] parse_result.edges@[k],
                ),
        forall|k: int|
            0 <= k < parse_result.edges@.len() && parse_result.nodes@.contains_key(
                #[trigger] parse_result.edges@[k].id_from,
            ) && parse_result.nodes@.contains_key(parse_result.edges@[k].id_to) ==> exists|
                u: int,
                e: int,
            | routing_edge_matches(r, u, e, parse_result.edges@[k]),
        routed_edges(r).to_multiset() == kept_edges(parse_result.nodes@, parse_result.edges@).to_multiset(),
{
    let ParseData { nodes_used: _, filtered_ways: _, nodes, node_ids, edges } = parse_result;
    let ghost node_ids_view = node_ids@;
    let internal_nodes = sorted_unique(node_ids);
    let n = internal_nodes.len();
    let osm_nodes = index_nodes(&internal_nodes, &nodes, Ghost(node_ids_view));
    let mut tagged = densify_edges(&osm_nodes, &internal_nodes, &edges, Ghost(nodes@));
    let ghost unsorted = tagged@;
    sort_by_source(&mut tagged);
    proof {
        assert forall|t: (usize, RoutingEdge)| tagged@.contains(t) <==> unsorted.contains(t) by {
            assert(tagged@.to_multiset().count(t) == unsorted.to_multiset().count(t));
        }
        assert forall|q: int| 0 <= q < tagged@.len() implies (#[trigger] tagged@[q]).0 < n by {
            assert(unsorted.contains(tagged@[q]));
            let q2 = choose|q2: int| 0 <= q2 < unsorted.len() && unsorted[q2] == tagged@[q];
            assert(comes_from(internal_nodes@, unsorted[q2], edges@, edges@.len() as int));
            let kk = choose|kk: int| 0 <= kk < edges@.len() && stands_for(internal_nodes@, unsorted[q2], #[trigger] edges@[kk]);
            reveal(stands_for);
        }
    }

    let (internal_edges, internal_offset) = layout_csr(&tagged, n);
    let r = RoutingData { osm_nodes, internal_nodes, internal_edges, internal_offset };
    proof {
        reveal(RoutingData::wf);
        let f = |t: (usize, RoutingEdge)| untag(internal_nodes@, t);
        lemma_map_multiset(tagged@, unsorted, f);
        assert forall|e: int| 0 <= e < r.internal_edges@.len() implies source_of(r, e) == tagged@[e].0 by {
            let u = tagged@[e].0 as int;
            assert(r.internal_offset@[u] <= e) by {
                if e < r.internal_offset@[u] {
                    assert(tagged@[e].0 < u);
                }
            }
            assert(e < r.internal_offset@[u + 1]) by {
                if r.internal_offset@[u + 1] <= e {
                    assert(tagged@[r.internal_offset@[u + 1] as int].0 >= u + 1);
                    assert(tagged@[r.internal_offset@[u + 1] as int].0 <= tagged@[e].0);
                }
            }
            assert(r.leaves(u, e));
            let v = source_of(r, e);
            assert(r.leaves(v, e));
            assert(tagged@[e].0 >= v) by {
                if r.internal_offset@[v] < tagged@.len() {
                    assert(tagged@[r.internal_offset@[v] as int].0 >= v);
                }
            }
            assert(tagged@[e].0 < v + 1);
        }
        assert(routed_edges(r) =~= tagged@.map_values(f));
        assert(r.internal_offset@.len() == n + 1);
        assert(r.internal_offset@[n as int] == r.internal_edges@.len());
        assert(r.internal_offset@[0] == 0) by {
            if r.internal_offset@[0] > 0 {
                assert(tagged@[0].0 < 0);
            }
        }
        assert forall|u: int, e: int| #![trigger r.leaves(u, e)] r.leaves(u, e) implies exists|kk: int|
            0 <= kk < edges@.len() && routing_edge_matches(r, u, e, #[trigger] edges@[kk]) by {
            assert(tagged@[e].0 >= u) by {
                if r.internal_offset@[u] < tagged@.len() {
                    assert(tagged@[r.internal_offset@[u] as int].0 >= u);
                }
            }
            assert(tagged@[e].0 < u + 1);
            assert(tagged@[e] == (u as usize, r.internal_edges@[e]));
            assert(unsorted.contains(tagged@[e]));
            let q = choose|q: int| 0 <= q < unsorted.len() && unsorted[q] == tagged@[e];
            assert(comes_from(internal_nodes@, unsorted[q], edges@, edges@.len() as int));
            let kk = choose|kk: int| 0 <= kk < edges@.len() && stands_for(internal_nodes@, unsorted[q], #[trigger] edges@[kk]);
            assert(routing_edge_matches(r, u, e, edges@[kk]));
        }
        assert forall|kk: int|
            0 <= kk < edges@.len() && nodes@.contains_key(#[trigger] edges@[kk].id_from)
                && nodes@.contains_key(edges@[kk].id_to) implies exists|u: int, e: int|
                routing_edge_matches(r, u, e, edges@[kk]) by {
            assert(covered(internal_nodes@, unsorted, edges@[kk]));
            let t = choose|t: (usize, RoutingEdge)| #[trigger] unsorted.contains(t) && stands_for(internal_nodes@, t, edges@[kk]);
            assert(tagged@.contains(t));
            let e = choose|e: int| 0 <= e < tagged@.len() && tagged@[e] == t;
            let u = t.0 as int;
            assert(r.internal_offset@[u] <= e) by {
                if e < r.internal_offset@[u] {
                    assert(tagged@[e].0 < u);
                }
            }
            assert(e < r.internal_offset@[u + 1]) by {
                if r.internal_offset@[u + 1] <= e {
                    assert(tagged@[r.internal_offset@[u + 1] as int].0 >= u + 1);
                    assert(tagged@[r.internal_offset@[u + 1] as int].0 <= tagged@[e].0);
                }
            }
            assert(routing_edge_matches(r, u, e, edges@[kk]));
        }
        assert forall|e: int| 0 <= e < r.internal_edges@.len() implies r.internal_edges@[e].target < n by {
            assert(unsorted.contains(tagged@[e]));
            let q = choose|q: int| 0 <= q < unsorted.len() && unsorted[q] == tagged@[e];
            assert(comes_from(internal_nodes@, unsorted[q], edges@, edges@.len() as int));
            let kk = choose|kk: int| 0 <= kk < edges@.len() && stands_for(internal_nodes@, unsorted[q], #[trigger] edges@[kk]);
            reveal(stands_for);
        }
    }
    r
}

impl ParseData {
    /// An empty parse state.
    pub fn new() -> (r: ParseData)
        ensures
            r.wf(),
            r.nodes_used@.len() == 0,
            r.filtered_ways@.len() == 0,
            r.nodes@.len() == 0,
            r.node_ids@.len() == 0,
            r.edges@.len() == 0,
    {
        ParseData {
            nodes_used: HashSet::new(),
            filtered_ways: HashMap::new(),
            nodes: HashMap::new(),
            node_ids: Vec::new(),
            edges: Vec::new(),
        }
    }

    /// Position of the retained node `id`, if any.
    pub fn position(&self, id: i64) -> (r: Option<Position>)
        ensures
            r is Some <==> self.nodes@.contains_key(id),
            r matches Some(p) ==> p == self.nodes@[id],
    {
        match self.nodes.get(&id) {
            Some(p) => Some(*p),
            None => None,
        }
    }
}

/// First pass, one way: a routable way is kept with its constraints and its nodes are
/// marked as needed.
pub fn first_parse_way(parse_result: &mut ParseData, way: &Way)
    requires
        old(parse_result).wf(),
    ensures
        final(parse_result).wf(),
        final(parse_result).nodes@ == old(parse_result).nodes@,
        final(parse_result).node_ids@ == old(parse_result).node_ids@,
        final(parse_result).edges@ == old(parse_result).edges@,
        match filter_way_spec(way.tags@) {
            Some(c) => {
                &&& final(parse_result).filtered_ways@ == old(parse_result).filtered_ways@.insert(way.id, c)
                &&& final(parse_result).nodes_used@ == old(parse_result).nodes_used@.union(way.nodes@.to_set())
            },
            None => {
                &&& final(parse_result).filtered_ways@ == old(parse_result).filtered_ways@
                &&& final(parse_result).nodes_used@ == old(parse_result).nodes_used@
            },
        },
{
    if let Some(constraints) = filter_way(way) {
        let ghost used0 = parse_result.nodes_used@;
        let mut i: usize = 0;
        while i < way.nodes.len()
            invariant
                0 <= i <= way.nodes@.len(),
                parse_result.nodes_used@ == used0.union(way.nodes@.take(i as int).to_set()),
                parse_result.wf(),
                parse_result.nodes@ == old(parse_result).nodes@,
                parse_result.node_ids@ == old(parse_result).node_ids@,
                parse_result.edges@ == old(parse_result).edges@,
                parse_result.filtered_ways@ == old(parse_result).filtered_ways@,
                used0 == old(parse_result).nodes_used@,
            decreases way.nodes@.len() - i,
        {
            parse_result.nodes_used.insert(way.nodes[i]);
            proof {
                assert(way.nodes@.take(i + 1) =~= way.nodes@.take(i as int).push(way.nodes@[i as int]));
                way.nodes@.take(i as int).lemma_push_to_set_commute(way.nodes@[i as int]);
            }
            i += 1;
        }
        proof {
            assert(way.nodes@.take(i as int) =~= way.nodes@);
            assert(parse_result.nodes_used@ =~= used0.union(way.nodes@.to_set()));
        }
        parse_result.filtered_ways.insert(way.id, constraints);
    }
}

/// Second pass, one node: a needed node is recorded with its position and no longer needed.
pub fn second_parse_node(parse_result: &mut ParseData, id: i64, position: Position)
    requires
        old(parse_result).wf(),
    ensures
        final(parse_result).wf(),
        final(parse_result).filtered_ways@ == old(parse_result).filtered_ways@,
        final(parse_result).edges@ == old(parse_result).edges@,
        final(parse_result).nodes_used@ == old(parse_result).nodes_used@.remove(id),
        old(parse_result).nodes_used@.contains(id) ==> final(parse_result).nodes@ == old(
            parse_result,
        ).nodes@.insert(id, position),
        !old(parse_result).nodes_used@.contains(id) ==> final(parse_result).nodes@ == old(
            parse_result,
        ).nodes@,
{
    if parse_result.nodes_used.remove(&id) {
        parse_result.nodes.insert(id, position);
        let ghost ids0 = parse_result.node_ids@;
        parse_result.node_ids.push(id);
        proof {
            assert forall|x: i64| parse_result.nodes@.contains_key(x) <==> parse_result.node_ids@.contains(x) by {
                if x == id {
                    assert(parse_result.node_ids@[ids0.len() as int] == id);
                } else if ids0.contains(x) {
                    let k = choose|k: int| 0 <= k < ids0.len() && ids0[k] == x;
                    assert(parse_result.node_ids@[k] == x);
                } else if parse_result.node_ids@.contains(x) {
                    let k = choose|k: int| 0 <= k < parse_result.node_ids@.len() && parse_result.node_ids@[k] == x;
                    assert(ids0[k] == x);
                }
            }
        }
    }
}

/// The edges for one segment `from`-`to` of a way.
pub open spec fn segment_edges(from: i64, to: i64, length: u64, c: WayConstraints, dir: OneWay) -> Seq<ParsedEdge> {
    let forward = ParsedEdge { id_from: from, id_to: to, length, constraints: c.access, speed: c.speed };
    let backward = ParsedEdge { id_from: to, id_to: from, length, constraints: c.access, speed: c.speed };
    match dir {
        OneWay::NO => seq![forward, backward],
        OneWay::YES => seq![forward],
        OneWay::REVERSE => seq![backward],
    }
}

/// The edges for the first `k` segments of a way with node ids `nodes`; segments with an
/// unknown end are skipped.
pub open spec fn way_edges(
    nodes: Seq<i64>,
    known: Map<i64, Position>,
    lengths: Seq<u64>,
    c: WayConstraints,
    dir: OneWay,
    k: int,
) -> Seq<ParsedEdge>
    decreases k,
{
    if k <= 0 {
        Seq::empty()
    } else {
        way_edges(nodes, known, lengths, c, dir, k - 1) + if known.contains_key(nodes[k - 1])
            && known.contains_key(nodes[k]) {
            segment_edges(nodes[k - 1], nodes[k], lengths[k - 1], c, dir)
        } else {
            Seq::empty()
        }
    }
}

/// Third pass, one way: a kept way is consumed and emits its edges, segment `i` (between
/// nodes `i` and `i + 1`) having length `lengths[i]` millimetres.
pub fn third_parse_way(parse_result: &mut ParseData, way: &Way, lengths: &Vec<u64>)
    requires
        old(parse_result).wf(),
        way.nodes@.len() <= lengths@.len() + 1,
    ensures
        final(parse_result).wf(),
        final(parse_result).nodes@ == old(parse_result).nodes@,
        final(parse_result).node_ids@ == old(parse_result).node_ids@,
        final(parse_result).nodes_used@ == old(parse_result).nodes_used@,
        final(parse_result).filtered_ways@ == old(parse_result).filtered_ways@.remove(way.id),
        final(parse_result).edges@ == old(parse_result).edges@ + if old(
            parse_result,
        ).filtered_ways@.contains_key(way.id) && way.nodes@.len() > 0 {
            way_edges(
                way.nodes@,
                old(parse_result).nodes@,
                lengths@,
                old(parse_result).filtered_ways@[way.id],
                oneway_spec(way.tags@),
                way.nodes@.len() - 1,
            )
        } else {
            Seq::empty()
        },
{
    let one_way = check_oneway(way);
    if let Some(constraints) = parse_result.filtered_ways.remove(&way.id) {
        if way.nodes.len() == 0 {
            assert(parse_result.edges@ =~= old(parse_result).edges@ + Seq::<ParsedEdge>::empty());
            return;
        }
        let ghost edges0 = parse_result.edges@;
        let n = way.nodes.len();
        let mut i: usize = 0;
        assert(parse_result.edges@ =~= edges0 + way_edges(way.nodes@, parse_result.nodes@, lengths@, constraints, one_way, 0));
        while i + 1 < n
            invariant
                n == way.nodes@.len(),
                0 <= i < way.nodes@.len(),
                old(parse_result).filtered_ways@.contains_key(way.id),
                way.nodes@.len() <= lengths@.len() + 1,
                parse_result.wf(),
                parse_result.nodes@ == old(parse_result).nodes@,
                parse_result.node_ids@ == old(parse_result).node_ids@,
                parse_result.nodes_used@ == old(parse_result).nodes_used@,
                parse_result.filtered_ways@ == old(parse_result).filtered_ways@.remove(way.id),
                constraints == old(parse_result).filtered_ways@[way.id],
                edges0 == old(parse_result).edges@,
                parse_result.edges@ == edges0 + way_edges(way.nodes@, parse_result.nodes@, lengths@, constraints, one_way, i as int),
            decreases way.nodes@.len() - i,
        {
            let from = way.nodes[i];
            let to = way.nodes[i + 1];
            let ghost before = parse_result.edges@;
            if parse_result.nodes.contains_key(&from) && parse_result.nodes.contains_key(&to) {
                let length = lengths[i];
                let edge = ParsedEdge { id_from: from, id_to: to, length, constraints: constraints.access, speed: constraints.speed };
                let edge_reverse = ParsedEdge { id_from: to, id_to: from, length, constraints: constraints.access, speed: constraints.speed };
                match one_way {
                    OneWay::NO => {
                        parse_result.edges.push(edge);
                        parse_result.edges.push(edge_reverse);
                    },
                    OneWay::YES => {
                        parse_result.edges.push(edge);
                    },
                    OneWay::REVERSE => {
                        parse_result.edges.push(edge_reverse);
                    },
                }
                proof {
                    assert(parse_result.edges@ =~= before + segment_edges(from, to, length, constraints, one_way));
                }
            } else {
                assert(parse_result.edges@ =~= before + Seq::<ParsedEdge>::empty());
            }
            i += 1;
        }
    } else {
        assert(parse_result.edges@ =~= old(parse_result).edges@ + Seq::<ParsedEdge>::empty());
    }
}

/// Speed of the sample edges: 13.89 m/s.
pub const DUMMY_SPEED: u64 = 13890;

/// A sample routing edge: car only, at 13.89 m/s.
pub open spec fn dummy_edge(target: usize, length: u64) -> RoutingEdge {
    RoutingEdge { target, length, speed: DUMMY_SPEED, constraints: FLAG_CAR }
}

/// A small sample graph: nodes 5000 to 5004 at (0, 0) and six car-only edges
/// (5000→5001 1 m, 5000→5002 10 m, 5002→5001 100 m, 5002→5003 1 km, 5003→5000 10 km,
/// 5003→5004 100 km), with its grid of a single cell.
pub fn build_dummy_data() -> (r: State)
    ensures
        r.routing_data.wf(),
        r.routing_data.internal_nodes@ == seq![5000i64, 5001, 5002, 5003, 5004],
        r.routing_data.internal_offset@ == seq![0usize, 2, 2, 4, 6, 6],
        r.routing_data.internal_edges@ == seq![
            dummy_edge(1, 1000),
            dummy_edge(2, 10000),
            dummy_edge(1, 100000),
            dummy_edge(3, 1000000),
            dummy_edge(0, 10000000),
            dummy_edge(4, 100000000),
        ],
        forall|id: i64| r.routing_data.osm_nodes@.contains_key(id) <==> 5000 <= id <= 5004,
        forall|i: int|
            0 <= i < 5 ==> #[trigger] r.routing_data.osm_nodes@[r.routing_data.internal_nodes@[i]]
                == (OsmNode { position: Position { lat: 0, lon: 0 }, internal_id: i as usize }),
        r.grid.wf(),
        r.grid.indexes(r.routing_data),
        r.grid.bbox == (BoundingBox { min_lat: -10000i64, min_lon: -10000i64, max_lat: 10000, max_lon: 10000 }),
        r.grid.bin_count_lat == 1,
        r.grid.bin_count_lon == 1,
        r.grid.bins@.len() == 1,
        r.grid.bins@[0].nodes@ == seq![5000i64, 5001, 5002, 5003, 5004],
{
    let internal_nodes: Vec<i64> = vec![5000, 5001, 5002, 5003, 5004];
    let internal_edges: Vec<RoutingEdge> = vec![
        RoutingEdge { target: 1, length: 1000, speed: DUMMY_SPEED, constraints: FLAG_CAR },
        RoutingEdge { target: 2, length: 10000, speed: DUMMY_SPEED, constraints: FLAG_CAR },
        RoutingEdge { target: 1, length: 100000, speed: DUMMY_SPEED, constraints: FLAG_CAR },
        RoutingEdge { target: 3, length: 1000000, speed: DUMMY_SPEED, constraints: FLAG_CAR },
        RoutingEdge { target: 0, length: 10000000, speed: DUMMY_SPEED, constraints: FLAG_CAR },
        RoutingEdge { target: 4, length: 100000000, speed: DUMMY_SPEED, constraints: FLAG_CAR },
    ];
    let internal_offset: Vec<usize> = vec![0, 2, 2, 4, 6, 6];
    let mut osm_nodes: HashMap<i64, OsmNode> = HashMap::new();
    let mut i: usize = 0;
    while i < 5
        invariant
            0 <= i <= 5,
            internal_nodes@ == seq![5000i64, 5001, 5002, 5003, 5004],
            forall|id: i64| osm_nodes@.contains_key(id) <==> 5000 <= id < 5000 + i,
            forall|j: int|
                0 <= j < i ==> #[trigger] osm_nodes@[internal_nodes@[j]]
                    == (OsmNode { position: Position { lat: 0, lon: 0 }, internal_id: j as usize }),
        decreases 5 - i,
    {
        osm_nodes.insert(internal_nodes[i], OsmNode { position: Position { lat: 0, lon: 0 }, internal_id: i });
        i += 1;
    }
    let routing_data = RoutingData { osm_nodes, internal_nodes, internal_edges, internal_offset };
    proof {
        reveal(RoutingData::wf);
        let rd = routing_data;
        assert forall|id: i64| rd.osm_nodes@.contains_key(id) <==> rd.internal_nodes@.contains(id) by {
            if 5000 <= id <= 5004 {
                assert(rd.internal_nodes@[id - 5000] == id);
            }
        }
        assert(rd.wf());
    }
    let grid = build_grid(&routing_data);
    proof {
        let rd = routing_data;
        assert(forall|i: int| 0 <= i < 5 ==> rd.position_of(i) == Position { lat: 0, lon: 0 });
        let w = choose|i: int| 0 <= i < 5 && grid.bbox.min_lat + GRID_PADDING == rd.position_of(i).lat;
        let w2 = choose|i: int| 0 <= i < 5 && grid.bbox.max_lat - GRID_PADDING == rd.position_of(i).lat;
        let w3 = choose|i: int| 0 <= i < 5 && grid.bbox.min_lon + GRID_PADDING == rd.position_of(i).lon;
        let w4 = choose|i: int| 0 <= i < 5 && grid.bbox.max_lon - GRID_PADDING == rd.position_of(i).lon;
        assert(grid.bbox == (BoundingBox { min_lat: -10000i64, min_lon: -10000i64, max_lat: 10000, max_lon: 10000 }));
        let root = choose|root: int|
            #[trigger] dims_for(5, 20000, 20000, grid.bin_count_lat as int, grid.bin_count_lon as int, root);
        assert(lat_cells_squared(5, 20000, 20000) == 1);
        assert(root == 1) by (nonlinear_arith)
            requires
                0 <= root,
                root * root <= 1 < (root + 1) * (root + 1),
        ;
        assert(grid.bin_count_lat == 1 && grid.bin_count_lon == 1);
        assert(grid.bin_count_lat * grid.bin_count_lon == 1) by (nonlinear_arith)
            requires
                grid.bin_count_lat == 1,
                grid.bin_count_lon == 1,
        ;
        assert(grid.bins@.len() == 1);
        assert(grid.bins@[0].nodes@ == filed(grid, rd, 0, rd.node_count() as int));
        assert(forall|i: int| 0 <= i < 5 ==> grid.bin_of(#[trigger] rd.position_of(i)) == (0int, 0int));
        reveal_with_fuel(filed, 6);
        assert(grid.bins@[0].nodes@ == filed(grid, rd, 0, 5));
        assert(filed(grid, rd, 0, 5) =~= seq![5000i64, 5001, 5002, 5003, 5004]);
    }
    State { routing_data, grid }
}

} // verus!
