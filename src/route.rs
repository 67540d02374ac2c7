use vstd::prelude::*;

use crate::access::{allows, permits, str_eq, FLAG_BIKE, FLAG_CAR, FLAG_WALK};
use crate::data::{RoutingData, RoutingEdge};
use crate::geo::Position;
use crate::queue::MinQueue;
use crate::tmc::{TMCState, NO_SLOWDOWN};

verus! {

/// Top speed of a car: 130 km/h, in millimetres per second.
pub const CAR_SPEED: u64 = 36111;
/// Top speed of a bicycle: 15 km/h, in millimetres per second.
pub const BIKE_SPEED: u64 = 4166;
/// Walking speed: 5 km/h, in millimetres per second.
pub const WALK_SPEED: u64 = 1388;
/// Lowest effective speed under a traffic slowdown: 1 m/s.
pub const MIN_TMC_SPEED: u64 = 1000;

/// What a route minimises.
#[derive(Clone, Copy, Debug, PartialEq, Eq, Structural)]
pub enum Metric {
    /// Length in millimetres.
    Distance,
    /// Travel time in milliseconds.
    Time,
    /// Travel time in milliseconds, with live traffic slowdowns applied.
    TimeWithTmc,
}

pub open spec fn vehicle_speed_spec(vehicle: u8) -> u64 {
    if vehicle == FLAG_BIKE {
        BIKE_SPEED
    } else if vehicle == FLAG_WALK {
        WALK_SPEED
    } else {
        CAR_SPEED
    }
}

/// Top speed of the vehicle class `vehicle`; an unknown mask counts as a car.
pub fn vehicle_speed(vehicle: u8) -> (r: u64)
    ensures
        r == vehicle_speed_spec(vehicle),
{
    if vehicle == FLAG_CAR {
        CAR_SPEED
    } else if vehicle == FLAG_BIKE {
        BIKE_SPEED
    } else if vehicle == FLAG_WALK {
        WALK_SPEED
    } else {
        CAR_SPEED
    }
}

/// Vehicle class named by a query: `car`, `bike` or `walk`; `None` for any other name.
pub fn vehicle_from_name(name: &str) -> (r: Option<u8>)
    ensures
        r == (if name@ == "car"@ {
            Some(FLAG_CAR)
        } else if name@ == "bike"@ {
            Some(FLAG_BIKE)
        } else if name@ == "walk"@ {
            Some(FLAG_WALK)
        } else {
            None
        }),
{
    if str_eq(name, "car") {
        Some(FLAG_CAR)
    } else if str_eq(name, "bike") {
        Some(FLAG_BIKE)
    } else if str_eq(name, "walk") {
        Some(FLAG_WALK)
    } else {
        None
    }
}

/// Metric named by a query: `distance`, or `time` (with traffic when `use_tmc`); `None` for
/// any other name.
pub fn metric_from_name(name: &str, use_tmc: bool) -> (r: Option<Metric>)
    ensures
        r == (if name@ == "distance"@ {
            Some(Metric::Distance)
        } else if name@ == "time"@ {
            if use_tmc {
                Some(Metric::TimeWithTmc)
            } else {
                Some(Metric::Time)
            }
        } else {
            None
        }),
{
    if str_eq(name, "distance") {
        Some(Metric::Distance)
    } else if str_eq(name, "time") {
        if use_tmc {
            Some(Metric::TimeWithTmc)
        } else {
            Some(Metric::Time)
        }
    } else {
        None
    }
}

/// `x`, saturated at `u64::MAX`.
pub open spec fn cap(x: int) -> int {
    if x > u64::MAX {
        u64::MAX as int
    } else {
        x
    }
}

pub open spec fn min_int(a: int, b: int) -> int {
    if a <= b {
        a
    } else {
        b
    }
}

pub open spec fn max_int(a: int, b: int) -> int {
    if a >= b {
        a
    } else {
        b
    }
}

/// Speed on `e` for a vehicle with top speed `vspeed`, at least 1 mm/s.
pub open spec fn travel_speed(e: RoutingEdge, vspeed: u64) -> int {
    max_int(1, min_int(e.speed as int, vspeed as int))
}

/// Milliseconds to cover `length` millimetres at `speed` millimetres per second, rounded up
/// (so a positive length takes a positive time).
pub open spec fn travel_time(length: u64, speed: int) -> int {
    cap((length as int * 1000 + speed - 1) / speed)
}

/// Cost of edge `e` under `metric`, with `slowdown` (per-mille) in force on it.
#[verifier::opaque]
pub open spec fn edge_cost_spec(metric: Metric, e: RoutingEdge, vspeed: u64, slowdown: u32) -> int {
    match metric {
        Metric::Distance => e.length as int,
        Metric::Time => travel_time(e.length, travel_speed(e, vspeed)),
        Metric::TimeWithTmc => travel_time(
            e.length,
            max_int(
                MIN_TMC_SPEED as int,
                min_int(e.speed as int, vspeed as int) * slowdown as int / 1000,
            ),
        ),
    }
}

fn time_for(length: u64, speed: u128) -> (r: u64)
    requires
        1 <= speed <= u128::MAX / 2,
    ensures
        r == travel_time(length, speed as int),
{
    assert((length as u128) * 1000 + speed - 1 <= u128::MAX) by (nonlinear_arith)
        requires
            length <= u64::MAX,
            speed <= u128::MAX / 2,
    ;
    let t: u128 = ((length as u128) * 1000 + speed - 1) / speed;
    if t > u64::MAX as u128 {
        u64::MAX
    } else {
        t as u64
    }
}

/// Length of `edge` in millimetres.
pub fn edge_cost_distance(edge: &RoutingEdge) -> (r: u64)
    ensures
        r == edge_cost_spec(Metric::Distance, *edge, 0, 0),
{
    reveal(edge_cost_spec);
    edge.length
}

/// Time in milliseconds to traverse `edge` at `min(edge.speed, vspeed)`.
pub fn edge_cost_time(edge: &RoutingEdge, vspeed: u64) -> (r: u64)
    ensures
        forall|s: u32| r == edge_cost_spec(Metric::Time, *edge, vspeed, s),
{
    reveal(edge_cost_spec);
    let mut speed = edge.speed;
    if vspeed < speed {
        speed = vspeed;
    }
    if speed == 0 {
        speed = 1;
    }
    time_for(edge.length, speed as u128)
}

/// Time in milliseconds to traverse `edge` with `slowdown` (per-mille) applied to
/// `min(edge.speed, vspeed)`, never slower than 1 m/s.
pub fn edge_cost_tmc(edge: &RoutingEdge, vspeed: u64, slowdown: u32) -> (r: u64)
    ensures
        r == edge_cost_spec(Metric::TimeWithTmc, *edge, vspeed, slowdown),
{
    reveal(edge_cost_spec);
    let mut speed = edge.speed;
    if vspeed < speed {
        speed = vspeed;
    }
    assert((speed as u128) * (slowdown as u128) <= u128::MAX) by (nonlinear_arith)
        requires
            speed <= u64::MAX,
            slowdown <= u32::MAX,
    ;
    assert((speed as u128) * (slowdown as u128) <= 0x1_0000_0000_0000_0000_0000_0000u128) by (nonlinear_arith)
        requires
            speed <= u64::MAX,
            slowdown <= u32::MAX,
    ;
    let slowed: u128 = (speed as u128) * (slowdown as u128) / 1000;
    let effective: u128 = if slowed < MIN_TMC_SPEED as u128 {
        MIN_TMC_SPEED as u128
    } else {
        slowed
    };
    time_for(edge.length, effective)
}

/// Cost of edge `e` of `g` under `metric`.
#[verifier::opaque]
pub open spec fn weight(g: RoutingData, tmc: TMCState, metric: Metric, vspeed: u64, e: int) -> int {
    edge_cost_spec(metric, g.internal_edges@[e], vspeed, tmc.slowdown_of(e as usize))
}

fn edge_cost(g: &RoutingData, tmc: &TMCState, metric: Metric, vspeed: u64, e: usize) -> (r: u64)
    requires
        e < g.internal_edges@.len(),
    ensures
        r == weight(*g, *tmc, metric, vspeed, e as int),
{
    let edge = &g.internal_edges[e];
    proof {
        reveal(weight);
        reveal(edge_cost_spec);
    }
    match metric {
        Metric::Distance => edge_cost_distance(edge),
        Metric::Time => edge_cost_time(edge, vspeed),
        Metric::TimeWithTmc => edge_cost_tmc(edge, vspeed, tmc.edge_slowdown(e)),
    }
}

/// Node reached from `s` after the first `k` edges of `es`.
pub open spec fn walk_node(g: RoutingData, s: int, es: Seq<usize>, k: int) -> int {
    if k == 0 {
        s
    } else {
        g.internal_edges@[es[k - 1] as int].target as int
    }
}

/// `es` is a walk in `g` from dense node `s` to dense node `t` over edges open to `vehicle`.
pub open spec fn is_walk(g: RoutingData, vehicle: u8, s: int, es: Seq<usize>, t: int) -> bool {
    &&& 0 <= s < g.node_count()
    &&& 0 <= t < g.node_count()
    &&& forall|k: int|
        #![trigger es[k]]
        0 <= k < es.len() ==> g.leaves(walk_node(g, s, es, k), es[k] as int) && permits(
            vehicle,
            g.internal_edges@[es[k] as int].constraints,
        )
    &&& walk_node(g, s, es, es.len() as int) == t
}

/// Total cost of the edges `es` under `metric`.
pub open spec fn walk_cost(g: RoutingData, tmc: TMCState, metric: Metric, vspeed: u64, es: Seq<usize>) -> int
    decreases es.len(),
{
    if es.len() == 0 {
        0
    } else {
        walk_cost(g, tmc, metric, vspeed, es.drop_last()) + weight(g, tmc, metric, vspeed, es.last() as int)
    }
}

/// Total length of the edges `es`, in millimetres.
pub open spec fn walk_length(g: RoutingData, es: Seq<usize>) -> int
    decreases es.len(),
{
    if es.len() == 0 {
        0
    } else {
        walk_length(g, es.drop_last()) + g.internal_edges@[es.last() as int].length
    }
}

/// Total travel time of the edges `es` without traffic, in milliseconds.
pub open spec fn walk_time(g: RoutingData, vspeed: u64, es: Seq<usize>) -> int
    decreases es.len(),
{
    if es.len() == 0 {
        0
    } else {
        walk_time(g, vspeed, es.drop_last()) + edge_cost_spec(
            Metric::Time,
            g.internal_edges@[es.last() as int],
            vspeed,
            NO_SLOWDOWN,
        )
    }
}

proof fn lemma_weight_nonneg(g: RoutingData, tmc: TMCState, metric: Metric, vspeed: u64, e: int)
    ensures
        weight(g, tmc, metric, vspeed, e) >= 0,
{
    reveal(weight);
    reveal(edge_cost_spec);
    let edge = g.internal_edges@[e];
    let sp = max_int(MIN_TMC_SPEED as int, min_int(edge.speed as int, vspeed as int) * tmc.slowdown_of(e as usize) as int / 1000);
    assert((edge.length as int * 1000 + sp - 1) / sp >= 0) by (nonlinear_arith)
        requires sp >= 1, edge.length >= 0;
    let sp2 = travel_speed(edge, vspeed);
    assert((edge.length as int * 1000 + sp2 - 1) / sp2 >= 0) by (nonlinear_arith)
        requires sp2 >= 1, edge.length >= 0;
}

proof fn lemma_cost_prefix(g: RoutingData, tmc: TMCState, metric: Metric, vspeed: u64, es: Seq<usize>, k: int)
    requires
        0 <= k <= es.len(),
    ensures
        walk_cost(g, tmc, metric, vspeed, es.take(k)) <= walk_cost(g, tmc, metric, vspeed, es),
        walk_cost(g, tmc, metric, vspeed, es) >= 0,
    decreases es.len(),
{
    if es.len() > 0 {
        lemma_weight_nonneg(g, tmc, metric, vspeed, es.last() as int);
        lemma_cost_prefix(g, tmc, metric, vspeed, es.drop_last(), if k == es.len() { 0 } else { k });
        if k < es.len() {
            assert(es.drop_last().take(k) =~= es.take(k));
        } else {
            assert(es.take(k) =~= es);
        }
    } else {
        assert(es.take(k) =~= es);
    }
}

proof fn lemma_cost_step(g: RoutingData, tmc: TMCState, metric: Metric, vspeed: u64, es: Seq<usize>, k: int)
    requires
        0 <= k < es.len(),
    ensures
        walk_cost(g, tmc, metric, vspeed, es.take(k + 1)) == walk_cost(g, tmc, metric, vspeed, es.take(k))
            + weight(g, tmc, metric, vspeed, es[k] as int),
{
    assert(es.take(k + 1).drop_last() =~= es.take(k));
}

proof fn lemma_cost_prepend(g: RoutingData, tmc: TMCState, metric: Metric, vspeed: u64, e: usize, es: Seq<usize>)
    ensures
        walk_cost(g, tmc, metric, vspeed, seq![e] + es) == weight(g, tmc, metric, vspeed, e as int)
            + walk_cost(g, tmc, metric, vspeed, es),
    decreases es.len(),
{
    if es.len() > 0 {
        lemma_cost_prepend(g, tmc, metric, vspeed, e, es.drop_last());
        assert((seq![e] + es).drop_last() =~= seq![e] + es.drop_last());
        assert((seq![e] + es).last() == es.last());
    } else {
        assert((seq![e] + es) =~= seq![e]);
        assert(seq![e].drop_last() =~= Seq::<usize>::empty());
        assert(seq![e].last() == e);
        assert(walk_cost(g, tmc, metric, vspeed, Seq::<usize>::empty()) == 0);
    }
}

proof fn lemma_walk_prepend(g: RoutingData, vehicle: u8, u: int, e: usize, es: Seq<usize>, t: int)
    requires
        is_walk(g, vehicle, g.internal_edges@[e as int].target as int, es, t),
        g.leaves(u, e as int),
        permits(vehicle, g.internal_edges@[e as int].constraints),
    ensures
        is_walk(g, vehicle, u, seq![e] + es, t),
{
    let x = g.internal_edges@[e as int].target as int;
    let w = seq![e] + es;
    assert forall|k: int| 0 <= k < w.len() implies g.leaves(walk_node(g, u, w, k), #[trigger] w[k] as int)
        && permits(vehicle, g.internal_edges@[w[k] as int].constraints) by {
        if k > 0 {
            assert(w[k] == es[k - 1]);
            assert(walk_node(g, u, w, k) == walk_node(g, x, es, k - 1));
        }
    }
    assert(walk_node(g, u, w, w.len() as int) == walk_node(g, x, es, es.len() as int));
}

/// Number of `true` entries of `s`.
pub open spec fn count_true(s: Seq<bool>) -> nat
    decreases s.len(),
{
    if s.len() == 0 {
        0
    } else {
        count_true(s.drop_last()) + if s.last() {
            1nat
        } else {
            0nat
        }
    }
}

proof fn lemma_count_true(s: Seq<bool>, i: int)
    requires
        0 <= i < s.len(),
        !s[i],
    ensures
        count_true(s.update(i, true)) == count_true(s) + 1,
        count_true(s) < s.len(),
    decreases s.len(),
{
    if i < s.len() - 1 {
        lemma_count_true(s.drop_last(), i);
        assert(s.update(i, true).drop_last() =~= s.drop_last().update(i, true));
    } else {
        assert(s.update(i, true).drop_last() =~= s.drop_last());
        lemma_count_bound(s.drop_last());
    }
}

proof fn lemma_count_bound(s: Seq<bool>)
    ensures
        count_true(s) <= s.len(),
    decreases s.len(),
{
    if s.len() > 0 {
        lemma_count_bound(s.drop_last());
    }
}

/// Relaxation facts for the settled nodes: every open edge out of a settled node `u` leads to
/// a node whose tentative cost is at most `dist[u]` plus the edge's cost. The edges of
/// `pending` from position `from` on are not yet covered.
pub open spec fn relaxed(
    g: RoutingData,
    tmc: TMCState,
    metric: Metric,
    vehicle: u8,
    vspeed: u64,
    dist: Seq<u64>,
    done: Seq<bool>,
    pending: int,
    from: int,
) -> bool {
    forall|u: int, e: int|
        #![trigger done[u], g.leaves(u, e)]
        0 <= u < done.len() && done[u] && g.leaves(u, e) && permits(vehicle, g.internal_edges@[e].constraints)
            && !(u == pending && e >= from) ==> dist[g.internal_edges@[e].target as int] <= dist[u]
            + weight(g, tmc, metric, vspeed, e)
}

/// Every walk from `s` to the unsettled node `t` costs at least `m`, where `m` bounds the
/// tentative cost of every reached, unsettled node.
proof fn lemma_lower_bound(
    g: RoutingData,
    tmc: TMCState,
    metric: Metric,
    vehicle: u8,
    vspeed: u64,
    dist: Seq<u64>,
    done: Seq<bool>,
    s: int,
    es: Seq<usize>,
    t: int,
    m: int,
    k: int,
)
    requires
        dist.len() == g.node_count(),
        done.len() == g.node_count(),
        is_walk(g, vehicle, s, es, t),
        !done[t],
        dist[s] == 0,
        0 <= k <= es.len(),
        forall|i: int| 0 <= i < k ==> done[walk_node(g, s, es, i)],
        dist[walk_node(g, s, es, k)] <= walk_cost(g, tmc, metric, vspeed, es.take(k)),
        relaxed(g, tmc, metric, vehicle, vspeed, dist, done, -1, 0),
        forall|x: int| 0 <= x < dist.len() && !done[x] && dist[x] < u64::MAX ==> dist[x] >= m,
        m <= u64::MAX,
    ensures
        walk_cost(g, tmc, metric, vspeed, es) >= m,
    decreases es.len() - k,
{
    let x = walk_node(g, s, es, k);
    lemma_cost_prefix(g, tmc, metric, vspeed, es, k);
    if k < es.len() {
        assert(g.leaves(x, es[k] as int));
    }
    assert(0 <= x < dist.len());
    if !done[x] {
    } else {
        assert(k < es.len());
        let e = es[k] as int;
        assert(g.leaves(x, e));
        assert(0 <= x < done.len());
        lemma_cost_step(g, tmc, metric, vspeed, es, k);
        assert(walk_node(g, s, es, k + 1) == g.internal_edges@[e].target as int);
        lemma_lower_bound(g, tmc, metric, vehicle, vspeed, dist, done, s, es, t, m, k + 1);
    }
}

/// Why a route query failed.
#[derive(Clone, Copy, Debug, PartialEq, Eq, Structural)]
pub enum RouteError {
    /// The source or target is not a node of the graph.
    UnknownNode,
    /// The target cannot be reached from the source.
    NoRoute,
}

/// A route found by the search.
pub struct Route {
    /// Total cost under the metric searched with.
    pub cost: u64,
    /// Total length in millimetres, saturated at `u64::MAX`.
    pub distance: u64,
    /// Total travel time without traffic in milliseconds, saturated at `u64::MAX`.
    pub time: u64,
    /// Edge indices, from source to target.
    pub edges: Vec<usize>,
    /// OSM ids of the nodes passed, from source to target.
    pub nodes: Vec<i64>,
    /// Positions of the nodes passed, from source to target.
    pub path: Vec<Position>,
}

/// The search tree link of the reached node `x`: it was last improved from the settled node
/// `pred[x]` over the edge `pred_edge[x]`.
pub open spec fn pred_ok(
    g: RoutingData,
    tmc: TMCState,
    metric: Metric,
    vehicle: u8,
    vspeed: u64,
    dist: Seq<u64>,
    pred: Seq<usize>,
    pred_edge: Seq<usize>,
    done: Seq<bool>,
    rank: Seq<nat>,
    x: int,
) -> bool {
    let p = pred[x] as int;
    let e = pred_edge[x] as int;
    &&& 0 <= p < done.len()
    &&& done[p]
    &&& g.leaves(p, e)
    &&& permits(vehicle, g.internal_edges@[e].constraints)
    &&& g.internal_edges@[e].target == x
    &&& dist[x] == dist[p] + weight(g, tmc, metric, vspeed, e)
    &&& done[x] ==> rank[p] < rank[x]
}

/// The state of the search between steps.
pub open spec fn search_inv(
    g: RoutingData,
    tmc: TMCState,
    metric: Metric,
    vehicle: u8,
    vspeed: u64,
    s: int,
    t: int,
    dist: Seq<u64>,
    pred: Seq<usize>,
    pred_edge: Seq<usize>,
    done: Seq<bool>,
    queue: Seq<(u64, usize)>,
    rank: Seq<nat>,
    cur: int,
    ndone: nat,
) -> bool {
    let n = g.node_count();
    &&& dist.len() == n
    &&& pred.len() == n
    &&& pred_edge.len() == n
    &&& done.len() == n
    &&& rank.len() == n
    &&& 0 <= s < n
    &&& 0 <= t < n
    &&& dist[s] == 0
    &&& !done[t]
    &&& ndone == count_true(done)
    &&& 0 <= cur < u64::MAX
    &&& forall|x: int| 0 <= x < n && #[trigger] done[x] ==> dist[x] <= cur && rank[x] < ndone
    &&& forall|j: int|
        0 <= j < queue.len() ==> (#[trigger] queue[j]).1 < n && queue[j].0 >= dist[queue[j].1 as int]
            && queue[j].0 >= cur && queue[j].0 < u64::MAX
    &&& forall|x: int|
        0 <= x < n && !done[x] && #[trigger] dist[x] < u64::MAX ==> queue.contains(
            (dist[x], x as usize),
        )
    &&& forall|x: int|
        0 <= x < n && x != s && #[trigger] dist[x] < u64::MAX ==> pred_ok(
            g,
            tmc,
            metric,
            vehicle,
            vspeed,
            dist,
            pred,
            pred_edge,
            done,
            rank,
            x,
        )
}

/// Follows the search tree links from `t` back to `s`; returns the edges in walk order.
fn trace_back(
    g: &RoutingData,
    s: usize,
    t: usize,
    pred: &Vec<usize>,
    pred_edge: &Vec<usize>,
    Ghost(tmc): Ghost<TMCState>,
    Ghost(metric): Ghost<Metric>,
    Ghost(vehicle): Ghost<u8>,
    Ghost(vspeed): Ghost<u64>,
    Ghost(dist): Ghost<Seq<u64>>,
    Ghost(done): Ghost<Seq<bool>>,
    Ghost(rank): Ghost<Seq<nat>>,
    Ghost(ndone): Ghost<nat>,
) -> (es: Vec<usize>)
    requires
        dist.len() == g.node_count(),
        pred@.len() == g.node_count(),
        pred_edge@.len() == g.node_count(),
        done.len() == g.node_count(),
        rank.len() == g.node_count(),
        s < g.node_count(),
        t < g.node_count(),
        dist[s as int] == 0,
        dist[t as int] < u64::MAX,
        !done[t as int],
        forall|x: int| 0 <= x < g.node_count() && #[trigger] done[x] ==> rank[x] < ndone,
        forall|x: int|
            0 <= x < g.node_count() && x != s && #[trigger] dist[x] < u64::MAX ==> pred_ok(
                *g,
                tmc,
                metric,
                vehicle,
                vspeed,
                dist,
                pred@,
                pred_edge@,
                done,
                rank,
                x,
            ),
        forall|x: int| 0 <= x < g.node_count() && #[trigger] done[x] ==> dist[x] < u64::MAX,
    ensures
        is_walk(*g, vehicle, s as int, es@, t as int),
        walk_cost(*g, tmc, metric, vspeed, es@) == dist[t as int],
        s == t ==> es@.len() == 0,
{
    let mut rev: Vec<usize> = Vec::new();
    let mut x: usize = t;
    proof {
        assert(rev@.reverse() =~= Seq::<usize>::empty());
    }
    while x != s
        invariant
            dist.len() == g.node_count(),
            pred@.len() == g.node_count(),
            pred_edge@.len() == g.node_count(),
            done.len() == g.node_count(),
            rank.len() == g.node_count(),
            s < g.node_count(),
            x < g.node_count(),
            dist[x as int] < u64::MAX,
            x != t ==> done[x as int],
            s == t ==> x == t && rev@.len() == 0,
            !done[t as int],
            forall|y: int| 0 <= y < g.node_count() && #[trigger] done[y] ==> rank[y] < ndone,
            forall|y: int|
                0 <= y < g.node_count() && y != s && #[trigger] dist[y] < u64::MAX ==> pred_ok(
                    *g,
                    tmc,
                    metric,
                    vehicle,
                    vspeed,
                    dist,
                    pred@,
                    pred_edge@,
                    done,
                    rank,
                    y,
                ),
            forall|y: int| 0 <= y < g.node_count() && #[trigger] done[y] ==> dist[y] < u64::MAX,
            is_walk(*g, vehicle, x as int, rev@.reverse(), t as int),
            dist[t as int] == dist[x as int] + walk_cost(*g, tmc, metric, vspeed, rev@.reverse()),
        decreases (if done[x as int] {
            rank[x as int] as int
        } else {
            ndone as int
        }),
    {
        assert(pred_ok(*g, tmc, metric, vehicle, vspeed, dist, pred@, pred_edge@, done, rank, x as int));
        let e = pred_edge[x];
        let p = pred[x];
        let ghost before = rev@;
        rev.push(e);
        proof {
            assert(rev@.reverse() =~= seq![e] + before.reverse());
            lemma_walk_prepend(*g, vehicle, p as int, e, before.reverse(), t as int);
            lemma_cost_prepend(*g, tmc, metric, vspeed, e, before.reverse());
            assert(done[p as int]);
        }
        x = p;
    }
    let mut es: Vec<usize> = Vec::new();
    let mut i: usize = rev.len();
    while i > 0
        invariant
            i <= rev@.len(),
            es@ =~= rev@.reverse().take(rev@.len() - i),
        decreases i,
    {
        es.push(rev[i - 1]);
        i -= 1;
        proof {
            assert(es@ =~= rev@.reverse().take(rev@.len() - i));
        }
    }
    proof {
        assert(es@ =~= rev@.reverse());
    }
    es
}

proof fn lemma_sums_step(g: RoutingData, vspeed: u64, es: Seq<usize>, k: int)
    requires
        0 <= k < es.len(),
    ensures
        walk_length(g, es.take(k + 1)) == walk_length(g, es.take(k)) + g.internal_edges@[es[k] as int].length,
        walk_time(g, vspeed, es.take(k + 1)) == walk_time(g, vspeed, es.take(k)) + edge_cost_spec(
            Metric::Time,
            g.internal_edges@[es[k] as int],
            vspeed,
            NO_SLOWDOWN,
        ),
{
    assert(es.take(k + 1).drop_last() =~= es.take(k));
    assert(es.take(k + 1).last() == es[k]);
}

/// OSM id and position of dense node `x`.
fn node_at(g: &RoutingData, x: usize) -> (r: (i64, Position))
    requires
        g.wf(),
        x < g.node_count(),
    ensures
        r.0 == g.internal_nodes@[x as int],
        r.1 == g.osm_nodes@[r.0].position,
{
    let id = g.internal_nodes[x];
    reveal(RoutingData::wf);
    assert(g.internal_nodes@.contains(id)) by {
        assert(g.internal_nodes@[x as int] == id);
    }
    let position = match g.osm_nodes.get(&id) {
        Some(node) => node.position,
        None => Position { lat: 0, lon: 0 },
    };
    (id, position)
}

/// Lists the nodes, positions, length and time of the walk `es` from `s`.
fn describe_route(g: &RoutingData, vspeed: u64, s: usize, es: Vec<usize>, cost: u64, Ghost(vehicle): Ghost<u8>, Ghost(t): Ghost<int>) -> (r: Route)
    requires
        g.wf(),
        is_walk(*g, vehicle, s as int, es@, t),
    ensures
        r.cost == cost,
        r.edges@ == es@,
        r.nodes@.len() == es@.len() + 1,
        r.path@.len() == es@.len() + 1,
        forall|k: int|
            0 <= k <= es@.len() ==> #[trigger] r.nodes@[k] == g.internal_nodes@[walk_node(*g, s as int, es@, k)],
        forall|k: int|
            0 <= k <= es@.len() ==> #[trigger] r.path@[k] == g.osm_nodes@[r.nodes@[k]].position,
        r.distance == cap(walk_length(*g, es@)),
        r.time == cap(walk_time(*g, vspeed, es@)),
{
    let mut nodes: Vec<i64> = Vec::new();
    let mut path: Vec<Position> = Vec::new();
    let mut distance: u64 = 0;
    let mut time: u64 = 0;
    let mut x: usize = s;
    let (id0, pos0) = node_at(g, s);
    nodes.push(id0);
    path.push(pos0);
    let mut k: usize = 0;
    proof {
        assert(es@.take(0) =~= Seq::<usize>::empty());
    }
    while k < es.len()
        invariant
            g.wf(),
            is_walk(*g, vehicle, s as int, es@, t),
            k <= es@.len(),
            nodes@.len() == k + 1,
            path@.len() == k + 1,
            x == walk_node(*g, s as int, es@, k as int),
            x < g.node_count(),
            forall|j: int|
                0 <= j <= k ==> #[trigger] nodes@[j] == g.internal_nodes@[walk_node(*g, s as int, es@, j)],
            forall|j: int| 0 <= j <= k ==> #[trigger] path@[j] == g.osm_nodes@[nodes@[j]].position,
            distance == cap(walk_length(*g, es@.take(k as int))),
            time == cap(walk_time(*g, vspeed, es@.take(k as int))),
        decreases es@.len() - k,
    {
        let e = es[k];
        proof {
            assert(g.leaves(walk_node(*g, s as int, es@, k as int), e as int));
            g.lemma_leaves(walk_node(*g, s as int, es@, k as int), e as int);
            lemma_sums_step(*g, vspeed, es@, k as int);
        }
        let edge = g.internal_edges[e];
        distance = distance.saturating_add(edge.length);
        time = time.saturating_add(edge_cost_time(&edge, vspeed));
        x = edge.target;
        let (id, position) = node_at(g, x);
        nodes.push(id);
        path.push(position);
        k += 1;
    }
    proof {
        assert(es@.take(k as int) =~= es@);
    }
    Route { cost, distance, time, edges: es, nodes, path }
}

proof fn lemma_relax_skip(
    g: RoutingData,
    tmc: TMCState,
    metric: Metric,
    vehicle: u8,
    vspeed: u64,
    dist: Seq<u64>,
    done: Seq<bool>,
    u: int,
    e: int,
)
    requires
        relaxed(g, tmc, metric, vehicle, vspeed, dist, done, u, e),
        permits(vehicle, g.internal_edges@[e].constraints) ==> dist[g.internal_edges@[e].target as int]
            <= dist[u] + weight(g, tmc, metric, vspeed, e),
    ensures
        relaxed(g, tmc, metric, vehicle, vspeed, dist, done, u, e + 1),
{
    assert forall|u2: int, e2: int|
        #![trigger done[u2], g.leaves(u2, e2)]
        0 <= u2 < done.len() && done[u2] && g.leaves(u2, e2) && permits(vehicle, g.internal_edges@[e2].constraints)
            && !(u2 == u && e2 >= e + 1) implies dist[g.internal_edges@[e2].target as int] <= dist[u2]
            + weight(g, tmc, metric, vspeed, e2) by {
        if !(u2 == u && e2 == e) {
        }
    }
}

proof fn lemma_relax_update(
    g: RoutingData,
    tmc: TMCState,
    metric: Metric,
    vehicle: u8,
    vspeed: u64,
    s: int,
    t: int,
    d0: Seq<u64>,
    p0: Seq<usize>,
    pe0: Seq<usize>,
    q0: Seq<(u64, usize)>,
    dist: Seq<u64>,
    pred: Seq<usize>,
    pred_edge: Seq<usize>,
    queue: Seq<(u64, usize)>,
    done: Seq<bool>,
    rank: Seq<nat>,
    ndone: nat,
    u: usize,
    e: usize,
    c: int,
    w: int,
)
    requires
        g.wf(),
        search_inv(g, tmc, metric, vehicle, vspeed, s, t, d0, p0, pe0, done, q0, rank, c, ndone),
        relaxed(g, tmc, metric, vehicle, vspeed, d0, done, u as int, e as int),
        u < g.node_count(),
        done[u as int],
        d0[u as int] == c,
        g.leaves(u as int, e as int),
        permits(vehicle, g.internal_edges@[e as int].constraints),
        w == weight(g, tmc, metric, vspeed, e as int),
        c + w < d0[g.internal_edges@[e as int].target as int],
        dist == d0.update(g.internal_edges@[e as int].target as int, (c + w) as u64),
        pred == p0.update(g.internal_edges@[e as int].target as int, u),
        pred_edge == pe0.update(g.internal_edges@[e as int].target as int, e),
        forall|x: (u64, usize)|
            #[trigger] queue.contains(x) <==> q0.contains(x) || x == ((c + w) as u64, g.internal_edges@[e as int].target),
    ensures
        search_inv(g, tmc, metric, vehicle, vspeed, s, t, dist, pred, pred_edge, done, queue, rank, c, ndone),
        relaxed(g, tmc, metric, vehicle, vspeed, dist, done, u as int, e + 1),
{
    g.lemma_leaves(u as int, e as int);
    lemma_weight_nonneg(g, tmc, metric, vspeed, e as int);
    let v = g.internal_edges@[e as int].target;
    let nc = (c + w) as u64;
    let n = g.node_count();
    assert(!done[v as int]) by {
        if done[v as int] {
            assert(d0[v as int] <= c);
        }
    }
    assert(v != s);
    assert(u != v);
    assert(nc == c + w);
    assert(dist[v as int] == c + w);
    assert(dist[u as int] == c);
    assert(queue.contains((nc, v)));
    assert(pred_ok(g, tmc, metric, vehicle, vspeed, dist, pred, pred_edge, done, rank, v as int));
                    assert(pred_ok(g, tmc, metric, vehicle, vspeed, dist, pred, pred_edge, done, rank, v as int));
                    assert forall|x: int|
                        0 <= x < n && x != s && #[trigger] dist[x] < u64::MAX implies pred_ok(
                            g, tmc, metric, vehicle, vspeed, dist, pred, pred_edge, done, rank, x,
                        ) by {
                        if x != v {
                            assert(d0[x] == dist[x]);
                            assert(pred_ok(g, tmc, metric, vehicle, vspeed, d0, p0, pe0, done, rank, x));
                            assert(p0[x] != v);
                        }
                    }
                    assert forall|x: int|
                        0 <= x < n && !done[x] && #[trigger] dist[x] < u64::MAX implies queue.contains(
                            (dist[x], x as usize),
                        ) by {
                        if x != v {
                            assert(d0[x] == dist[x]);
                            assert(q0.contains((d0[x], x as usize)));
                        }
                    }
                    assert forall|j: int|
                        0 <= j < queue.len() implies (#[trigger] queue[j]).1 < n && queue[j].0 >= dist[queue[j].1 as int]
                            && queue[j].0 >= c && queue[j].0 < u64::MAX by {
                        assert(queue.contains(queue[j]));
                        if queue[j] != (nc, v) {
                            assert(q0.contains(queue[j]));
                            let j0 = choose|j0: int| 0 <= j0 < q0.len() && q0[j0] == queue[j];
                            assert(q0[j0].0 >= d0[q0[j0].1 as int]);
                        }
                    }
                    assert forall|x: int| 0 <= x < n && #[trigger] done[x] implies dist[x] <= c && rank[x] < ndone by {
                        assert(x != v);
                    }
                    assert forall|u2: int, e2: int|
                        #![trigger done[u2], g.leaves(u2, e2)]
                        0 <= u2 < done.len() && done[u2] && g.leaves(u2, e2) && permits(vehicle, g.internal_edges@[e2].constraints)
                            && !(u2 == u && e2 >= e + 1) implies dist[g.internal_edges@[e2].target as int] <= dist[u2]
                            + weight(g, tmc, metric, vspeed, e2) by {
                        assert(u2 != v);
                        g.lemma_leaves(u2, e2);
                        let tg = g.internal_edges@[e2].target as int;
                        assert(dist == d0.update(v as int, nc));
                        assert(dist[u2] == d0[u2]);
                        if 0 <= tg < d0.len() {
                            assert(dist[tg] <= d0[tg]);
                        }
                        if !(u2 == u && e2 == e) {
                            assert(d0[tg] <= d0[u2] + weight(g, tmc, metric, vspeed, e2));
                        } else {
                            assert(tg == v);
                        }
                    }
                }

/// Relaxes the edges leaving the newly settled node `u`, whose cost is `c`.
fn relax_edges(
    g: &RoutingData,
    tmc: &TMCState,
    metric: Metric,
    vehicle: u8,
    vspeed: u64,
    u: usize,
    c: u64,
    dist: &mut Vec<u64>,
    pred: &mut Vec<usize>,
    pred_edge: &mut Vec<usize>,
    queue: &mut MinQueue,
    Ghost(s): Ghost<int>,
    Ghost(t): Ghost<int>,
    Ghost(done): Ghost<Seq<bool>>,
    Ghost(rank): Ghost<Seq<nat>>,
    Ghost(ndone): Ghost<nat>,
)
    requires
        g.wf(),
        old(queue).wf(),
        search_inv(*g, *tmc, metric, vehicle, vspeed, s, t, old(dist)@, old(pred)@, old(pred_edge)@, done, old(queue)@, rank, c as int, ndone),
        u < g.node_count(),
        relaxed(*g, *tmc, metric, vehicle, vspeed, old(dist)@, done, u as int, g.internal_offset@[u as int] as int),
        done[u as int],
        old(dist)@[u as int] == c,
    ensures
        final(queue).wf(),
        search_inv(*g, *tmc, metric, vehicle, vspeed, s, t, final(dist)@, final(pred)@, final(pred_edge)@, done, final(queue)@, rank, c as int, ndone),
        relaxed(*g, *tmc, metric, vehicle, vspeed, final(dist)@, done, -1, 0),
{
    proof {
        reveal(RoutingData::wf);
        assert(g.internal_offset@[u as int] <= g.internal_offset@[u as int + 1]);
        assert(g.internal_offset@[u as int + 1] <= g.internal_offset@[g.node_count() as int]);
    }
    let (start, end) = g.offset_lookup(u);
    let mut e = start;
    while e < end
        invariant
            g.wf(),
            queue.wf(),
            start == g.internal_offset@[u as int],
            end == g.internal_offset@[u as int + 1],
            start <= e <= end,
            end <= g.internal_edges@.len(),
            u < g.node_count(),
            done[u as int],
            dist@[u as int] == c,
            search_inv(*g, *tmc, metric, vehicle, vspeed, s, t, dist@, pred@, pred_edge@, done, queue@, rank, c as int, ndone),
            relaxed(*g, *tmc, metric, vehicle, vspeed, dist@, done, u as int, e as int),
        decreases end - e,
    {
        let edge = g.internal_edges[e];
        proof {
            assert(g.leaves(u as int, e as int));
            g.lemma_leaves(u as int, e as int);
        }
        if allows(vehicle, edge.constraints) {
            let w = edge_cost(g, tmc, metric, vspeed, e);
            let v = edge.target;
            if (c as u128) + (w as u128) < (dist[v] as u128) {
                let nc: u64 = c + w;
                let ghost d0 = dist@;
                let ghost p0 = pred@;
                let ghost pe0 = pred_edge@;
                let ghost q0 = queue@;
                proof {
                    assert(!done[v as int]) by {
                        if done[v as int] {
                            assert(dist@[v as int] <= c);
                        }
                    }
                }
                dist.set(v, nc);
                pred.set(v, u);
                pred_edge.set(v, e);
                queue.push((nc, v));
                proof {
                    lemma_relax_update(*g, *tmc, metric, vehicle, vspeed, s, t, d0, p0, pe0, q0, dist@, pred@, pred_edge@, queue@, done, rank, ndone, u, e, c as int, w as int);
                }
            } else {
                proof {
                    lemma_relax_skip(*g, *tmc, metric, vehicle, vspeed, dist@, done, u as int, e as int);
                }
            }
        } else {
            proof {
                lemma_relax_skip(*g, *tmc, metric, vehicle, vspeed, dist@, done, u as int, e as int);
            }
        }
        e += 1;
    }
    proof {
        assert forall|u2: int, e2: int|
            #![trigger done[u2], g.leaves(u2, e2)]
            0 <= u2 < done.len() && done[u2] && g.leaves(u2, e2) && permits(vehicle, g.internal_edges@[e2].constraints)
                && !(u2 == -1 && e2 >= 0) implies dist@[g.internal_edges@[e2].target as int] <= dist@[u2]
                + weight(*g, *tmc, metric, vspeed, e2) by {
            if u2 == u {
                assert(e2 < end);
            }
        }
    }
}

/// `route` is a cheapest walk from dense node `s` to dense node `t` for `vehicle` under
/// `metric`, described node by node.
pub open spec fn is_best_route(
    g: RoutingData,
    tmc: TMCState,
    metric: Metric,
    vehicle: u8,
    s: int,
    t: int,
    route: Route,
) -> bool {
    let vspeed = vehicle_speed_spec(vehicle);
    let es = route.edges@;
    &&& is_walk(g, vehicle, s, es, t)
    &&& route.cost == walk_cost(g, tmc, metric, vspeed, es)
    &&& forall|other: Seq<usize>|
        is_walk(g, vehicle, s, other, t) ==> route.cost <= #[trigger] walk_cost(
            g,
            tmc,
            metric,
            vspeed,
            other,
        )
    &&& route.nodes@.len() == es.len() + 1
    &&& route.path@.len() == es.len() + 1
    &&& forall|k: int|
        0 <= k <= es.len() ==> #[trigger] route.nodes@[k] == g.internal_nodes@[walk_node(g, s, es, k)]
    &&& forall|k: int| 0 <= k <= es.len() ==> #[trigger] route.path@[k] == g.osm_nodes@[route.nodes@[k]].position
    &&& route.distance == cap(walk_length(g, es))
    &&& route.time == cap(walk_time(g, vspeed, es))
}

/// A best route starts at the source, ends at the target, follows edges of the graph from
/// each node to the next, and uses only edges open to the vehicle.
pub proof fn lemma_route_shape(g: RoutingData, tmc: TMCState, metric: Metric, vehicle: u8, s: int, t: int, route: Route)
    requires
        g.wf(),
        is_best_route(g, tmc, metric, vehicle, s, t, route),
    ensures
        route.nodes@[0] == g.internal_nodes@[s],
        route.nodes@.last() == g.internal_nodes@[t],
        forall|k: int|
            0 <= k < route.edges@.len() ==> {
                let e = #[trigger] route.edges@[k] as int;
                &&& g.leaves(walk_node(g, s, route.edges@, k), e)
                &&& route.nodes@[k] == g.internal_nodes@[walk_node(g, s, route.edges@, k)]
                &&& route.nodes@[k + 1] == g.internal_nodes@[g.internal_edges@[e].target as int]
                &&& permits(vehicle, g.internal_edges@[e].constraints)
            },
{
    let es = route.edges@;
    assert(route.nodes@[es.len() as int] == g.internal_nodes@[walk_node(g, s, es, es.len() as int)]);
    assert forall|k: int| 0 <= k < es.len() implies {
        let e = #[trigger] route.edges@[k] as int;
        &&& g.leaves(walk_node(g, s, route.edges@, k), e)
        &&& route.nodes@[k] == g.internal_nodes@[walk_node(g, s, route.edges@, k)]
        &&& route.nodes@[k + 1] == g.internal_nodes@[g.internal_edges@[e].target as int]
        &&& permits(vehicle, g.internal_edges@[e].constraints)
    } by {
        assert(route.nodes@[k + 1] == g.internal_nodes@[walk_node(g, s, es, k + 1)]);
    }
}

/// No walk from `s` to `t` open to `vehicle` costs less than `u64::MAX` under `metric`.
pub open spec fn no_route(g: RoutingData, tmc: TMCState, metric: Metric, vehicle: u8, s: int, t: int) -> bool {
    forall|es: Seq<usize>|
        is_walk(g, vehicle, s, es, t) ==> #[trigger] walk_cost(
            g,
            tmc,
            metric,
            vehicle_speed_spec(vehicle),
            es,
        ) >= u64::MAX
}

/// Dijkstra's search from OSM node `source_osm` to OSM node `target_osm`, over the edges open
/// to `constraints`, minimising `metric`. The whole search reads the one traffic state `tmc`.
pub fn run_dijkstra(
    data: &RoutingData,
    source_osm: i64,
    target_osm: i64,
    constraints: u8,
    metric: Metric,
    tmc: &TMCState,
) -> (r: Result<Route, RouteError>)
    requires
        data.wf(),
    ensures
        r matches Err(RouteError::UnknownNode) <==> !(data.osm_nodes@.contains_key(source_osm)
            && data.osm_nodes@.contains_key(target_osm)),
        data.osm_nodes@.contains_key(source_osm) && data.osm_nodes@.contains_key(target_osm) ==> {
            let s = data.osm_nodes@[source_osm].internal_id as int;
            let t = data.osm_nodes@[target_osm].internal_id as int;
            &&& r matches Ok(route) ==> is_best_route(*data, *tmc, metric, constraints, s, t, route)
            &&& source_osm == target_osm ==> (r matches Ok(route) ==> route.edges@.len() == 0)
            &&& r matches Err(RouteError::NoRoute) ==> no_route(*data, *tmc, metric, constraints, s, t)
        },
{
    let s = match data.osm_nodes.get(&source_osm) {
        Some(node) => node.internal_id,
        None => {
            return Err(RouteError::UnknownNode);
        },
    };
    let t = match data.osm_nodes.get(&target_osm) {
        Some(node) => node.internal_id,
        None => {
            return Err(RouteError::UnknownNode);
        },
    };
    let n = data.internal_nodes.len();
    proof {
        reveal(RoutingData::wf);
        assert(data.internal_nodes@.contains(source_osm));
        assert(data.internal_nodes@.contains(target_osm));
        let js = choose|j: int| 0 <= j < n && data.internal_nodes@[j] == source_osm;
        let jt = choose|j: int| 0 <= j < n && data.internal_nodes@[j] == target_osm;
        assert(data.osm_nodes@[data.internal_nodes@[js]].internal_id == js);
        assert(data.osm_nodes@[data.internal_nodes@[jt]].internal_id == jt);
    }
    let vspeed = vehicle_speed(constraints);
    let mut dist: Vec<u64> = vec![u64::MAX; n];
    let mut pred: Vec<usize> = vec![0; n];
    let mut pred_edge: Vec<usize> = vec![0; n];
    let mut done: Vec<bool> = vec![false; n];
    dist.set(s, 0);
    let mut queue = MinQueue::new();
    queue.push((0, s));
    let ghost mut rank: Seq<nat> = Seq::new(n as nat, |i: int| 0nat);
    let ghost mut cur: int = 0;
    let ghost mut ndone: nat = 0;
    proof {
        assert(count_true(done@) == 0) by {
            lemma_count_zero(done@);
        }
        assert forall|x: int|
            0 <= x < n && !done@[x] && #[trigger] dist@[x] < u64::MAX implies queue@.contains(
                (dist@[x], x as usize),
            ) by {
            assert(x == s);
            assert(queue@.contains((0u64, s)));
        }
        assert forall|j: int| 0 <= j < queue@.len() implies (#[trigger] queue@[j]) == (0u64, s) by {
            assert(queue@.contains(queue@[j]));
        }
        assert forall|x: int| 0 <= x < n && #[trigger] dist@[x] < u64::MAX implies x == s by {}
        assert(rank.len() == n);
        assert(!done@[t as int]);
        assert(dist@[s as int] == 0);
    }
    loop
        invariant
            data.wf(),
            queue.wf(),
            n == data.node_count(),
            vspeed == vehicle_speed_spec(constraints),
            data.osm_nodes@.contains_key(source_osm),
            data.osm_nodes@.contains_key(target_osm),
            s == data.osm_nodes@[source_osm].internal_id,
            t == data.osm_nodes@[target_osm].internal_id,
            search_inv(*data, *tmc, metric, constraints, vspeed, s as int, t as int, dist@, pred@, pred_edge@, done@, queue@, rank, cur, ndone),
            relaxed(*data, *tmc, metric, constraints, vspeed, dist@, done@, -1, 0),
        decreases n - ndone, queue@.len(),
    {
        let ghost q_old = queue@;
        let top = queue.pop();
        match top {
            None => {
                proof {
                    assert forall|es: Seq<usize>|
                        is_walk(*data, constraints, s as int, es, t as int) implies #[trigger] walk_cost(
                            *data,
                            *tmc,
                            metric,
                            vspeed,
                            es,
                        ) >= u64::MAX by {
                        assert forall|x: int|
                            0 <= x < dist@.len() && !done@[x] && dist@[x] < u64::MAX implies dist@[x]
                            >= u64::MAX by {
                            assert(q_old.contains((dist@[x], x as usize)));
                        }
                        assert(es.take(0) =~= Seq::<usize>::empty());
                        lemma_lower_bound(*data, *tmc, metric, constraints, vspeed, dist@, done@, s as int, es, t as int, u64::MAX as int, 0);
                    }
                }
                return Err(RouteError::NoRoute);
            },
            Some(entry) => {
                let c = entry.0;
                let u = entry.1;
                proof {
                    assert(q_old.contains(entry)) by {
                        assert(q_old[q_old.len() - 1] == entry);
                    }
                    assert(q_old[q_old.len() - 1].0 >= dist@[u as int]);
                }
                if c > dist[u] || done[u] {
                    proof {
                        assert forall|x: int|
                            0 <= x < n && !done@[x] && #[trigger] dist@[x] < u64::MAX implies queue@.contains(
                                (dist@[x], x as usize),
                            ) by {
                            assert(q_old.contains((dist@[x], x as usize)));
                            let j = choose|j: int| 0 <= j < q_old.len() && q_old[j] == (dist@[x], x as usize);
                            if j == q_old.len() - 1 {
                                assert(false);
                            }
                            assert(queue@[j] == q_old[j]);
                        }
                        assert forall|j: int| 0 <= j < queue@.len() implies (#[trigger] queue@[j]).1 < n
                            && queue@[j].0 >= dist@[queue@[j].1 as int] && queue@[j].0 >= cur && queue@[j].0
                            < u64::MAX by {
                            assert(queue@[j] == q_old[j]);
                        }
                    }
                    continue;
                }
                if u == t {
                    proof {
                        assert forall|es: Seq<usize>|
                            is_walk(*data, constraints, s as int, es, t as int) implies c <= #[trigger] walk_cost(
                                *data,
                                *tmc,
                                metric,
                                vspeed,
                                es,
                            ) by {
                            assert forall|x: int|
                                0 <= x < dist@.len() && !done@[x] && dist@[x] < u64::MAX implies dist@[x] >= c by {
                                assert(q_old.contains((dist@[x], x as usize)));
                                let j = choose|j: int| 0 <= j < q_old.len() && q_old[j] == (dist@[x], x as usize);
                                assert(crate::queue::entry_le(entry, q_old[j]));
                            }
                            assert(es.take(0) =~= Seq::<usize>::empty());
                            lemma_lower_bound(*data, *tmc, metric, constraints, vspeed, dist@, done@, s as int, es, t as int, c as int, 0);
                        }
                        assert forall|x: int| 0 <= x < n && #[trigger] done@[x] implies dist@[x] < u64::MAX by {
                            assert(dist@[x] <= cur);
                        }
                    }
                    let es = trace_back(data, s, t, &pred, &pred_edge, Ghost(*tmc), Ghost(metric), Ghost(constraints), Ghost(vspeed), Ghost(dist@), Ghost(done@), Ghost(rank), Ghost(ndone));
                    let route = describe_route(data, vspeed, s, es, c, Ghost(constraints), Ghost(t as int));
                    return Ok(route);
                }
                proof {
                    lemma_count_true(done@, u as int);
                    assert forall|j: int| 0 <= j < q_old.len() implies c <= (#[trigger] q_old[j]).0 by {
                        assert(crate::queue::entry_le(entry, q_old[j]));
                    }
                }
                let ghost done_before = done@;
                let ghost rank_before = rank;
                let ghost ndone_before = ndone;
                done.set(u, true);
                proof {
                    rank = rank.update(u as int, ndone);
                    ndone = ndone + 1;
                    cur = c as int;
                    assert forall|x: int|
                        0 <= x < n && !done@[x] && #[trigger] dist@[x] < u64::MAX implies queue@.contains(
                            (dist@[x], x as usize),
                        ) by {
                        assert(q_old.contains((dist@[x], x as usize)));
                        let j = choose|j: int| 0 <= j < q_old.len() && q_old[j] == (dist@[x], x as usize);
                        if j == q_old.len() - 1 {
                            assert(x == u);
                        }
                        assert(queue@[j] == q_old[j]);
                    }
                    assert forall|j: int| 0 <= j < queue@.len() implies (#[trigger] queue@[j]).1 < n
                        && queue@[j].0 >= dist@[queue@[j].1 as int] && queue@[j].0 >= cur && queue@[j].0
                        < u64::MAX by {
                        assert(queue@[j] == q_old[j]);
                    }
                    assert forall|x: int| 0 <= x < n && #[trigger] done@[x] implies dist@[x] <= cur && rank[x] < ndone by {
                        if x != u {
                            assert(done_before[x]);
                        }
                    }
                    assert forall|x: int|
                        0 <= x < n && x != s && #[trigger] dist@[x] < u64::MAX implies pred_ok(
                            *data, *tmc, metric, constraints, vspeed, dist@, pred@, pred_edge@, done@, rank, x,
                        ) by {
                        assert(pred_ok(*data, *tmc, metric, constraints, vspeed, dist@, pred@, pred_edge@, done_before, rank_before, x));
                        let p = pred@[x] as int;
                        assert(done_before[p]);
                        assert(p != u);
                        if x == u as int {
                            assert(rank_before[p] < ndone_before);
                        }
                    }
                }
                relax_edges(data, tmc, metric, constraints, vspeed, u, c, &mut dist, &mut pred, &mut pred_edge, &mut queue, Ghost(s as int), Ghost(t as int), Ghost(done@), Ghost(rank), Ghost(ndone));
            },
        }
    }
}

proof fn lemma_count_zero(s: Seq<bool>)
    requires
        forall|i: int| 0 <= i < s.len() ==> !s[i],
    ensures
        count_true(s) == 0,
    decreases s.len(),
{
    if s.len() > 0 {
        lemma_count_zero(s.drop_last());
    }
}

} // verus!
