use std::collections::HashMap;

use vstd::prelude::*;
use vstd::string::StringExecFns;

verus! {

/// Slowdown factors are in per-mille: 1000 is free flow.
pub const NO_SLOWDOWN: u32 = 1000;

/// Identifies an active traffic event.
#[derive(Clone, Copy, Debug, PartialEq, Eq, Structural)]
pub struct TMCKey {
    pub loc: u32,
    pub dir: bool,
    pub event: u32,
}

/// An active traffic event and the edges it slows down.
pub struct TMCEvent {
    pub key: TMCKey,
    pub desc: String,
    pub edges: Vec<usize>,
    /// Per-mille factor applied to the speed of the affected edges, in `1..=1000`.
    pub slowdown: u32,
    /// Monotonic deadline in milliseconds after which the event lapses.
    pub expiry: u64,
}

/// A traffic message as decoded from the broadcast.
#[derive(Clone, Copy, Debug, PartialEq, Eq, Structural)]
pub struct TMCRawEvent {
    pub loc: u32,
    pub dir: bool,
    pub event: u32,
    /// Number of further locations along the chain that the event covers.
    pub ext: u8,
}

/// Static TMC topology: the edges of each location and the next location in each direction.
pub struct TSMMapping {
    pub tsm_loc_to_edge: HashMap<u32, Vec<usize>>,
    pub tsm_next_fwd: HashMap<u32, u32>,
    pub tsm_next_bwd: HashMap<u32, u32>,
}

/// Live traffic state: the active events and the aggregated slowdown per edge.
pub struct TMCState {
    pub current_tmc_events: Vec<TMCEvent>,
    pub current_edge_events: HashMap<usize, u32>,
}

impl TMCState {
    /// The slowdown (per-mille) in force on edge `e`.
    pub open spec fn slowdown_of(&self, e: usize) -> u32 {
        if self.current_edge_events@.contains_key(e) {
            self.current_edge_events@[e]
        } else {
            NO_SLOWDOWN
        }
    }

    /// The slowdown (per-mille) in force on edge `e`; 1000 where no event applies.
    pub fn edge_slowdown(&self, e: usize) -> (r: u32)
        ensures
            r == self.slowdown_of(e),
    {
        match self.current_edge_events.get(&e) {
            Some(s) => *s,
            None => NO_SLOWDOWN,
        }
    }
}

/// Lifetime of an event in milliseconds.
pub const EVENT_TTL: u64 = 10000;
/// Slowdown (per-mille) applied for every event code.
pub const EVENT_SLOWDOWN: u32 = 400;

impl TSMMapping {
    /// The successor map in direction `dir`.
    pub open spec fn next_map(&self, dir: bool) -> Map<u32, u32> {
        if dir {
            self.tsm_next_fwd@
        } else {
            self.tsm_next_bwd@
        }
    }

    /// An empty topology.
    pub fn new() -> (r: TSMMapping)
        ensures
            r.tsm_loc_to_edge@.len() == 0,
            r.tsm_next_fwd@.len() == 0,
            r.tsm_next_bwd@.len() == 0,
    {
        TSMMapping { tsm_loc_to_edge: HashMap::new(), tsm_next_fwd: HashMap::new(), tsm_next_bwd: HashMap::new() }
    }
}

/// `loc` followed by up to `hops` successors along `next`.
pub open spec fn tmc_chain(next: Map<u32, u32>, loc: u32, hops: nat) -> Seq<u32>
    decreases hops,
{
    seq![loc] + chain_rest(next, loc, hops)
}

pub open spec fn chain_rest(next: Map<u32, u32>, loc: u32, hops: nat) -> Seq<u32>
    decreases hops, 0nat,
{
    if hops > 0 && next.contains_key(loc) {
        tmc_chain(next, next[loc], (hops - 1) as nat)
    } else {
        Seq::empty()
    }
}

/// The locations an event covers: its own and up to `ext` further ones in its direction.
pub fn build_tmc_range_set(raw_event: &TMCRawEvent, mapping: &TSMMapping) -> (r: Vec<u32>)
    ensures
        r@ == tmc_chain(mapping.next_map(raw_event.dir), raw_event.loc, raw_event.ext as nat),
{
    let ghost next = mapping.next_map(raw_event.dir);
    let mut result: Vec<u32> = Vec::new();
    result.push(raw_event.loc);
    let mut curr_id = raw_event.loc;
    let mut curr_dist = raw_event.ext;
    assert(result@ == seq![raw_event.loc]);
    loop
        invariant_except_break
            next == mapping.next_map(raw_event.dir),
            result@ + chain_rest(next, curr_id, curr_dist as nat) == tmc_chain(next, raw_event.loc, raw_event.ext as nat),
        ensures
            result@ == tmc_chain(next, raw_event.loc, raw_event.ext as nat),
        decreases curr_dist,
    {
        if curr_dist == 0 {
            assert(result@ + chain_rest(next, curr_id, curr_dist as nat) =~= result@);
            break;
        }
        let step = if raw_event.dir {
            mapping.tsm_next_fwd.get(&curr_id)
        } else {
            mapping.tsm_next_bwd.get(&curr_id)
        };
        match step {
            Some(next_id) => {
                let n = *next_id;
                let ghost before = result@;
                result.push(n);
                proof {
                    assert(chain_rest(next, curr_id, curr_dist as nat) == tmc_chain(next, n, (curr_dist - 1) as nat));
                    assert(result@ + chain_rest(next, n, (curr_dist - 1) as nat) =~= before + tmc_chain(next, n, (curr_dist - 1) as nat));
                }
                curr_id = n;
                curr_dist -= 1;
            },
            None => {
                assert(!next.contains_key(curr_id));
                assert(result@ + chain_rest(next, curr_id, curr_dist as nat) =~= result@);
                break;
            },
        }
    }
    result
}

/// The edges of the locations `locs`, in order.
pub open spec fn edges_of(m: Map<u32, Vec<usize>>, locs: Seq<u32>) -> Seq<usize>
    decreases locs.len(),
{
    if locs.len() == 0 {
        Seq::empty()
    } else {
        edges_of(m, locs.drop_last()) + if m.contains_key(locs.last()) {
            m[locs.last()]@
        } else {
            Seq::empty()
        }
    }
}

fn collect_edges(mapping: &TSMMapping, locs: &Vec<u32>) -> (r: Vec<usize>)
    ensures
        r@ == edges_of(mapping.tsm_loc_to_edge@, locs@),
{
    let mut out: Vec<usize> = Vec::new();
    let mut i: usize = 0;
    while i < locs.len()
        invariant
            0 <= i <= locs@.len(),
            out@ == edges_of(mapping.tsm_loc_to_edge@, locs@.take(i as int)),
        decreases locs@.len() - i,
    {
        proof {
            assert(locs@.take(i + 1).drop_last() =~= locs@.take(i as int));
            assert(locs@.take(i + 1).last() == locs@[i as int]);
        }
        if let Some(edges) = mapping.tsm_loc_to_edge.get(&locs[i]) {
            let ghost start = out@;
            let mut k: usize = 0;
            while k < edges.len()
                invariant
                    0 <= k <= edges@.len(),
                    out@ == start + edges@.take(k as int),
                decreases edges@.len() - k,
            {
                out.push(edges[k]);
                proof {
                    assert(edges@.take(k + 1) =~= edges@.take(k as int).push(edges@[k as int]));
                }
                k += 1;
            }
            assert(edges@.take(k as int) =~= edges@);
        } else {
            assert(out@ =~= out@ + Seq::<usize>::empty());
        }
        i += 1;
    }
    assert(locs@.take(i as int) =~= locs@);
    out
}

/// The smaller of two optional slowdowns.
pub open spec fn combine(a: Option<u32>, b: Option<u32>) -> Option<u32> {
    match (a, b) {
        (Some(x), Some(y)) => Some(if x <= y { x } else { y }),
        (Some(x), None) => Some(x),
        (None, y) => y,
    }
}

/// The least slowdown that the events `events` put on edge `e`, if any.
pub open spec fn min_slowdown(events: Seq<TMCEvent>, e: usize) -> Option<u32>
    decreases events.len(),
{
    if events.len() == 0 {
        None
    } else {
        combine(
            min_slowdown(events.drop_last(), e),
            if events.last().edges@.contains(e) {
                Some(events.last().slowdown)
            } else {
                None
            },
        )
    }
}

pub open spec fn opt_get(m: Map<usize, u32>, e: usize) -> Option<u32> {
    if m.contains_key(e) {
        Some(m[e])
    } else {
        None
    }
}

/// `m` holds, for each edge, the least slowdown that `events` put on it.
pub open spec fn aggregates(m: Map<usize, u32>, events: Seq<TMCEvent>) -> bool {
    forall|e: usize| #[trigger] opt_get(m, e) == min_slowdown(events, e)
}

impl TMCState {
    pub open spec fn wf(&self) -> bool {
        aggregates(self.current_edge_events@, self.current_tmc_events@)
    }

    /// A state with no events.
    pub fn new() -> (r: TMCState)
        ensures
            r.wf(),
            r.current_tmc_events@.len() == 0,
    {
        let r = TMCState { current_tmc_events: Vec::new(), current_edge_events: HashMap::new() };
        assert forall|e: usize| #[trigger] opt_get(r.current_edge_events@, e) == min_slowdown(r.current_tmc_events@, e) by {}
        r
    }
}

/// Lowers the slowdown of each edge of `ev` to `ev.slowdown`.
fn add_slowdowns(map: &mut HashMap<usize, u32>, ev: &TMCEvent, Ghost(events): Ghost<Seq<TMCEvent>>)
    requires
        aggregates(old(map)@, events),
    ensures
        aggregates(final(map)@, events.push(*ev)),
{
    let sl = ev.slowdown;
    let mut k: usize = 0;
    while k < ev.edges.len()
        invariant
            0 <= k <= ev.edges@.len(),
            sl == ev.slowdown,
            forall|e: usize|
                #[trigger] opt_get(map@, e) == combine(
                    min_slowdown(events, e),
                    if ev.edges@.take(k as int).contains(e) {
                        Some(sl)
                    } else {
                        None
                    },
                ),
        decreases ev.edges@.len() - k,
    {
        let e = ev.edges[k];
        let ghost m0 = map@;
        let value = match map.get(&e) {
            Some(x) => if *x <= sl {
                *x
            } else {
                sl
            },
            None => sl,
        };
        map.insert(e, value);
        proof {
            assert(ev.edges@.take(k + 1) =~= ev.edges@.take(k as int).push(e));
            assert forall|e2: usize| #[trigger] opt_get(map@, e2) == combine(
                min_slowdown(events, e2),
                if ev.edges@.take(k + 1).contains(e2) {
                    Some(sl)
                } else {
                    None
                },
            ) by {
                assert(opt_get(m0, e2) == combine(
                    min_slowdown(events, e2),
                    if ev.edges@.take(k as int).contains(e2) {
                        Some(sl)
                    } else {
                        None
                    },
                ));
                if e2 != e {
                    assert(ev.edges@.take(k + 1).contains(e2) == ev.edges@.take(k as int).contains(e2)) by {
                        let t1 = ev.edges@.take(k + 1);
                        let t0 = ev.edges@.take(k as int);
                        if t1.contains(e2) {
                            let j = choose|j: int| 0 <= j < t1.len() && #[trigger] t1[j] == e2;
                            assert(t0[j] == e2);
                        }
                        if t0.contains(e2) {
                            let j = choose|j: int| 0 <= j < t0.len() && #[trigger] t0[j] == e2;
                            assert(t1[j] == e2);
                        }
                    }
                } else {
                    assert(ev.edges@.take(k + 1)[k as int] == e);
                }
            }
        }
        k += 1;
    }
    proof {
        assert(ev.edges@.take(k as int) =~= ev.edges@);
        assert(events.push(*ev).drop_last() =~= events);
        assert forall|e: usize| #[trigger] opt_get(map@, e) == min_slowdown(events.push(*ev), e) by {
            assert(events.push(*ev).last() == *ev);
        }
    }
}

/// Recomputes the per-edge slowdowns from the active events.
fn rebuild_slowdowns(state: &mut TMCState)
    ensures
        final(state).wf(),
        final(state).current_tmc_events@ == old(state).current_tmc_events@,
{
    let mut map: HashMap<usize, u32> = HashMap::new();
    let mut k: usize = 0;
    proof {
        assert(state.current_tmc_events@.take(0) =~= Seq::<TMCEvent>::empty());
        assert forall|e: usize| #[trigger] opt_get(map@, e) == min_slowdown(state.current_tmc_events@.take(0), e) by {}
    }
    while k < state.current_tmc_events.len()
        invariant
            0 <= k <= state.current_tmc_events@.len(),
            state.current_tmc_events@ == old(state).current_tmc_events@,
            aggregates(map@, state.current_tmc_events@.take(k as int)),
        decreases state.current_tmc_events@.len() - k,
    {
        add_slowdowns(&mut map, &state.current_tmc_events[k], Ghost(state.current_tmc_events@.take(k as int)));
        proof {
            assert(state.current_tmc_events@.take(k as int).push(state.current_tmc_events@[k as int])
                =~= state.current_tmc_events@.take(k + 1));
        }
        k += 1;
    }
    proof {
        assert(state.current_tmc_events@.take(k as int) =~= state.current_tmc_events@);
    }
    state.current_edge_events = map;
}

pub open spec fn digit_char(d: nat) -> char {
    if d == 0 {
        '0'
    } else if d == 1 {
        '1'
    } else if d == 2 {
        '2'
    } else if d == 3 {
        '3'
    } else if d == 4 {
        '4'
    } else if d == 5 {
        '5'
    } else if d == 6 {
        '6'
    } else if d == 7 {
        '7'
    } else if d == 8 {
        '8'
    } else {
        '9'
    }
}

/// Decimal digits of `n`, most significant first, without leading zeros.
pub open spec fn decimal_chars(n: nat) -> Seq<char>
    decreases n,
{
    if n < 10 {
        seq![digit_char(n)]
    } else {
        decimal_chars(n / 10).push(digit_char(n % 10))
    }
}

/// Relies on `ToString` through `u32`'s `Display`: the decimal digits of `n`, with no sign,
/// padding or leading zeros.
#[verifier::external_body]
fn decimal_text(n: u32) -> (r: String)
    ensures
        r@ == decimal_chars(n as nat),
{
    n.to_string()
}

/// Slowdown (per-mille) that the event code `event` causes.
pub open spec fn slowdown_for(event: u32) -> u32 {
    EVENT_SLOWDOWN
}

/// Slowdown (per-mille) that the event code `event` causes; every code currently slows
/// traffic to 40 %.
pub fn lookup_slowdown(event: &u32) -> (r: u32)
    ensures
        r == slowdown_for(*event),
        1 <= r <= NO_SLOWDOWN,
{
    EVENT_SLOWDOWN
}

/// Description of the event code `event`: `event <code>`.
pub fn lookup_desc(event: &u32) -> (r: String)
    ensures
        r@ == "event "@ + decimal_chars(*event as nat),
{
    let mut desc = String::from_str("event ");
    let digits = decimal_text(*event);
    desc.append(digits.as_str());
    desc
}

/// Index of the first event of `events` with key `key`.
pub open spec fn first_with_key(events: Seq<TMCEvent>, key: TMCKey, i: int) -> bool {
    &&& 0 <= i < events.len()
    &&& events[i].key == key
    &&& forall|j: int| 0 <= j < i ==> (#[trigger] events[j]).key != key
}

fn find_event(events: &Vec<TMCEvent>, key: TMCKey) -> (r: Option<usize>)
    ensures
        r matches Some(i) ==> first_with_key(events@, key, i as int),
        r is None ==> forall|j: int| 0 <= j < events@.len() ==> (#[trigger] events@[j]).key != key,
{
    let mut i: usize = 0;
    while i < events.len()
        invariant
            0 <= i <= events@.len(),
            forall|j: int| 0 <= j < i ==> (#[trigger] events@[j]).key != key,
        decreases events@.len() - i,
    {
        if events[i].key == key {
            return Some(i);
        }
        i += 1;
    }
    None
}

/// `ev` is the event made from `raw` at time `now`, covering `edges`.
pub open spec fn made_from(ev: TMCEvent, raw: TMCRawEvent, edges: Seq<usize>, now: u64) -> bool {
    &&& ev.key == (TMCKey { loc: raw.loc, dir: raw.dir, event: raw.event })
    &&& ev.desc@ == "event "@ + decimal_chars(raw.event as nat)
    &&& ev.edges@ == edges
    &&& ev.slowdown == slowdown_for(raw.event)
    &&& ev.expiry == if now + EVENT_TTL > u64::MAX { u64::MAX as int } else { now + EVENT_TTL }
}

/// Some event of `events` has key `key`.
pub open spec fn has_key(events: Seq<TMCEvent>, key: TMCKey) -> bool {
    exists|i: int| 0 <= i < events.len() && (#[trigger] events[i]).key == key
}

/// The edges that the message `raw` covers.
pub open spec fn affected_edges(mapping: TSMMapping, raw: TMCRawEvent) -> Seq<usize> {
    edges_of(mapping.tsm_loc_to_edge@, tmc_chain(mapping.next_map(raw.dir), raw.loc, raw.ext as nat))
}

/// The key of the message `raw`.
pub open spec fn key_of(raw: TMCRawEvent) -> TMCKey {
    TMCKey { loc: raw.loc, dir: raw.dir, event: raw.event }
}

/// `new_events` is `old_events` after the message `raw`, covering `edges`, arrived at `now`:
/// unchanged when it covers no edge, else its event replaces the first one with its key or is
/// appended.
pub open spec fn applied(old_events: Seq<TMCEvent>, new_events: Seq<TMCEvent>, raw: TMCRawEvent, edges: Seq<usize>, now: u64) -> bool {
            let key = key_of(raw);
            if edges.len() == 0 {
                new_events == old_events
            } else if exists|i: int| first_with_key(old_events, key, i) {
                exists|i: int|
                    first_with_key(old_events, key, i) && new_events.len() == old_events.len()
                        && made_from(new_events[i], raw, edges, now) && forall|j: int|
                        0 <= j < old_events.len() && j != i ==> new_events[j] == old_events[j]
            } else {
                &&& new_events.len() == old_events.len() + 1
                &&& new_events.drop_last() == old_events
                &&& made_from(new_events.last(), raw, edges, now)
            }
}

/// Applying a message keeps every active key, and adds its own when it covers an edge.
pub proof fn lemma_handle_event_keys(old_events: Seq<TMCEvent>, new_events: Seq<TMCEvent>, raw: TMCRawEvent, edges: Seq<usize>, now: u64)
    requires
        applied(old_events, new_events, raw, edges, now),
    ensures
        forall|k: TMCKey| has_key(old_events, k) ==> #[trigger] has_key(new_events, k),
        edges.len() > 0 ==> has_key(new_events, key_of(raw)),
{
    let key = key_of(raw);
    if edges.len() == 0 {
    } else if exists|i: int| first_with_key(old_events, key, i) {
        let i = choose|i: int|
            first_with_key(old_events, key, i) && new_events.len() == old_events.len()
                && made_from(new_events[i], raw, edges, now) && forall|j: int|
                0 <= j < old_events.len() && j != i ==> new_events[j] == old_events[j];
        assert(new_events[i].key == key);
        assert forall|k: TMCKey| has_key(old_events, k) implies #[trigger] has_key(new_events, k) by {
            let j = choose|j: int| 0 <= j < old_events.len() && (#[trigger] old_events[j]).key == k;
            if j != i {
                assert(new_events[j] == old_events[j]);
            }
        }
    } else {
        assert(new_events[new_events.len() - 1].key == key);
        assert forall|k: TMCKey| has_key(old_events, k) implies #[trigger] has_key(new_events, k) by {
            let j = choose|j: int| 0 <= j < old_events.len() && (#[trigger] old_events[j]).key == k;
            assert(new_events[j] == new_events.drop_last()[j]);
        }
    }
}

/// Applies a traffic message: the edges of the locations it covers get its slowdown. A message
/// that covers no edge is dropped; one whose key is active replaces that event.
pub fn handle_event(raw_event: TMCRawEvent, state: &mut TMCState, mapping: &TSMMapping, now: u64)
    requires
        old(state).wf(),
    ensures
        final(state).wf(),
        applied(
            old(state).current_tmc_events@,
            final(state).current_tmc_events@,
            raw_event,
            affected_edges(*mapping, raw_event),
            now,
        ),
{
    let tmc_ids = build_tmc_range_set(&raw_event, mapping);
    let edges = collect_edges(mapping, &tmc_ids);
    if edges.len() == 0 {
        return;
    }
    let slowdown = lookup_slowdown(&raw_event.event);
    let desc = lookup_desc(&raw_event.event);
    let key = TMCKey { dir: raw_event.dir, loc: raw_event.loc, event: raw_event.event };
    let value = TMCEvent { key, desc, edges, slowdown, expiry: now.saturating_add(EVENT_TTL) };
    let ghost events0 = state.current_tmc_events@;
    match find_event(&state.current_tmc_events, key) {
        Some(i) => {
            state.current_tmc_events.set(i, value);
            rebuild_slowdowns(state);
            proof {
                assert(first_with_key(events0, key, i as int));
            }
        },
        None => {
            add_slowdowns(&mut state.current_edge_events, &value, Ghost(events0));
            state.current_tmc_events.push(value);
            proof {
                assert(state.current_tmc_events@.drop_last() =~= events0);
                assert(!exists|i: int| first_with_key(events0, key, i));
            }
        },
    }
}

/// The events of `events` still active at time `now`, in order.
pub open spec fn live_events(events: Seq<TMCEvent>, now: u64) -> Seq<TMCEvent>
    decreases events.len(),
{
    if events.len() == 0 {
        Seq::empty()
    } else if events.last().expiry > now {
        live_events(events.drop_last(), now).push(events.last())
    } else {
        live_events(events.drop_last(), now)
    }
}

/// Drops the events whose deadline is not after `now` and recomputes the per-edge slowdowns.
pub fn expire(state: &mut TMCState, now: u64)
    ensures
        final(state).wf(),
        final(state).current_tmc_events@ == live_events(old(state).current_tmc_events@, now),
{
    let ghost orig = state.current_tmc_events@;
    let mut i: usize = 0;
    let ghost mut j: int = 0;
    proof {
        assert(orig.take(0) =~= Seq::<TMCEvent>::empty());
        assert(state.current_tmc_events@ =~= live_events(orig.take(0), now) + orig.subrange(0, orig.len() as int));
    }
    while i < state.current_tmc_events.len()
        invariant
            0 <= j <= orig.len(),
            i == live_events(orig.take(j), now).len(),
            state.current_tmc_events@ == live_events(orig.take(j), now) + orig.subrange(j, orig.len() as int),
        decreases orig.len() - j,
    {
        let ghost before = state.current_tmc_events@;
        proof {
            assert(j < orig.len());
            assert(orig.take(j + 1).drop_last() =~= orig.take(j));
            assert(orig.take(j + 1).last() == orig[j]);
            assert(before[i as int] == orig[j]);
        }
        if state.current_tmc_events[i].expiry <= now {
            state.current_tmc_events.remove(i);
            proof {
                assert(state.current_tmc_events@ =~= live_events(orig.take(j + 1), now) + orig.subrange(j + 1, orig.len() as int));
            }
        } else {
            proof {
                assert(state.current_tmc_events@ =~= live_events(orig.take(j + 1), now) + orig.subrange(j + 1, orig.len() as int));
            }
            i += 1;
        }
        proof {
            j = j + 1;
        }
    }
    proof {
        assert(orig.take(j) =~= orig);
        assert(state.current_tmc_events@ =~= live_events(orig, now));
    }
    rebuild_slowdowns(state);
}

/// The first sample message.
pub open spec fn sample_event_1() -> TMCRawEvent {
    TMCRawEvent { loc: 11602, dir: true, event: 701, ext: 2 }
}

/// The second sample message.
pub open spec fn sample_event_2() -> TMCRawEvent {
    TMCRawEvent { loc: 11593, dir: true, event: 702, ext: 2 }
}

/// `new_events` is `old_events` after the first sample message and then the second, both
/// at `now`.
pub open spec fn samples_applied(old_events: Seq<TMCEvent>, new_events: Seq<TMCEvent>, mapping: TSMMapping, now: u64) -> bool {
    exists|mid: Seq<TMCEvent>|
        #[trigger] applied(old_events, mid, sample_event_1(), affected_edges(mapping, sample_event_1()), now)
            && applied(mid, new_events, sample_event_2(), affected_edges(mapping, sample_event_2()), now)
}

/// Applies two fixed sample messages.
pub fn insert_dummy_events(state: &mut TMCState, mapping: &TSMMapping, now: u64)
    requires
        old(state).wf(),
    ensures
        final(state).wf(),
        forall|k: TMCKey| has_key(old(state).current_tmc_events@, k) ==> #[trigger] has_key(final(state).current_tmc_events@, k),
        affected_edges(*mapping, sample_event_1()).len() > 0 ==> has_key(final(state).current_tmc_events@, key_of(sample_event_1())),
        affected_edges(*mapping, sample_event_2()).len() > 0 ==> has_key(final(state).current_tmc_events@, key_of(sample_event_2())),
        samples_applied(old(state).current_tmc_events@, final(state).current_tmc_events@, *mapping, now),
{
    let raw_event = TMCRawEvent { loc: 11602, dir: true, event: 701, ext: 2 };
    let raw_event2 = TMCRawEvent { loc: 11593, dir: true, event: 702, ext: 2 };
    let ghost e0 = state.current_tmc_events@;
    handle_event(raw_event, state, mapping, now);
    let ghost e1 = state.current_tmc_events@;
    proof {
        lemma_handle_event_keys(e0, e1, raw_event, affected_edges(*mapping, raw_event), now);
    }
    handle_event(raw_event2, state, mapping, now);
    proof {
        lemma_handle_event_keys(e1, state.current_tmc_events@, raw_event2, affected_edges(*mapping, raw_event2), now);
        assert(applied(e0, e1, sample_event_1(), affected_edges(*mapping, sample_event_1()), now));
    }
}

/// Feeds the traffic state; currently with the fixed sample messages.
pub fn run_tmc_thread(state: &mut TMCState, mapping: &TSMMapping, now: u64)
    requires
        old(state).wf(),
    ensures
        final(state).wf(),
        forall|k: TMCKey| has_key(old(state).current_tmc_events@, k) ==> #[trigger] has_key(final(state).current_tmc_events@, k),
        affected_edges(*mapping, sample_event_1()).len() > 0 ==> has_key(final(state).current_tmc_events@, key_of(sample_event_1())),
        affected_edges(*mapping, sample_event_2()).len() > 0 ==> has_key(final(state).current_tmc_events@, key_of(sample_event_2())),
        samples_applied(old(state).current_tmc_events@, final(state).current_tmc_events@, *mapping, now),
{
    insert_dummy_events(state, mapping, now);
}

} // verus!
