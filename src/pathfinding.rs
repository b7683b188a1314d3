use std::collections::HashMap;
use vstd::prelude::*;
use crate::graph::{AdjacencyMap, EdgeWeight, NodeId};
use crate::settings::AppSettings;

verus! {

broadcast use vstd::std_specs::hash::group_hash_axioms;

/// Weakest signal strength on the scale, in dBm.
pub const MIN_RSSI: i32 = -120;

/// Strongest signal strength on the scale, in dBm.
pub const MAX_RSSI: i32 = 0;

/// Lowest usable signal-to-noise ratio, in hundredths of a dB.
pub const MIN_SNR: i32 = -2000;

/// Highest signal-to-noise ratio on the scale, in hundredths of a dB.
pub const MAX_SNR: i32 = 3000;

/// The span of weights that a scaled link weight maps onto hops.
pub const MAX_HOPS: i64 = 10;

/// `MAX_WEIGHT - MIN_WEIGHT`: the weight of the worst usable link on the
/// scale less that of the best, in hundredths of a dB. A weight `w` stands
/// for `w / WEIGHT_RANGE` hops.
pub const WEIGHT_RANGE: i64 = 17000;

/// Bound on the magnitude of a path's total distance that the route cost
/// can be computed for.
pub const MAX_DISTANCE_MAGNITUDE: i128 = 0x8000_0000_0000_0000_0000_0000;

/// Bound on the hop count that the route cost can be computed for.
pub const MAX_HOP_COUNT: u64 = 0x1_0000_0000;

/// Raw weight of a link observed with signal strength `rssi` (dBm) and
/// signal-to-noise ratio `snr` (hundredths of a dB), in hundredths of a dB:
/// `-rssi - snr`, or infinite when `snr` is below `MIN_SNR`.
pub open spec fn edge_weight(rssi: i32, snr: i32) -> Option<int> {
    if snr < MIN_SNR {
        None
    } else {
        Some(-100 * rssi - snr)
    }
}

/// The weight of the best link on the scale.
pub open spec fn min_weight() -> int {
    edge_weight(MAX_RSSI, MAX_SNR).unwrap()
}

/// The weight of the worst usable link on the scale.
pub open spec fn max_weight() -> int {
    edge_weight(MIN_RSSI, MIN_SNR).unwrap()
}

/// The range of weights on the scale is `WEIGHT_RANGE`, and it is positive.
pub proof fn lemma_weight_range()
    ensures
        max_weight() - min_weight() == WEIGHT_RANGE,
        WEIGHT_RANGE > 0,
{
}

fn compute_edge_weight(rssi: i32, snr: i32) -> (r: Option<i64>)
    ensures
        r matches Some(w) ==> edge_weight(rssi, snr) == Some(w as int),
        r is None <==> edge_weight(rssi, snr) is None,
{
    if snr < MIN_SNR {
        None
    } else {
        let r = rssi as i64;
        let s = snr as i64;
        assert(-0x8000_0000 <= r <= 0x7fff_ffff);
        assert(-0x8000_0000_00 <= r * 100 <= 0x7fff_ffff_00);
        Some(0 - r * 100 - s)
    }
}

/// Scales a raw weight so that a weight range of `WEIGHT_RANGE` spans
/// `MAX_HOPS` hops. The result is in units of `1 / WEIGHT_RANGE` hop.
fn proportionalise_weight(weight: Option<i64>) -> (r: EdgeWeight)
    requires
        weight matches Some(w) ==> -0x1_0000_0000_0000 <= w <= 0x1_0000_0000_0000,
    ensures
        r == (match weight {
            Some(w) => Some((w * MAX_HOPS) as i64),
            None => None,
        }),
{
    match weight {
        Some(w) => Some(w * MAX_HOPS),
        None => None,
    }
}

/// The link weight used for routing, for a link observed with signal
/// strength `rssi` (dBm) and signal-to-noise ratio `snr` (hundredths of a dB).
pub open spec fn scaled_edge_weight(rssi: i32, snr: i32) -> EdgeWeight {
    match edge_weight(rssi, snr) {
        Some(w) => Some((w * MAX_HOPS) as i64),
        None => None,
    }
}

/// Routing weight of a link: `(-rssi - snr) * MAX_HOPS` in units of
/// `1 / WEIGHT_RANGE` hop, or `None` (infinite) when `snr < MIN_SNR`.
pub fn compute_edge_weight_proportionalised(rssi: i32, snr: i32) -> (r: EdgeWeight)
    ensures
        r == scaled_edge_weight(rssi, snr),
        r matches Some(w) ==> w == (-100 * rssi - snr) * MAX_HOPS,
        r is None <==> snr < MIN_SNR,
{
    proportionalise_weight(compute_edge_weight(rssi, snr))
}

/// Composite cost of a path of total distance `distance` and `hops` hops,
/// in units of `1 / (1000 * WEIGHT_RANGE)` hop:
/// `distance * route_cost_weight + hops * route_hops_weight`, with both
/// weights in thousandths.
pub open spec fn route_cost(settings: AppSettings, distance: int, hops: int) -> int {
    distance * settings.route_cost_weight + hops * WEIGHT_RANGE * settings.route_hops_weight
}

fn get_route_cost(settings: &AppSettings, distance: i128, hop_count: u64) -> (r: i128)
    requires
        -MAX_DISTANCE_MAGNITUDE <= distance <= MAX_DISTANCE_MAGNITUDE,
        hop_count <= MAX_HOP_COUNT,
    ensures
        r == route_cost(*settings, distance as int, hop_count as int),
{
    let cw = settings.route_cost_weight as i128;
    let hw = settings.route_hops_weight as i128;
    assert(-0x8000_0000_0000_0000_0000_0000 * 0xffff_ffff <= distance * cw
        <= 0x8000_0000_0000_0000_0000_0000 * 0xffff_ffff) by (nonlinear_arith)
        requires
            -0x8000_0000_0000_0000_0000_0000 <= distance <= 0x8000_0000_0000_0000_0000_0000,
            0 <= cw <= 0xffff_ffff,
    ;
    assert(0 <= (hop_count as i128) * 17000 * hw <= 0x1_0000_0000 * 17000 * 0xffff_ffff)
        by (nonlinear_arith)
        requires
            0 <= hop_count <= 0x1_0000_0000,
            0 <= hw <= 0xffff_ffff,
    ;
    distance * cw + (hop_count as i128) * 17000 * hw
}

/// A row of a shortest-path table, over mathematical integers. A missing
/// distance or cost is infinite.
pub struct RouteRecord {
    pub distance: Option<int>,
    pub cost: Option<int>,
    pub previous: Option<NodeId>,
    pub hops: nat,
}

/// A row of a shortest-path table: the best path found to a node, by its
/// total distance, its composite cost, the node it is reached from and its
/// number of hops. `None` as a distance or cost is infinite.
#[derive(Clone, Copy, Debug, PartialEq, Eq, Structural)]
pub struct DijkstraEntry {
    pub total_distance: Option<i128>,
    pub total_cost: Option<i128>,
    pub previous: Option<NodeId>,
    pub hop_count: u64,
}

/// A possibly infinite value as a mathematical integer.
pub open spec fn opt_int(v: Option<i128>) -> Option<int> {
    match v {
        Some(x) => Some(x as int),
        None => None,
    }
}

impl View for DijkstraEntry {
    type V = RouteRecord;

    open spec fn view(&self) -> RouteRecord {
        RouteRecord {
            distance: opt_int(self.total_distance),
            cost: opt_int(self.total_cost),
            previous: self.previous,
            hops: self.hop_count as nat,
        }
    }
}

/// The record of a node not reached yet.
pub open spec fn not_reached() -> RouteRecord {
    RouteRecord { distance: None, cost: None, previous: None, hops: 0 }
}

/// The record of the source of a search.
pub open spec fn source_record() -> RouteRecord {
    RouteRecord { distance: Some(0), cost: Some(0), previous: None, hops: 0 }
}

/// The nodes a search from `start` may use: every receiver of the map that
/// is not a gateway, and `start` itself when it is a receiver.
pub open spec fn working_set(
    adj: Map<NodeId, Map<NodeId, EdgeWeight>>,
    gateways: Set<NodeId>,
    start: NodeId,
) -> Set<NodeId> {
    adj.dom().filter(|n: NodeId| n == start || !gateways.contains(n))
}

/// Before the search: the source at distance zero, every other node unreached.
pub open spec fn initial_records(nodes: Set<NodeId>, start: NodeId) -> Map<NodeId, RouteRecord> {
    Map::new(
        |n: NodeId| nodes.contains(n),
        |n: NodeId|
            if n == start {
                source_record()
            } else {
                not_reached()
            },
    )
}

/// Node `a` with cost `ca` is taken no later than node `b` with cost `cb`:
/// lower cost first, an infinite cost last, equal costs by lower id.
pub open spec fn taken_before(ca: Option<int>, a: NodeId, cb: Option<int>, b: NodeId) -> bool {
    match (ca, cb) {
        (Some(x), Some(y)) => x < y || (x == y && a <= b),
        (Some(_), None) => true,
        (None, Some(_)) => false,
        (None, None) => a <= b,
    }
}

/// `u` is unvisited and taken no later than any other unvisited node.
pub open spec fn is_next_taken(
    records: Map<NodeId, RouteRecord>,
    unvisited: Set<NodeId>,
    u: NodeId,
) -> bool {
    &&& unvisited.contains(u)
    &&& forall|v: NodeId|
        #[trigger] unvisited.contains(v) ==> taken_before(records[u].cost, u, records[v].cost, v)
}

/// The unvisited node that the search takes next.
pub open spec fn next_taken(records: Map<NodeId, RouteRecord>, unvisited: Set<NodeId>) -> NodeId {
    choose|u: NodeId| is_next_taken(records, unvisited, u)
}

/// A path of cost `cost` is better than the current best, of cost `current`.
pub open spec fn improves(cost: int, current: Option<int>) -> bool {
    match current {
        Some(c) => cost < c,
        None => true,
    }
}

/// The record of `n` once node `u` has been taken and the links heard by
/// `u` relaxed.
pub open spec fn relaxed(
    records: Map<NodeId, RouteRecord>,
    unvisited: Set<NodeId>,
    adj: Map<NodeId, Map<NodeId, EdgeWeight>>,
    settings: AppSettings,
    u: NodeId,
    n: NodeId,
) -> RouteRecord {
    let ru = records[u];
    if unvisited.contains(n) && adj[u].contains_key(n) && adj[u][n] is Some
        && ru.distance is Some && improves(
        route_cost(settings, ru.distance.unwrap() + adj[u][n].unwrap(), (ru.hops + 1) as int),
        records[n].cost,
    ) {
        RouteRecord {
            distance: Some(ru.distance.unwrap() + adj[u][n].unwrap()),
            cost: Some(route_cost(settings, ru.distance.unwrap() + adj[u][n].unwrap(), (ru.hops + 1) as int)),
            previous: Some(u),
            hops: ru.hops + 1,
        }
    } else {
        records[n]
    }
}

/// All records once the links heard by `u` have been relaxed.
pub open spec fn relax_from(
    records: Map<NodeId, RouteRecord>,
    unvisited: Set<NodeId>,
    adj: Map<NodeId, Map<NodeId, EdgeWeight>>,
    settings: AppSettings,
    u: NodeId,
) -> Map<NodeId, RouteRecord> {
    Map::new(
        |n: NodeId| records.contains_key(n),
        |n: NodeId| relaxed(records, unvisited, adj, settings, u, n),
    )
}

/// The records at the end of the search, from the given records and set of
/// unvisited nodes: take the next node, relax its links, repeat.
pub open spec fn run_search(
    records: Map<NodeId, RouteRecord>,
    unvisited: Set<NodeId>,
    adj: Map<NodeId, Map<NodeId, EdgeWeight>>,
    settings: AppSettings,
) -> Map<NodeId, RouteRecord>
    decreases unvisited.len(),
{
    if unvisited.finite() && unvisited.len() > 0 {
        let u = next_taken(records, unvisited);
        if unvisited.contains(u) {
            let rest = unvisited.remove(u);
            run_search(relax_from(records, rest, adj, settings, u), rest, adj, settings)
        } else {
            records
        }
    } else {
        records
    }
}

/// The shortest-path table of a search from `start` over the working set.
pub open spec fn dijkstra_table(
    adj: Map<NodeId, Map<NodeId, EdgeWeight>>,
    gateways: Set<NodeId>,
    start: NodeId,
    settings: AppSettings,
) -> Map<NodeId, RouteRecord> {
    let nodes = working_set(adj, gateways, start);
    run_search(initial_records(nodes, start), nodes, adj, settings)
}


/// The records held row by row: `recs[i]` is the record of node `ids[i]`.
pub open spec fn rows_table(ids: Seq<NodeId>, recs: Seq<DijkstraEntry>) -> Map<NodeId, RouteRecord> {
    Map::new(|n: NodeId| ids.contains(n), |n: NodeId| recs[ids.index_of(n)]@)
}

/// The nodes whose row is not marked visited.
pub open spec fn rows_unvisited(ids: Seq<NodeId>, visited: Seq<bool>) -> Set<NodeId> {
    Set::new(|n: NodeId| ids.contains(n) && !visited[ids.index_of(n)])
}

proof fn lemma_index_of_distinct(ids: Seq<NodeId>, i: int)
    requires
        ids.no_duplicates(),
        0 <= i < ids.len(),
    ensures
        ids.index_of(ids[i]) == i,
{
    assert(0 <= i < ids.len() && ids[i] == ids[i]);
    let j = ids.index_of(ids[i]);
    assert(0 <= j < ids.len() && ids[j] == ids[i]);
}

proof fn lemma_distinct_ids_bounded(ids: Seq<NodeId>)
    requires
        ids.no_duplicates(),
    ensures
        ids.len() <= 0x1_0000_0000,
{
    ids.unique_seq_to_set();
    <u32 as vstd::set_lib::FiniteRange>::range_properties(0, 0xffff_ffff);
    let all = Set::<u32>::range(0, 0xffff_ffff).insert(0xffff_ffff);
    assert(ids.to_set().subset_of(all));
    vstd::set_lib::lemma_len_subset(ids.to_set(), all);
}

proof fn lemma_next_taken_unique(
    records: Map<NodeId, RouteRecord>,
    unvisited: Set<NodeId>,
    u: NodeId,
)
    requires
        is_next_taken(records, unvisited, u),
    ensures
        next_taken(records, unvisited) == u,
{
    let v = next_taken(records, unvisited);
    assert(is_next_taken(records, unvisited, v));
    assert(taken_before(records[u].cost, u, records[v].cost, v));
    assert(taken_before(records[v].cost, v, records[u].cost, u));
}

fn taken_first(ca: Option<i128>, a: NodeId, cb: Option<i128>, b: NodeId) -> (r: bool)
    ensures
        r == taken_before(opt_int(ca), a, opt_int(cb), b),
{
    match (ca, cb) {
        (Some(x), Some(y)) => x < y || (x == y && a <= b),
        (Some(_), None) => true,
        (None, Some(_)) => false,
        (None, None) => a <= b,
    }
}

fn contains_id(ids: &Vec<NodeId>, x: NodeId) -> (r: bool)
    ensures
        r == ids@.contains(x),
{
    let mut i: usize = 0;
    while i < ids.len()
        invariant
            i <= ids.len(),
            forall|k: int| 0 <= k < i ==> ids@[k] != x,
        decreases ids.len() - i,
    {
        if ids[i] == x {
            assert(ids@[i as int] == x);
            return true;
        }
        i = i + 1;
    }
    false
}

/// The working set of a search from `start`, one row per node, each with
/// its initial record and not visited.
fn initial_rows(adjacency_map: &AdjacencyMap, gateway_ids: &Vec<NodeId>, start: NodeId) -> (r: (
    Vec<NodeId>,
    Vec<DijkstraEntry>,
))
    requires
        adjacency_map.wf(),
    ensures
        r.0@.no_duplicates(),
        r.0@.len() == r.1@.len(),
        forall|n: NodeId|
            r.0@.contains(n) <==> working_set(adjacency_map@, gateway_ids@.to_set(), start).contains(
                n,
            ),
        forall|i: int|
            0 <= i < r.0@.len() ==> r.1@[i]@ == (if r.0@[i] == start {
                source_record()
            } else {
                not_reached()
            }),
{
    let nodes = adjacency_map.nodes();
    let ghost gws = gateway_ids@.to_set();
    let ghost w = working_set(adjacency_map@, gws, start);
    let mut ids: Vec<NodeId> = Vec::new();
    let mut recs: Vec<DijkstraEntry> = Vec::new();
    let mut i: usize = 0;
    while i < nodes.len()
        invariant
            adjacency_map.wf(),
            gws == gateway_ids@.to_set(),
            w == working_set(adjacency_map@, gws, start),
            i <= nodes@.len(),
            nodes@.no_duplicates(),
            forall|k: NodeId| adjacency_map@.contains_key(k) <==> nodes@.contains(k),
            ids@.no_duplicates(),
            ids@.len() == recs@.len(),
            forall|k: int| 0 <= k < ids@.len() ==> nodes@.subrange(0, i as int).contains(#[trigger] ids@[k]),
            forall|k: int| 0 <= k < ids@.len() ==> w.contains(#[trigger] ids@[k]),
            forall|k: int| 0 <= k < i ==> w.contains(#[trigger] nodes@[k]) ==> ids@.contains(nodes@[k]),
            forall|k: int|
                0 <= k < ids@.len() ==> recs@[k]@ == (if ids@[k] == start {
                    source_record()
                } else {
                    not_reached()
                }),
        decreases nodes@.len() - i,
    {
        let n = nodes[i];
        let ghost ids_before = ids@;
        assert(adjacency_map@.contains_key(n)) by {
            assert(nodes@.contains(nodes@[i as int]));
        };
        let is_gateway = contains_id(gateway_ids, n);
        proof {
            assert(gws.contains(n) == gateway_ids@.contains(n));
        }
        if n == start || !is_gateway {
            proof {
                assert(!ids@.contains(n)) by {
                    if ids@.contains(n) {
                        let k = ids@.index_of(n);
                        assert(nodes@.subrange(0, i as int).contains(n));
                        let m = nodes@.subrange(0, i as int).index_of(n);
                        assert(nodes@[m] == nodes@[i as int]);
                    }
                };
            }
            let ghost old_ids = ids@;
            ids.push(n);
            let entry = if n == start {
                DijkstraEntry { total_distance: Some(0), total_cost: Some(0), previous: None, hop_count: 0 }
            } else {
                DijkstraEntry { total_distance: None, total_cost: None, previous: None, hop_count: 0 }
            };
            recs.push(entry);
            proof {
                assert forall|a: int, b: int|
                    0 <= a < ids@.len() && 0 <= b < ids@.len() && a != b implies ids@[a] != ids@[b] by {
                    if a < old_ids.len() && b < old_ids.len() {
                        assert(old_ids[a] != old_ids[b]);
                    } else if a < old_ids.len() {
                        assert(old_ids.contains(ids@[a]));
                    } else if b < old_ids.len() {
                        assert(old_ids.contains(ids@[b]));
                    }
                };
                assert(w.contains(n));
            }
        }
        proof {
            assert forall|k: int| 0 <= k < ids@.len() implies nodes@.subrange(0, i + 1).contains(
                #[trigger] ids@[k],
            ) by {
                if ids@[k] == n {
                    assert(nodes@.subrange(0, i + 1)[i as int] == n);
                } else {
                    let m = nodes@.subrange(0, i as int).index_of(ids@[k]);
                    assert(nodes@.subrange(0, i + 1)[m] == ids@[k]);
                }
            };
            assert forall|k: int| 0 <= k < i + 1 && w.contains(#[trigger] nodes@[k])
                implies ids@.contains(nodes@[k]) by {
                if k == i {
                    assert(nodes@[k] == start || !gws.contains(nodes@[k]));
                    assert(ids@[ids@.len() - 1] == n);
                } else {
                    let m = ids_before.index_of(nodes@[k]);
                    assert(ids@[m] == nodes@[k]);
                }
            };
        }
        i = i + 1;
    }
    proof {
        assert forall|n: NodeId| ids@.contains(n) <==> w.contains(n) by {
            if w.contains(n) {
                assert(nodes@.contains(n));
                let k = nodes@.index_of(n);
                assert(w.contains(nodes@[k]));
            }
            if ids@.contains(n) {
                let k = ids@.index_of(n);
                assert(w.contains(ids@[k]));
            }
        };
    }
    (ids, recs)
}


/// Distances stay within `hops` links of the largest weight.
pub open spec fn rows_bounded(recs: Seq<DijkstraEntry>, round: nat) -> bool {
    forall|k: int|
        0 <= k < recs.len() ==> {
            &&& (#[trigger] recs[k]).hop_count <= round
            &&& (recs[k].total_distance matches Some(d) ==> -(recs[k].hop_count
                * 0x8000_0000_0000_0000) <= d <= recs[k].hop_count * 0x8000_0000_0000_0000)
        }
}

/// Runs the search from `start` and returns its table row by row.
fn dijkstra_rows(
    settings: &AppSettings,
    adjacency_map: &AdjacencyMap,
    gateway_ids: &Vec<NodeId>,
    start: NodeId,
) -> (r: (Vec<NodeId>, Vec<DijkstraEntry>))
    requires
        adjacency_map.wf(),
    ensures
        r.0@.no_duplicates(),
        r.0@.len() == r.1@.len(),
        forall|n: NodeId|
            r.0@.contains(n) <==> working_set(adjacency_map@, gateway_ids@.to_set(), start).contains(
                n,
            ),
        rows_table(r.0@, r.1@) == dijkstra_table(
            adjacency_map@,
            gateway_ids@.to_set(),
            start,
            *settings,
        ),
{
    let ghost adj = adjacency_map@;
    let ghost w = working_set(adj, gateway_ids@.to_set(), start);
    let ghost target = dijkstra_table(adj, gateway_ids@.to_set(), start, *settings);
    let (ids, mut recs) = initial_rows(adjacency_map, gateway_ids, start);
    let n = ids.len();
    let mut visited: Vec<bool> = Vec::new();
    while visited.len() < n
        invariant
            visited@.len() <= n,
            forall|k: int| 0 <= k < visited@.len() ==> !visited@[k],
        decreases n - visited@.len(),
    {
        visited.push(false);
    }
    proof {
        lemma_distinct_ids_bounded(ids@);
        ids@.unique_seq_to_set();
        assert(ids@.to_set() =~= w);
        assert(rows_unvisited(ids@, visited@) =~= w) by {
            assert forall|x: NodeId| ids@.contains(x) implies !visited@[ids@.index_of(x)] by {
                let k = ids@.index_of(x);
                assert(0 <= k < ids@.len() && ids@[k] == x);
            };
        };
        assert(rows_table(ids@, recs@) =~= initial_records(w, start)) by {
            assert forall|x: NodeId| ids@.contains(x) implies recs@[ids@.index_of(x)]@ == (
            if x == start {
                source_record()
            } else {
                not_reached()
            }) by {
                let k = ids@.index_of(x);
                assert(0 <= k < ids@.len() && ids@[k] == x);
            };
        };
        assert forall|k: int| 0 <= k < recs@.len() implies (#[trigger] recs@[k]).hop_count == 0 && (
        recs@[k].total_distance matches Some(d) ==> d == 0) by {
            assert(recs@[k]@ == (if ids@[k] == start {
                source_record()
            } else {
                not_reached()
            }));
        };
    }
    let mut round: usize = 0;
    while round < n
        invariant
            adjacency_map.wf(),
            adj == adjacency_map@,
            w == working_set(adj, gateway_ids@.to_set(), start),
            target == dijkstra_table(adj, gateway_ids@.to_set(), start, *settings),
            n == ids@.len(),
            recs@.len() == n,
            visited@.len() == n,
            ids@.no_duplicates(),
            n <= 0x1_0000_0000,
            round <= n,
            forall|x: NodeId| ids@.contains(x) <==> w.contains(x),
            rows_unvisited(ids@, visited@).finite(),
            rows_unvisited(ids@, visited@).len() == n - round,
            run_search(rows_table(ids@, recs@), rows_unvisited(ids@, visited@), adj, *settings)
                == target,
            rows_bounded(recs@, round as nat),
        decreases n - round,
    {
        let ghost table = rows_table(ids@, recs@);
        let ghost unvisited = rows_unvisited(ids@, visited@);
        // the unvisited node taken next
        let mut best: usize = n;
        let mut j: usize = 0;
        while j < n
            invariant
                n == ids@.len(),
                recs@.len() == n,
                visited@.len() == n,
                j <= n,
                best == n || (best < j && !visited@[best as int]),
                best == n ==> forall|k: int| 0 <= k < j ==> visited@[k],
                best < n ==> forall|k: int|
                    0 <= k < j && !visited@[k] ==> taken_before(
                        recs@[best as int]@.cost,
                        ids@[best as int],
                        #[trigger] recs@[k]@.cost,
                        ids@[k],
                    ),
            decreases n - j,
        {
            if !visited[j] {
                if best == n || taken_first(
                    recs[j].total_cost,
                    ids[j],
                    recs[best].total_cost,
                    ids[best],
                ) {
                    best = j;
                }
            }
            j = j + 1;
        }
        proof {
            assert(unvisited.len() > 0);
            let x = unvisited.choose();
            assert(unvisited.contains(x));
            let k = ids@.index_of(x);
            assert(0 <= k < n && ids@[k] == x && !visited@[k]);
        }
        let u = ids[best];
        proof {
            lemma_index_of_distinct(ids@, best as int);
            assert forall|v: NodeId| #[trigger] unvisited.contains(v) implies taken_before(
                table[u].cost,
                u,
                table[v].cost,
                v,
            ) by {
                let k = ids@.index_of(v);
                assert(0 <= k < n && ids@[k] == v && !visited@[k]);
                assert(table[v] == recs@[k]@);
            };
            assert(is_next_taken(table, unvisited, u));
            lemma_next_taken_unique(table, unvisited, u);
        }
        visited.set(best, true);
        let ghost rest = unvisited.remove(u);
        proof {
            assert(rows_unvisited(ids@, visited@) =~= rest) by {
                assert forall|x: NodeId| ids@.contains(x) implies (!visited@[ids@.index_of(x)]
                    <==> (unvisited.contains(x) && x != u)) by {
                    let k = ids@.index_of(x);
                    assert(0 <= k < n && ids@[k] == x);
                    if k == best {
                    } else {
                        assert(x != u);
                    }
                };
            };
        }
        let ru = recs[best];
        assert(ru@ == table[u]);
        assert(ids@.contains(u) && w.contains(u));
        let ghost before_relax = recs@;
        let mut j: usize = 0;
        while j < n
            invariant
                adjacency_map.wf(),
                adj == adjacency_map@,
                n == ids@.len(),
                recs@.len() == n,
                visited@.len() == n,
                ids@.no_duplicates(),
                n <= 0x1_0000_0000,
                round < n,
                j <= n,
                best < n,
                u == ids@[best as int],
                ru == before_relax[best as int],
                ru@ == table[u],
                rest == rows_unvisited(ids@, visited@),
                table == rows_table(ids@, before_relax),
                before_relax.len() == n,
                adj.contains_key(u),
                rows_bounded(before_relax, round as nat),
                forall|k: int|
                    0 <= k < j ==> (#[trigger] recs@[k])@ == relaxed(
                        table,
                        rest,
                        adj,
                        *settings,
                        u,
                        ids@[k],
                    ),
                forall|k: int| j <= k < n ==> #[trigger] recs@[k] == before_relax[k],
                forall|k: int|
                    0 <= k < j ==> {
                        &&& (#[trigger] recs@[k]).hop_count <= round + 1
                        &&& (recs@[k].total_distance matches Some(d) ==> -(recs@[k].hop_count
                            * 0x8000_0000_0000_0000) <= d <= recs@[k].hop_count
                            * 0x8000_0000_0000_0000)
                    },
            decreases n - j,
        {
            let v = ids[j];
            proof {
                lemma_index_of_distinct(ids@, j as int);
                assert(table[v] == before_relax[j as int]@);
                assert(rest.contains(v) == !visited@[j as int]);
            }
            if !visited[j] {
                match adjacency_map.weight(u, v) {
                    Some(Some(weight)) => {
                        match ru.total_distance {
                            Some(d) => {
                                let nd = d + weight as i128;
                                let nh = ru.hop_count + 1;
                                let cost = get_route_cost(settings, nd, nh);
                                let better = match recs[j].total_cost {
                                    Some(c) => cost < c,
                                    None => true,
                                };
                                if better {
                                    recs.set(
                                        j,
                                        DijkstraEntry {
                                            total_distance: Some(nd),
                                            total_cost: Some(cost),
                                            previous: Some(u),
                                            hop_count: nh,
                                        },
                                    );
                                }
                            },
                            None => {},
                        }
                    },
                    _ => {},
                }
            }
            j = j + 1;
        }
        proof {
            assert(rows_table(ids@, recs@) =~= relax_from(table, rest, adj, *settings, u)) by {
                assert forall|x: NodeId| ids@.contains(x) implies recs@[ids@.index_of(x)]@
                    == relaxed(table, rest, adj, *settings, u, x) by {
                    let k = ids@.index_of(x);
                    assert(0 <= k < n && ids@[k] == x);
                };
            };
            assert(unvisited.finite() && unvisited.len() > 0 && unvisited.contains(u));
            assert(run_search(table, unvisited, adj, *settings) == run_search(
                relax_from(table, rest, adj, *settings, u),
                rest,
                adj,
                *settings,
            ));
        }
        round = round + 1;
    }
    proof {
        assert(rows_unvisited(ids@, visited@).len() == 0);
    }
    (ids, recs)
}


/// Runs the search from `start` over the receivers of `adjacency_map`,
/// leaving out every gateway but `start`, and returns the record of each
/// node it could use.
pub fn dijkstra(
    settings: &AppSettings,
    adjacency_map: &AdjacencyMap,
    gateway_ids: &Vec<NodeId>,
    start: NodeId,
) -> (r: HashMap<NodeId, DijkstraEntry>)
    requires
        adjacency_map.wf(),
    ensures
        r@.dom() == working_set(adjacency_map@, gateway_ids@.to_set(), start),
        forall|n: NodeId| #[trigger]
            r@.contains_key(n) ==> r@[n]@ == dijkstra_table(
                adjacency_map@,
                gateway_ids@.to_set(),
                start,
                *settings,
            )[n],
{
    let ghost w = working_set(adjacency_map@, gateway_ids@.to_set(), start);
    let ghost table = dijkstra_table(adjacency_map@, gateway_ids@.to_set(), start, *settings);
    let (ids, recs) = dijkstra_rows(settings, adjacency_map, gateway_ids, start);
    let mut r: HashMap<NodeId, DijkstraEntry> = HashMap::new();
    let mut i: usize = 0;
    while i < ids.len()
        invariant
            i <= ids@.len(),
            ids@.len() == recs@.len(),
            ids@.no_duplicates(),
            rows_table(ids@, recs@) == table,
            forall|n: NodeId| r@.contains_key(n) <==> ids@.subrange(0, i as int).contains(n),
            forall|n: NodeId| #[trigger] r@.contains_key(n) ==> r@[n]@ == table[n],
        decreases ids@.len() - i,
    {
        proof {
            lemma_index_of_distinct(ids@, i as int);
            assert(ids@.contains(ids@[i as int]));
        }
        r.insert(ids[i], recs[i]);
        proof {
            assert forall|n: NodeId| r@.contains_key(n) <==> ids@.subrange(0, i + 1).contains(n) by {
                if ids@.subrange(0, i + 1).contains(n) && n != ids@[i as int] {
                    let k = ids@.subrange(0, i + 1).index_of(n);
                    assert(ids@.subrange(0, i as int)[k] == n);
                }
                if n == ids@[i as int] {
                    assert(ids@.subrange(0, i + 1)[i as int] == n);
                } else if r@.contains_key(n) {
                    let k = ids@.subrange(0, i as int).index_of(n);
                    assert(ids@.subrange(0, i + 1)[k] == n);
                }
            };
        }
        i = i + 1;
    }
    proof {
        assert(ids@.subrange(0, ids@.len() as int) =~= ids@);
        assert(r@.dom() =~= w);
    }
    r
}


/// Cost `a` is at most cost `b`, an infinite cost being above every other.
pub open spec fn cost_le(a: Option<int>, b: Option<int>) -> bool {
    match (a, b) {
        (_, None) => true,
        (None, Some(_)) => false,
        (Some(x), Some(y)) => x <= y,
    }
}

/// Where `e` goes in `s`: after the leading records that cost no more.
pub open spec fn insert_position(s: Seq<RouteRecord>, e: RouteRecord) -> nat
    decreases s.len(),
{
    if s.len() == 0 {
        0
    } else if cost_le(s[0].cost, e.cost) {
        1 + insert_position(s.drop_first(), e)
    } else {
        0
    }
}

/// `s` with `e` inserted after the leading records that cost no more.
pub open spec fn sorted_insert(s: Seq<RouteRecord>, e: RouteRecord) -> Seq<RouteRecord> {
    s.insert(insert_position(s, e) as int, e)
}

/// The next-hop records of node `v` drawn from the searches from the first
/// `k` gateways: each reached record, once, kept in ascending order of cost
/// (records of equal cost in the order of their gateways).
pub open spec fn hop_candidates(
    adj: Map<NodeId, Map<NodeId, EdgeWeight>>,
    gateway_ids: Seq<NodeId>,
    settings: AppSettings,
    v: NodeId,
    k: nat,
) -> Seq<RouteRecord>
    decreases k,
{
    if k == 0 {
        Seq::empty()
    } else {
        let earlier = hop_candidates(adj, gateway_ids, settings, v, (k - 1) as nat);
        let e = dijkstra_table(adj, gateway_ids.to_set(), gateway_ids[k - 1], settings)[v];
        if e.previous is Some && !earlier.contains(e) {
            sorted_insert(earlier, e)
        } else {
            earlier
        }
    }
}

/// Every gateway is a receiver of the map.
pub open spec fn gateways_known(
    adj: Map<NodeId, Map<NodeId, EdgeWeight>>,
    gateway_ids: Seq<NodeId>,
) -> bool {
    forall|i: int| 0 <= i < gateway_ids.len() ==> adj.contains_key(#[trigger] gateway_ids[i])
}

/// The next-hop table: for each receiver that is not a gateway and was
/// reached from some gateway, the nodes its reached records come from,
/// best first. Empty when some gateway is not a receiver of the map.
pub open spec fn next_hops(
    adj: Map<NodeId, Map<NodeId, EdgeWeight>>,
    gateway_ids: Seq<NodeId>,
    settings: AppSettings,
) -> Map<NodeId, Seq<NodeId>> {
    if !gateways_known(adj, gateway_ids) {
        Map::empty()
    } else {
        Map::new(
            |v: NodeId|
                adj.contains_key(v) && !gateway_ids.contains(v) && hop_candidates(
                    adj,
                    gateway_ids,
                    settings,
                    v,
                    gateway_ids.len(),
                ).len() > 0,
            |v: NodeId|
                hop_candidates(adj, gateway_ids, settings, v, gateway_ids.len()).map_values(
                    |e: RouteRecord| e.previous.unwrap(),
                ),
        )
    }
}

/// The records of a list of table rows.
pub open spec fn entries_view(s: Seq<DijkstraEntry>) -> Seq<RouteRecord> {
    s.map_values(|e: DijkstraEntry| e@)
}

proof fn lemma_insert_position(s: Seq<RouteRecord>, e: RouteRecord, j: int)
    requires
        0 <= j <= s.len(),
        forall|k: int| 0 <= k < j ==> cost_le(#[trigger] s[k].cost, e.cost),
        j < s.len() ==> !cost_le(s[j].cost, e.cost),
    ensures
        insert_position(s, e) == j,
    decreases j,
{
    if j > 0 {
        assert forall|k: int| 0 <= k < j - 1 implies cost_le(#[trigger] s.drop_first()[k].cost, e.cost) by {
            assert(s.drop_first()[k] == s[k + 1]);
        };
        lemma_insert_position(s.drop_first(), e, j - 1);
    }
}

fn row_of(ids: &Vec<NodeId>, v: NodeId) -> (r: usize)
    requires
        ids@.contains(v),
    ensures
        r < ids@.len(),
        ids@[r as int] == v,
{
    let mut i: usize = 0;
    while i < ids.len()
        invariant
            i <= ids@.len(),
            ids@.contains(v),
            forall|k: int| 0 <= k < i ==> ids@[k] != v,
        decreases ids@.len() - i,
    {
        if ids[i] == v {
            return i;
        }
        i = i + 1;
    }
    proof {
        let k = ids@.index_of(v);
        assert(ids@[k] == v);
    }
    0
}

fn contains_entry(list: &Vec<DijkstraEntry>, e: &DijkstraEntry) -> (r: bool)
    ensures
        r == entries_view(list@).contains(e@),
{
    let mut i: usize = 0;
    while i < list.len()
        invariant
            i <= list@.len(),
            forall|k: int| 0 <= k < i ==> list@[k]@ != e@,
        decreases list@.len() - i,
    {
        if list[i] == *e {
            assert(entries_view(list@)[i as int] == e@);
            return true;
        }
        i = i + 1;
    }
    proof {
        if entries_view(list@).contains(e@) {
            let k = entries_view(list@).index_of(e@);
            assert(list@[k]@ == e@);
        }
    }
    false
}

fn cost_at_most(a: Option<i128>, b: Option<i128>) -> (r: bool)
    ensures
        r == cost_le(opt_int(a), opt_int(b)),
{
    match (a, b) {
        (_, None) => true,
        (None, Some(_)) => false,
        (Some(x), Some(y)) => x <= y,
    }
}

fn insert_sorted(list: &mut Vec<DijkstraEntry>, e: DijkstraEntry)
    ensures
        entries_view(final(list)@) == sorted_insert(entries_view(old(list)@), e@),
        forall|j: int|
            0 <= j < final(list)@.len() ==> #[trigger] final(list)@[j] == e || old(list)@.contains(
                final(list)@[j],
            ),
{
    let mut j: usize = 0;
    while j < list.len() && cost_at_most(list[j].total_cost, e.total_cost)
        invariant
            j <= list@.len(),
            list@ == old(list)@,
            forall|k: int| 0 <= k < j ==> cost_le(#[trigger] list@[k]@.cost, e@.cost),
        decreases list@.len() - j,
    {
        j = j + 1;
    }
    let ghost s = entries_view(list@);
    proof {
        assert forall|k: int| 0 <= k < j implies cost_le(#[trigger] s[k].cost, e@.cost) by {
            assert(s[k] == list@[k]@);
        };
        if j < list@.len() {
            assert(s[j as int] == list@[j as int]@);
        }
        lemma_insert_position(s, e@, j as int);
    }
    let ghost before = list@;
    list.insert(j, e);
    assert(entries_view(list@) =~= s.insert(j as int, e@));
    proof {
        before.insert_ensures(j as int, e);
        assert forall|k: int| 0 <= k < list@.len() implies #[trigger] list@[k] == e || before.contains(
            list@[k],
        ) by {
            if k < j {
                assert(list@[k] == before[k]);
            } else if k > j {
                assert(list@[(k - 1) + 1] == before[k - 1]);
            }
        };
    }
}


fn previous_ids(list: &Vec<DijkstraEntry>) -> (r: Vec<NodeId>)
    requires
        forall|k: int| 0 <= k < list@.len() ==> (#[trigger] list@[k]).previous is Some,
    ensures
        r@ == entries_view(list@).map_values(|e: RouteRecord| e.previous.unwrap()),
{
    let mut r: Vec<NodeId> = Vec::new();
    let mut i: usize = 0;
    while i < list.len()
        invariant
            i <= list@.len(),
            forall|k: int| 0 <= k < list@.len() ==> (#[trigger] list@[k]).previous is Some,
            r@ == entries_view(list@.subrange(0, i as int)).map_values(
                |e: RouteRecord| e.previous.unwrap(),
            ),
        decreases list@.len() - i,
    {
        let p = match list[i].previous {
            Some(p) => p,
            None => 0,
        };
        r.push(p);
        proof {
            assert(entries_view(list@.subrange(0, i + 1)).map_values(
                |e: RouteRecord| e.previous.unwrap(),
            ) =~= entries_view(list@.subrange(0, i as int)).map_values(
                |e: RouteRecord| e.previous.unwrap(),
            ).push(p));
        }
        i = i + 1;
    }
    assert(list@.subrange(0, list@.len() as int) =~= list@);
    r
}

/// The next-hop records of `v`, built from the search tables of all
/// gateways.
fn candidates_of(
    tables: &Vec<(Vec<NodeId>, Vec<DijkstraEntry>)>,
    v: NodeId,
    adjacency_map: &AdjacencyMap,
    gateway_ids: &Vec<NodeId>,
    settings: &AppSettings,
) -> (r: Vec<DijkstraEntry>)
    requires
        tables@.len() == gateway_ids@.len(),
        forall|k: int|
            0 <= k < tables@.len() ==> {
                &&& (#[trigger] tables@[k]).0@.no_duplicates()
                &&& tables@[k].0@.len() == tables@[k].1@.len()
                &&& tables@[k].0@.contains(v)
                &&& rows_table(tables@[k].0@, tables@[k].1@) == dijkstra_table(
                    adjacency_map@,
                    gateway_ids@.to_set(),
                    gateway_ids@[k],
                    *settings,
                )
            },
    ensures
        entries_view(r@) == hop_candidates(
            adjacency_map@,
            gateway_ids@,
            *settings,
            v,
            gateway_ids@.len(),
        ),
        forall|k: int| 0 <= k < r@.len() ==> (#[trigger] r@[k]).previous is Some,
{
    let mut list: Vec<DijkstraEntry> = Vec::new();
    let mut k: usize = 0;
    assert(entries_view(list@) =~= Seq::<RouteRecord>::empty());
    while k < tables.len()
        invariant
            k <= tables@.len(),
            tables@.len() == gateway_ids@.len(),
            forall|k: int|
                0 <= k < tables@.len() ==> {
                    &&& (#[trigger] tables@[k]).0@.no_duplicates()
                    &&& tables@[k].0@.len() == tables@[k].1@.len()
                    &&& tables@[k].0@.contains(v)
                    &&& rows_table(tables@[k].0@, tables@[k].1@) == dijkstra_table(
                        adjacency_map@,
                        gateway_ids@.to_set(),
                        gateway_ids@[k],
                        *settings,
                    )
                },
            entries_view(list@) == hop_candidates(
                adjacency_map@,
                gateway_ids@,
                *settings,
                v,
                k as nat,
            ),
            forall|j: int| 0 <= j < list@.len() ==> (#[trigger] list@[j]).previous is Some,
        decreases tables@.len() - k,
    {
        let ids = &tables[k].0;
        let recs = &tables[k].1;
        let idx = row_of(ids, v);
        let e = recs[idx];
        proof {
            lemma_index_of_distinct(ids@, idx as int);
            assert(e@ == dijkstra_table(
                adjacency_map@,
                gateway_ids@.to_set(),
                gateway_ids@[k as int],
                *settings,
            )[v]);
        }
        if e.previous.is_some() && !contains_entry(&list, &e) {
            let ghost before = list@;
            insert_sorted(&mut list, e);
            proof {
                assert forall|j: int| 0 <= j < list@.len() implies (#[trigger] list@[j]).previous is Some by {
                    if list@[j] != e {
                        let m = before.index_of(list@[j]);
                        assert(before[m] == list@[j]);
                    }
                };
            }
        }
        k = k + 1;
    }
    list
}

/// The next-hop table of the mesh: for each receiver of `adjacency_map`
/// that is not a gateway and that some gateway reaches, the nodes that its
/// best paths towards the gateways go through first, best first. Each
/// gateway's search uses only that gateway and the nodes that are not
/// gateways. Empty when a gateway is not a receiver of the map.
pub fn compute_next_hops_map(
    settings: &AppSettings,
    adjacency_map: &AdjacencyMap,
    gateway_ids: &Vec<NodeId>,
) -> (r: HashMap<NodeId, Vec<NodeId>>)
    requires
        adjacency_map.wf(),
    ensures
        r@.dom() == next_hops(adjacency_map@, gateway_ids@, *settings).dom(),
        forall|v: NodeId| #[trigger]
            r@.contains_key(v) ==> r@[v]@ == next_hops(adjacency_map@, gateway_ids@, *settings)[v],
{
    let ghost adj = adjacency_map@;
    let ghost spec_map = next_hops(adj, gateway_ids@, *settings);
    let mut k: usize = 0;
    while k < gateway_ids.len()
        invariant
            adjacency_map.wf(),
            adj == adjacency_map@,
            spec_map == next_hops(adj, gateway_ids@, *settings),
            k <= gateway_ids@.len(),
            forall|j: int| 0 <= j < k ==> adjacency_map@.contains_key(#[trigger] gateway_ids@[j]),
        decreases gateway_ids@.len() - k,
    {
        if !adjacency_map.contains_node(gateway_ids[k]) {
            let r: HashMap<NodeId, Vec<NodeId>> = HashMap::new();
            proof {
                assert(!gateways_known(adj, gateway_ids@));
                assert(r@.dom() =~= spec_map.dom());
            }
            return r;
        }
        k = k + 1;
    }
    assert(gateways_known(adj, gateway_ids@));
    let mut tables: Vec<(Vec<NodeId>, Vec<DijkstraEntry>)> = Vec::new();
    let mut k: usize = 0;
    while k < gateway_ids.len()
        invariant
            adjacency_map.wf(),
            k <= gateway_ids@.len(),
            tables@.len() == k,
            forall|j: int|
                0 <= j < k ==> {
                    &&& (#[trigger] tables@[j]).0@.no_duplicates()
                    &&& tables@[j].0@.len() == tables@[j].1@.len()
                    &&& forall|n: NodeId|
                        tables@[j].0@.contains(n) <==> working_set(
                            adjacency_map@,
                            gateway_ids@.to_set(),
                            gateway_ids@[j],
                        ).contains(n)
                    &&& rows_table(tables@[j].0@, tables@[j].1@) == dijkstra_table(
                        adjacency_map@,
                        gateway_ids@.to_set(),
                        gateway_ids@[j],
                        *settings,
                    )
                },
        decreases gateway_ids@.len() - k,
    {
        let table = dijkstra_rows(settings, adjacency_map, gateway_ids, gateway_ids[k]);
        tables.push(table);
        k = k + 1;
    }
    let nodes = adjacency_map.nodes();
    let mut r: HashMap<NodeId, Vec<NodeId>> = HashMap::new();
    let mut i: usize = 0;
    while i < nodes.len()
        invariant
            adjacency_map.wf(),
            adj == adjacency_map@,
            spec_map == next_hops(adj, gateway_ids@, *settings),
            gateways_known(adj, gateway_ids@),
            i <= nodes@.len(),
            nodes@.no_duplicates(),
            forall|n: NodeId| adj.contains_key(n) <==> nodes@.contains(n),
            tables@.len() == gateway_ids@.len(),
            forall|j: int|
                0 <= j < tables@.len() ==> {
                    &&& (#[trigger] tables@[j]).0@.no_duplicates()
                    &&& tables@[j].0@.len() == tables@[j].1@.len()
                    &&& forall|n: NodeId|
                        tables@[j].0@.contains(n) <==> working_set(
                            adjacency_map@,
                            gateway_ids@.to_set(),
                            gateway_ids@[j],
                        ).contains(n)
                    &&& rows_table(tables@[j].0@, tables@[j].1@) == dijkstra_table(
                        adjacency_map@,
                        gateway_ids@.to_set(),
                        gateway_ids@[j],
                        *settings,
                    )
                },
            forall|v: NodeId|
                r@.contains_key(v) <==> (nodes@.subrange(0, i as int).contains(v)
                    && spec_map.contains_key(v)),
            forall|v: NodeId| #[trigger] r@.contains_key(v) ==> r@[v]@ == spec_map[v],
        decreases nodes@.len() - i,
    {
        let v = nodes[i];
        let ghost r_before = r@;
        assert(nodes@.contains(v));
        proof {
            if nodes@.subrange(0, i as int).contains(v) {
                let m = nodes@.subrange(0, i as int).index_of(v);
                assert(nodes@[m] == nodes@[i as int]);
            }
        }
        if !contains_id(gateway_ids, v) {
            proof {
                assert forall|j: int| 0 <= j < tables@.len() implies (#[trigger] tables@[j]).0@.contains(v) by {
                    assert(!gateway_ids@.to_set().contains(v));
                    assert(working_set(adj, gateway_ids@.to_set(), gateway_ids@[j]).contains(v));
                };
            }
            let list = candidates_of(&tables, v, adjacency_map, gateway_ids, settings);
            proof {
                assert(entries_view(list@).len() == list@.len());
            }
            if list.len() > 0 {
                let hops = previous_ids(&list);
                r.insert(v, hops);
                assert(spec_map.contains_key(v));
            } else {
                assert(!spec_map.contains_key(v));
            }
        } else {
            assert(!spec_map.contains_key(v));
        }
        proof {
            assert forall|x: NodeId|
                #[trigger] r@.contains_key(x) <==> (nodes@.subrange(0, i + 1).contains(x)
                    && spec_map.contains_key(x)) by {
                if x == v {
                    assert(nodes@.subrange(0, i + 1)[i as int] == v);
                    assert(!r_before.contains_key(v));
                    assert(r@.contains_key(v) == spec_map.contains_key(v));
                } else {
                    assert(r@.contains_key(x) == r_before.contains_key(x));
                    if nodes@.subrange(0, i + 1).contains(x) {
                        let m = nodes@.subrange(0, i + 1).index_of(x);
                        assert(nodes@.subrange(0, i as int)[m] == x);
                    }
                    if nodes@.subrange(0, i as int).contains(x) {
                        let m = nodes@.subrange(0, i as int).index_of(x);
                        assert(nodes@.subrange(0, i + 1)[m] == x);
                    }
                }
            };
        }
        i = i + 1;
    }
    proof {
        assert(nodes@.subrange(0, nodes@.len() as int) =~= nodes@);
        assert forall|v: NodeId| spec_map.contains_key(v) implies nodes@.contains(v) by {
            assert(adj.contains_key(v));
        };
        assert(r@.dom() =~= spec_map.dom());
    }
    r
}


/// Each record that names a previous node names a node of the table that
/// hears it over a usable link.
pub open spec fn previous_linked(
    records: Map<NodeId, RouteRecord>,
    adj: Map<NodeId, Map<NodeId, EdgeWeight>>,
) -> bool {
    forall|n: NodeId|
        #[trigger] records.contains_key(n) ==> (records[n].previous matches Some(p) ==> {
            &&& records.contains_key(p)
            &&& adj.contains_key(p)
            &&& adj[p].contains_key(n)
            &&& adj[p][n] is Some
        })
}

proof fn lemma_run_search_previous_linked(
    records: Map<NodeId, RouteRecord>,
    unvisited: Set<NodeId>,
    adj: Map<NodeId, Map<NodeId, EdgeWeight>>,
    settings: AppSettings,
)
    requires
        previous_linked(records, adj),
        unvisited.subset_of(records.dom()),
        forall|n: NodeId| records.contains_key(n) ==> adj.contains_key(n),
    ensures
        previous_linked(run_search(records, unvisited, adj, settings), adj),
        run_search(records, unvisited, adj, settings).dom() == records.dom(),
    decreases unvisited.len(),
{
    if unvisited.finite() && unvisited.len() > 0 {
        let u = next_taken(records, unvisited);
        if unvisited.contains(u) {
            let rest = unvisited.remove(u);
            let next = relax_from(records, rest, adj, settings, u);
            assert(next.dom() =~= records.dom());
            assert forall|n: NodeId| #[trigger] next.contains_key(n) implies (
            next[n].previous matches Some(p) ==> {
                &&& next.contains_key(p)
                &&& adj.contains_key(p)
                &&& adj[p].contains_key(n)
                &&& adj[p][n] is Some
            }) by {
                assert(next[n] == relaxed(records, rest, adj, settings, u, n));
            };
            lemma_run_search_previous_linked(next, rest, adj, settings);
        }
    }
}

/// In a search table, each node reached from another is heard by it over a
/// usable link, and that node belongs to the search's working set.
pub proof fn lemma_dijkstra_previous_linked(
    adj: Map<NodeId, Map<NodeId, EdgeWeight>>,
    gateways: Set<NodeId>,
    start: NodeId,
    settings: AppSettings,
)
    ensures
        previous_linked(dijkstra_table(adj, gateways, start, settings), adj),
        dijkstra_table(adj, gateways, start, settings).dom() == working_set(adj, gateways, start),
{
    let nodes = working_set(adj, gateways, start);
    let init = initial_records(nodes, start);
    assert(init.dom() =~= nodes);
    lemma_run_search_previous_linked(init, nodes, adj, settings);
}

proof fn lemma_insert_position_facts(s: Seq<RouteRecord>, e: RouteRecord)
    ensures
        insert_position(s, e) <= s.len(),
        forall|i: int| 0 <= i < insert_position(s, e) ==> cost_le(#[trigger] s[i].cost, e.cost),
        insert_position(s, e) < s.len() ==> !cost_le(s[insert_position(s, e) as int].cost, e.cost),
    decreases s.len(),
{
    if s.len() > 0 && cost_le(s[0].cost, e.cost) {
        let t = s.drop_first();
        lemma_insert_position_facts(t, e);
        assert forall|i: int| 0 <= i < insert_position(s, e) implies cost_le(#[trigger] s[i].cost, e.cost) by {
            if i > 0 {
                assert(s[i] == t[i - 1]);
            }
        };
        if insert_position(s, e) < s.len() {
            assert(s[insert_position(s, e) as int] == t[insert_position(t, e) as int]);
        }
    }
}

/// The records are in ascending order of cost.
pub open spec fn sorted_by_cost(s: Seq<RouteRecord>) -> bool {
    forall|i: int, j: int| 0 <= i < j < s.len() ==> cost_le(#[trigger] s[i].cost, #[trigger] s[j].cost)
}

proof fn lemma_sorted_insert_sorted(s: Seq<RouteRecord>, e: RouteRecord)
    requires
        sorted_by_cost(s),
    ensures
        sorted_by_cost(sorted_insert(s, e)),
        forall|i: int|
            0 <= i < sorted_insert(s, e).len() ==> #[trigger] sorted_insert(s, e)[i] == e
                || s.contains(sorted_insert(s, e)[i]),
{
    lemma_insert_position_facts(s, e);
    let p = insert_position(s, e) as int;
    let t = sorted_insert(s, e);
    s.insert_ensures(p, e);
    assert forall|i: int, j: int| 0 <= i < j < t.len() implies cost_le(#[trigger] t[i].cost, #[trigger] t[j].cost) by {
        if j < p {
            assert(t[i] == s[i] && t[j] == s[j]);
        } else if j == p {
            assert(t[i] == s[i]);
        } else if i < p {
            assert(t[i] == s[i] && t[(j - 1) + 1] == s[j - 1]);
        } else if i == p {
            assert(t[(j - 1) + 1] == s[j - 1]);
            assert(cost_le(s[p].cost, s[j - 1].cost));
        } else {
            assert(t[(i - 1) + 1] == s[i - 1] && t[(j - 1) + 1] == s[j - 1]);
        }
    };
    assert forall|i: int| 0 <= i < t.len() implies #[trigger] t[i] == e || s.contains(t[i]) by {
        if i < p {
            assert(t[i] == s[i]);
        } else if i > p {
            assert(t[(i - 1) + 1] == s[i - 1]);
        }
    };
}

/// Each candidate is sorted by cost, and is the reached record of `v` in
/// the search from one of the first `k` gateways.
proof fn lemma_hop_candidates_facts(
    adj: Map<NodeId, Map<NodeId, EdgeWeight>>,
    gateway_ids: Seq<NodeId>,
    settings: AppSettings,
    v: NodeId,
    k: nat,
)
    requires
        k <= gateway_ids.len(),
    ensures
        sorted_by_cost(hop_candidates(adj, gateway_ids, settings, v, k)),
        forall|i: int|
            0 <= i < hop_candidates(adj, gateway_ids, settings, v, k).len() ==> exists|g: int|
                0 <= g < k && #[trigger] hop_candidates(adj, gateway_ids, settings, v, k)[i]
                    == dijkstra_table(adj, gateway_ids.to_set(), gateway_ids[g], settings)[v]
                    && hop_candidates(adj, gateway_ids, settings, v, k)[i].previous is Some,
    decreases k,
{
    if k > 0 {
        let km = (k - 1) as nat;
        lemma_hop_candidates_facts(adj, gateway_ids, settings, v, km);
        let earlier = hop_candidates(adj, gateway_ids, settings, v, km);
        let e = dijkstra_table(adj, gateway_ids.to_set(), gateway_ids[k - 1], settings)[v];
        let now = hop_candidates(adj, gateway_ids, settings, v, k);
        if e.previous is Some && !earlier.contains(e) {
            lemma_sorted_insert_sorted(earlier, e);
            assert forall|i: int| 0 <= i < now.len() implies exists|g: int|
                0 <= g < k && #[trigger] now[i] == dijkstra_table(
                    adj,
                    gateway_ids.to_set(),
                    gateway_ids[g],
                    settings,
                )[v] && now[i].previous is Some by {
                if now[i] == e {
                    assert(0 <= k - 1 < k);
                } else {
                    let m = earlier.index_of(now[i]);
                    assert(earlier[m] == now[i]);
                }
            };
        }
    }
}

/// Within each next-hop list, the records that the entries are drawn from
/// come in ascending order of composite cost.
pub proof fn lemma_next_hops_sorted_by_cost(
    adj: Map<NodeId, Map<NodeId, EdgeWeight>>,
    gateway_ids: Seq<NodeId>,
    settings: AppSettings,
    v: NodeId,
)
    ensures
        next_hops(adj, gateway_ids, settings).contains_key(v) ==> next_hops(
            adj,
            gateway_ids,
            settings,
        )[v] == hop_candidates(adj, gateway_ids, settings, v, gateway_ids.len()).map_values(
            |e: RouteRecord| e.previous.unwrap(),
        ),
        sorted_by_cost(hop_candidates(adj, gateway_ids, settings, v, gateway_ids.len())),
{
    lemma_hop_candidates_facts(adj, gateway_ids, settings, v, gateway_ids.len());
}

/// Gateways are only sinks: no gateway has a next-hop list, and a gateway
/// is named in the list of a node only as the last hop, when it hears that
/// node over a usable link.
pub proof fn lemma_gateways_are_sinks(
    adj: Map<NodeId, Map<NodeId, EdgeWeight>>,
    gateway_ids: Seq<NodeId>,
    settings: AppSettings,
    v: NodeId,
    i: int,
)
    requires
        next_hops(adj, gateway_ids, settings).contains_key(v),
        0 <= i < next_hops(adj, gateway_ids, settings)[v].len(),
    ensures
        !gateway_ids.contains(v),
        gateway_ids.contains(next_hops(adj, gateway_ids, settings)[v][i]) ==> {
            let g = next_hops(adj, gateway_ids, settings)[v][i];
            &&& adj.contains_key(g)
            &&& adj[g].contains_key(v)
            &&& adj[g][v] is Some
        },
{
    let c = hop_candidates(adj, gateway_ids, settings, v, gateway_ids.len());
    lemma_hop_candidates_facts(adj, gateway_ids, settings, v, gateway_ids.len());
    assert(0 <= i < c.len());
    let g = choose|g: int|
        0 <= g < gateway_ids.len() && #[trigger] c[i] == dijkstra_table(
            adj,
            gateway_ids.to_set(),
            gateway_ids[g],
            settings,
        )[v] && c[i].previous is Some;
    lemma_dijkstra_previous_linked(adj, gateway_ids.to_set(), gateway_ids[g], settings);
    let table = dijkstra_table(adj, gateway_ids.to_set(), gateway_ids[g], settings);
    assert(table.contains_key(v));
}

/// When some gateway is not a receiver of the map, the table is empty.
pub proof fn lemma_unknown_gateway_gives_empty_table(
    adj: Map<NodeId, Map<NodeId, EdgeWeight>>,
    gateway_ids: Seq<NodeId>,
    settings: AppSettings,
    g: NodeId,
)
    requires
        gateway_ids.contains(g),
        !adj.contains_key(g),
    ensures
        next_hops(adj, gateway_ids, settings) == Map::<NodeId, Seq<NodeId>>::empty(),
{
    let k = gateway_ids.index_of(g);
    assert(gateway_ids[k] == g);
}

proof fn lemma_unusable_links_no_candidates(
    adj: Map<NodeId, Map<NodeId, EdgeWeight>>,
    gateway_ids: Seq<NodeId>,
    settings: AppSettings,
    v: NodeId,
    k: nat,
)
    requires
        k <= gateway_ids.len(),
        adj.contains_key(v),
        !gateway_ids.contains(v),
        forall|to: NodeId, from: NodeId|
            adj.contains_key(to) && #[trigger] adj[to].contains_key(from) ==> adj[to][from] is None,
    ensures
        hop_candidates(adj, gateway_ids, settings, v, k).len() == 0,
    decreases k,
{
    if k > 0 {
        lemma_unusable_links_no_candidates(adj, gateway_ids, settings, v, (k - 1) as nat);
        lemma_dijkstra_previous_linked(adj, gateway_ids.to_set(), gateway_ids[k - 1], settings);
        let table = dijkstra_table(adj, gateway_ids.to_set(), gateway_ids[k - 1], settings);
        assert(working_set(adj, gateway_ids.to_set(), gateway_ids[k - 1]).contains(v));
        assert(table[v].previous is None);
    }
}

/// When every link is unusable, no node reaches a gateway and the table is
/// empty.
pub proof fn lemma_unusable_links_give_empty_table(
    adj: Map<NodeId, Map<NodeId, EdgeWeight>>,
    gateway_ids: Seq<NodeId>,
    settings: AppSettings,
)
    requires
        forall|to: NodeId, from: NodeId|
            adj.contains_key(to) && #[trigger] adj[to].contains_key(from) ==> adj[to][from] is None,
    ensures
        next_hops(adj, gateway_ids, settings) == Map::<NodeId, Seq<NodeId>>::empty(),
{
    let m = next_hops(adj, gateway_ids, settings);
    assert forall|v: NodeId| !m.contains_key(v) by {
        if adj.contains_key(v) && !gateway_ids.contains(v) {
            lemma_unusable_links_no_candidates(adj, gateway_ids, settings, v, gateway_ids.len());
        }
    };
    assert(m =~= Map::<NodeId, Seq<NodeId>>::empty());
}


/// Each record that names a previous node extends that node's record by
/// the usable link from it, and that node has been taken already; a record
/// reached without a previous node is the source's.
pub open spec fn records_extend_previous(
    records: Map<NodeId, RouteRecord>,
    unvisited: Set<NodeId>,
    adj: Map<NodeId, Map<NodeId, EdgeWeight>>,
    settings: AppSettings,
    start: NodeId,
) -> bool {
    forall|n: NodeId| #[trigger]
        records.contains_key(n) ==> record_extends_previous(records, unvisited, adj, settings, start, n)
}

/// The facts of `records_extend_previous` for one node.
pub open spec fn record_extends_previous(
    records: Map<NodeId, RouteRecord>,
    unvisited: Set<NodeId>,
    adj: Map<NodeId, Map<NodeId, EdgeWeight>>,
    settings: AppSettings,
    start: NodeId,
    n: NodeId,
) -> bool {
    &&& (records[n].previous matches Some(p) ==> {
        &&& records.contains_key(p)
        &&& !unvisited.contains(p)
        &&& adj.contains_key(p)
        &&& adj[p].contains_key(n)
        &&& adj[p][n] is Some
        &&& records[p].distance is Some
        &&& records[n].distance == Some(records[p].distance.unwrap() + adj[p][n].unwrap())
        &&& records[n].hops == records[p].hops + 1
        &&& records[n].cost == Some(
            route_cost(settings, records[n].distance.unwrap(), records[n].hops as int),
        )
    })
    &&& (records[n].previous is None && records[n].distance is Some) ==> (n == start
        && records[n] == source_record())
}

proof fn lemma_relax_extends_previous(
    records: Map<NodeId, RouteRecord>,
    unvisited: Set<NodeId>,
    adj: Map<NodeId, Map<NodeId, EdgeWeight>>,
    settings: AppSettings,
    start: NodeId,
    u: NodeId,
    n: NodeId,
)
    requires
        records_extend_previous(records, unvisited, adj, settings, start),
        forall|m: NodeId| records.contains_key(m) ==> adj.contains_key(m),
        unvisited.contains(u),
        records.contains_key(u),
        records.contains_key(n),
    ensures
        record_extends_previous(
            relax_from(records, unvisited.remove(u), adj, settings, u),
            unvisited.remove(u),
            adj,
            settings,
            start,
            n,
        ),
{
    let rest = unvisited.remove(u);
    let next = relax_from(records, rest, adj, settings, u);
    let ru = records[u];
    assert(record_extends_previous(records, unvisited, adj, settings, start, n));
    assert(next[u] == relaxed(records, rest, adj, settings, u, u));
    assert(next[u] == records[u]);
    assert(next[n] == relaxed(records, rest, adj, settings, u, n));
    if rest.contains(n) && adj[u].contains_key(n) && adj[u][n] is Some && ru.distance is Some
        && improves(
        route_cost(settings, ru.distance.unwrap() + adj[u][n].unwrap(), (ru.hops + 1) as int),
        records[n].cost,
    ) {
        assert(next[n].previous == Some(u));
        assert(record_extends_previous(records, unvisited, adj, settings, start, u));
        assert(adj.contains_key(u));
    } else {
        assert(next[n] == records[n]);
        if let Some(p) = records[n].previous {
            assert(!unvisited.contains(p));
            assert(p != u);
            assert(next[p] == relaxed(records, rest, adj, settings, u, p));
            assert(next[p] == records[p]);
        }
    }
}

proof fn lemma_run_search_extends_previous(
    records: Map<NodeId, RouteRecord>,
    unvisited: Set<NodeId>,
    adj: Map<NodeId, Map<NodeId, EdgeWeight>>,
    settings: AppSettings,
    start: NodeId,
)
    requires
        records_extend_previous(records, unvisited, adj, settings, start),
        unvisited.subset_of(records.dom()),
        forall|m: NodeId| records.contains_key(m) ==> adj.contains_key(m),
    ensures
        records_extend_previous(
            run_search(records, unvisited, adj, settings),
            Set::empty(),
            adj,
            settings,
            start,
        ),
    decreases unvisited.len(),
{
    if unvisited.finite() && unvisited.len() > 0 && unvisited.contains(
        next_taken(records, unvisited),
    ) {
        let u = next_taken(records, unvisited);
        {
            let rest = unvisited.remove(u);
            let next = relax_from(records, rest, adj, settings, u);
            assert forall|n: NodeId| #[trigger] next.contains_key(n) implies record_extends_previous(
                next,
                rest,
                adj,
                settings,
                start,
                n,
            ) by {
                lemma_relax_extends_previous(records, unvisited, adj, settings, start, u, n);
            };
            assert(next.dom() =~= records.dom());
            lemma_run_search_extends_previous(next, rest, adj, settings, start);
        }
    } else {
        assert forall|n: NodeId| #[trigger] records.contains_key(n) implies record_extends_previous(
            records,
            Set::empty(),
            adj,
            settings,
            start,
            n,
        ) by {
            assert(record_extends_previous(records, unvisited, adj, settings, start, n));
        };
    }
}

/// Every path in a search table leads back to its source: a node reached
/// from another has one hop more than it, and extends its distance by the
/// usable link between them; that other node is the source, or was itself
/// reached from another. Following the previous nodes from any reached node
/// thus arrives at the source, which for a gateway's search is that gateway.
pub proof fn lemma_dijkstra_paths_lead_to_source(
    adj: Map<NodeId, Map<NodeId, EdgeWeight>>,
    gateways: Set<NodeId>,
    start: NodeId,
    settings: AppSettings,
    n: NodeId,
)
    requires
        dijkstra_table(adj, gateways, start, settings).contains_key(n),
        dijkstra_table(adj, gateways, start, settings)[n].previous is Some,
    ensures
        ({
            let table = dijkstra_table(adj, gateways, start, settings);
            let p = table[n].previous.unwrap();
            &&& table.contains_key(p)
            &&& adj[p].contains_key(n)
            &&& adj[p][n] is Some
            &&& table[n].hops == table[p].hops + 1
            &&& table[n].distance == Some(table[p].distance.unwrap() + adj[p][n].unwrap())
            &&& p == start || table[p].previous is Some
        }),
{
    let nodes = working_set(adj, gateways, start);
    let init = initial_records(nodes, start);
    assert(init.dom() =~= nodes);
    lemma_run_search_extends_previous(init, nodes, adj, settings, start);
    let table = dijkstra_table(adj, gateways, start, settings);
    assert(record_extends_previous(table, Set::empty(), adj, settings, start, n));
    let p = table[n].previous.unwrap();
    assert(record_extends_previous(table, Set::empty(), adj, settings, start, p));
}


/// Following previous nodes from `n` in `table` arrives at `start` within
/// `k` steps.
pub open spec fn leads_to(table: Map<NodeId, RouteRecord>, n: NodeId, start: NodeId, k: nat) -> bool
    decreases k,
{
    n == start || (k > 0 && table.contains_key(n) && match table[n].previous {
        Some(p) => leads_to(table, p, start, (k - 1) as nat),
        None => false,
    })
}

proof fn lemma_reached_leads_to_source(
    adj: Map<NodeId, Map<NodeId, EdgeWeight>>,
    gateways: Set<NodeId>,
    start: NodeId,
    settings: AppSettings,
    n: NodeId,
)
    requires
        dijkstra_table(adj, gateways, start, settings).contains_key(n),
        dijkstra_table(adj, gateways, start, settings)[n].previous is Some,
    ensures
        leads_to(
            dijkstra_table(adj, gateways, start, settings),
            n,
            start,
            dijkstra_table(adj, gateways, start, settings)[n].hops,
        ),
    decreases dijkstra_table(adj, gateways, start, settings)[n].hops,
{
    let table = dijkstra_table(adj, gateways, start, settings);
    lemma_dijkstra_paths_lead_to_source(adj, gateways, start, settings, n);
    let p = table[n].previous.unwrap();
    if p != start {
        lemma_reached_leads_to_source(adj, gateways, start, settings, p);
    }
}

/// Every node named in a next-hop list of `v` hears `v` over a usable link
/// and leads on to a gateway: following previous nodes from it in that
/// gateway's search arrives at the gateway.
pub proof fn lemma_next_hops_lead_to_gateways(
    adj: Map<NodeId, Map<NodeId, EdgeWeight>>,
    gateway_ids: Seq<NodeId>,
    settings: AppSettings,
    v: NodeId,
    i: int,
)
    requires
        next_hops(adj, gateway_ids, settings).contains_key(v),
        0 <= i < next_hops(adj, gateway_ids, settings)[v].len(),
    ensures
        ({
            let p = next_hops(adj, gateway_ids, settings)[v][i];
            &&& adj.contains_key(p)
            &&& adj[p].contains_key(v)
            &&& adj[p][v] is Some
            &&& exists|g: int|
                0 <= g < gateway_ids.len() && #[trigger] dijkstra_table(
                    adj,
                    gateway_ids.to_set(),
                    gateway_ids[g],
                    settings,
                ).contains_key(p) && leads_to(
                    dijkstra_table(adj, gateway_ids.to_set(), gateway_ids[g], settings),
                    p,
                    gateway_ids[g],
                    dijkstra_table(adj, gateway_ids.to_set(), gateway_ids[g], settings)[p].hops,
                )
        }),
{
    let c = hop_candidates(adj, gateway_ids, settings, v, gateway_ids.len());
    lemma_hop_candidates_facts(adj, gateway_ids, settings, v, gateway_ids.len());
    assert(0 <= i < c.len());
    let g = choose|g: int|
        0 <= g < gateway_ids.len() && #[trigger] c[i] == dijkstra_table(
            adj,
            gateway_ids.to_set(),
            gateway_ids[g],
            settings,
        )[v] && c[i].previous is Some;
    let start = gateway_ids[g];
    let table = dijkstra_table(adj, gateway_ids.to_set(), start, settings);
    lemma_dijkstra_previous_linked(adj, gateway_ids.to_set(), start, settings);
    assert(table.contains_key(v));
    lemma_dijkstra_paths_lead_to_source(adj, gateway_ids.to_set(), start, settings, v);
    let p = table[v].previous.unwrap();
    assert(next_hops(adj, gateway_ids, settings)[v][i] == p);
    if p != start {
        lemma_reached_leads_to_source(adj, gateway_ids.to_set(), start, settings, p);
    }
    assert(leads_to(table, p, start, table[p].hops));
}

} // verus!
