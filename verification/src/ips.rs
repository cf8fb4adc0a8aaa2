//! Intelligent Peer Sharing: the state bundle that flows between phases,
//! the security phase (island detection, integrity probe and repair) and
//! the MCDA phase that revises every node's peer list.

use vstd::prelude::*;

use crate::config::{GeoLocationMode, IPSConfiguration};
use crate::graph_utils::{linked_in, Bridges};
use crate::statistics::sum_u32;
use crate::nodes::{conns_valid, symmetric_adjacency, Addr, Node};
use crate::normalization::NormalizationFactors;
use crate::peer::Peer;
use crate::UNIT;

verus! {

/// The Intelligent Peer Sharing module: the algorithm parameterized by its
/// configuration.
pub struct Ips {
    /// The run configuration.
    config: IPSConfiguration,
}

/// Snapshot of all derived data over a node set at some point of the run.
pub struct IpsState {
    /// Nodes present in the network.
    pub nodes: Vec<Node>,
    /// Peer list for each node in the network.
    pub peer_list: Vec<Peer>,
    /// Degree of each node, indexed like `nodes`.
    pub degrees: Vec<u32>,
    /// Eigenvector centrality of each node in millionths, indexed like
    /// `nodes`.
    pub eigenvalues: Vec<i64>,
    /// Degree factors used for normalization (over degrees in millionths).
    pub degree_factors: NormalizationFactors,
    /// Betweenness factors used for normalization.
    pub betweenness_factors: NormalizationFactors,
    /// Closeness factors used for normalization.
    pub closeness_factors: NormalizationFactors,
    /// Eigenvector factors used for normalization.
    pub eigenvector_factors: NormalizationFactors,
}

/// Working unit of the MCDA sorting and filtering: an address, the node's
/// index in the state, and its rating in millionths.
#[derive(Clone, Copy, PartialEq, Eq, Structural, Debug)]
pub struct PeerEntry {
    /// Address of the peer.
    pub addr: Addr,
    /// Index of the peer in the state's node vector.
    pub index: usize,
    /// Rating of the peer, in millionths.
    pub rating: i64,
}

/// Well-formedness of a state: the parallel vectors agree in length, the
/// connections point inside the vector, and every stored value lies within
/// its normalization range (so scaling it stays within [0, UNIT]).
pub open spec fn state_wf(state: IpsState) -> bool {
    &&& state.nodes@.len() > 0
    &&& state.degrees@.len() == state.nodes@.len()
    &&& state.eigenvalues@.len() == state.nodes@.len()
    &&& conns_valid(state.nodes@)
    &&& state.degree_factors.min <= state.degree_factors.max
    &&& state.betweenness_factors.min <= state.betweenness_factors.max
    &&& state.closeness_factors.min <= state.closeness_factors.max
    &&& state.eigenvector_factors.min <= state.eigenvector_factors.max
    &&& forall|i: int|
        0 <= i < state.nodes@.len() ==> state.degree_factors.min <= (#[trigger] state.degrees@[i])
            * UNIT <= state.degree_factors.max
    &&& forall|i: int|
        0 <= i < state.nodes@.len() ==> state.betweenness_factors.min <= (#[trigger] state.nodes@[
        i ]).betweenness <= state.betweenness_factors.max
    &&& forall|i: int|
        0 <= i < state.nodes@.len() ==> state.closeness_factors.min <= (#[trigger] state.nodes@[
        i ]).closeness <= state.closeness_factors.max
    &&& forall|i: int|
        0 <= i < state.nodes@.len() ==> state.eigenvector_factors.min <= (
        #[trigger] state.eigenvalues@[i]) <= state.eigenvector_factors.max
}

impl Ips {
    /// A module ready to run with the given configuration.
    pub fn new(config: IPSConfiguration) -> (r: Ips)
        ensures
            r@.geolocation == config.geolocation,
            r@.geolocation_minmax_distance_km == config.geolocation_minmax_distance_km,
            r@.change_at_least == config.change_at_least,
            r@.change_no_more == config.change_no_more,
            r@.bridge_threshold_adjustment == config.bridge_threshold_adjustment,
            r@.mcda_weights == config.mcda_weights,
    {
        Ips { config }
    }
}

/// The mathematical value of the configuration an `Ips` carries (the
/// fields the algorithm reads).
pub ghost struct IpsConfigView {
    /// Whether and how location enters the rating.
    pub geolocation: crate::config::GeoLocationMode,
    /// The max (or min) distance in km between peers.
    pub geolocation_minmax_distance_km: u32,
    /// How many peers at least must be changed for each node.
    pub change_at_least: u32,
    /// How many peers at most may be changed for each node.
    pub change_no_more: u32,
    /// Adjustment factor for bridge detection, in millionths.
    pub bridge_threshold_adjustment: i64,
    /// Multi-criteria analysis weights.
    pub mcda_weights: crate::config::MultiCriteriaAnalysisWeights,
}

impl View for Ips {
    type V = IpsConfigView;

    closed spec fn view(&self) -> IpsConfigView {
        IpsConfigView {
            geolocation: self.config.geolocation,
            geolocation_minmax_distance_km: self.config.geolocation_minmax_distance_km,
            change_at_least: self.config.change_at_least,
            change_no_more: self.config.change_no_more,
            bridge_threshold_adjustment: self.config.bridge_threshold_adjustment,
            mcda_weights: self.config.mcda_weights,
        }
    }
}

/// Errors of the peer-sharing pipeline.
#[derive(Clone, Copy, PartialEq, Eq, Structural, Debug)]
pub enum IpsError {
    /// More than one massive island: merging long-diverged partitions is
    /// refused.
    MultipleMassiveIslands,
    /// A normalization series was empty (an empty node list).
    EmptySeries,
}

/// How many entries of the series are true.
pub open spec fn count_true(s: Seq<bool>) -> int
    decreases s.len(),
{
    if s.len() == 0 {
        0
    } else {
        count_true(s.drop_last()) + if s.last() {
            1int
        } else {
            0int
        }
    }
}

/// The count of true entries never exceeds the length.
pub proof fn lemma_count_true_bound(s: Seq<bool>)
    ensures
        0 <= count_true(s) <= s.len(),
    decreases s.len(),
{
    if s.len() > 0 {
        lemma_count_true_bound(s.drop_last());
    }
}

/// Setting a false entry to true increases the count by one.
pub proof fn lemma_count_true_update(s: Seq<bool>, i: int)
    requires
        0 <= i < s.len(),
        !s[i],
    ensures
        count_true(s.update(i, true)) == count_true(s) + 1,
    decreases s.len(),
{
    if i == s.len() - 1 {
        assert(s.update(i, true).drop_last() =~= s.drop_last());
    } else {
        assert(s.update(i, true).drop_last() =~= s.drop_last().update(i, true));
        lemma_count_true_update(s.drop_last(), i);
    }
}


/// A walk through the adjacency: consecutive entries are adjacent and all
/// entries are valid vertices.
pub open spec fn path_ok(nodes: Seq<Node>, p: Seq<usize>) -> bool {
    &&& p.len() > 0
    &&& forall|t: int| 0 <= t < p.len() ==> ((#[trigger] p[t]) as int) < nodes.len()
    &&& forall|t: int|
        0 <= t < p.len() - 1 ==> crate::graph_utils::spec_adj(
            nodes,
            (#[trigger] p[t]) as int,
            p[t + 1] as int,
        )
}

/// Some walk joins `a` to `b`.
#[verifier::opaque]
pub open spec fn connected_in(nodes: Seq<Node>, a: usize, b: usize) -> bool {
    exists|p: Seq<usize>| #[trigger] path_ok(nodes, p) && p.first() == a && p.last() == b
}

/// Every vertex is joined to itself.
pub proof fn lemma_connected_self(nodes: Seq<Node>, a: usize)
    requires
        (a as int) < nodes.len(),
    ensures
        connected_in(nodes, a, a),
{
    reveal(connected_in);
    let p: Seq<usize> = seq![a];
    assert(path_ok(nodes, p));
    assert(p.first() == a && p.last() == a);
}

/// A walk extends along an edge.
pub proof fn lemma_connected_step(nodes: Seq<Node>, a: usize, b: usize, c: usize)
    requires
        connected_in(nodes, a, b),
        crate::graph_utils::spec_adj(nodes, b as int, c as int),
    ensures
        connected_in(nodes, a, c),
{
    reveal(connected_in);
    let p = choose|p: Seq<usize>| #[trigger] path_ok(nodes, p) && p.first() == a && p.last() == b;
    let q = p.push(c);
    assert(path_ok(nodes, q)) by {
        assert(forall|t: int| 0 <= t < p.len() ==> q[t] == #[trigger] p[t]);
        assert(q[p.len() as int] == c);
        assert forall|t: int|
            0 <= t < q.len() - 1 implies crate::graph_utils::spec_adj(
            nodes,
            (#[trigger] q[t]) as int,
            q[t + 1] as int,
        ) by {
            if t == p.len() - 1 {
                assert(q[t] == p.last());
            }
        }
    }
    assert(q.first() == a && q.last() == c);
}

/// No edge leaves an island: every neighbor of a member is a member of
/// the same island.
pub open spec fn islands_closed(islands: Seq<Vec<usize>>, nodes: Seq<Node>) -> bool {
    forall|a: int, m: int, y: int|
        0 <= a < islands.len() && 0 <= m < islands[a]@.len() && #[trigger] crate::graph_utils::spec_adj(
            nodes,
            islands[a]@[m] as int,
            y,
        ) ==> islands[a]@.contains(y as usize)
}

/// Some island holds the vertex.
pub open spec fn in_islands(islands: Seq<Vec<usize>>, v: usize) -> bool {
    exists|a: int, x: int|
        0 <= a < islands.len() && 0 <= x < islands[a]@.len() && islands[a]@[x] == v
}

/// Every island member is a valid vertex index.
pub open spec fn islands_valid(islands: Seq<Vec<usize>>, n: int) -> bool {
    forall|a: int, x: int|
        0 <= a < islands.len() && 0 <= x < islands[a]@.len() ==> ((#[trigger] islands[a]@[x]) as int)
            < n
}

/// No vertex appears twice, within one island or across two.
pub open spec fn islands_disjoint(islands: Seq<Vec<usize>>) -> bool {
    forall|a: int, b: int, x: int, y: int|
        #![trigger islands[a]@[x], islands[b]@[y]]
        0 <= a < islands.len() && 0 <= b < islands.len() && 0 <= x < islands[a]@.len() && 0 <= y
            < islands[b]@.len() && (a != b || x != y) ==> islands[a]@[x] != islands[b]@[y]
}

/// Every vertex lies in some island.
pub open spec fn islands_cover(islands: Seq<Vec<usize>>, n: int) -> bool {
    forall|v: usize| (v as int) < n ==> #[trigger] in_islands(islands, v)
}

impl Ips {
    /// Detect the islands (connected components) of the adjacency by
    /// repeated breadth-first search: the returned islands partition the
    /// vertex set.
    pub fn detect_islands(&self, nodes: &Vec<Node>) -> (r: Vec<Vec<usize>>)
        requires
            conns_valid(nodes@),
        ensures
            islands_valid(r@, nodes@.len() as int),
            islands_disjoint(r@),
            islands_cover(r@, nodes@.len() as int),
            forall|a: int| 0 <= a < r@.len() ==> (#[trigger] r@[a])@.len() > 0,
            forall|a: int, m: int|
                0 <= a < r@.len() && 0 <= m < r@[a]@.len() ==> connected_in(
                    nodes@,
                    r@[a]@[0],
                    #[trigger] r@[a]@[m],
                ),
            symmetric_adjacency(nodes@) ==> islands_closed(r@, nodes@),
    {
        let n = nodes.len();
        let mut islands: Vec<Vec<usize>> = Vec::new();
        let mut visited: Vec<bool> = Vec::new();
        let mut s: usize = 0;
        while s < n
            invariant
                0 <= s <= n,
                visited@.len() == s,
                forall|v: int| 0 <= v < s ==> !(#[trigger] visited@[v]),
            decreases n - s,
        {
            visited.push(false);
            s += 1;
        }
        let mut i: usize = 0;
        while i < n
            invariant
                0 <= i <= n,
                n == nodes@.len(),
                conns_valid(nodes@),
                visited@.len() == n,
                islands_valid(islands@, n as int),
                islands_disjoint(islands@),
                forall|a: int| 0 <= a < islands@.len() ==> (#[trigger] islands@[a])@.len() > 0,
                forall|v: usize|
                    (v as int) < n ==> ((#[trigger] visited@[v as int]) <==> in_islands(
                        islands@,
                        v,
                    )),
                forall|v: int| 0 <= v < i ==> #[trigger] visited@[v],
                forall|a: int, m: int|
                    0 <= a < islands@.len() && 0 <= m < islands@[a]@.len() ==> connected_in(
                        nodes@,
                        islands@[a]@[0],
                        #[trigger] islands@[a]@[m],
                    ),
                symmetric_adjacency(nodes@) ==> islands_closed(islands@, nodes@),
            decreases n - i,
        {
            if !visited[i] {
                let mut island: Vec<usize> = Vec::new();
                let mut queue: Vec<usize> = Vec::new();
                queue.push(i);
                let mut qh: usize = 0;
                proof {
                    lemma_count_true_bound(visited@);
                    lemma_connected_self(nodes@, i);
                }
                while qh < queue.len()
                    invariant
                        0 <= qh <= queue@.len(),
                        0 <= i < n,
                        n == nodes@.len(),
                        conns_valid(nodes@),
                        visited@.len() == n,
                        islands_valid(islands@, n as int),
                        islands_disjoint(islands@),
                        forall|a: int|
                            0 <= a < islands@.len() ==> (#[trigger] islands@[a])@.len() > 0,
                        forall|x: int|
                            0 <= x < queue@.len() ==> ((#[trigger] queue@[x]) as int) < n,
                        forall|x: int|
                            0 <= x < island@.len() ==> ((#[trigger] island@[x]) as int) < n,
                        forall|x: int, y: int|
                            #![trigger island@[x], island@[y]]
                            0 <= x < island@.len() && 0 <= y < island@.len() && x != y ==> island@[x]
                                != island@[y],
                        forall|x: int|
                            0 <= x < island@.len() ==> !in_islands(islands@, #[trigger] island@[x]),
                        forall|v: usize|
                            (v as int) < n ==> ((#[trigger] visited@[v as int]) <==> in_islands(
                                islands@,
                                v,
                            ) || island@.contains(v)),
                        queue@.len() >= 1,
                        forall|v: int| 0 <= v < i ==> #[trigger] visited@[v],
                        !in_islands(islands@, i as usize),
                        qh == 0 ==> island@.len() == 0 && queue@[0] == i && !visited@[i as int],
                        island@.len() == 0 ==> qh == 0,
                        qh > 0 ==> visited@[i as int],
                        count_true(visited@) <= n as int,
                        forall|a: int, m: int|
                            0 <= a < islands@.len() && 0 <= m < islands@[a]@.len() ==> connected_in(
                                nodes@,
                                islands@[a]@[0],
                                #[trigger] islands@[a]@[m],
                            ),
                        symmetric_adjacency(nodes@) ==> islands_closed(islands@, nodes@),
                        forall|qi: int|
                            0 <= qi < queue@.len() ==> connected_in(
                                nodes@,
                                i,
                                #[trigger] queue@[qi],
                            ),
                        forall|m: int|
                            0 <= m < island@.len() ==> connected_in(
                                nodes@,
                                i,
                                #[trigger] island@[m],
                            ),
                        island@.len() > 0 ==> island@[0] == i,
                        symmetric_adjacency(nodes@) ==> (forall|m: int, y: int|
                            0 <= m < island@.len() && #[trigger] crate::graph_utils::spec_adj(
                                nodes@,
                                island@[m] as int,
                                y,
                            ) ==> visited@[y] || (exists|qi: int|
                                qh <= qi < queue@.len() && (#[trigger] queue@[qi]) == y as usize)),
                    decreases n - count_true(visited@), queue@.len() - qh,
                {
                    let x = queue[qh];
                    let ghost qh0 = qh;
                    let ghost queue0 = queue@;
                    qh += 1;
                    if !visited[x] {
                        let ghost pre_island = island@;
                        let ghost pre_visited = visited@;
                        proof {
                            assert(connected_in(nodes@, i, x)) by {
                                assert(queue@[qh0 as int] == x);
                            }
                        }
                        proof {
                            lemma_count_true_update(visited@, x as int);
                            lemma_count_true_bound(visited@.update(x as int, true));
                        }
                        island.push(x);
                        visited.set(x, true);
                        proof {
                            assert(island@.contains(x)) by {
                                assert(island@[island@.len() - 1] == x);
                            }
                            assert forall|v: usize| #[trigger] island@.contains(v) implies (
                            pre_island.contains(v) || v == x) by {
                                let y = choose|y: int|
                                    0 <= y < island@.len() && island@[y] == v;
                                if y < pre_island.len() {
                                    assert(pre_island[y] == v);
                                }
                            }
                            assert forall|v: usize| pre_island.contains(v) implies
                                island@.contains(v) by {
                                let y = choose|y: int|
                                    0 <= y < pre_island.len() && pre_island[y] == v;
                                assert(island@[y] == v);
                            }
                            assert forall|y: int| 0 <= y < pre_island.len() implies island@[y]
                                != x by {
                                assert(island@[y] == pre_island[y]);
                                assert(pre_island.contains(pre_island[y]));
                                assert(pre_visited[pre_island[y] as int]);
                            }
                            assert(!in_islands(islands@, x)) by {
                                assert(!pre_visited[x as int]);
                            }
                            assert forall|m: int| 0 <= m < island@.len() implies connected_in(
                                nodes@,
                                i,
                                #[trigger] island@[m],
                            ) by {
                                if m < pre_island.len() {
                                    assert(island@[m] == pre_island[m]);
                                } else {
                                    assert(island@[m] == x);
                                }
                            }
                            assert(island@[0] == i) by {
                                if pre_island.len() == 0 {
                                    assert(qh0 == 0);
                                    assert(x == i);
                                } else {
                                    assert(island@[0] == pre_island[0]);
                                }
                            }
                        }
                        let node = &nodes[x];
                        let ghost vmark = visited@;
                        let mut j: usize = 0;
                        while j < node.connections.len()
                            invariant
                                0 <= j <= node.connections@.len(),
                                0 <= x < n,
                                (i as int) < n,
                                n == nodes@.len(),
                                conns_valid(nodes@),
                                node == &nodes[x as int],
                                visited@.len() == n,
                                visited@ == vmark,
                                qh <= queue@.len(),
                                queue@.len() >= 1,
                                queue@.len() >= queue0.len(),
                                forall|qi: int|
                                    0 <= qi < queue0.len() ==> #[trigger] queue@[qi] == queue0[qi],
                                connected_in(nodes@, i, x),
                                forall|y: int|
                                    0 <= y < queue@.len() ==> ((#[trigger] queue@[y]) as int) < n,
                                forall|qi: int|
                                    0 <= qi < queue@.len() ==> connected_in(
                                        nodes@,
                                        i,
                                        #[trigger] queue@[qi],
                                    ),
                                forall|j2: int|
                                    0 <= j2 < j ==> visited@[node.connections@[j2] as int] || (
                                    exists|qi: int|
                                        qh <= qi < queue@.len() && (#[trigger] queue@[qi])
                                            == node.connections@[j2]),
                            decreases node.connections@.len() - j,
                        {
                            let c = node.connections[j];
                            proof {
                                assert(nodes@[x as int].connections@[j as int] == c);
                            }
                            if !visited[c] {
                                let ghost pre_q = queue@;
                                queue.push(c);
                                proof {
                                    assert(nodes@[x as int].connections@.contains(c)) by {
                                        assert(nodes@[x as int].connections@[j as int] == c);
                                    }
                                    assert(crate::graph_utils::spec_adj(
                                        nodes@,
                                        x as int,
                                        c as int,
                                    ));
                                    lemma_connected_step(nodes@, i, x, c);
                                    assert(queue@[pre_q.len() as int] == c);
                                    assert forall|j2: int| 0 <= j2 < j + 1 implies visited@[
                                    node.connections@[j2] as int ] || (exists|qi: int|
                                        qh <= qi < queue@.len() && (#[trigger] queue@[qi])
                                            == node.connections@[j2]) by {
                                        if j2 == j {
                                            assert(queue@[pre_q.len() as int]
                                                == node.connections@[j2]);
                                        } else if !visited@[node.connections@[j2] as int] {
                                            let qi = choose|qi: int|
                                                qh <= qi < pre_q.len() && (#[trigger] pre_q[qi])
                                                    == node.connections@[j2];
                                            assert(queue@[qi] == node.connections@[j2]);
                                        }
                                    }
                                }
                            } else {
                                proof {
                                    assert(visited@[node.connections@[j as int] as int]);
                                }
                            }
                            j += 1;
                        }
                        proof {
                            if symmetric_adjacency(nodes@) {
                                assert forall|m: int, y: int|
                                    0 <= m < island@.len()
                                        && #[trigger] crate::graph_utils::spec_adj(
                                        nodes@,
                                        island@[m] as int,
                                        y,
                                    ) implies (visited@[y] || (exists|qi: int|
                                    qh <= qi < queue@.len() && (#[trigger] queue@[qi])
                                        == y as usize)) by {
                                    let w = island@[m];
                                    if w == x {
                                        assert(crate::graph_utils::spec_adj(
                                            nodes@,
                                            x as int,
                                            y,
                                        ));
                                        assert(nodes@[x as int].connections@.contains(
                                            y as usize,
                                        )) by {
                                            if !nodes@[x as int].connections@.contains(
                                                y as usize,
                                            ) {
                                                assert(nodes@[y].connections@.contains(x));
                                            }
                                        }
                                        let j2 = choose|j2: int|
                                            0 <= j2 < nodes@[x as int].connections@.len()
                                                && nodes@[x as int].connections@[j2] == (
                                            y as usize);
                                        assert(visited@[nodes@[x as int].connections@[j2] as int]
                                            || (exists|qi: int|
                                            qh <= qi < queue@.len() && (#[trigger] queue@[qi])
                                                == nodes@[x as int].connections@[j2]));
                                    } else {
                                        assert(m < pre_island.len() && island@[m]
                                            == pre_island[m]);
                                        if !pre_visited[y] {
                                            let qi = choose|qi: int|
                                                qh0 <= qi < queue0.len() && (#[trigger] queue0[qi])
                                                    == y as usize;
                                            if qi == qh0 {
                                                assert(queue0[qh0 as int] == x);
                                                assert(y as usize == x);
                                                assert(visited@[y]);
                                            } else {
                                                assert(queue@[qi] == queue0[qi]);
                                            }
                                        } else {
                                            assert(visited@[y]);
                                        }
                                    }
                                }
                            }
                        }
                    }
                }
                proof {
                    assert(visited@[i as int]);
                    assert(island@.contains(i));
                    assert(island@.len() > 0);
                }
                let ghost pre_islands = islands@;
                islands.push(island);
                proof {
                    assert forall|v: usize| (v as int) < n implies ((#[trigger] visited@[v as int])
                        <==> in_islands(islands@, v)) by {
                        let isl = islands@[pre_islands.len() as int];
                        if in_islands(islands@, v) {
                            let (a, y) = choose|a: int, y: int|
                                0 <= a < islands@.len() && 0 <= y < islands@[a]@.len()
                                    && islands@[a]@[y] == v;
                            if a < pre_islands.len() {
                                assert(in_islands(pre_islands, v)) by {
                                    assert(pre_islands[a]@[y] == v);
                                }
                            } else {
                                assert(isl@.contains(v)) by {
                                    assert(isl@[y] == v);
                                }
                            }
                        }
                        if visited@[v as int] {
                            if in_islands(pre_islands, v) {
                                let (a, y) = choose|a: int, y: int|
                                    0 <= a < pre_islands.len() && 0 <= y < pre_islands[a]@.len()
                                        && pre_islands[a]@[y] == v;
                                assert(islands@[a]@[y] == v);
                                assert(in_islands(islands@, v));
                            } else {
                                let y = choose|y: int| 0 <= y < isl@.len() && isl@[y] == v;
                                assert(islands@[pre_islands.len() as int]@[y] == v);
                                assert(in_islands(islands@, v));
                            }
                        }
                    }
                    assert forall|a: int, b: int, x: int, y: int|
                        0 <= a < islands@.len() && 0 <= b < islands@.len() && 0 <= x < islands@[
                        a ]@.len() && 0 <= y < islands@[b]@.len() && (a != b || x != y) implies
                        #[trigger] islands@[a]@[x] != #[trigger] islands@[b]@[y] by {
                        if a < pre_islands.len() && b < pre_islands.len() {
                            assert(pre_islands[a]@[x] != pre_islands[b]@[y]);
                        } else if a < pre_islands.len() && b == pre_islands.len() {
                            assert(!in_islands(pre_islands, islands@[b]@[y]));
                            assert(pre_islands[a]@[x] == islands@[a]@[x]);
                            if islands@[a]@[x] == islands@[b]@[y] {
                                assert(in_islands(pre_islands, islands@[b]@[y])) by {
                                    assert(pre_islands[a]@[x] == islands@[b]@[y]);
                                }
                            }
                        } else if a == pre_islands.len() && b < pre_islands.len() {
                            assert(!in_islands(pre_islands, islands@[a]@[x]));
                            if islands@[a]@[x] == islands@[b]@[y] {
                                assert(in_islands(pre_islands, islands@[a]@[x])) by {
                                    assert(pre_islands[b]@[y] == islands@[a]@[x]);
                                }
                            }
                        }
                    }
                    assert forall|a2: int, m2: int|
                        0 <= a2 < islands@.len() && 0 <= m2 < islands@[a2]@.len() implies
                        connected_in(nodes@, islands@[a2]@[0], #[trigger] islands@[a2]@[m2]) by {
                        if a2 < pre_islands.len() {
                            assert(islands@[a2] == pre_islands[a2]);
                        } else {
                            assert(islands@[a2]@[0] == i);
                            assert(connected_in(nodes@, i, islands@[a2]@[m2]));
                        }
                    }
                    if symmetric_adjacency(nodes@) {
                        assert forall|a2: int, m2: int, y: int|
                            0 <= a2 < islands@.len() && 0 <= m2 < islands@[a2]@.len()
                                && #[trigger] crate::graph_utils::spec_adj(
                                nodes@,
                                islands@[a2]@[m2] as int,
                                y,
                            ) implies islands@[a2]@.contains(y as usize) by {
                            if a2 < pre_islands.len() {
                                assert(islands@[a2] == pre_islands[a2]);
                                assert(crate::graph_utils::spec_adj(
                                    nodes@,
                                    pre_islands[a2]@[m2] as int,
                                    y,
                                ));
                                assert(pre_islands[a2]@.contains(y as usize));
                            } else {
                                let w = islands@[a2]@[m2];
                                assert(visited@[y]);
                                if in_islands(pre_islands, y as usize) {
                                    let (a3, m3) = choose|a3: int, m3: int|
                                        0 <= a3 < pre_islands.len() && 0 <= m3 < pre_islands[
                                        a3 ]@.len() && pre_islands[a3]@[m3] == y as usize;
                                    assert(crate::graph_utils::spec_adj(
                                        nodes@,
                                        pre_islands[a3]@[m3] as int,
                                        w as int,
                                    ));
                                    assert(pre_islands[a3]@.contains(w));
                                    let m4 = choose|m4: int|
                                        0 <= m4 < pre_islands[a3]@.len() && pre_islands[a3]@[m4]
                                            == w;
                                    assert(in_islands(pre_islands, w));
                                    assert(!in_islands(pre_islands, w));
                                    assert(false);
                                }
                                assert(islands@[a2]@.contains(y as usize));
                            }
                        }
                    }
                }
            }
            i += 1;
        }
        proof {
            assert forall|v: usize| (v as int) < nodes@.len() implies #[trigger] in_islands(
                islands@,
                v,
            ) by {
                assert(visited@[v as int]);
            }
        }
        islands
    }
}

/// The massive-island threshold: a tenth of the node count, rounded.
pub open spec fn spec_massive_threshold(n: int) -> int {
    (n + 5) / 10
}

/// How many of the first `upto` islands are massive for a network of `n`
/// nodes.
pub open spec fn count_massive(islands: Seq<Vec<usize>>, n: int, upto: int) -> int
    decreases upto,
{
    if upto <= 0 {
        0
    } else {
        count_massive(islands, n, upto - 1) + if islands[upto - 1]@.len() > spec_massive_threshold(
            n,
        ) {
            1int
        } else {
            0int
        }
    }
}

/// A tenth of the node count, rounded: islands above this size count as
/// massive.
pub fn massive_threshold(total: usize) -> (r: usize)
    ensures
        r == spec_massive_threshold(total as int),
{
    let t: u128 = (total as u128 + 5) / 10;
    t as usize
}

/// Count the islands that hold more than a tenth of the network.
pub fn count_massive_islands(islands: &Vec<Vec<usize>>, total: usize) -> (r: usize)
    ensures
        r == count_massive(islands@, total as int, islands@.len() as int),
{
    let threshold = massive_threshold(total);
    let mut r: usize = 0;
    let mut a: usize = 0;
    while a < islands.len()
        invariant
            0 <= a <= islands@.len(),
            threshold == spec_massive_threshold(total as int),
            r == count_massive(islands@, total as int, a as int),
            0 <= r <= a,
        decreases islands@.len() - a,
    {
        if islands[a].len() > threshold {
            r += 1;
        }
        a += 1;
    }
    r
}

/// The number of node-adjacencies of `i` among the first `upto` vertices.
pub open spec fn degree_count(nodes: Seq<Node>, i: int, upto: int) -> int
    decreases upto,
{
    if upto <= 0 {
        0
    } else {
        degree_count(nodes, i, upto - 1) + if crate::graph_utils::spec_adj(nodes, i, upto - 1) {
            1int
        } else {
            0int
        }
    }
}

/// The degree of node `i`: how many vertices it is adjacent to (itself
/// included when it carries a self-connection).
pub open spec fn spec_degree(nodes: Seq<Node>, i: int) -> int {
    degree_count(nodes, i, nodes.len() as int)
}

/// A degree never exceeds the number of vertices counted.
pub proof fn lemma_degree_count_bound(nodes: Seq<Node>, i: int, upto: int)
    requires
        upto >= 0,
    ensures
        0 <= degree_count(nodes, i, upto) <= upto,
    decreases upto,
{
    if upto > 0 {
        lemma_degree_count_bound(nodes, i, upto - 1);
    }
}

/// Compute every node's degree from the adjacency.
pub fn compute_degrees(nodes: &Vec<Node>) -> (r: Vec<u32>)
    requires
        nodes@.len() <= u32::MAX,
    ensures
        r@.len() == nodes@.len(),
        forall|i: int| 0 <= i < nodes@.len() ==> (#[trigger] r@[i]) == spec_degree(nodes@, i),
{
    let n = nodes.len();
    let mut r: Vec<u32> = Vec::new();
    let mut i: usize = 0;
    while i < n
        invariant
            0 <= i <= n,
            n == nodes@.len(),
            n <= u32::MAX,
            r@.len() == i,
            forall|k: int| 0 <= k < i ==> (#[trigger] r@[k]) == spec_degree(nodes@, k),
        decreases n - i,
    {
        let mut count: u32 = 0;
        let mut j: usize = 0;
        while j < n
            invariant
                0 <= j <= n,
                0 <= i < n,
                n == nodes@.len(),
                n <= u32::MAX,
                count == degree_count(nodes@, i as int, j as int),
                0 <= count <= j,
            decreases n - j,
        {
            let fwd = crate::nodes::contains_usize(&nodes[i].connections, j);
            let bwd = crate::nodes::contains_usize(&nodes[j].connections, i);
            if fwd || bwd {
                count += 1;
            }
            j += 1;
        }
        r.push(count);
        proof {
            lemma_degree_count_bound(nodes@, i as int, n as int);
        }
        i += 1;
    }
    r
}

/// Everything `generate_state` promises of a produced state, relative to
/// the node list and the eigenvector centralities it was built from.
pub open spec fn generated_state_ok(nodes: Seq<Node>, eig: Seq<i64>, state: IpsState) -> bool {
    &&& state_wf(state)
    &&& crate::nodes::nodes_equal(state.nodes@, nodes)
    &&& state.degrees@.len() == nodes.len()
    &&& forall|i: int|
        0 <= i < nodes.len() ==> (#[trigger] state.degrees@[i]) == spec_degree(nodes, i)
    &&& state.eigenvalues@ == eig
    &&& crate::normalization::factors_of(state.degree_factors, degrees_micros(state.degrees@))
    &&& crate::normalization::factors_of(
        state.betweenness_factors,
        crate::nodes::betweenness_series(nodes),
    )
    &&& crate::normalization::factors_of(
        state.closeness_factors,
        crate::nodes::closeness_series(nodes),
    )
    &&& crate::normalization::factors_of(state.eigenvector_factors, eig)
    &&& state.peer_list@.len() == nodes.len()
    &&& forall|i: int|
        0 <= i < nodes.len() ==> crate::peer::peer_record_ok(
            nodes[i],
            nodes,
            #[trigger] state.peer_list@[i],
        )
}

/// A degree series scaled into fixed-point millionths.
pub open spec fn degrees_micros(degrees: Seq<u32>) -> Seq<i64> {
    degrees.map_values(|d: u32| (d * (UNIT as u32 as int)) as i64)
}

impl Ips {
    /// Assemble a state bundle from a node list and its eigenvector
    /// centralities: degrees, the four normalization factors and the
    /// seeded peer list. Fails exactly on an empty node list.
    pub fn generate_state(&self, nodes: &Vec<Node>, eigenvalues: &Vec<i64>) -> (r: Result<
        IpsState,
        IpsError,
    >)
        requires
            conns_valid(nodes@),
            nodes@.len() <= u32::MAX,
            eigenvalues@.len() == nodes@.len(),
        ensures
            r is Ok <==> nodes@.len() > 0,
            r matches Ok(state) ==> generated_state_ok(nodes@, eigenvalues@, state),
    {
        if nodes.len() == 0 {
            return Err(IpsError::EmptySeries);
        }
        let state_nodes = crate::nodes::clone_nodes(nodes);
        let degrees = compute_degrees(nodes);
        let eig = crate::clone_i64_vec(eigenvalues);
        let n = nodes.len();

        let mut deg_micros: Vec<i64> = Vec::new();
        let mut betw: Vec<i64> = Vec::new();
        let mut close: Vec<i64> = Vec::new();
        let mut i: usize = 0;
        while i < n
            invariant
                0 <= i <= n,
                n == nodes@.len(),
                degrees@.len() == n,
                deg_micros@.len() == i,
                betw@ == crate::nodes::betweenness_series(nodes@.take(i as int)),
                close@ == crate::nodes::closeness_series(nodes@.take(i as int)),
                forall|k: int|
                    0 <= k < i ==> (#[trigger] deg_micros@[k]) == (degrees@[k] * (
                    UNIT as u32 as int)) as i64,
            decreases n - i,
        {
            proof {
                assert(crate::nodes::betweenness_series(nodes@.take(i as int + 1))
                    =~= crate::nodes::betweenness_series(nodes@.take(i as int)).push(
                    nodes@[i as int].betweenness,
                ));
                assert(crate::nodes::closeness_series(nodes@.take(i as int + 1))
                    =~= crate::nodes::closeness_series(nodes@.take(i as int)).push(
                    nodes@[i as int].closeness,
                ));
            }
            deg_micros.push((degrees[i] as i64) * UNIT);
            betw.push(nodes[i].betweenness);
            close.push(nodes[i].closeness);
            i += 1;
        }
        proof {
            assert(nodes@.take(n as int) =~= nodes@);
            assert(crate::nodes::betweenness_series(nodes@.take(n as int))
                =~= crate::nodes::betweenness_series(nodes@));
            assert(crate::nodes::closeness_series(nodes@.take(n as int))
                =~= crate::nodes::closeness_series(nodes@));
            assert(deg_micros@ =~= degrees_micros(degrees@));
        }

        let degree_factors = match NormalizationFactors::determine(&deg_micros) {
            Some(f) => f,
            None => {
                proof {
                    assert(false);
                }
                return Err(IpsError::EmptySeries);
            },
        };
        let betweenness_factors = match NormalizationFactors::determine(&betw) {
            Some(f) => f,
            None => {
                proof {
                    assert(false);
                }
                return Err(IpsError::EmptySeries);
            },
        };
        let closeness_factors = match NormalizationFactors::determine(&close) {
            Some(f) => f,
            None => {
                proof {
                    assert(false);
                }
                return Err(IpsError::EmptySeries);
            },
        };
        let eigenvector_factors = match NormalizationFactors::determine(&eig) {
            Some(f) => f,
            None => {
                proof {
                    assert(false);
                }
                return Err(IpsError::EmptySeries);
            },
        };
        let peer_list = Peer::generate_all_peerlists(nodes);
        let state = IpsState {
            nodes: state_nodes,
            peer_list,
            degrees,
            eigenvalues: eig,
            degree_factors,
            betweenness_factors,
            closeness_factors,
            eigenvector_factors,
        };
        proof {
            assert(conns_valid(state.nodes@)) by {
                assert forall|a: int, k: int|
                    0 <= a < state.nodes@.len() && 0 <= k < state.nodes@[a].connections@.len()
                    implies ((#[trigger] state.nodes@[a].connections@[k]) as int)
                    < state.nodes@.len() by {
                    assert(state.nodes@[a]@ == nodes@[a]@);
                    assert(state.nodes@[a].connections@ == nodes@[a].connections@);
                }
            }
            assert(state_wf(state)) by {
                assert forall|k: int| 0 <= k < state.nodes@.len() implies state.degree_factors.min
                    <= ((#[trigger] state.degrees@[k]) * UNIT) <= state.degree_factors.max by {
                    assert(degrees_micros(state.degrees@)[k] == (state.degrees@[k] * (
                    UNIT as u32 as int)) as i64);
                    lemma_degree_count_bound(nodes@, k, nodes@.len() as int);
                }
                assert forall|k: int| 0 <= k < state.nodes@.len() implies
                    state.betweenness_factors.min <= (#[trigger] state.nodes@[k]).betweenness
                    <= state.betweenness_factors.max by {
                    assert(state.nodes@[k]@ == nodes@[k]@);
                    assert(crate::nodes::betweenness_series(nodes@)[k] == nodes@[k].betweenness);
                }
                assert forall|k: int| 0 <= k < state.nodes@.len() implies
                    state.closeness_factors.min <= (#[trigger] state.nodes@[k]).closeness
                    <= state.closeness_factors.max by {
                    assert(state.nodes@[k]@ == nodes@[k]@);
                    assert(crate::nodes::closeness_series(nodes@)[k] == nodes@[k].closeness);
                }
            }
        }
        Ok(state)
    }
}

/// The common scale-up factor of the MCDA: every normalized factor is
/// stretched to [0, 100] before weighting.
pub const NORMALIZE_TO_VALUE: i64 = 100;

/// Full location rating (100), in millionths.
pub const LOCATION_FULL: i64 = 100_000_000;

/// Two thirds of the full location rating, in millionths.
pub const LOCATION_TWO_THIRDS: i64 = 66_666_666;

/// Half of the full location rating, in millionths.
pub const LOCATION_HALF: i64 = 50_000_000;

/// One third of the full location rating, in millionths.
pub const LOCATION_ONE_THIRD: i64 = 33_333_333;

/// The largest constant rating a node can reach: four factors, each at
/// most 100 units, with weights of at most 1000 units.
pub const RATING_CONST_CAP: i64 = 400_000_000_000;

/// The largest total rating after the location boost.
pub const RATING_FULL_CAP: i64 = 500_000_000_000;

/// A rating value (in millionths) weighted by a fixed-point weight.
pub open spec fn spec_weighted(value: int, weight: i64) -> int {
    (value * weight) / (UNIT as int)
}

/// The rating contribution of one normalized factor: the scaled value
/// stretched to [0, 100] and weighted.
pub open spec fn spec_contribution(scale: int, weight: i64) -> int {
    spec_weighted(scale * NORMALIZE_TO_VALUE, weight)
}

/// A weighted in-range value stays within a tenth of the full cap.
pub proof fn lemma_weighted_bounds(value: int, weight: i64)
    requires
        0 <= value <= 100_000_000,
        0 <= weight <= 1_000_000_000,
    ensures
        0 <= spec_weighted(value, weight) <= 100_000_000_000,
{
    assert(value * weight >= 0) by (nonlinear_arith)
        requires
            value >= 0 && weight >= 0,
    ;
    assert(value * weight <= 100_000_000_000int * 1_000_000int) by (nonlinear_arith)
        requires
            0 <= value <= 100_000_000,
            0 <= weight <= 1_000_000_000,
    ;
    vstd::arithmetic::div_mod::lemma_div_pos_is_pos(value * weight, UNIT as int);
    vstd::arithmetic::div_mod::lemma_div_is_ordered(
        value * weight,
        100_000_000_000int * 1_000_000int,
        UNIT as int,
    );
    vstd::arithmetic::div_mod::lemma_div_multiples_vanish(100_000_000_000int, UNIT as int);
    assert(100_000_000_000int * 1_000_000int == (UNIT as int) * 100_000_000_000int)
        by (nonlinear_arith);
}

/// Weight a rating value: `value * weight / UNIT`, exact in fixed point.
pub fn weighted(value: i64, weight: i64) -> (r: i64)
    requires
        0 <= value <= 100_000_000,
        0 <= weight <= 1_000_000_000,
    ensures
        r == spec_weighted(value as int, weight),
        0 <= r <= 100_000_000_000,
{
    proof {
        lemma_weighted_bounds(value as int, weight);
    }
    let num: u128 = (value as u128) * (weight as u128);
    let q: u128 = num / (UNIT as u128);
    q as i64
}

/// The location rating of a candidate at the given great-circle distance
/// (in meters), relative to the configured threshold distance (in km).
pub open spec fn spec_location_rating(mode: GeoLocationMode, d: u64, km: u32) -> int {
    let dm = (km as int) * 1000;
    if mode == GeoLocationMode::PreferCloser {
        if (d as int) < dm {
            LOCATION_FULL as int
        } else if (d as int) < 2 * dm {
            LOCATION_TWO_THIRDS as int
        } else if (d as int) < 3 * dm {
            LOCATION_ONE_THIRD as int
        } else {
            0
        }
    } else if mode == GeoLocationMode::PreferDistant {
        if 2 * (d as int) < dm {
            0
        } else if (d as int) < dm {
            LOCATION_HALF as int
        } else {
            LOCATION_FULL as int
        }
    } else {
        0
    }
}

/// Map a distance to its location rating level.
pub fn location_rating(mode: GeoLocationMode, distance_m: u64, minmax_km: u32) -> (r: i64)
    ensures
        r == spec_location_rating(mode, distance_m, minmax_km),
        0 <= r <= 100_000_000,
{
    let dm: u64 = (minmax_km as u64) * 1000;
    match mode {
        GeoLocationMode::PreferCloser => {
            if distance_m < dm {
                LOCATION_FULL
            } else if (distance_m as u128) < 2 * (dm as u128) {
                LOCATION_TWO_THIRDS
            } else if (distance_m as u128) < 3 * (dm as u128) {
                LOCATION_ONE_THIRD
            } else {
                0
            }
        },
        GeoLocationMode::PreferDistant => {
            if 2 * (distance_m as u128) < dm as u128 {
                0
            } else if distance_m < dm {
                LOCATION_HALF
            } else {
                LOCATION_FULL
            }
        },
        GeoLocationMode::Off => 0,
    }
}

/// The node at index `i` carries the same data as the given node.
pub open spec fn node_matches(state: IpsState, node: Node, i: int) -> bool {
    &&& 0 <= i < state.nodes@.len()
    &&& state.nodes@[i]@ == node@
}

/// The constant rating of the node at index `i`: the weighted sum of its
/// four normalized centrality factors, each stretched to [0, 100].
pub open spec fn spec_rate_node(cfg: IpsConfigView, state: IpsState, i: int) -> int {
    spec_contribution(
        state.degree_factors.spec_scale((state.degrees@[i] * (UNIT as u32 as int)) as i64),
        cfg.mcda_weights.degree,
    ) + spec_contribution(
        state.betweenness_factors.spec_scale(state.nodes@[i].betweenness),
        cfg.mcda_weights.betweenness,
    ) + spec_contribution(
        state.closeness_factors.spec_scale(state.nodes@[i].closeness),
        cfg.mcda_weights.closeness,
    ) + spec_contribution(
        state.eigenvector_factors.spec_scale(state.eigenvalues@[i]),
        cfg.mcda_weights.eigenvector,
    )
}

impl Ips {
    /// Rate a node of the state: the weighted sum of its normalized
    /// degree, betweenness, closeness and eigenvector factors, each
    /// stretched to [0, 100].
    pub fn rate_node(&self, node: &Node, state: &IpsState) -> (r: i64)
        requires
            state_wf(*state),
            crate::nodes::distinct_addrs(state.nodes@),
            crate::config::weights_bounded(self@.mcda_weights),
            exists|i: int| node_matches(*state, *node, i),
        ensures
            forall|i: int| node_matches(*state, *node, i) ==> r == spec_rate_node(self@, *state, i),
            0 <= r <= RATING_CONST_CAP,
    {
        let ghost iw = choose|i: int| node_matches(*state, *node, i);
        let n = state.nodes.len();
        let mut k: usize = 0;
        while k < n
            invariant
                0 <= k <= n,
                n == state.nodes@.len(),
                state_wf(*state),
                crate::nodes::distinct_addrs(state.nodes@),
                crate::config::weights_bounded(self@.mcda_weights),
                node_matches(*state, *node, iw),
                forall|m: int| 0 <= m < k ==> (#[trigger] state.nodes@[m]).addr != node.addr,
            decreases n - k,
        {
            if crate::peer::addr_eq(&state.nodes[k].addr, &node.addr) {
                proof {
                    if k as int != iw {
                        assert(state.nodes@[k as int].addr == state.nodes@[iw].addr);
                        assert(false);
                    }
                }
                let r = self.rate_node_at(k, state);
                return r;
            }
            k += 1;
        }
        proof {
            assert(state.nodes@[iw].addr != node.addr);
            assert(false);
        }
        0
    }

    /// Rate the node at a known index.
    fn rate_node_at(&self, i: usize, state: &IpsState) -> (r: i64)
        requires
            state_wf(*state),
            crate::config::weights_bounded(self@.mcda_weights),
            i < state.nodes@.len(),
        ensures
            r == spec_rate_node(self@, *state, i as int),
            0 <= r <= RATING_CONST_CAP,
    {
        let degree_micros = (state.degrees[i] as i64) * UNIT;
        let s_deg = state.degree_factors.scale(degree_micros);
        let s_bet = state.betweenness_factors.scale(state.nodes[i].betweenness);
        let s_clo = state.closeness_factors.scale(state.nodes[i].closeness);
        let s_eig = state.eigenvector_factors.scale(state.eigenvalues[i]);
        let c_deg = weighted(s_deg * NORMALIZE_TO_VALUE, self.config.mcda_weights.degree);
        let c_bet = weighted(s_bet * NORMALIZE_TO_VALUE, self.config.mcda_weights.betweenness);
        let c_clo = weighted(s_clo * NORMALIZE_TO_VALUE, self.config.mcda_weights.closeness);
        let c_eig = weighted(s_eig * NORMALIZE_TO_VALUE, self.config.mcda_weights.eigenvector);
        c_deg + c_bet + c_clo + c_eig
    }

    /// The constant rating of every node, as MCDA working entries.
    pub fn calculate_const_factors(&self, state: &IpsState) -> (r: Vec<PeerEntry>)
        requires
            state_wf(*state),
            crate::nodes::distinct_addrs(state.nodes@),
            crate::config::weights_bounded(self@.mcda_weights),
        ensures
            r@.len() == state.nodes@.len(),
            forall|i: int|
                0 <= i < state.nodes@.len() ==> (#[trigger] r@[i]).addr == state.nodes@[i].addr
                    && r@[i].index == i && r@[i].rating == spec_rate_node(self@, *state, i) && 0
                    <= r@[i].rating <= RATING_CONST_CAP,
    {
        let n = state.nodes.len();
        let mut r: Vec<PeerEntry> = Vec::new();
        let mut i: usize = 0;
        while i < n
            invariant
                0 <= i <= n,
                n == state.nodes@.len(),
                state_wf(*state),
                crate::config::weights_bounded(self@.mcda_weights),
                r@.len() == i,
                forall|m: int|
                    0 <= m < i ==> (#[trigger] r@[m]).addr == state.nodes@[m].addr && r@[m].index
                        == m && r@[m].rating == spec_rate_node(self@, *state, m) && 0 <= r@[
                    m ].rating <= RATING_CONST_CAP,
            decreases n - i,
        {
            let rating = self.rate_node_at(i, state);
            r.push(PeerEntry { addr: state.nodes[i].addr, index: i, rating });
            i += 1;
        }
        r
    }

    /// Add the location contribution to every candidate's rating, given
    /// the distances from the selected node (absent where either end has
    /// no geolocation). Without a geolocation on the selected node nothing
    /// changes.
    pub fn update_rating_by_location(
        &self,
        selected_node: &Node,
        nodes: &Vec<Node>,
        ratings: &mut Vec<PeerEntry>,
        distances: &Vec<Option<u64>>,
    )
        requires
            old(ratings)@.len() == nodes@.len(),
            distances@.len() == nodes@.len(),
            crate::config::weights_bounded(self@.mcda_weights),
            forall|k: int|
                0 <= k < nodes@.len() ==> 0 <= (#[trigger] old(ratings)@[k]).rating
                    <= RATING_CONST_CAP,
        ensures
            final(ratings)@.len() == nodes@.len(),
            forall|k: int|
                0 <= k < nodes@.len() ==> (#[trigger] final(ratings)@[k]).index == old(ratings)@[k].index && final(ratings)@[k].addr == old(ratings)@[k].addr,
            forall|k: int|
                0 <= k < nodes@.len() ==> (#[trigger] final(ratings)@[k]).rating == old(ratings)@[k].rating + (if selected_node.geolocation is Some && distances@[k] is Some {
                    spec_weighted(
                        spec_location_rating(
                            self@.geolocation,
                            distances@[k]->0,
                            self@.geolocation_minmax_distance_km,
                        ),
                        self@.mcda_weights.location,
                    )
                } else {
                    0
                }),
            forall|k: int|
                0 <= k < nodes@.len() ==> 0 <= (#[trigger] final(ratings)@[k]).rating
                    <= RATING_FULL_CAP,
    {
        if selected_node.geolocation.is_none() {
            return ;
        }
        let n = nodes.len();
        let mut k: usize = 0;
        while k < n
            invariant
                0 <= k <= n,
                n == nodes@.len(),
                ratings@.len() == n,
                distances@.len() == n,
                selected_node.geolocation is Some,
                crate::config::weights_bounded(self@.mcda_weights),
                forall|m: int|
                    0 <= m < n ==> (#[trigger] ratings@[m]).index == old(ratings)@[m].index
                        && ratings@[m].addr == old(ratings)@[m].addr,
                forall|m: int|
                    k <= m < n ==> (#[trigger] ratings@[m]).rating == old(ratings)@[m].rating,
                forall|m: int|
                    0 <= m < n ==> 0 <= (#[trigger] old(ratings)@[m]).rating <= RATING_CONST_CAP,
                forall|m: int|
                    0 <= m < k ==> (#[trigger] ratings@[m]).rating == old(ratings)@[m].rating + (
                    if distances@[m] is Some {
                        spec_weighted(
                            spec_location_rating(
                                self@.geolocation,
                                distances@[m]->0,
                                self@.geolocation_minmax_distance_km,
                            ),
                            self@.mcda_weights.location,
                        )
                    } else {
                        0
                    }),
                forall|m: int| 0 <= m < k ==> 0 <= (#[trigger] ratings@[m]).rating <= RATING_FULL_CAP,
        decreases n - k,
        {
            match distances[k] {
                Some(d) => {
                    let level = location_rating(
                        self.config.geolocation,
                        d,
                        self.config.geolocation_minmax_distance_km,
                    );
                    let boost = weighted(level, self.config.mcda_weights.location);
                    let entry = &mut ratings[k];
                    entry.rating = entry.rating + boost;
                },
                None => {},
            }
            k += 1;
        }
    }
}


/// The location boost candidate `k` receives while node `u` is processed,
/// given the distance row handed in for `u` (empty when location is off).
pub open spec fn spec_loc_boost(
    cfg: IpsConfigView,
    w: IpsState,
    row: Seq<Option<u64>>,
    u: int,
    k: int,
) -> int {
    if cfg.geolocation != GeoLocationMode::Off && row.len() == w.nodes@.len() && w.nodes@[
        u
    ].geolocation is Some && row[k] is Some {
        spec_weighted(
            spec_location_rating(cfg.geolocation, row[k]->0, cfg.geolocation_minmax_distance_km),
            cfg.mcda_weights.location,
        )
    } else {
        0
    }
}

/// The full rating of candidate `k` while node `u` is processed: constant
/// rating plus location boost.
pub open spec fn spec_full_rating(
    cfg: IpsConfigView,
    w: IpsState,
    row: Seq<Option<u64>>,
    u: int,
    k: int,
) -> int {
    spec_rate_node(cfg, w, k) + spec_loc_boost(cfg, w, row, u, k)
}

/// `e` is the MCDA working entry of candidate `k` while `u` is processed.
pub open spec fn is_entry_for(
    cfg: IpsConfigView,
    w: IpsState,
    row: Seq<Option<u64>>,
    u: int,
    k: int,
    e: PeerEntry,
) -> bool {
    &&& e.index == k
    &&& e.addr == w.nodes@[k].addr
    &&& e.rating == spec_full_rating(cfg, w, row, u, k)
}

/// How many peers a node must drop: its degree surplus over the desired
/// degree (or the configured minimum), capped by the configured maximum.
pub open spec fn spec_delete_quota(cfg: IpsConfigView, desired: int, degree: int) -> int {
    let raw = if desired < degree {
        degree - desired
    } else {
        cfg.change_at_least as int
    };
    if raw > cfg.change_no_more {
        cfg.change_no_more as int
    } else {
        raw
    }
}

/// How many peers a node may add: its degree deficit plus the drop quota
/// (or the configured minimum), capped by the configured maximum.
pub open spec fn spec_add_quota(cfg: IpsConfigView, desired: int, degree: int) -> int {
    let raw = if desired > degree {
        desired - degree + spec_delete_quota(cfg, desired, degree)
    } else {
        cfg.change_at_least as int
    };
    if raw > cfg.change_no_more {
        cfg.change_no_more as int
    } else {
        raw
    }
}

/// The indices, in ascending order, of the candidates among the first
/// `upto` nodes that pass the pool filters.
pub open spec fn cand_indices(
    cfg: IpsConfigView,
    w: IpsState,
    pre: Seq<Node>,
    u: int,
    upto: int,
) -> Seq<int>
    decreases upto,
{
    if upto <= 0 {
        Seq::empty()
    } else {
        let rest = cand_indices(cfg, w, pre, u, upto - 1);
        if cand_filter_ok(cfg, w, pre, u, upto - 1) {
            rest.push(upto - 1)
        } else {
            rest
        }
    }
}

/// The candidate filter of the MCDA phase, over the final state `pre`.
pub open spec fn cand_filter_ok(
    cfg: IpsConfigView,
    w: IpsState,
    pre: Seq<Node>,
    u: int,
    k: int,
) -> bool {
    let flen = pre[k].connections@.len() as int;
    let wlen = w.nodes@[k].connections@.len() as int;
    &&& flen < wlen
    &&& (if flen >= wlen {
        flen - wlen
    } else {
        wlen - flen
    }) <= cfg.change_no_more
    &&& k != u
}

/// The candidate list is pinned: one entry per passing index, in order.
pub open spec fn cands_pinned(
    cfg: IpsConfigView,
    w: IpsState,
    row: Seq<Option<u64>>,
    pre: Seq<Node>,
    u: int,
    upto: int,
    cands: Seq<PeerEntry>,
) -> bool {
    let ci = cand_indices(cfg, w, pre, u, upto);
    &&& cands.len() == ci.len()
    &&& forall|m: int| 0 <= m < ci.len() ==> is_entry_for(cfg, w, row, u, ci[m], #[trigger] cands[m])
}

/// Ratings are sorted highest first.
pub open spec fn sorted_desc_rating(s: Seq<PeerEntry>) -> bool {
    forall|p: int, q: int| 0 <= p < q < s.len() ==> (#[trigger] s[p]).rating >= (#[trigger] s[q]).rating
}

/// Entries are sorted by the betweenness of the node they point at,
/// lowest first.
pub open spec fn sorted_asc_betweenness(w: IpsState, s: Seq<PeerEntry>) -> bool {
    forall|p: int, q: int|
        0 <= p < q < s.len() ==> w.nodes@[(#[trigger] s[p]).index as int].betweenness <= w.nodes@[
            (#[trigger] s[q]).index as int
        ].betweenness
}

/// The drop phase of the MCDA decision: walk the rating-sorted peers from
/// the lowest up, removing each examined peer unless it is a bridge, until
/// the quota is consumed.
pub open spec fn drop_walk(sorted: Seq<PeerEntry>, b: Bridges, u: int, quota: int) -> Seq<
    PeerEntry,
>
    decreases sorted.len(),
{
    if sorted.len() == 0 || quota <= 0 {
        sorted
    } else {
        let rest = drop_walk(sorted.drop_last(), b, u, quota - 1);
        if b.linked(sorted.last().index as int, u) {
            rest.push(sorted.last())
        } else {
            rest
        }
    }
}

/// A pool candidate is not yet connected to `u` in either direction of
/// the final state.
pub open spec fn spec_pool_ok(pre: Seq<Node>, u: int, x: PeerEntry) -> bool {
    &&& !pre[x.index as int].connections@.contains(u as usize)
    &&& !pre[u].connections@.contains(x.index)
}

/// The add-phase shortlist: the first `cap` not-yet-connected entries of
/// the rating-sorted candidates.
pub open spec fn pool_take(s: Seq<PeerEntry>, pre: Seq<Node>, u: int, cap: int) -> Seq<PeerEntry>
    decreases s.len(),
{
    if s.len() == 0 || cap <= 0 {
        Seq::empty()
    } else {
        if spec_pool_ok(pre, u, s.first()) {
            seq![s.first()] + pool_take(s.drop_first(), pre, u, cap - 1)
        } else {
            pool_take(s.drop_first(), pre, u, cap)
        }
    }
}

/// One reciprocal connection: `k`'s list gains `u` exactly when `k` is
/// among the added peers, was not already connected to `u`, and was still
/// under its working degree.
pub open spec fn reciprocal_push(
    pre_conns: Seq<usize>,
    cur_conns: Seq<usize>,
    added: Seq<PeerEntry>,
    u: usize,
    k: int,
    wlen: int,
) -> bool {
    cur_conns == (if has_index(added, k as usize) && !pre_conns.contains(u) && pre_conns.len()
        < wlen {
        pre_conns.push(u)
    } else {
        pre_conns
    })
}

/// Membership of an index in a pushed entry list.
pub proof fn lemma_has_index_push(entries: Seq<PeerEntry>, e: PeerEntry, p: usize)
    ensures
        has_index(entries.push(e), p) <==> (has_index(entries, p) || e.index == p),
{
    if has_index(entries.push(e), p) {
        let k = choose|k: int|
            0 <= k < entries.push(e).len() && (#[trigger] entries.push(e)[k]).index == p;
        if k < entries.len() {
            assert(entries[k].index == p);
        }
    }
    if has_index(entries, p) {
        let k = choose|k: int| 0 <= k < entries.len() && (#[trigger] entries[k]).index == p;
        assert(entries.push(e)[k].index == p);
    }
    if e.index == p {
        assert(entries.push(e)[entries.len() as int].index == p);
    }
}

/// The per-node MCDA decision of the phase, with its three sorted lists
/// (ties in a sort leave the order of equals open) given as witnesses.
pub open spec fn mcda_node_rel_with(
    cfg: IpsConfigView,
    w: IpsState,
    b: Bridges,
    row: Seq<Option<u64>>,
    desired: int,
    u: int,
    pre: Seq<Node>,
    post: Seq<Node>,
    curr0: Seq<PeerEntry>,
    cands0: Seq<PeerEntry>,
    sorted_curr: Seq<PeerEntry>,
    sorted_cands: Seq<PeerEntry>,
    pool_sorted: Seq<PeerEntry>,
) -> bool {
    let n = w.nodes@.len() as int;
    let degree = w.degrees@[u] as int;
    let delq = spec_delete_quota(cfg, desired, degree);
    let addq = spec_add_quota(cfg, desired, degree);
    let dropped = drop_walk(sorted_curr, b, u, delq);
    let pool = pool_take(sorted_cands, pre, u, 2 * addq);
    let added = pool_sorted.take(
        if addq < pool_sorted.len() as int {
            addq
        } else {
            pool_sorted.len() as int
        },
    );
    let curr_final = dropped + added;
    &&& post.len() == pre.len()
    &&& curr0.len() == pre[u].connections@.len()
    &&& forall|m: int|
        0 <= m < curr0.len() ==> is_entry_for(
            cfg,
            w,
            row,
            u,
            pre[u].connections@[m] as int,
            #[trigger] curr0[m],
        )
    &&& cands_pinned(cfg, w, row, pre, u, n, cands0)
    &&& sorted_desc_rating(sorted_curr)
    &&& sorted_curr.to_multiset() == curr0.to_multiset()
    &&& sorted_desc_rating(sorted_cands)
    &&& sorted_cands.to_multiset() == cands0.to_multiset()
    &&& sorted_asc_betweenness(w, pool_sorted)
    &&& pool_sorted.to_multiset() == pool.to_multiset()
    &&& (forall|p: int, q: int|
        0 <= p < q < post[u].connections@.len() ==> (#[trigger] post[u].connections@[p]) < (
        #[trigger] post[u].connections@[q]))
    &&& (forall|x: usize|
        #[trigger] post[u].connections@.contains(x) <==> has_index(curr_final, x) && x != (
        u as usize))
    &&& (forall|k: int|
        0 <= k < n && k != u ==> reciprocal_push(
            pre[k].connections@,
            (#[trigger] post[k]).connections@,
            added,
            u as usize,
            k,
            w.nodes@[k].connections@.len() as int,
        ))
    &&& (forall|k: int| 0 <= k < n ==> node_fields_eq(#[trigger] post[k], pre[k]))
}

/// The per-node MCDA decision of spec 4.6.3: load the node's peers with
/// their ratings, drop the lowest-rated non-bridge peers up to the drop
/// quota, shortlist twice the add quota of the best-rated unconnected
/// candidates, add the lowest-betweenness prefix of that shortlist
/// reciprocally, and rewrite the node's list deduplicated, sorted and
/// self-free.
pub open spec fn mcda_node_rel(
    cfg: IpsConfigView,
    w: IpsState,
    b: Bridges,
    row: Seq<Option<u64>>,
    desired: int,
    u: int,
    pre: Seq<Node>,
    post: Seq<Node>,
) -> bool {
    exists|
        curr0: Seq<PeerEntry>,
        cands0: Seq<PeerEntry>,
        sorted_curr: Seq<PeerEntry>,
        sorted_cands: Seq<PeerEntry>,
        pool_sorted: Seq<PeerEntry>,
    |
        #[trigger] mcda_node_rel_with(
            cfg,
            w,
            b,
            row,
            desired,
            u,
            pre,
            post,
            curr0,
            cands0,
            sorted_curr,
            sorted_cands,
            pool_sorted,
        )
}

/// Membership in a pushed sequence: the old members plus the new element.
pub proof fn lemma_push_contains(s: Seq<usize>, y: usize, x: usize)
    ensures
        s.push(y).contains(x) <==> (s.contains(x) || x == y),
{
    if s.push(y).contains(x) {
        let k = choose|k: int| 0 <= k < s.push(y).len() && s.push(y)[k] == x;
        if k < s.len() {
            assert(s[k] == x);
        }
    }
    if s.contains(x) {
        let k = choose|k: int| 0 <= k < s.len() && s[k] == x;
        assert(s.push(y)[k] == x);
    }
    if x == y {
        assert(s.push(y)[s.len() as int] == x);
    }
}

/// Append one connection to the node at `i`, leaving everything else
/// untouched.
pub fn add_connection(nodes: &mut Vec<Node>, i: usize, c: usize)
    requires
        i < old(nodes)@.len(),
    ensures
        final(nodes)@.len() == old(nodes)@.len(),
        final(nodes)@[i as int].connections@ == old(nodes)@[i as int].connections@.push(c),
        final(nodes)@[i as int].addr == old(nodes)@[i as int].addr,
        final(nodes)@[i as int].network_type == old(nodes)@[i as int].network_type,
        final(nodes)@[i as int].betweenness == old(nodes)@[i as int].betweenness,
        final(nodes)@[i as int].closeness == old(nodes)@[i as int].closeness,
        final(nodes)@[i as int].geolocation == old(nodes)@[i as int].geolocation,
        forall|k: int|
            0 <= k < old(nodes)@.len() && k != i ==> (#[trigger] final(nodes)@[k])@ == old(nodes)@[k]@,
    {
    let node = &mut nodes[i];
    node.connections.push(c);
}

/// Keep every element of the list except the given one, in order.
pub fn retain_ne(v: &Vec<usize>, drop: usize) -> (r: Vec<usize>)
    ensures
        r@ == v@.filter(crate::graph_utils::ne_fn(drop)),
        forall|k: int| 0 <= k < r@.len() ==> v@.contains(#[trigger] r@[k]),
{
    let ghost pred = crate::graph_utils::ne_fn(drop);
    let mut r: Vec<usize> = Vec::new();
    let mut i: usize = 0;
    while i < v.len()
        invariant
            0 <= i <= v@.len(),
            r@ == v@.take(i as int).filter(crate::graph_utils::ne_fn(drop)),
            forall|k: int| 0 <= k < r@.len() ==> v@.contains(#[trigger] r@[k]),
        decreases v@.len() - i,
    {
        let x = v[i];
        let ghost pred = crate::graph_utils::ne_fn(drop);
        let ghost tk = v@.take(i as int);
        proof {
            broadcast use vstd::seq_lib::group_filter_ensures;

            assert(v@.take(i as int + 1) =~= tk.push(v@[i as int]));
            tk.lemma_filter_push(v@[i as int], pred);
            assert(v@.contains(v@[i as int]));
        }
        if x != drop {
            r.push(x);
        }
        i += 1;
    }
    proof {
        assert(v@.take(v@.len() as int) =~= v@);
    }
    r
}

impl Ips {
    /// Probe the network's integrity: remove (on a clone) the tenth of the
    /// nodes with the highest betweenness and look for massive islands. If
    /// the probe fragments the network, repair the original state by
    /// connecting, for each removed node, its two lowest-betweenness
    /// neighbors, and report `false`; otherwise report `true` and leave
    /// the state untouched. Adjacency symmetry and validity are
    /// preserved, and `check_fix_ok` ties the verdict to the probe run
    /// and the repair to the recorded removals.
    pub fn check_and_fix_integrity_upon_removal(&self, state: &mut IpsState) -> (r: bool)
        requires
            state_wf(*old(state)),
            symmetric_adjacency(old(state).nodes@),
        ensures
            state_wf(*final(state)),
            symmetric_adjacency(final(state).nodes@),
            final(state).nodes@.len() == old(state).nodes@.len(),
            forall|i: int|
                0 <= i < old(state).nodes@.len() ==> node_fields_eq(
                    #[trigger] final(state).nodes@[i],
                    old(state).nodes@[i],
                ),
            forall|i: int|
                0 <= i < old(state).nodes@.len() ==> (#[trigger] old(state).nodes@[
                i ].connections@).is_prefix_of(final(state).nodes@[i].connections@),
            r ==> crate::nodes::nodes_equal(final(state).nodes@, old(state).nodes@),
            final(state).degrees@ == old(state).degrees@,
            final(state).eigenvalues@ == old(state).eigenvalues@,
            final(state).degree_factors == old(state).degree_factors,
            final(state).betweenness_factors == old(state).betweenness_factors,
            final(state).closeness_factors == old(state).closeness_factors,
            final(state).eigenvector_factors == old(state).eigenvector_factors,
            check_fix_ok(old(state).nodes@, final(state).nodes@, r),
    {
        let n = state.nodes.len();
        let ghost start = state.nodes@;
        let mut high_betweenness: Vec<i64> = Vec::new();
        let mut i: usize = 0;
        while i < n
            invariant
                0 <= i <= n,
                n == state.nodes@.len(),
                state.nodes@ == start,
                high_betweenness@ == crate::nodes::betweenness_series(state.nodes@.take(i as int)),
            decreases n - i,
        {
            proof {
                assert(crate::nodes::betweenness_series(state.nodes@.take(i as int + 1))
                    =~= crate::nodes::betweenness_series(state.nodes@.take(i as int)).push(
                    state.nodes@[i as int].betweenness,
                ));
            }
            high_betweenness.push(state.nodes[i].betweenness);
            i += 1;
        }
        proof {
            assert(start.take(n as int) =~= start);
            assert(crate::nodes::betweenness_series(start.take(n as int))
                =~= crate::nodes::betweenness_series(start));
        }
        crate::sort::sort_i64(&mut high_betweenness);
        let ghost sorted = high_betweenness@;
        proof {
            assert(sorted == crate::nodes::betweenness_series(start).sort_by(
                crate::sort::i64_leq_fn(),
            ));
            assert(sorted.len() == n) by {
                crate::nodes::betweenness_series(start).lemma_sort_by_ensures(
                    crate::sort::i64_leq_fn(),
                );
                broadcast use vstd::seq_lib::group_to_multiset_ensures;

            }
        }

        let nodes_to_remove = massive_threshold(n);
        proof {
            if n >= 1 {
                vstd::arithmetic::div_mod::lemma_div_multiples_vanish_fancy(n as int - 1, 9, 10);
                vstd::arithmetic::div_mod::lemma_div_is_ordered(
                    n as int + 5,
                    10 * (n as int - 1) + 9,
                    10,
                );
                assert(spec_massive_threshold(n as int) <= n - 1);
            }
        }
        let mut test_nodes = crate::nodes::clone_nodes(&state.nodes);
        proof {
            lemma_nodes_equal_adjacency(test_nodes@, state.nodes@);
        }
        let mut orig_map: Vec<usize> = Vec::new();
        let mut j: usize = 0;
        while j < n
            invariant
                0 <= j <= n,
                orig_map@.len() == j,
                forall|k: int| 0 <= k < j ==> (#[trigger] orig_map@[k]) == k,
            decreases n - j,
        {
            orig_map.push(j);
            j += 1;
        }
        proof {
            assert(orig_map@ =~= identity_map(n as int));
        }
        let mut removed_idx: Vec<usize> = Vec::new();
        let mut b: usize = 0;
        while b < nodes_to_remove
            invariant
                0 <= b <= nodes_to_remove,
                n == old(state).nodes@.len(),
                n >= 1,
                start == old(state).nodes@,
                high_betweenness@ == sorted,
                sorted.len() == n,
                nodes_to_remove == spec_massive_threshold(n as int),
                nodes_to_remove <= n - 1,
                test_nodes@.len() >= n - b,
                conns_valid(test_nodes@),
                symmetric_adjacency(test_nodes@),
                orig_map@.len() == test_nodes@.len(),
                forall|k: int| 0 <= k < orig_map@.len() ==> (#[trigger] orig_map@[k]) < n,
                forall|k: int| 0 <= k < removed_idx@.len() ==> (#[trigger] removed_idx@[k]) < n,
                probe_rel(start, sorted, b as int, test_nodes@, orig_map@, removed_idx@),
            decreases nodes_to_remove - b,
        {
            let value = high_betweenness[n - 1 - b];
            let mut pos: usize = 0;
            let mut found = false;
            let mut idx: usize = 0;
            while pos < test_nodes.len()
                invariant_except_break
                    0 <= pos <= test_nodes@.len(),
                    !found,
                    forall|m: int|
                        0 <= m < pos ==> (#[trigger] test_nodes@[m]).betweenness != value,
                ensures
                    found ==> idx < test_nodes@.len() && test_nodes@[idx as int].betweenness
                        == value && (forall|m: int|
                        0 <= m < idx ==> (#[trigger] test_nodes@[m]).betweenness != value),
                    !found ==> forall|m: int|
                        0 <= m < test_nodes@.len() ==> (#[trigger] test_nodes@[m]).betweenness
                            != value,
                decreases test_nodes@.len() - pos,
            {
                if test_nodes[pos].betweenness == value {
                    found = true;
                    idx = pos;
                    break ;
                }
                pos += 1;
            }
            let ghost pre_nodes_t = test_nodes@;
            let ghost pre_map = orig_map@;
            let ghost pre_rec = removed_idx@;
            if found {
                let orig = orig_map[idx];
                crate::graph_utils::remove_node(&mut test_nodes, idx);
                removed_idx.push(orig);
                orig_map.remove(idx);
                proof {
                    lemma_first_bet_from(pre_nodes_t, value, 0, idx as int);
                }
            } else {
                proof {
                    lemma_first_bet_from(pre_nodes_t, value, 0, pre_nodes_t.len() as int);
                }
            }
            proof {
                assert(sorted[sorted.len() - (b + 1)] == value);
                assert(probe_step_rel(
                    pre_nodes_t,
                    pre_map,
                    value,
                    test_nodes@,
                    orig_map@,
                    pre_rec,
                    removed_idx@,
                ));
                assert(probe_rel(start, sorted, b as int, pre_nodes_t, pre_map, pre_rec));
                lemma_probe_rel_step(
                    start,
                    sorted,
                    b as int + 1,
                    pre_nodes_t,
                    pre_map,
                    pre_rec,
                    test_nodes@,
                    orig_map@,
                    removed_idx@,
                );
            }
            b += 1;
        }

        let islands = self.detect_islands(&test_nodes);
        let massive = count_massive_islands(&islands, test_nodes.len());

        if massive > 1 {
            // The probe fragmented the clone: repair the original state by
            // adding, for each removed node, an edge between its two
            // lowest-betweenness neighbors.
            proof {
                assert(removed_idx@.take(0) =~= Seq::<usize>::empty());
            }
            let mut t: usize = 0;
            while t < removed_idx.len()
                invariant
                    0 <= t <= removed_idx@.len(),
                    n == old(state).nodes@.len(),
                    n > 0,
                    state.nodes@.len() == n,
                    repair_rel(old(state).nodes@, state.nodes@, removed_idx@.take(t as int)),
                    forall|k: int| 0 <= k < removed_idx@.len() ==> (#[trigger] removed_idx@[k]) < n,
                    conns_valid(state.nodes@),
                    symmetric_adjacency(state.nodes@),
                    forall|i2: int|
                        0 <= i2 < n ==> node_fields_eq(
                            #[trigger] state.nodes@[i2],
                            old(state).nodes@[i2],
                        ),
                    forall|i2: int|
                        0 <= i2 < n ==> (#[trigger] old(state).nodes@[i2].connections@).is_prefix_of(
                            state.nodes@[i2].connections@,
                        ),
                    state.degrees@ == old(state).degrees@,
                    state.eigenvalues@ == old(state).eigenvalues@,
                    state.degrees@.len() == n,
                    state.eigenvalues@.len() == n,
                    state.degree_factors == old(state).degree_factors,
                    state.betweenness_factors == old(state).betweenness_factors,
                    state.closeness_factors == old(state).closeness_factors,
                    state.eigenvector_factors == old(state).eigenvector_factors,
                    state_wf(*state),
                decreases removed_idx@.len() - t,
            {
                let node_idx = removed_idx[t];
                let conns = crate::nodes::clone_usize_vec(&state.nodes[node_idx].connections);
                let node_a_idx = crate::graph_utils::find_lowest_betweenness(&conns, state);
                let conns_rest = retain_ne(&conns, node_a_idx);
                let node_b_idx = crate::graph_utils::find_lowest_betweenness(&conns_rest, state);
                let ghost pre = state.nodes@;
                proof {
                    assert((node_a_idx as int) < n) by {
                        if conns@.len() > 0 {
                            let m = choose|m: int|
                                {
                                    &&& 0 <= m < conns@.len()
                                    &&& #[trigger] conns@[m] == node_a_idx
                                    &&& forall|k: int|
                                        0 <= k < conns@.len() ==> pre[node_a_idx as int].betweenness
                                            <= pre[#[trigger] conns@[k] as int].betweenness
                                    &&& forall|k: int|
                                        0 <= k < m ==> pre[#[trigger] conns@[k] as int].betweenness
                                            > pre[node_a_idx as int].betweenness
                                };
                        }
                    }
                    assert((node_b_idx as int) < n) by {
                        if conns_rest@.len() > 0 {
                            let m = choose|m: int|
                                {
                                    &&& 0 <= m < conns_rest@.len()
                                    &&& #[trigger] conns_rest@[m] == node_b_idx
                                    &&& forall|k: int|
                                        0 <= k < conns_rest@.len() ==> pre[
                                            node_b_idx as int
                                        ].betweenness <= pre[
                                        #[trigger] conns_rest@[k] as int ].betweenness
                                    &&& forall|k: int|
                                        0 <= k < m ==> pre[
                                        #[trigger] conns_rest@[k] as int ].betweenness > pre[
                                            node_b_idx as int
                                        ].betweenness
                                };
                            assert(conns@.contains(conns_rest@[m]));
                        }
                    }
                }
                add_connection(&mut state.nodes, node_a_idx, node_b_idx);
                add_connection(&mut state.nodes, node_b_idx, node_a_idx);
                proof {
                    lemma_two_pushes_symmetric(
                        pre,
                        state.nodes@,
                        node_a_idx,
                        node_b_idx,
                    );
                    assert(conns@ == pre[node_idx as int].connections@);
                    assert(node_a_idx == crate::graph_utils::spec_lowest(pre, conns@));
                    assert(conns_rest@ == conns@.filter(crate::graph_utils::ne_fn(node_a_idx)));
                    assert(node_b_idx == crate::graph_utils::spec_lowest(pre, conns_rest@));
                    assert(repair_step_rel(pre, state.nodes@, node_idx));
                    lemma_repair_rel_step(
                        old(state).nodes@,
                        pre,
                        state.nodes@,
                        removed_idx@.take(t as int),
                        node_idx,
                    );
                    assert(removed_idx@.take(t as int).push(node_idx) =~= removed_idx@.take(
                        t as int + 1,
                    ));
                    assert forall|i2: int| 0 <= i2 < n implies (#[trigger] old(state).nodes@[
                    i2 ].connections@).is_prefix_of(state.nodes@[i2].connections@) by {
                        assert(old(state).nodes@[i2].connections@.is_prefix_of(
                            pre[i2].connections@,
                        ));
                        assert(pre[i2].connections@.is_prefix_of(state.nodes@[i2].connections@));
                    }
                }
                t += 1;
            }
            proof {
                assert(removed_idx@.take(removed_idx@.len() as int) =~= removed_idx@);
                assert(repair_rel(old(state).nodes@, state.nodes@, removed_idx@));
                assert(probe_rel(
                    old(state).nodes@,
                    sorted,
                    spec_massive_threshold(n as int),
                    test_nodes@,
                    orig_map@,
                    removed_idx@,
                ));
                assert(check_fix_ok(old(state).nodes@, state.nodes@, false));
            }
            return false;
        }
        proof {
            assert(state.nodes@ == old(state).nodes@);
            assert(probe_rel(
                old(state).nodes@,
                sorted,
                spec_massive_threshold(n as int),
                test_nodes@,
                orig_map@,
                removed_idx@,
            ));
            assert(count_massive(islands@, test_nodes@.len() as int, islands@.len() as int) <= 1);
            assert(check_fix_ok(old(state).nodes@, state.nodes@, true));
        }
        true
    }
}


/// The identity index map over `n` positions.
pub open spec fn identity_map(n: int) -> Seq<usize> {
    Seq::new(n as nat, |i: int| i as usize)
}

/// The first position at or after `k` whose node carries the given
/// betweenness; the length when there is none.
pub open spec fn first_bet_from(nodes: Seq<Node>, value: i64, k: int) -> int
    decreases nodes.len() - k,
{
    if k < 0 || k >= nodes.len() {
        nodes.len() as int
    } else if nodes[k].betweenness == value {
        k
    } else {
        first_bet_from(nodes, value, k + 1)
    }
}

/// A scan that saw no hit before `idx` and a hit at `idx` (or none at all)
/// pins the first hit.
pub proof fn lemma_first_bet_from(nodes: Seq<Node>, value: i64, k: int, idx: int)
    requires
        0 <= k <= idx <= nodes.len(),
        forall|m: int| k <= m < idx ==> (#[trigger] nodes[m]).betweenness != value,
        idx < nodes.len() ==> nodes[idx].betweenness == value,
    ensures
        first_bet_from(nodes, value, k) == if idx < nodes.len() {
            idx
        } else {
            nodes.len() as int
        },
    decreases idx - k,
{
    if k < idx {
        lemma_first_bet_from(nodes, value, k + 1, idx);
    }
}

/// One probe step for one betweenness value: the first node carrying it
/// is removed (and its original index recorded); no carrier, no change.
pub open spec fn probe_step_rel(
    pre: Seq<Node>,
    pre_map: Seq<usize>,
    value: i64,
    post: Seq<Node>,
    post_map: Seq<usize>,
    pre_rec: Seq<usize>,
    post_rec: Seq<usize>,
) -> bool {
    let idx = first_bet_from(pre, value, 0);
    if idx == pre.len() {
        &&& post == pre
        &&& post_map == pre_map
        &&& post_rec == pre_rec
    } else {
        &&& crate::graph_utils::removed_node_rel(pre, post, idx as usize)
        &&& (idx < pre_map.len() && post_map == pre_map.remove(idx))
        &&& post_rec == pre_rec.push(pre_map[idx])
    }
}

/// The integrity probe after `j` steps: starting from a working copy of
/// `start` with the identity index map, each step removes the carrier of
/// the next-highest betweenness value of the ascending sort.
pub open spec fn probe_rel(
    start: Seq<Node>,
    sorted: Seq<i64>,
    j: int,
    cur: Seq<Node>,
    map: Seq<usize>,
    rec: Seq<usize>,
) -> bool
    decreases j,
{
    if j <= 0 {
        &&& crate::nodes::nodes_equal(cur, start)
        &&& map == identity_map(start.len() as int)
        &&& rec == Seq::<usize>::empty()
    } else {
        exists|pc: Seq<Node>, pm: Seq<usize>, pr: Seq<usize>|
            probe_rel(start, sorted, j - 1, pc, pm, pr) && #[trigger] probe_step_rel(
                pc,
                pm,
                sorted[sorted.len() - j],
                cur,
                map,
                pr,
                rec,
            )
    }
}

/// One repair step for one removed node: its two lowest-betweenness
/// neighbors gain a mutual connection, and nothing else changes.
pub open spec fn repair_step_rel(cur: Seq<Node>, next: Seq<Node>, ridx: usize) -> bool {
    let conns = cur[ridx as int].connections@;
    let a = crate::graph_utils::spec_lowest(cur, conns);
    let b = crate::graph_utils::spec_lowest(
        cur,
        conns.filter(crate::graph_utils::ne_fn(a)),
    );
    &&& (ridx as int) < cur.len()
    &&& (a as int) < cur.len()
    &&& (b as int) < cur.len()
    &&& next.len() == cur.len()
    &&& (if a != b {
        next[a as int].connections@ == cur[a as int].connections@.push(b) && next[
            b as int
        ].connections@ == cur[b as int].connections@.push(a)
    } else {
        next[a as int].connections@ == cur[a as int].connections@.push(b).push(a)
    })
    &&& forall|k: int|
        0 <= k < cur.len() && k != a && k != b ==> (#[trigger] next[k]).connections@ == cur[
            k
        ].connections@
    &&& forall|k: int| 0 <= k < cur.len() ==> node_fields_eq(#[trigger] next[k], cur[k])
}

/// The repair pass: one repair step for each recorded removed index, in
/// order, starting from the unchanged original state.
pub open spec fn repair_rel(start: Seq<Node>, cur: Seq<Node>, rec: Seq<usize>) -> bool
    decreases rec.len(),
{
    if rec.len() == 0 {
        cur == start
    } else {
        exists|mid: Seq<Node>|
            repair_rel(start, mid, rec.drop_last()) && #[trigger] repair_step_rel(
                mid,
                cur,
                rec.last(),
            )
    }
}

/// Chaining one probe step onto a probe run.
pub proof fn lemma_probe_rel_step(
    start: Seq<Node>,
    sorted: Seq<i64>,
    j: int,
    pc: Seq<Node>,
    pm: Seq<usize>,
    pr: Seq<usize>,
    cur: Seq<Node>,
    map: Seq<usize>,
    rec: Seq<usize>,
)
    requires
        j >= 1,
        probe_rel(start, sorted, j - 1, pc, pm, pr),
        probe_step_rel(pc, pm, sorted[sorted.len() - j], cur, map, pr, rec),
    ensures
        probe_rel(start, sorted, j, cur, map, rec),
{
    assert(exists|pc2: Seq<Node>, pm2: Seq<usize>, pr2: Seq<usize>|
        probe_rel(start, sorted, j - 1, pc2, pm2, pr2) && #[trigger] probe_step_rel(
            pc2,
            pm2,
            sorted[sorted.len() - j],
            cur,
            map,
            pr2,
            rec,
        )) by {
        assert(probe_rel(start, sorted, j - 1, pc, pm, pr) && probe_step_rel(
            pc,
            pm,
            sorted[sorted.len() - j],
            cur,
            map,
            pr,
            rec,
        ));
    }
    assert(probe_rel(start, sorted, j, cur, map, rec)) by {
        reveal_with_fuel(probe_rel, 2);
    }
}

/// Chaining one repair step onto a repair run.
pub proof fn lemma_repair_rel_step(
    start: Seq<Node>,
    mid: Seq<Node>,
    cur: Seq<Node>,
    rec: Seq<usize>,
    ridx: usize,
)
    requires
        repair_rel(start, mid, rec),
        repair_step_rel(mid, cur, ridx),
    ensures
        repair_rel(start, cur, rec.push(ridx)),
{
    assert(rec.push(ridx).drop_last() =~= rec);
    assert(rec.push(ridx).last() == ridx);
    assert(exists|mid2: Seq<Node>|
        repair_rel(start, mid2, rec.push(ridx).drop_last()) && #[trigger] repair_step_rel(
            mid2,
            cur,
            rec.push(ridx).last(),
        )) by {
        assert(repair_rel(start, mid, rec.push(ridx).drop_last()) && repair_step_rel(
            mid,
            cur,
            rec.push(ridx).last(),
        ));
    }
    assert(repair_rel(start, cur, rec.push(ridx))) by {
        reveal_with_fuel(repair_rel, 2);
    }
}

/// What the integrity probe decides: there is a probe run over the
/// round(0.1 V) highest betweenness values whose island partition has at
/// most one massive island exactly when `r` holds; on `r` the state is
/// untouched, otherwise the repair pass ran over the recorded removals.
pub open spec fn check_fix_ok(start: Seq<Node>, final_nodes: Seq<Node>, r: bool) -> bool {
    let sorted = crate::nodes::betweenness_series(start).sort_by(crate::sort::i64_leq_fn());
    let steps = spec_massive_threshold(start.len() as int);
    exists|test: Seq<Node>, map: Seq<usize>, rec: Seq<usize>, islands: Seq<Vec<usize>>|
        #![trigger probe_rel(start, sorted, steps, test, map, rec), count_massive(
            islands,
            test.len() as int,
            islands.len() as int,
        )]
        {
            &&& probe_rel(start, sorted, steps, test, map, rec)
            &&& islands_valid(islands, test.len() as int)
            &&& islands_disjoint(islands)
            &&& islands_cover(islands, test.len() as int)
            &&& (forall|a: int| 0 <= a < islands.len() ==> (#[trigger] islands[a])@.len() > 0)
            &&& (forall|a: int, m: int|
                0 <= a < islands.len() && 0 <= m < islands[a]@.len() ==> connected_in(
                    test,
                    islands[a]@[0],
                    #[trigger] islands[a]@[m],
                ))
            &&& (symmetric_adjacency(test) ==> islands_closed(islands, test))
            &&& (r <==> count_massive(islands, test.len() as int, islands.len() as int) <= 1)
            &&& (r ==> final_nodes == start)
            &&& (!r ==> repair_rel(start, final_nodes, rec))
        }
}

/// All fields but the connection list agree.
pub open spec fn node_fields_eq(a: Node, b: Node) -> bool {
    &&& a.addr == b.addr
    &&& a.network_type == b.network_type
    &&& a.betweenness == b.betweenness
    &&& a.closeness == b.closeness
    &&& a.geolocation == b.geolocation
}

/// Node lists with equal data have the same validity and symmetry.
pub proof fn lemma_nodes_equal_adjacency(a: Seq<Node>, b: Seq<Node>)
    requires
        crate::nodes::nodes_equal(a, b),
    ensures
        conns_valid(b) ==> conns_valid(a),
        symmetric_adjacency(b) ==> symmetric_adjacency(a),
{
    assert forall|i: int| 0 <= i < a.len() implies (#[trigger] a[i].connections@) == b[
        i
    ].connections@ by {
        assert(a[i]@ == b[i]@);
    }
}

/// Adding the two mutual connections `a <-> b` keeps the adjacency
/// symmetric and valid.
pub proof fn lemma_two_pushes_symmetric(pre: Seq<Node>, cur: Seq<Node>, a: usize, b: usize)
    requires
        (a as int) < pre.len(),
        (b as int) < pre.len(),
        cur.len() == pre.len(),
        pre.len() <= usize::MAX,
        conns_valid(pre),
        symmetric_adjacency(pre),
        a != b ==> cur[a as int].connections@ == pre[a as int].connections@.push(b) && cur[
            b as int
        ].connections@ == pre[b as int].connections@.push(a),
        a == b ==> cur[a as int].connections@ == pre[a as int].connections@.push(b).push(a),
        forall|k: int|
            0 <= k < pre.len() && k != a && k != b ==> (#[trigger] cur[k]).connections@ == pre[
                k
            ].connections@,
    ensures
        conns_valid(cur),
        symmetric_adjacency(cur),
{
    assert forall|i: int, k: int|
        0 <= i < cur.len() && 0 <= k < cur[i].connections@.len() implies ((#[trigger] cur[
    i ].connections@[k]) as int) < cur.len() by {
        if i == a as int || i == b as int {
            if k < pre[i].connections@.len() {
                assert(pre[i].connections@[k] == cur[i].connections@[k]);
            }
        } else {
            assert(cur[i].connections@ == pre[i].connections@);
        }
    }
    assert forall|i: int, j: int|
        0 <= i < cur.len() && 0 <= j < cur.len() implies ((#[trigger] cur[i].connections@.contains(
        j as usize)) <==> (#[trigger] cur[j].connections@.contains(i as usize))) by {
        if a == b {
            lemma_push_contains(pre[a as int].connections@.push(b), a, j as usize);
            lemma_push_contains(pre[a as int].connections@, b, j as usize);
            lemma_push_contains(pre[a as int].connections@.push(b), a, i as usize);
            lemma_push_contains(pre[a as int].connections@, b, i as usize);
        } else {
            lemma_push_contains(pre[a as int].connections@, b, j as usize);
            lemma_push_contains(pre[b as int].connections@, a, j as usize);
            lemma_push_contains(pre[a as int].connections@, b, i as usize);
            lemma_push_contains(pre[b as int].connections@, a, i as usize);
        }
    }
}

/// Copy a vector of MCDA entries; the copy holds exactly the same
/// sequence.
pub fn clone_entries(v: &Vec<PeerEntry>) -> (r: Vec<PeerEntry>)
    ensures
        r@ == v@,
{
    let mut r: Vec<PeerEntry> = Vec::new();
    let mut i: usize = 0;
    while i < v.len()
        invariant
            0 <= i <= v@.len(),
            r@ == v@.take(i as int),
        decreases v@.len() - i,
    {
        r.push(v[i]);
        i += 1;
    }
    proof {
        assert(v@.take(v@.len() as int) =~= v@);
    }
    r
}

/// Replace the connection list of the node at `i`, leaving everything
/// else untouched.
pub fn set_connections(nodes: &mut Vec<Node>, i: usize, conns: Vec<usize>)
    requires
        i < old(nodes)@.len(),
    ensures
        final(nodes)@.len() == old(nodes)@.len(),
        final(nodes)@[i as int].connections@ == conns@,
        node_fields_eq(final(nodes)@[i as int], old(nodes)@[i as int]),
        forall|k: int|
            0 <= k < old(nodes)@.len() && k != i ==> (#[trigger] final(nodes)@[k])@ == old(nodes)@[k]@,
{
    let node = &mut nodes[i];
    node.connections = conns;
}

/// Sorts MCDA entries by rating, highest first; the result is a
/// permutation of the input.
pub fn sort_entries_by_rating_desc(v: &mut Vec<PeerEntry>)
    ensures
        final(v)@.len() == old(v)@.len(),
        final(v)@.to_multiset() == old(v)@.to_multiset(),
        forall|p: int, q: int|
            0 <= p < q < final(v)@.len() ==> (#[trigger] final(v)@[p]).rating >= (#[trigger] final(v)@[q]).rating,
        forall|k: int| 0 <= k < final(v)@.len() ==> old(v)@.contains(#[trigger] final(v)@[k]),
        forall|k: int| 0 <= k < old(v)@.len() ==> final(v)@.contains(#[trigger] old(v)@[k]),
{
    proof {
        broadcast use vstd::seq_lib::group_to_multiset_ensures;

    }
    if v.len() > 1 {
        let mut i: usize = 1;
        while i < v.len()
            invariant
                1 <= i <= v.len(),
                v@.len() == old(v)@.len(),
                v@.to_multiset() == old(v)@.to_multiset(),
                forall|p: int, q: int|
                    0 <= p < q < i ==> (#[trigger] v@[p]).rating >= (#[trigger] v@[q]).rating,
            decreases v.len() - i,
        {
            let ghost pre = v@;
            let x = v.remove(i);
            let ghost w = v@;
            let mut j: usize = 0;
            while j < i && v[j].rating >= x.rating
                invariant
                    0 <= j <= i,
                    i < w.len() + 1,
                    v@ == w,
                    forall|k: int| 0 <= k < j ==> (#[trigger] w[k]).rating >= x.rating,
                decreases i - j,
            {
                j += 1;
            }
            v.insert(j, x);
            proof {
                broadcast use vstd::seq_lib::group_to_multiset_ensures;
                broadcast use vstd::seq_lib::to_multiset_insert;

                assert(pre[i as int] == x);
                assert(pre.contains(x));
                assert(pre.to_multiset().count(x) > 0);
                assert(w.to_multiset() =~= pre.to_multiset().remove(x));
                assert(v@.to_multiset() =~= w.to_multiset().insert(x));
                assert(v@.to_multiset() =~= old(v)@.to_multiset());
                pre.remove_ensures(i as int);
                assert(forall|k: int| 0 <= k < i ==> (#[trigger] w[k]) == pre[k]);
                assert forall|p: int, q: int| 0 <= p < q < i + 1 implies (#[trigger] v@[p]).rating
                    >= (#[trigger] v@[q]).rating by {
                    assert(v@[p] == if p < j {
                        w[p]
                    } else if p == j {
                        x
                    } else {
                        w[p - 1]
                    });
                    assert(v@[q] == if q < j {
                        w[q]
                    } else if q == j {
                        x
                    } else {
                        w[q - 1]
                    });
                    if j < i {
                        assert(w[j as int].rating < x.rating);
                    }
                }
            }
            i += 1;
        }
    }
    proof {
        broadcast use vstd::seq_lib::group_to_multiset_ensures;

        assert forall|k: int| 0 <= k < v@.len() implies old(v)@.contains(#[trigger] v@[k]) by {
            assert(v@.contains(v@[k]));
            assert(v@.to_multiset().count(v@[k]) > 0);
            assert(old(v)@.to_multiset().count(v@[k]) > 0);
        }
        assert forall|k: int| 0 <= k < old(v)@.len() implies v@.contains(#[trigger] old(v)@[k]) by {
            assert(old(v)@.contains(old(v)@[k]));
            assert(old(v)@.to_multiset().count(old(v)@[k]) > 0);
            assert(v@.to_multiset().count(old(v)@[k]) > 0);
        }
    }
}

/// Sorts MCDA entries by the betweenness of the node each entry points
/// at, lowest first; the result is a permutation of the input.
pub fn sort_entries_by_betweenness_asc(v: &mut Vec<PeerEntry>, nodes: &Vec<Node>)
    requires
        forall|k: int|
            0 <= k < old(v)@.len() ==> ((#[trigger] old(v)@[k]).index as int) < nodes@.len(),
    ensures
        final(v)@.len() == old(v)@.len(),
        final(v)@.to_multiset() == old(v)@.to_multiset(),
        forall|k: int|
            0 <= k < final(v)@.len() ==> ((#[trigger] final(v)@[k]).index as int) < nodes@.len(),
        forall|p: int, q: int|
            0 <= p < q < final(v)@.len() ==> nodes@[(#[trigger] final(v)@[p]).index as int]
                .betweenness <= nodes@[(#[trigger] final(v)@[q]).index as int].betweenness,
        forall|k: int| 0 <= k < final(v)@.len() ==> old(v)@.contains(#[trigger] final(v)@[k]),
        forall|k: int| 0 <= k < old(v)@.len() ==> final(v)@.contains(#[trigger] old(v)@[k]),
{
    proof {
        broadcast use vstd::seq_lib::group_to_multiset_ensures;

    }
    if v.len() > 1 {
        let mut i: usize = 1;
        while i < v.len()
            invariant
                1 <= i <= v.len(),
                v@.len() == old(v)@.len(),
                v@.to_multiset() == old(v)@.to_multiset(),
                forall|k: int| 0 <= k < v@.len() ==> ((#[trigger] v@[k]).index as int) < nodes@.len(),
                forall|p: int, q: int|
                    0 <= p < q < i ==> nodes@[(#[trigger] v@[p]).index as int].betweenness
                        <= nodes@[(#[trigger] v@[q]).index as int].betweenness,
            decreases v.len() - i,
        {
            let ghost pre = v@;
            let x = v.remove(i);
            let key = nodes[x.index].betweenness;
            let ghost w = v@;
            let mut j: usize = 0;
            while j < i && nodes[v[j].index].betweenness <= key
                invariant
                    0 <= j <= i,
                    i < w.len() + 1,
                    v@ == w,
                    key == nodes@[x.index as int].betweenness,
                    forall|k: int|
                        0 <= k < w.len() ==> ((#[trigger] w[k]).index as int) < nodes@.len(),
                    forall|k: int|
                        0 <= k < j ==> nodes@[(#[trigger] w[k]).index as int].betweenness <= key,
                decreases i - j,
            {
                j += 1;
            }
            v.insert(j, x);
            proof {
                broadcast use vstd::seq_lib::group_to_multiset_ensures;
                broadcast use vstd::seq_lib::to_multiset_insert;

                assert(pre[i as int] == x);
                assert(pre.contains(x));
                assert(pre.to_multiset().count(x) > 0);
                assert(w.to_multiset() =~= pre.to_multiset().remove(x));
                assert(v@.to_multiset() =~= w.to_multiset().insert(x));
                assert(v@.to_multiset() =~= old(v)@.to_multiset());
                pre.remove_ensures(i as int);
                assert(forall|k: int| 0 <= k < i ==> (#[trigger] w[k]) == pre[k]);
                assert forall|p: int, q: int| 0 <= p < q < i + 1 implies nodes@[(#[trigger] v@[
                p ]).index as int].betweenness <= nodes@[(#[trigger] v@[q]).index as int]
                    .betweenness by {
                    assert(v@[p] == if p < j {
                        w[p]
                    } else if p == j {
                        x
                    } else {
                        w[p - 1]
                    });
                    assert(v@[q] == if q < j {
                        w[q]
                    } else if q == j {
                        x
                    } else {
                        w[q - 1]
                    });
                    if j < i {
                        assert(nodes@[w[j as int].index as int].betweenness > key);
                    }
                }
            }
            i += 1;
        }
    }
    proof {
        broadcast use vstd::seq_lib::group_to_multiset_ensures;

        assert forall|k: int| 0 <= k < v@.len() implies old(v)@.contains(#[trigger] v@[k]) by {
            assert(v@.contains(v@[k]));
            assert(v@.to_multiset().count(v@[k]) > 0);
            assert(old(v)@.to_multiset().count(v@[k]) > 0);
        }
        assert forall|k: int| 0 <= k < old(v)@.len() implies v@.contains(#[trigger] old(v)@[k]) by {
            assert(old(v)@.contains(old(v)@[k]));
            assert(old(v)@.to_multiset().count(old(v)@[k]) > 0);
            assert(v@.to_multiset().count(old(v)@[k]) > 0);
        }
    }
}

/// Sorts a list of indices ascending; the result is a permutation of the
/// input.
pub fn sort_usize_asc(v: &mut Vec<usize>)
    ensures
        final(v)@.len() == old(v)@.len(),
        final(v)@.to_multiset() == old(v)@.to_multiset(),
        forall|p: int, q: int|
            0 <= p < q < final(v)@.len() ==> (#[trigger] final(v)@[p]) <= (#[trigger] final(v)@[q]),
        forall|x: usize| final(v)@.contains(x) <==> old(v)@.contains(x),
{
    proof {
        broadcast use vstd::seq_lib::group_to_multiset_ensures;

    }
    if v.len() > 1 {
        let mut i: usize = 1;
        while i < v.len()
            invariant
                1 <= i <= v.len(),
                v@.len() == old(v)@.len(),
                v@.to_multiset() == old(v)@.to_multiset(),
                forall|p: int, q: int| 0 <= p < q < i ==> (#[trigger] v@[p]) <= (#[trigger] v@[q]),
            decreases v.len() - i,
        {
            let ghost pre = v@;
            let x = v.remove(i);
            let ghost w = v@;
            let mut j: usize = 0;
            while j < i && v[j] <= x
                invariant
                    0 <= j <= i,
                    i < w.len() + 1,
                    v@ == w,
                    forall|k: int| 0 <= k < j ==> (#[trigger] w[k]) <= x,
                decreases i - j,
            {
                j += 1;
            }
            v.insert(j, x);
            proof {
                broadcast use vstd::seq_lib::group_to_multiset_ensures;
                broadcast use vstd::seq_lib::to_multiset_insert;

                assert(pre[i as int] == x);
                assert(pre.contains(x));
                assert(pre.to_multiset().count(x) > 0);
                assert(w.to_multiset() =~= pre.to_multiset().remove(x));
                assert(v@.to_multiset() =~= w.to_multiset().insert(x));
                assert(v@.to_multiset() =~= old(v)@.to_multiset());
                pre.remove_ensures(i as int);
                assert(forall|k: int| 0 <= k < i ==> (#[trigger] w[k]) == pre[k]);
                assert forall|p: int, q: int| 0 <= p < q < i + 1 implies (#[trigger] v@[p]) <= (
                #[trigger] v@[q]) by {
                    assert(v@[p] == if p < j {
                        w[p]
                    } else if p == j {
                        x
                    } else {
                        w[p - 1]
                    });
                    assert(v@[q] == if q < j {
                        w[q]
                    } else if q == j {
                        x
                    } else {
                        w[q - 1]
                    });
                    if j < i {
                        assert(w[j as int] > x);
                    }
                }
            }
            i += 1;
        }
    }
    proof {
        broadcast use vstd::seq_lib::group_to_multiset_ensures;

        assert forall|x: usize| final(v)@.contains(x) <==> old(v)@.contains(x) by {
            if v@.contains(x) {
                assert(v@.to_multiset().count(x) > 0);
                assert(old(v)@.to_multiset().count(x) > 0);
            }
            if old(v)@.contains(x) {
                assert(old(v)@.to_multiset().count(x) > 0);
                assert(v@.to_multiset().count(x) > 0);
            }
        }
    }
}

/// Keep one copy of each run of equal values and drop the excluded value:
/// on a sorted input the result is strictly increasing, and membership is
/// otherwise preserved.
pub fn dedup_exclude(v: &Vec<usize>, ex: usize) -> (r: Vec<usize>)
    requires
        forall|p: int, q: int| 0 <= p < q < v@.len() ==> (#[trigger] v@[p]) <= (#[trigger] v@[q]),
    ensures
        forall|x: usize| #[trigger] r@.contains(x) <==> v@.contains(x) && x != ex,
        forall|p: int, q: int| 0 <= p < q < r@.len() ==> (#[trigger] r@[p]) < (#[trigger] r@[q]),
{
    let mut r: Vec<usize> = Vec::new();
    let mut i: usize = 0;
    while i < v.len()
        invariant
            0 <= i <= v@.len(),
            forall|p: int, q: int| 0 <= p < q < v@.len() ==> (#[trigger] v@[p]) <= (#[trigger] v@[
            q ]),
            forall|x: usize| #[trigger] r@.contains(x) <==> v@.take(i as int).contains(x) && x != ex,
            forall|p: int, q: int| 0 <= p < q < r@.len() ==> (#[trigger] r@[p]) < (#[trigger] r@[
            q ]),
            i == 0 ==> r@.len() == 0,
            r@.len() > 0 && i > 0 ==> r@.last() <= v@[i - 1],
        decreases v@.len() - i,
    {
        let x = v[i];
        let ghost pre = r@;
        let keep = if x == ex {
            false
        } else if i > 0 && v[i - 1] == x {
            false
        } else {
            true
        };
        if keep {
            proof {
                if pre.len() > 0 {
                    assert(i > 0);
                    assert(v@[i - 1] <= v@[i as int]);
                    assert(v@[i - 1] != x);
                    assert(pre.last() < x);
                    assert forall|m: int| 0 <= m < pre.len() implies (#[trigger] pre[m]) < x by {
                        if m < pre.len() - 1 {
                            assert(pre[m] < pre[pre.len() - 1]);
                        }
                    }
                }
            }
            r.push(x);
        }
        proof {
            assert forall|y: usize| #[trigger] r@.contains(y) <==> (v@.take(i as int + 1).contains(
                y,
            ) && y != ex) by {
                lemma_push_contains(v@.take(i as int), v@[i as int], y);
                assert(v@.take(i as int + 1) =~= v@.take(i as int).push(v@[i as int]));
                if keep {
                    lemma_push_contains(pre, x, y);
                } else {
                    if x != ex && i > 0 && v@[i - 1] == x {
                        assert(v@.take(i as int)[i - 1] == x);
                        assert(v@.take(i as int).contains(x));
                    }
                }
            }
        }
        i += 1;
    }
    proof {
        assert(v@.take(v@.len() as int) =~= v@);
    }
    r
}

/// The list only grew, and every appended element is `v`.
pub open spec fn appended_only_with(pre: Seq<usize>, cur: Seq<usize>, v: usize) -> bool {
    &&& pre.is_prefix_of(cur)
    &&& forall|m: int| pre.len() <= m < cur.len() ==> #[trigger] cur[m] == v
}

/// Some MCDA entry points at the given node index.
pub open spec fn has_index(entries: Seq<PeerEntry>, p: usize) -> bool {
    exists|k: int| 0 <= k < entries.len() && (#[trigger] entries[k]).index == p
}

/// No index occurs twice in the list.
pub open spec fn no_dup(s: Seq<usize>) -> bool {
    forall|m1: int, m2: int| 0 <= m1 < m2 < s.len() ==> s[m1] != s[m2]
}

/// The list is unchanged, or exactly the value `v` was appended once: `v`
/// was new, and the list was still below the working length `wlen`.
pub open spec fn push_once_ok(pre: Seq<usize>, cur: Seq<usize>, v: usize, wlen: int) -> bool {
    cur == pre || (cur == pre.push(v) && !pre.contains(v) && pre.len() < wlen)
}

impl Ips {
    /// The per-node MCDA decision: starting from the candidate ratings,
    /// drop the node's lowest-rated peers (never a bridge), add the
    /// best-rated not-yet-connected candidates with the lowest
    /// betweenness, and rewrite the node's connection list without
    /// duplicates or self-references. Peers of other nodes only gain
    /// reciprocal connections to this node.
    #[verifier::rlimit(100)]
    fn process_node(
        &self,
        node_idx: usize,
        working: &IpsState,
        final_nodes: &mut Vec<Node>,
        bridges: &Bridges,
        const_factors: &Vec<PeerEntry>,
        dist_row: &Vec<Option<u64>>,
        desired_degree: u32,
    )
        requires
            state_wf(*working),
            node_idx < working.nodes@.len(),
            old(final_nodes)@.len() == working.nodes@.len(),
            conns_valid(old(final_nodes)@),
            const_factors@.len() == working.nodes@.len(),
            forall|k: int|
                0 <= k < working.nodes@.len() ==> (#[trigger] const_factors@[k]).index == k && 0
                    <= const_factors@[k].rating <= RATING_CONST_CAP,
            forall|k: int|
                0 <= k < working.nodes@.len() ==> (#[trigger] const_factors@[k]).addr
                    == working.nodes@[k].addr && const_factors@[k].rating == spec_rate_node(
                    self@,
                    *working,
                    k,
                ),
            crate::config::weights_bounded(self@.mcda_weights),
            self@.geolocation != GeoLocationMode::Off ==> dist_row@.len() == working.nodes@.len(),
        ensures
            final(final_nodes)@.len() == old(final_nodes)@.len(),
            conns_valid(final(final_nodes)@),
            forall|k: int|
                0 <= k < old(final_nodes)@.len() ==> node_fields_eq(
                    #[trigger] final(final_nodes)@[k],
                    old(final_nodes)@[k],
                ),
            forall|k: int|
                0 <= k < old(final_nodes)@.len() && k != node_idx ==> appended_only_with(
                    old(final_nodes)@[k].connections@,
                    (#[trigger] final(final_nodes)@[k]).connections@,
                    node_idx,
                ),
            !final(final_nodes)@[node_idx as int].connections@.contains(node_idx),
            mcda_node_rel(
                self@,
                *working,
                *bridges,
                dist_row@,
                desired_degree as int,
                node_idx as int,
                old(final_nodes)@,
                final(final_nodes)@,
            ),
            forall|p: usize|
                (p as int) < old(final_nodes)@.len() && p != node_idx && bridges.linked(
                    node_idx as int,
                    p as int,
                ) && (#[trigger] old(final_nodes)@[node_idx as int].connections@.contains(p))
                    ==> final(final_nodes)@[node_idx as int].connections@.contains(p),
            forall|k: int|
                0 <= k < old(final_nodes)@.len() && k != node_idx ==> push_once_ok(
                    old(final_nodes)@[k].connections@,
                    (#[trigger] final(final_nodes)@[k]).connections@,
                    node_idx,
                    working.nodes@[k].connections@.len() as int,
                ),
            final(final_nodes)@[node_idx as int].connections@.to_set().difference(
                old(final_nodes)@[node_idx as int].connections@.to_set(),
            ).len() <= self@.change_no_more,
            !old(final_nodes)@[node_idx as int].connections@.contains(node_idx) ==> old(
                final_nodes,
            )@[node_idx as int].connections@.to_set().difference(
                final(final_nodes)@[node_idx as int].connections@.to_set(),
            ).len() <= self@.change_no_more,
            no_dup(old(final_nodes)@[node_idx as int].connections@) ==> no_dup(
                final(final_nodes)@[node_idx as int].connections@,
            ),
    {
        let n = working.nodes.len();
        let mut peer_ratings = clone_entries(const_factors);
        if !matches!(self.config.geolocation, GeoLocationMode::Off) {
            self.update_rating_by_location(
                &working.nodes[node_idx],
                &working.nodes,
                &mut peer_ratings,
                dist_row,
            );
        }
        proof {
            assert(forall|k: int|
                0 <= k < n ==> (#[trigger] peer_ratings@[k]).index == k);
            assert forall|k: int| 0 <= k < n implies is_entry_for(
                self@,
                *working,
                dist_row@,
                node_idx as int,
                k,
                #[trigger] peer_ratings@[k],
            ) by {
                assert(const_factors@[k].rating == spec_rate_node(self@, *working, k));
                if self@.geolocation == GeoLocationMode::Off {
                    assert(spec_loc_boost(self@, *working, dist_row@, node_idx as int, k) == 0);
                }
            }
        }

        // Load the node's current peers with their ratings.
        let u_conns = crate::nodes::clone_usize_vec(&final_nodes[node_idx].connections);
        let mut curr: Vec<PeerEntry> = Vec::new();
        let mut m: usize = 0;
        while m < u_conns.len()
            invariant
                0 <= m <= u_conns@.len(),
                n == working.nodes@.len(),
                peer_ratings@.len() == n,
                forall|k: int| 0 <= k < n ==> (#[trigger] peer_ratings@[k]).index == k,
                u_conns@ == final_nodes@[node_idx as int].connections@,
                node_idx < final_nodes@.len(),
                final_nodes@.len() == n,
                conns_valid(final_nodes@),
                curr@.len() == m,
                forall|k: int|
                    0 <= k < m ==> (#[trigger] curr@[k]).index == u_conns@[k] && (curr@[k].index
                        as int) < n && curr@[k] == peer_ratings@[u_conns@[k] as int],
            decreases u_conns@.len() - m,
        {
            let p = u_conns[m];
            proof {
                assert(final_nodes@[node_idx as int].connections@[m as int] == p);
            }
            curr.push(peer_ratings[p]);
            m += 1;
        }
        let ghost curr0 = curr@;

        // Quotas.
        let degree: u32 = working.degrees[node_idx];
        let mut peers_to_delete_count: u32 = if desired_degree < degree {
            degree - desired_degree
        } else {
            self.config.change_at_least
        };
        if peers_to_delete_count > self.config.change_no_more {
            peers_to_delete_count = self.config.change_no_more;
        }
        let mut add64: u64 = if desired_degree > degree {
            (desired_degree - degree) as u64 + peers_to_delete_count as u64
        } else {
            self.config.change_at_least as u64
        };
        if add64 > self.config.change_no_more as u64 {
            add64 = self.config.change_no_more as u64;
        }
        let peers_to_add_count: u32 = add64 as u32;
        let ghost delq = spec_delete_quota(self@, desired_degree as int, degree as int);
        let ghost addq = spec_add_quota(self@, desired_degree as int, degree as int);
        proof {
            assert(peers_to_delete_count as int == delq);
            assert(peers_to_add_count as int == addq);
            assert forall|m: int| 0 <= m < curr0.len() implies is_entry_for(
                self@,
                *working,
                dist_row@,
                node_idx as int,
                old(final_nodes)@[node_idx as int].connections@[m] as int,
                #[trigger] curr0[m],
            ) by {
                assert(curr0[m] == peer_ratings@[u_conns@[m] as int]);
            }
        }

        // Candidate pool: nodes still under their budget, not yet topped
        // up, and not the node itself.
        let mut cands: Vec<PeerEntry> = Vec::new();
        let mut k: usize = 0;
        while k < n
            invariant
                0 <= k <= n,
                n == working.nodes@.len(),
                peer_ratings@.len() == n,
                forall|k2: int| 0 <= k2 < n ==> (#[trigger] peer_ratings@[k2]).index == k2,
                forall|k2: int|
                    0 <= k2 < n ==> is_entry_for(
                        self@,
                        *working,
                        dist_row@,
                        node_idx as int,
                        k2,
                        #[trigger] peer_ratings@[k2],
                    ),
                final_nodes@.len() == n,
                final_nodes@ == old(final_nodes)@,
                node_idx < n,
                forall|k2: int|
                    0 <= k2 < cands@.len() ==> ((#[trigger] cands@[k2]).index as int) < n && cands@[
                    k2 ].index != node_idx,
                cands_pinned(
                    self@,
                    *working,
                    dist_row@,
                    old(final_nodes)@,
                    node_idx as int,
                    k as int,
                    cands@,
                ),
            decreases n - k,
        {
            let x = peer_ratings[k];
            let flen = final_nodes[x.index].connections.len();
            let wlen = working.nodes[x.index].connections.len();
            let diff = if flen >= wlen {
                flen - wlen
            } else {
                wlen - flen
            };
            let ghost pre = old(final_nodes)@;
            let ghost ci = cand_indices(self@, *working, pre, node_idx as int, k as int);
            let keep_cand = flen < wlen && diff <= self.config.change_no_more as usize && x.index
                != node_idx;
            proof {
                assert(keep_cand == cand_filter_ok(
                    self@,
                    *working,
                    pre,
                    node_idx as int,
                    k as int,
                ));
                assert(cand_indices(self@, *working, pre, node_idx as int, k as int + 1) == (
                if cand_filter_ok(self@, *working, pre, node_idx as int, k as int) {
                    ci.push(k as int)
                } else {
                    ci
                }));
            }
            if keep_cand {
                cands.push(x);
                proof {
                    assert forall|m: int|
                        0 <= m < ci.push(k as int).len() implies is_entry_for(
                        self@,
                        *working,
                        dist_row@,
                        node_idx as int,
                        ci.push(k as int)[m],
                        #[trigger] cands@[m],
                    ) by {
                        if m < ci.len() {
                            assert(ci.push(k as int)[m] == ci[m]);
                        } else {
                            assert(ci.push(k as int)[m] == k as int);
                            assert(cands@[m] == x);
                        }
                    }
                }
            }
            k += 1;
        }

        // Sort current peers by rating, best first.
        sort_entries_by_rating_desc(&mut curr);
        let ghost curr1 = curr@;
        proof {
            assert(forall|k2: int| 0 <= k2 < curr1.len() ==> curr0.contains(#[trigger] curr1[k2]));
            assert forall|p: usize| has_index(curr0, p) implies has_index(curr@, p) by {
                let k2 = choose|k2: int| 0 <= k2 < curr0.len() && (#[trigger] curr0[k2]).index == p;
                assert(curr0.contains(curr0[k2]));
                assert(curr@.contains(curr0[k2]));
                let k3 = choose|k3: int| 0 <= k3 < curr@.len() && curr@[k3] == curr0[k2];
                assert(curr@[k3].index == p);
            }
            assert forall|k2: int| 0 <= k2 < curr@.len() implies ((#[trigger] curr@[k2]).index
                as int) < n by {
                assert(curr0.contains(curr@[k2]));
                let k3 = choose|k3: int| 0 <= k3 < curr0.len() && curr0[k3] == curr@[k2];
            }
        }

        // Drop phase: pop the lowest-rated peers; a bridge is kept but
        // still consumes the quota.
        let mut del: u32 = peers_to_delete_count;
        let mut pos: usize = curr.len();
        let ghost mut removed = Seq::<usize>::empty();
        let ghost drop_target = drop_walk(curr1, *bridges, node_idx as int, delq);
        proof {
            assert(curr@.take(curr@.len() as int) =~= curr@);
            assert(curr@.skip(curr@.len() as int) =~= Seq::<PeerEntry>::empty());
            assert(drop_walk(curr@.take(pos as int), *bridges, node_idx as int, del as int)
                + curr@.skip(pos as int) =~= drop_target);
        }
        while del > 0 && pos > 0
            invariant
                0 <= pos <= curr@.len(),
                n == working.nodes@.len(),
                node_idx < n,
                drop_target == drop_walk(curr@.take(pos as int), *bridges, node_idx as int, del as int)
                    + curr@.skip(pos as int),
                forall|k2: int| 0 <= k2 < curr@.len() ==> ((#[trigger] curr@[k2]).index as int) < n,
                forall|p: usize|
                    (p as int) < n && p != node_idx && bridges.linked(node_idx as int, p as int)
                        && (#[trigger] has_index(curr0, p)) ==> has_index(curr@, p),
                removed.len() + del <= peers_to_delete_count,
                forall|p: usize|
                    #[trigger] has_index(curr1, p) && !removed.contains(p) ==> has_index(curr@, p),
                forall|k2: int| 0 <= k2 < curr@.len() ==> curr1.contains(#[trigger] curr@[k2]),
            decreases del,
        {
            pos -= 1;
            let e = curr[pos];
            let keep = bridges.is_bridge(e.index, node_idx);
            if keep {
                proof {
                    let cpre = curr@;
                    assert(bridges.linked(e.index as int, node_idx as int));
                    assert(cpre.take(pos as int + 1).drop_last() =~= cpre.take(pos as int));
                    assert(cpre.take(pos as int + 1).last() == e);
                    assert(drop_walk(
                        cpre.take(pos as int + 1),
                        *bridges,
                        node_idx as int,
                        del as int,
                    ) == drop_walk(
                        cpre.take(pos as int),
                        *bridges,
                        node_idx as int,
                        del as int - 1,
                    ).push(e));
                    assert(cpre.skip(pos as int) =~= seq![e] + cpre.skip(pos as int + 1));
                    assert(drop_walk(
                        cpre.take(pos as int),
                        *bridges,
                        node_idx as int,
                        del as int - 1,
                    ).push(e) + cpre.skip(pos as int + 1) =~= drop_walk(
                        cpre.take(pos as int),
                        *bridges,
                        node_idx as int,
                        del as int - 1,
                    ) + cpre.skip(pos as int));
                }
            } else {
                let ghost pre = curr@;
                curr.remove(pos);
                proof {
                    pre.remove_ensures(pos as int);
                    assert(pre.take(pos as int + 1).drop_last() =~= pre.take(pos as int));
                    assert(pre.take(pos as int + 1).last() == e);
                    assert(!bridges.linked(e.index as int, node_idx as int));
                    assert(drop_walk(
                        pre.take(pos as int + 1),
                        *bridges,
                        node_idx as int,
                        del as int,
                    ) == drop_walk(pre.take(pos as int), *bridges, node_idx as int, del as int - 1));
                    assert(curr@.take(pos as int) =~= pre.take(pos as int));
                    assert(curr@.skip(pos as int) =~= pre.skip(pos as int + 1));
                    let removed_old = removed;
                    removed = removed_old.push(e.index);
                    assert(!linked_in(bridges.edges@, e.index as int, node_idx as int));
                    assert forall|p: usize|
                        #[trigger] has_index(curr1, p) && !removed.contains(p) implies has_index(
                        curr@,
                        p,
                    ) by {
                        assert(!removed_old.contains(p)) by {
                            if removed_old.contains(p) {
                                let m3 = choose|m3: int|
                                    0 <= m3 < removed_old.len() && removed_old[m3] == p;
                                assert(removed[m3] == p);
                            }
                        }
                        assert(p != e.index) by {
                            assert(removed[removed.len() - 1] == e.index);
                        }
                        assert(has_index(pre, p));
                        let k2 = choose|k2: int|
                            0 <= k2 < pre.len() && (#[trigger] pre[k2]).index == p;
                        assert(pre[pos as int] == e);
                        if k2 < pos {
                            assert(curr@[k2].index == p);
                        } else {
                            assert(k2 != pos);
                            assert(curr@[k2 - 1].index == p);
                        }
                    }
                    assert forall|k2: int| 0 <= k2 < curr@.len() implies curr1.contains(
                        #[trigger] curr@[k2],
                    ) by {
                        if k2 < pos {
                            assert(curr@[k2] == pre[k2]);
                        } else {
                            assert(curr@[k2] == pre[k2 + 1]);
                        }
                    }
                    assert forall|p: usize|
                        (p as int) < n && p != node_idx && bridges.linked(
                            node_idx as int,
                            p as int,
                        ) && #[trigger] has_index(curr0, p) implies has_index(curr@, p) by {
                        assert(has_index(pre, p));
                        let k2 = choose|k2: int|
                            0 <= k2 < pre.len() && (#[trigger] pre[k2]).index == p;
                        assert(pre[pos as int].index != p) by {
                            assert(bridges.linked(node_idx as int, p as int));
                            assert(bridges.linked(p as int, node_idx as int));
                            if pre[pos as int].index == p {
                                assert(linked_in(
                                    bridges.edges@,
                                    e.index as int,
                                    node_idx as int,
                                ));
                            }
                        }
                        if k2 < pos {
                            assert(curr@[k2].index == p);
                        } else {
                            assert(curr@[k2 - 1].index == p);
                        }
                    }
                }
            }
            del -= 1;
        }

        proof {
            if pos == 0 {
                assert(curr@.take(0) =~= Seq::<PeerEntry>::empty());
                assert(drop_walk(
                    Seq::<PeerEntry>::empty(),
                    *bridges,
                    node_idx as int,
                    del as int,
                ) == Seq::<PeerEntry>::empty());
                assert(Seq::<PeerEntry>::empty() + curr@.skip(0) =~= curr@);
            } else {
                assert(del == 0);
                assert(drop_walk(curr@.take(pos as int), *bridges, node_idx as int, 0)
                    == curr@.take(pos as int));
                assert(curr@.take(pos as int) + curr@.skip(pos as int) =~= curr@);
            }
            assert(curr@ == drop_target);
        }
        let ghost curr2 = curr@;
        let ghost removed_final = removed;

        // Add phase, then the unconditional rewrite of the node's list.
        {
            let ghost cands_pre = cands@;
            sort_entries_by_rating_desc(&mut cands);
            proof {
                assert forall|k2: int| 0 <= k2 < cands@.len() implies ((#[trigger] cands@[
                k2 ]).index as int) < n && cands@[k2].index != node_idx by {
                    assert(cands_pre.contains(cands@[k2]));
                    let k3 = choose|k3: int|
                        0 <= k3 < cands_pre.len() && cands_pre[k3] == cands@[k2];
                }
            }
            let ghost sorted_cands = cands@;
            let target: u64 = 2 * (peers_to_add_count as u64);
            let ghost cap0: int = 2 * addq;
            let mut pool: Vec<PeerEntry> = Vec::new();
            let mut k: usize = 0;
            proof {
                assert(cands@.skip(0) =~= cands@);
            }
            while k < cands.len() && (pool.len() as u64) < target
                invariant
                    0 <= k <= cands@.len(),
                    n == working.nodes@.len(),
                    node_idx < n,
                    final_nodes@.len() == n,
                    final_nodes@ == old(final_nodes)@,
                    cands@ == sorted_cands,
                    cap0 == 2 * addq,
                    target == cap0,
                    forall|k2: int|
                        0 <= k2 < cands@.len() ==> ((#[trigger] cands@[k2]).index as int) < n
                            && cands@[k2].index != node_idx,
                    forall|k2: int|
                        0 <= k2 < pool@.len() ==> ((#[trigger] pool@[k2]).index as int) < n && pool@[
                        k2 ].index != node_idx,
                    pool@.len() <= cap0,
                    pool_take(sorted_cands, old(final_nodes)@, node_idx as int, cap0) == pool@
                        + pool_take(
                        cands@.skip(k as int),
                        old(final_nodes)@,
                        node_idx as int,
                        cap0 - pool@.len(),
                    ),
                decreases cands@.len() - k,
            {
                let x = cands[k];
                let already_fwd = crate::nodes::contains_usize(
                    &final_nodes[x.index].connections,
                    node_idx,
                );
                let already_bwd = crate::nodes::contains_usize(
                    &final_nodes[node_idx].connections,
                    x.index,
                );
                let ghost rest = cands@.skip(k as int);
                let ghost cap = cap0 - pool@.len();
                proof {
                    assert(rest.len() > 0);
                    assert(rest.first() == cands@[k as int]);
                    assert(rest.drop_first() =~= cands@.skip(k as int + 1));
                    assert((!already_fwd && !already_bwd) == spec_pool_ok(
                        old(final_nodes)@,
                        node_idx as int,
                        x,
                    ));
                }
                if !already_fwd && !already_bwd {
                    pool.push(x);
                    proof {
                        assert(pool_take(rest, old(final_nodes)@, node_idx as int, cap) == seq![x]
                            + pool_take(
                            cands@.skip(k as int + 1),
                            old(final_nodes)@,
                            node_idx as int,
                            cap - 1,
                        ));
                        assert(pool@.drop_last() + (seq![x] + pool_take(
                            cands@.skip(k as int + 1),
                            old(final_nodes)@,
                            node_idx as int,
                            cap - 1,
                        )) =~= pool@ + pool_take(
                            cands@.skip(k as int + 1),
                            old(final_nodes)@,
                            node_idx as int,
                            cap - 1,
                        ));
                    }
                } else {
                    proof {
                        assert(pool_take(rest, old(final_nodes)@, node_idx as int, cap)
                            == pool_take(
                            cands@.skip(k as int + 1),
                            old(final_nodes)@,
                            node_idx as int,
                            cap,
                        ));
                    }
                }
                k += 1;
            }
            proof {
                if pool@.len() >= cap0 {
                    assert(pool_take(
                        cands@.skip(k as int),
                        old(final_nodes)@,
                        node_idx as int,
                        cap0 - pool@.len(),
                    ) == Seq::<PeerEntry>::empty());
                } else {
                    assert(cands@.skip(cands@.len() as int) =~= Seq::<PeerEntry>::empty());
                    assert(pool_take(
                        Seq::<PeerEntry>::empty(),
                        old(final_nodes)@,
                        node_idx as int,
                        cap0 - pool@.len(),
                    ) == Seq::<PeerEntry>::empty());
                }
                assert(pool@ + Seq::<PeerEntry>::empty() =~= pool@);
                assert(pool@ == pool_take(sorted_cands, old(final_nodes)@, node_idx as int, cap0));
            }
            let ghost pool_pre = pool@;
            sort_entries_by_betweenness_asc(&mut pool, &working.nodes);
            proof {
                assert forall|k2: int| 0 <= k2 < pool@.len() implies (#[trigger] pool@[k2]).index
                    != node_idx by {
                    assert(pool_pre.contains(pool@[k2]));
                    let k3 = choose|k3: int| 0 <= k3 < pool_pre.len() && pool_pre[k3] == pool@[k2];
                }
            }
            let take_n: usize = if (peers_to_add_count as usize) < pool.len() {
                peers_to_add_count as usize
            } else {
                pool.len()
            };
            let ghost before_adds = final_nodes@;
            let ghost mut appended = Seq::<usize>::empty();
            let mut t: usize = 0;
            while t < take_n
                invariant
                    0 <= t <= take_n,
                    take_n <= pool@.len(),
                    n == working.nodes@.len(),
                    node_idx < n,
                    final_nodes@.len() == n,
                    conns_valid(final_nodes@),
                    forall|k2: int|
                        0 <= k2 < pool@.len() ==> ((#[trigger] pool@[k2]).index as int) < n
                            && pool@[k2].index != node_idx,
                    forall|k2: int| 0 <= k2 < curr@.len() ==> ((#[trigger] curr@[k2]).index as int) < n,
                    forall|p: usize|
                        (p as int) < n && p != node_idx && bridges.linked(
                            node_idx as int,
                            p as int,
                        ) && (#[trigger] has_index(curr0, p)) ==> has_index(curr@, p),
                    forall|k2: int|
                        0 <= k2 < n ==> node_fields_eq(
                            #[trigger] final_nodes@[k2],
                            before_adds[k2],
                        ),
                    forall|k2: int|
                        0 <= k2 < n && k2 != node_idx ==> appended_only_with(
                            before_adds[k2].connections@,
                            (#[trigger] final_nodes@[k2]).connections@,
                            node_idx,
                        ),
                    forall|k2: int|
                        0 <= k2 < n && k2 != node_idx ==> push_once_ok(
                            before_adds[k2].connections@,
                            (#[trigger] final_nodes@[k2]).connections@,
                            node_idx,
                            working.nodes@[k2].connections@.len() as int,
                        ),
                    final_nodes@[node_idx as int].connections@ == before_adds[
                        node_idx as int
                    ].connections@,
                    appended.len() == t,
                    curr@.len() == curr2.len() + t,
                    forall|m: int| 0 <= m < curr2.len() ==> #[trigger] curr@[m] == curr2[m],
                    forall|m: int|
                        curr2.len() <= m < curr@.len() ==> (#[trigger] curr@[m]).index == appended[
                            m - curr2.len()
                        ],
                    forall|m: int|
                        curr2.len() <= m < curr@.len() ==> #[trigger] curr@[m] == pool@[m
                            - curr2.len()],
                    forall|k2: int|
                        0 <= k2 < n && k2 != node_idx ==> reciprocal_push(
                            before_adds[k2].connections@,
                            (#[trigger] final_nodes@[k2]).connections@,
                            pool@.take(t as int),
                            node_idx,
                            k2,
                            working.nodes@[k2].connections@.len() as int,
                        ),
                decreases take_n - t,
            {
                let e = pool[t];
                let ghost curr_head = curr@;
                curr.push(e);
                proof {
                    appended = appended.push(e.index);
                }
                let ghost pre_nodes = final_nodes@;
                let can_link = final_nodes[e.index].connections.len()
                    < working.nodes[e.index].connections.len() && !crate::nodes::contains_usize(
                    &final_nodes[e.index].connections,
                    node_idx,
                );
                if can_link {
                    add_connection(final_nodes, e.index, node_idx);
                }
                proof {
                    assert forall|k2: int|
                        0 <= k2 < n && k2 != node_idx implies appended_only_with(
                        before_adds[k2].connections@,
                        (#[trigger] final_nodes@[k2]).connections@,
                        node_idx,
                    ) by {
                        if can_link && k2 == e.index as int {
                            assert(pre_nodes[k2].connections@.is_prefix_of(
                                final_nodes@[k2].connections@,
                            ));
                        } else {
                            assert(final_nodes@[k2]@ == pre_nodes[k2]@);
                        }
                    }
                    assert forall|k2: int|
                        0 <= k2 < n && k2 != node_idx implies push_once_ok(
                        before_adds[k2].connections@,
                        (#[trigger] final_nodes@[k2]).connections@,
                        node_idx,
                        working.nodes@[k2].connections@.len() as int,
                    ) by {
                        if can_link && k2 == e.index as int {
                            assert(pre_nodes[k2].connections@ == before_adds[k2].connections@) by {
                                if pre_nodes[k2].connections@ != before_adds[k2].connections@ {
                                    assert(pre_nodes[k2].connections@ == before_adds[
                                    k2 ].connections@.push(node_idx));
                                    lemma_push_contains(
                                        before_adds[k2].connections@,
                                        node_idx,
                                        node_idx,
                                    );
                                    assert(pre_nodes[k2].connections@.contains(node_idx));
                                }
                            }
                        } else {
                            assert(final_nodes@[k2]@ == pre_nodes[k2]@);
                        }
                    }
                    assert forall|p: usize|
                        (p as int) < n && p != node_idx && bridges.linked(
                            node_idx as int,
                            p as int,
                        ) && #[trigger] has_index(curr0, p) implies has_index(curr@, p) by {
                        assert(has_index(curr_head, p));
                        let k2 = choose|k2: int|
                            0 <= k2 < curr_head.len() && (#[trigger] curr_head[k2]).index == p;
                        assert(curr@[k2].index == p);
                    }
                    assert(pool@.take(t as int + 1) =~= pool@.take(t as int).push(e));
                    assert forall|k2: int|
                        0 <= k2 < n && k2 != node_idx implies reciprocal_push(
                        before_adds[k2].connections@,
                        (#[trigger] final_nodes@[k2]).connections@,
                        pool@.take(t as int + 1),
                        node_idx,
                        k2,
                        working.nodes@[k2].connections@.len() as int,
                    ) by {
                        lemma_has_index_push(pool@.take(t as int), e, k2 as usize);
                        let prev = pool@.take(t as int);
                        let bc = before_adds[k2].connections@;
                        let wlen = working.nodes@[k2].connections@.len() as int;
                        assert(reciprocal_push(bc, pre_nodes[k2].connections@, prev, node_idx, k2, wlen));
                        if k2 == e.index as int {
                            if has_index(prev, k2 as usize) {
                                if !bc.contains(node_idx) && bc.len() < wlen {
                                    assert(pre_nodes[k2].connections@ == bc.push(node_idx));
                                    lemma_push_contains(bc, node_idx, node_idx);
                                    assert(pre_nodes[k2].connections@.contains(node_idx));
                                    assert(!can_link);
                                    assert(final_nodes@[k2].connections@ == pre_nodes[k2].connections@);
                                } else {
                                    assert(pre_nodes[k2].connections@ == bc);
                                    assert(!can_link);
                                    assert(final_nodes@[k2].connections@ == bc);
                                }
                            } else {
                                assert(pre_nodes[k2].connections@ == bc);
                                if can_link {
                                    assert(final_nodes@[k2].connections@ == bc.push(node_idx));
                                    assert(!bc.contains(node_idx) && bc.len() < wlen);
                                } else {
                                    assert(final_nodes@[k2].connections@ == bc);
                                    assert(!(!bc.contains(node_idx) && bc.len() < wlen));
                                }
                            }
                        } else {
                            assert(final_nodes@[k2]@ == pre_nodes[k2]@);
                            assert(has_index(pool@.take(t as int + 1), k2 as usize) == has_index(
                                prev,
                                k2 as usize,
                            ));
                        }
                    }
                }
                t += 1;
            }

            // Rewrite the node's connection list: deduplicate and drop
            // self-references.
            let mut idxs: Vec<usize> = Vec::new();
            let mut c: usize = 0;
            while c < curr.len()
                invariant
                    0 <= c <= curr@.len(),
                    idxs@.len() == c,
                    forall|k2: int| 0 <= k2 < c ==> (#[trigger] idxs@[k2]) == curr@[k2].index,
                decreases curr@.len() - c,
            {
                idxs.push(curr[c].index);
                c += 1;
            }
            proof {
                assert forall|p: usize| has_index(curr@, p) implies idxs@.contains(p) by {
                    let k2 = choose|k2: int|
                        0 <= k2 < curr@.len() && (#[trigger] curr@[k2]).index == p;
                    assert(idxs@[k2] == p);
                }
                assert forall|p: usize| idxs@.contains(p) implies has_index(curr@, p) by {
                    let k2 = choose|k2: int| 0 <= k2 < idxs@.len() && idxs@[k2] == p;
                    assert(curr@[k2].index == p);
                }
            }
            let ghost idxs0 = idxs@;
            sort_usize_asc(&mut idxs);
            let cleaned = dedup_exclude(&idxs, node_idx);
            let ghost cleaned_v = cleaned@;
            let ghost before_set = final_nodes@;
            set_connections(final_nodes, node_idx, cleaned);
            proof {
                assert(final_nodes@[node_idx as int].connections@ == cleaned_v);
                assert forall|x: usize| #[trigger] cleaned_v.contains(x) implies (has_index(
                    curr@,
                    x,
                ) && x != node_idx && (x as int) < n) by {
                    assert(idxs@.contains(x));
                    assert(idxs0.contains(x));
                    let k3 = choose|k3: int|
                        0 <= k3 < curr@.len() && (#[trigger] curr@[k3]).index == x;
                }
                assert forall|x: usize|
                    has_index(curr@, x) && x != node_idx implies #[trigger] cleaned_v.contains(
                    x,
                ) by {
                    let k3 = choose|k3: int|
                        0 <= k3 < curr@.len() && (#[trigger] curr@[k3]).index == x;
                    assert(idxs0[k3] == x);
                    assert(idxs0.contains(x));
                    assert(idxs@.contains(x));
                }
                assert forall|k2: int, m2: int|
                    0 <= k2 < final_nodes@.len() && 0 <= m2 < final_nodes@[k2].connections@.len()
                    implies ((#[trigger] final_nodes@[k2].connections@[m2]) as int)
                    < final_nodes@.len() by {
                    let x = final_nodes@[k2].connections@[m2];
                    if k2 == node_idx as int {
                        assert(cleaned_v.contains(x));
                    } else {
                        assert(appended_only_with(
                            old(final_nodes)@[k2].connections@,
                            final_nodes@[k2].connections@,
                            node_idx,
                        ));
                        if m2 < old(final_nodes)@[k2].connections@.len() {
                            assert(old(final_nodes)@[k2].connections@[m2] == x);
                        }
                    }
                }
                assert forall|p: usize|
                    (p as int) < old(final_nodes)@.len() && p != node_idx && bridges.linked(
                        node_idx as int,
                        p as int,
                    ) && (#[trigger] old(final_nodes)@[node_idx as int].connections@.contains(p))
                    implies final_nodes@[node_idx as int].connections@.contains(p) by {
                    assert(u_conns@ == old(final_nodes)@[node_idx as int].connections@);
                    let k2 = choose|k2: int| 0 <= k2 < u_conns@.len() && u_conns@[k2] == p;
                    assert(curr0[k2].index == p);
                    assert(has_index(curr0, p));
                    assert(has_index(curr@, p));
                    assert(cleaned_v.contains(p));
                }
                broadcast use vstd::seq_lib::seq_to_set_is_finite;
                broadcast use vstd::set::group_set_axioms;

                let loaded_set = u_conns@.to_set();
                let fin_set = cleaned_v.to_set();
                assert(no_dup(cleaned_v)) by {
                    assert(forall|m1: int, m2: int|
                        0 <= m1 < m2 < cleaned_v.len() ==> #[trigger] cleaned_v[m1]
                            != #[trigger] cleaned_v[m2]);
                }
                assert(fin_set.difference(loaded_set).len() <= self@.change_no_more) by {
                    assert forall|x: usize| #[trigger] fin_set.difference(loaded_set).contains(x)
                        implies appended.to_set().contains(x) by {
                        assert(cleaned_v.contains(x));
                        assert(!u_conns@.contains(x));
                        let k3 = choose|k3: int|
                            0 <= k3 < curr@.len() && (#[trigger] curr@[k3]).index == x;
                        if k3 < curr2.len() {
                            assert(curr@[k3] == curr2[k3]);
                            assert(curr1.contains(curr2[k3]));
                            let m1 = choose|m1: int|
                                0 <= m1 < curr1.len() && curr1[m1] == curr2[k3];
                            assert(curr0.contains(curr1[m1]));
                            let m0 = choose|m0: int|
                                0 <= m0 < curr0.len() && curr0[m0] == curr1[m1];
                            assert(curr0[m0].index == x);
                            assert(u_conns@[m0] == x);
                            assert(u_conns@.contains(x));
                        } else {
                            assert(curr@[k3].index == appended[k3 - curr2.len()]);
                            assert(appended.contains(x)) by {
                                assert(appended[k3 - curr2.len()] == x);
                            }
                        }
                    }
                    vstd::set_lib::lemma_len_subset(
                        fin_set.difference(loaded_set),
                        appended.to_set(),
                    );
                    appended.lemma_cardinality_of_set();
                }
                if !u_conns@.contains(node_idx) {
                    assert(loaded_set.difference(fin_set).len() <= self@.change_no_more) by {
                        assert forall|x: usize|
                            #[trigger] loaded_set.difference(fin_set).contains(x) implies
                            removed_final.to_set().contains(x) by {
                            assert(u_conns@.contains(x));
                            assert(!cleaned_v.contains(x));
                            let m = choose|m: int| 0 <= m < u_conns@.len() && u_conns@[m] == x;
                            assert(curr0[m].index == x);
                            assert(has_index(curr0, x));
                            assert(has_index(curr1, x));
                            if !removed_final.contains(x) {
                                assert(has_index(curr2, x));
                                let k4 = choose|k4: int|
                                    0 <= k4 < curr2.len() && (#[trigger] curr2[k4]).index == x;
                                assert(curr@[k4].index == x);
                                assert(has_index(curr@, x));
                                assert(x != node_idx);
                                assert(cleaned_v.contains(x));
                            }
                        }
                        vstd::set_lib::lemma_len_subset(
                            loaded_set.difference(fin_set),
                            removed_final.to_set(),
                        );
                        removed_final.lemma_cardinality_of_set();
                    }
                }
                assert(before_adds == old(final_nodes)@);
                assert(take_n as int == (if addq < pool@.len() as int {
                    addq
                } else {
                    pool@.len() as int
                }));
                assert(curr@ =~= curr2 + pool@.take(take_n as int));
                assert forall|p2: int, q2: int|
                    0 <= p2 < q2 < final_nodes@[node_idx as int].connections@.len() implies (
                #[trigger] final_nodes@[node_idx as int].connections@[p2]) < (
                #[trigger] final_nodes@[node_idx as int].connections@[q2]) by {
                    assert(cleaned_v[p2] < cleaned_v[q2]);
                }
                assert(mcda_node_rel_with(
                    self@,
                    *working,
                    *bridges,
                    dist_row@,
                    desired_degree as int,
                    node_idx as int,
                    old(final_nodes)@,
                    final_nodes@,
                    curr0,
                    cands_pre,
                    curr1,
                    sorted_cands,
                    pool@,
                ));
                assert(mcda_node_rel(
                    self@,
                    *working,
                    *bridges,
                    dist_row@,
                    desired_degree as int,
                    node_idx as int,
                    old(final_nodes)@,
                    final_nodes@,
                ));
            }
        }
        proof {
            assert forall|k2: int| 0 <= k2 < old(final_nodes)@.len() && k2 != node_idx implies
                appended_only_with(
                old(final_nodes)@[k2].connections@,
                (#[trigger] final_nodes@[k2]).connections@,
                node_idx,
            ) by {
                if final_nodes@[k2].connections@ == old(final_nodes)@[k2].connections@ {
                    assert(old(final_nodes)@[k2].connections@.is_prefix_of(
                        final_nodes@[k2].connections@,
                    ));
                }
            }
            broadcast use vstd::set::group_set_axioms;

            if final_nodes@[node_idx as int].connections@ == old(final_nodes)@[
                node_idx as int
            ].connections@ {
                let same = old(final_nodes)@[node_idx as int].connections@.to_set();
                assert(same.difference(same) =~= Set::<usize>::empty());
            }
        }
    }
}


/// The desired degree of the MCDA phase: the average working degree,
/// rounded to the nearest whole number.
pub open spec fn spec_desired_degree(w: IpsState) -> int {
    ((sum_u32(w.degrees@) * (UNIT as int)) / (w.degrees@.len() as int) + 500_000) / (UNIT as int)
}

/// The distance row handed to the iteration of `u`: empty when location
/// is off.
pub open spec fn mcda_row(cfg: IpsConfigView, dists: Seq<Vec<Option<u64>>>, u: int) -> Seq<
    Option<u64>,
> {
    if cfg.geolocation == GeoLocationMode::Off {
        Seq::empty()
    } else {
        dists[u]@
    }
}

/// The whole MCDA phase as a trace: node `u`'s decision turns state `u` of
/// the trace into state `u + 1`, in index order.
pub open spec fn mcda_trace_ok(
    cfg: IpsConfigView,
    w: IpsState,
    b: Bridges,
    dists: Seq<Vec<Option<u64>>>,
    input: Seq<Node>,
    output: Seq<Node>,
    trace: Seq<Seq<Node>>,
) -> bool {
    &&& trace.len() == input.len() + 1
    &&& trace[0] == input
    &&& trace[input.len() as int] == output
    &&& forall|u: int|
        0 <= u < input.len() ==> mcda_node_rel(
            cfg,
            w,
            b,
            mcda_row(cfg, dists, u),
            spec_desired_degree(w),
            u,
            #[trigger] trace[u],
            trace[u + 1],
        )
}

/// The inputs under which the change quotas bound every node's drift:
/// every seed connection list is duplicate-free and self-free and has
/// the same length as the corresponding working list.
pub open spec fn quota_input_ok(input: Seq<Node>, working: IpsState) -> bool {
    &&& input.len() == working.nodes@.len()
    &&& forall|k: int| 0 <= k < input.len() ==> no_dup((#[trigger] input[k]).connections@)
    &&& forall|k: int|
        0 <= k < input.len() ==> !((#[trigger] input[k]).connections@.contains(k as usize))
    &&& forall|k: int|
        0 <= k < input.len() ==> (#[trigger] input[k]).connections@.len() == working.nodes@[
        k ].connections@.len()
}

/// The number of vertices on which two connection lists disagree: the
/// size of the symmetric difference of their vertex sets.
pub open spec fn conn_changes(a: Seq<usize>, b: Seq<usize>) -> int {
    (a.to_set().difference(b.to_set()).len() + b.to_set().difference(a.to_set()).len()) as int
}

/// A smaller finite set has fewer extra elements over the other than
/// vice versa.
proof fn lemma_fewer_means_less_added(inset: Set<usize>, finset: Set<usize>)
    requires
        inset.finite(),
        finset.finite(),
        finset.len() < inset.len(),
    ensures
        finset.difference(inset).len() < inset.difference(finset).len(),
{
    broadcast use vstd::set::group_set_axioms;
    broadcast use vstd::set_lib::lemma_set_subset_finite;
    broadcast use vstd::set_lib::lemma_set_disjoint_lens;

    assert(finset.intersect(inset).subset_of(finset));
    assert(finset.difference(inset).subset_of(finset));
    assert(inset.intersect(finset).subset_of(inset));
    assert(inset.difference(finset).subset_of(inset));
    assert(finset =~= finset.intersect(inset) + finset.difference(inset));
    assert(finset.intersect(inset).disjoint(finset.difference(inset)));
    assert(inset =~= inset.intersect(finset) + inset.difference(finset));
    assert(inset.intersect(finset).disjoint(inset.difference(finset)));
    assert(finset.intersect(inset) =~= inset.intersect(finset));
}

impl Ips {
    /// The MCDA phase: for every node in index order, decide which peers
    /// to drop and which to add (respecting bridges and the change
    /// quotas), mutating the final node list as it goes. The returned
    /// list keeps every node's data, stays a valid adjacency, contains no
    /// self-references, and removes no bridge edge; a decision trace
    /// witnesses that each node was handled exactly by the per-node rule
    /// (`mcda_node_rel`), and under clean seed lists the change quotas
    /// bound every node's drift.
    pub fn mcda_phase(
        &self,
        working: &IpsState,
        final_nodes: Vec<Node>,
        bridges: &Bridges,
        distances: &Vec<Vec<Option<u64>>>,
    ) -> (r: Vec<Node>)
        requires
            state_wf(*working),
            crate::nodes::distinct_addrs(working.nodes@),
            crate::config::weights_bounded(self@.mcda_weights),
            final_nodes@.len() == working.nodes@.len(),
            conns_valid(final_nodes@),
            self@.geolocation != GeoLocationMode::Off ==> distances@.len()
                == working.nodes@.len() && (forall|i: int|
                0 <= i < working.nodes@.len() ==> (#[trigger] distances@[i])@.len()
                    == working.nodes@.len()),
        ensures
            r@.len() == final_nodes@.len(),
            conns_valid(r@),
            forall|k: int|
                0 <= k < final_nodes@.len() ==> node_fields_eq(
                    #[trigger] r@[k],
                    final_nodes@[k],
                ),
            forall|i: int|
                0 <= i < r@.len() ==> !(#[trigger] r@[i]).connections@.contains(i as usize),
            forall|a: int, p: usize|
                0 <= a < final_nodes@.len() && (p as int) < final_nodes@.len() && a != p
                    && bridges.linked(a, p as int) && (#[trigger] final_nodes@[
                a ].connections@.contains(p)) ==> r@[a].connections@.contains(p),
            exists|trace: Seq<Seq<Node>>| #[trigger] mcda_trace_ok(
                self@,
                *working,
                *bridges,
                distances@,
                final_nodes@,
                r@,
                trace,
            ),
            quota_input_ok(final_nodes@, *working) ==> (forall|i: int|
                0 <= i < r@.len() ==> conn_changes(
                    final_nodes@[i].connections@,
                    (#[trigger] r@[i]).connections@,
                ) <= 2 * (self@.change_no_more as int)),
    {
        let n = working.nodes.len();
        let degree_avg = crate::statistics::degree_centrality_avg(&working.degrees);
        let desired_128: u128 = ((degree_avg as u128) + 500_000) / 1_000_000;
        proof {
            vstd::arithmetic::div_mod::lemma_div_is_ordered(
                degree_avg + 500_000,
                (u32::MAX as int) * (UNIT as int) + 500_000,
                UNIT as int,
            );
            vstd::arithmetic::div_mod::lemma_div_multiples_vanish_fancy(
                u32::MAX as int,
                500_000,
                UNIT as int,
            );
            assert((UNIT as int) * (u32::MAX as int) == (u32::MAX as int) * (UNIT as int));
            assert(((u32::MAX as int) * (UNIT as int) + 500_000) / (UNIT as int)
                == u32::MAX as int);
        }
        let desired_degree: u32 = desired_128 as u32;
        proof {
            assert(desired_degree as int == spec_desired_degree(*working));
        }
        let const_factors = self.calculate_const_factors(working);
        let mut final_v = final_nodes;
        let empty_row: Vec<Option<u64>> = Vec::new();
        let ghost input = final_v@;
        let ghost mut trace: Seq<Seq<Node>> = seq![input];
        let ghost qok = quota_input_ok(input, *working);
        let ghost kmax = self@.change_no_more as int;
        let mut u: usize = 0;
        while u < n
            invariant
                qok == quota_input_ok(input, *working),
                kmax == self@.change_no_more as int,
                qok ==> (forall|a: int|
                    u <= a < n ==> (#[trigger] final_v@[a]).connections@ == input[
                        a
                    ].connections@),
                qok ==> (forall|a: int|
                    0 <= a < u ==> no_dup((#[trigger] final_v@[a]).connections@)),
                qok ==> (forall|a: int|
                    0 <= a < u ==> input[a].connections@.to_set().difference(
                        (#[trigger] final_v@[a]).connections@.to_set(),
                    ).len() <= kmax),
                qok ==> (forall|a: int|
                    0 <= a < u ==> (#[trigger] final_v@[a]).connections@.to_set().difference(
                        input[a].connections@.to_set(),
                    ).len() <= kmax),
                0 <= u <= n,
                n == working.nodes@.len(),
                state_wf(*working),
                crate::config::weights_bounded(self@.mcda_weights),
                const_factors@.len() == n,
                forall|k: int|
                    0 <= k < n ==> (#[trigger] const_factors@[k]).index == k && 0
                        <= const_factors@[k].rating <= RATING_CONST_CAP,
                forall|k: int|
                    0 <= k < n ==> (#[trigger] const_factors@[k]).addr == working.nodes@[k].addr
                        && const_factors@[k].rating == spec_rate_node(self@, *working, k),
                self@.geolocation != GeoLocationMode::Off ==> distances@.len() == n && (forall|
                    i: int,
                |
                    0 <= i < n ==> (#[trigger] distances@[i])@.len() == n),
                empty_row@.len() == 0,
                final_v@.len() == n,
                input.len() == n,
                conns_valid(final_v@),
                desired_degree as int == spec_desired_degree(*working),
                trace.len() == u + 1,
                trace[0] == input,
                trace[u as int] == final_v@,
                forall|j: int|
                    0 <= j < u ==> mcda_node_rel(
                        self@,
                        *working,
                        *bridges,
                        mcda_row(self@, distances@, j),
                        spec_desired_degree(*working),
                        j,
                        #[trigger] trace[j],
                        trace[j + 1],
                    ),
                forall|k: int|
                    0 <= k < n ==> node_fields_eq(#[trigger] final_v@[k], input[k]),
                forall|i: int|
                    0 <= i < u ==> !(#[trigger] final_v@[i]).connections@.contains(i as usize),
                forall|a: int, p: usize|
                    0 <= a < n && (p as int) < n && a != p && bridges.linked(a, p as int) && (
                    #[trigger] input[a].connections@.contains(p)) ==> final_v@[
                    a ].connections@.contains(p),
            decreases n - u,
        {
            let ghost before = final_v@;
            if matches!(self.config.geolocation, GeoLocationMode::Off) {
                self.process_node(
                    u,
                    working,
                    &mut final_v,
                    bridges,
                    &const_factors,
                    &empty_row,
                    desired_degree,
                );
            } else {
                self.process_node(
                    u,
                    working,
                    &mut final_v,
                    bridges,
                    &const_factors,
                    &distances[u],
                    desired_degree,
                );
            }
            proof {
                trace = trace.push(final_v@);
                if matches!(self.config.geolocation, GeoLocationMode::Off) {
                    assert(empty_row@ =~= mcda_row(self@, distances@, u as int));
                } else {
                    assert(distances@[u as int]@ == mcda_row(self@, distances@, u as int));
                }
                assert(mcda_node_rel(
                    self@,
                    *working,
                    *bridges,
                    mcda_row(self@, distances@, u as int),
                    spec_desired_degree(*working),
                    u as int,
                    before,
                    final_v@,
                ));
                assert forall|j: int| 0 <= j < u + 1 implies mcda_node_rel(
                    self@,
                    *working,
                    *bridges,
                    mcda_row(self@, distances@, j),
                    spec_desired_degree(*working),
                    j,
                    #[trigger] trace[j],
                    trace[j + 1],
                ) by {
                    if j < u {
                        assert(trace[j] == trace.drop_last()[j]);
                        assert(trace[j + 1] == trace.drop_last()[j + 1]);
                    } else {
                        assert(trace[j] == before);
                        assert(trace[j + 1] == final_v@);
                    }
                }
                assert forall|i: int|
                    0 <= i < u + 1
                    implies !(#[trigger] final_v@[i]).connections@.contains(i as usize) by {
                    if i < u {
                        assert(appended_only_with(
                            before[i].connections@,
                            final_v@[i].connections@,
                            u,
                        ));
                        if final_v@[i].connections@.contains(i as usize) {
                            let m = choose|m: int|
                                0 <= m < final_v@[i].connections@.len() && final_v@[
                                i ].connections@[m] == i as usize;
                            if m < before[i].connections@.len() {
                                assert(before[i].connections@[m] == i as usize);
                                assert(before[i].connections@.contains(i as usize));
                            } else {
                                assert(final_v@[i].connections@[m] == u);
                            }
                        }
                    }
                }
                assert forall|a: int, p: usize|
                    0 <= a < n && (p as int) < n && a != p && bridges.linked(a, p as int) && (
                    #[trigger] input[a].connections@.contains(p)) implies final_v@[
                a ].connections@.contains(p) by {
                    assert(before[a].connections@.contains(p));
                    if a != u {
                        assert(appended_only_with(
                            before[a].connections@,
                            final_v@[a].connections@,
                            u,
                        ));
                        let m = choose|m: int|
                            0 <= m < before[a].connections@.len() && before[a].connections@[m]
                                == p;
                        assert(final_v@[a].connections@[m] == p);
                    } else {
                        assert(bridges.linked(u as int, p as int));
                    }
                }
                if qok {
                    broadcast use vstd::set::group_set_axioms;
                    broadcast use vstd::seq_lib::seq_to_set_is_finite;
                    broadcast use vstd::set_lib::lemma_set_subset_finite;
                    broadcast use Seq::lemma_push_to_set_commute;

                    assert forall|a: int| u + 1 <= a < n implies (#[trigger] final_v@[
                    a ].connections@) == input[a].connections@ by {
                        assert(push_once_ok(
                            before[a].connections@,
                            final_v@[a].connections@,
                            u,
                            working.nodes@[a].connections@.len() as int,
                        ));
                        assert(before[a].connections@ == input[a].connections@);
                    }
                    assert forall|a: int| 0 <= a < u + 1 implies no_dup(
                        (#[trigger] final_v@[a]).connections@,
                    ) && input[a].connections@.to_set().difference(
                        final_v@[a].connections@.to_set(),
                    ).len() <= kmax && final_v@[a].connections@.to_set().difference(
                        input[a].connections@.to_set(),
                    ).len() <= kmax by {
                        let inseq = input[a].connections@;
                        let inset = inseq.to_set();
                        if a == u {
                            assert(before[a].connections@ == inseq);
                            assert(!inseq.contains(u));
                        } else {
                            assert(push_once_ok(
                                before[a].connections@,
                                final_v@[a].connections@,
                                u,
                                working.nodes@[a].connections@.len() as int,
                            ));
                            let pre = before[a].connections@;
                            let cur = final_v@[a].connections@;
                            if cur != pre {
                                assert(cur == pre.push(u as usize) && !pre.contains(u as usize)
                                    && pre.len() < working.nodes@[a].connections@.len());
                                assert(no_dup(cur)) by {
                                    assert forall|m1: int, m2: int|
                                        0 <= m1 < m2 < cur.len() implies cur[m1] != cur[m2] by {
                                        if m2 == cur.len() - 1 {
                                            if cur[m1] == u as usize {
                                                assert(pre[m1] == u as usize);
                                                assert(pre.contains(u as usize));
                                            }
                                        }
                                    }
                                }
                                assert(cur.to_set() =~= pre.to_set().insert(u as usize));
                                let preset = pre.to_set();
                                let curset = cur.to_set();
                                assert(inset.difference(curset).subset_of(
                                    inset.difference(preset),
                                ));
                                vstd::set_lib::lemma_len_subset(
                                    inset.difference(curset),
                                    inset.difference(preset),
                                );
                                if inset.contains(u as usize) {
                                    assert(curset.difference(inset) =~= preset.difference(inset));
                                } else {
                                    assert(!preset.contains(u as usize));
                                    assert(curset.difference(inset) =~= preset.difference(
                                        inset,
                                    ).insert(u as usize));
                                    assert(!preset.difference(inset).contains(u as usize));
                                    assert(preset.len() < inset.len()) by {
                                        assert(pre.no_duplicates());
                                        pre.unique_seq_to_set();
                                        assert(inseq.no_duplicates());
                                        inseq.unique_seq_to_set();
                                        assert(inseq.len() == working.nodes@[
                                        a ].connections@.len());
                                    }
                                    lemma_fewer_means_less_added(inset, preset);
                                }
                            }
                        }
                    }
                }
            }
            u += 1;
        }
        proof {
            assert(mcda_trace_ok(
                self@,
                *working,
                *bridges,
                distances@,
                input,
                final_v@,
                trace,
            ));
            if qok {
                assert forall|i: int| 0 <= i < final_v@.len() implies conn_changes(
                    input[i].connections@,
                    (#[trigger] final_v@[i]).connections@,
                ) <= 2 * kmax by {
                    assert(input[i].connections@.to_set().difference(
                        final_v@[i].connections@.to_set(),
                    ).len() <= kmax);
                    assert(final_v@[i].connections@.to_set().difference(
                        input[i].connections@.to_set(),
                    ).len() <= kmax);
                }
            }
        }
        final_v
    }
}

impl Ips {
    /// The fatal island rule: refuse to continue when more than one
    /// massive island exists, since merging long-diverged partitions
    /// cannot be done automatically.
    pub fn check_islands(&self, islands: &Vec<Vec<usize>>, total: usize) -> (r: Result<
        usize,
        IpsError,
    >)
        ensures
            r is Ok <==> count_massive(islands@, total as int, islands@.len() as int) <= 1,
            r matches Ok(c) ==> c == count_massive(islands@, total as int, islands@.len() as int),
            r is Err ==> r == Err::<usize, IpsError>(IpsError::MultipleMassiveIslands),
    {
        let massive = count_massive_islands(islands, total);
        if massive > 1 {
            Err(IpsError::MultipleMassiveIslands)
        } else {
            Ok(massive)
        }
    }
}

/// Law: state building carries the input adjacency over unchanged, so the
/// symmetric-adjacency invariant survives it.
pub proof fn lemma_generate_state_symmetric(nodes: Seq<Node>, eig: Seq<i64>, state: IpsState)
    requires
        generated_state_ok(nodes, eig, state),
        symmetric_adjacency(nodes),
        conns_valid(nodes),
    ensures
        symmetric_adjacency(state.nodes@),
        conns_valid(state.nodes@),
{
    lemma_nodes_equal_adjacency(state.nodes@, nodes);
}

} // verus!
