//! The data model of the crawled network: addresses, nodes and the
//! adjacency invariants the algorithms rely on, plus the histogram
//! summaries derived from a node list.

use vstd::prelude::*;
use vstd::string::StringExecFns;

use crate::histogram::{
    counts_exact, fold_max, fold_min, is_max_count, Histogram,
};
use crate::{sat64, UNIT};

verus! {

/// Number of bins of every histogram summary.
pub const HISTOGRAM_COUNTS: usize = 256;

/// A network address: the IP (IPv4 addresses embedded in the IPv6 numeric
/// space) and the port.
#[derive(Clone, Copy, PartialEq, Eq, Structural, Hash, Debug)]
pub struct Addr {
    /// The IP address as a 128-bit number.
    pub ip: u128,
    /// The TCP port.
    pub port: u16,
}

/// Geographic coordinates in millionths of a degree.
#[derive(Clone, Copy, PartialEq, Eq, Structural, Hash, Debug)]
pub struct GeoCoordinates {
    /// Latitude in millionths of a degree.
    pub latitude: i64,
    /// Longitude in millionths of a degree.
    pub longitude: i64,
}

/// The network a node belongs to; `Unknown` is the sentinel for nodes whose
/// network could not be established.
#[derive(Clone, Copy, PartialEq, Eq, Structural, Debug)]
pub enum NetworkType {
    /// A Zcash node.
    Zcash,
    /// The network could not be established.
    Unknown,
    /// An unusable tag, rejected by the command line.
    Invalid,
}

/// A vertex of the overlay graph. Centralities are fixed-point millionths;
/// `connections` holds the indices of the peers inside the owning node
/// vector.
pub struct Node {
    /// The node's network address.
    pub addr: Addr,
    /// The network the node belongs to.
    pub network_type: NetworkType,
    /// Betweenness centrality, in millionths.
    pub betweenness: i64,
    /// Closeness centrality, in millionths.
    pub closeness: i64,
    /// Indices of all connected nodes within the owning vector.
    pub connections: Vec<usize>,
    /// Geographic position, when the address could be located.
    pub geolocation: Option<GeoCoordinates>,
}

/// The mathematical value of a `Node`.
pub ghost struct NodeView {
    /// The node's network address.
    pub addr: Addr,
    /// The network the node belongs to.
    pub network_type: NetworkType,
    /// Betweenness centrality, in millionths.
    pub betweenness: i64,
    /// Closeness centrality, in millionths.
    pub closeness: i64,
    /// Indices of all connected nodes within the owning vector.
    pub connections: Seq<usize>,
    /// Geographic position, when the address could be located.
    pub geolocation: Option<GeoCoordinates>,
}

impl View for Node {
    type V = NodeView;

    open spec fn view(&self) -> NodeView {
        NodeView {
            addr: self.addr,
            network_type: self.network_type,
            betweenness: self.betweenness,
            closeness: self.closeness,
            connections: self.connections@,
            geolocation: self.geolocation,
        }
    }
}

impl Clone for Node {
    /// A deep copy carrying exactly the same data.
    fn clone(&self) -> (r: Node)
        ensures
            r@ == self@,
    {
        Node {
            addr: self.addr,
            network_type: self.network_type,
            betweenness: self.betweenness,
            closeness: self.closeness,
            connections: clone_usize_vec(&self.connections),
            geolocation: self.geolocation,
        }
    }
}

/// Copy a vector of indices; the copy holds exactly the same sequence.
pub fn clone_usize_vec(v: &Vec<usize>) -> (r: Vec<usize>)
    ensures
        r@ == v@,
{
    let mut r: Vec<usize> = Vec::new();
    let mut i: usize = 0;
    while i < v.len()
        invariant
            0 <= i <= v@.len(),
            r@ == v@.take(i as int),
        decreases v@.len() - i,
    {
        r.push(v[i]);
        i += 1;
    }
    proof {
        assert(v@.take(v@.len() as int) =~= v@);
    }
    r
}

/// Two node lists carry the same data, element by element.
pub open spec fn nodes_equal(a: Seq<Node>, b: Seq<Node>) -> bool {
    &&& a.len() == b.len()
    &&& forall|i: int| 0 <= i < a.len() ==> #[trigger] a[i]@ == #[trigger] b[i]@
}

/// Copy a node list; the copy carries the same data, element by element.
pub fn clone_nodes(nodes: &Vec<Node>) -> (r: Vec<Node>)
    ensures
        nodes_equal(r@, nodes@),
{
    let mut r: Vec<Node> = Vec::new();
    let mut i: usize = 0;
    while i < nodes.len()
        invariant
            0 <= i <= nodes@.len(),
            r@.len() == i,
            forall|k: int| 0 <= k < i ==> #[trigger] r@[k]@ == #[trigger] nodes@[k]@,
        decreases nodes@.len() - i,
    {
        r.push(nodes[i].clone());
        i += 1;
    }
    r
}

/// Whether the vector holds the given index.
pub fn contains_usize(v: &Vec<usize>, x: usize) -> (r: bool)
    ensures
        r == v@.contains(x),
{
    let mut i: usize = 0;
    while i < v.len()
        invariant
            0 <= i <= v@.len(),
            forall|k: int| 0 <= k < i ==> v@[k] != x,
        decreases v@.len() - i,
    {
        if v[i] == x {
            return true;
        }
        i += 1;
    }
    false
}

/// Every connection index points inside the node vector.
pub open spec fn conns_valid(nodes: Seq<Node>) -> bool {
    forall|i: int, k: int|
        0 <= i < nodes.len() && 0 <= k < nodes[i].connections@.len() ==> (#[trigger] nodes[i]
            .connections@[k]) < nodes.len()
}

/// Undirected symmetric adjacency: `j` is among `i`'s connections exactly
/// when `i` is among `j`'s.
pub open spec fn symmetric_adjacency(nodes: Seq<Node>) -> bool {
    forall|i: int, j: int|
        #![trigger nodes[i].connections@.contains(j as usize)]
        #![trigger nodes[j].connections@.contains(i as usize)]
        0 <= i < nodes.len() && 0 <= j < nodes.len() ==> (nodes[i].connections@.contains(j as usize)
            <==> nodes[j].connections@.contains(i as usize))
}

/// No two nodes share an address.
pub open spec fn distinct_addrs(nodes: Seq<Node>) -> bool {
    forall|i: int, j: int|
        #![trigger nodes[i].addr, nodes[j].addr]
        0 <= i < j < nodes.len() ==> nodes[i].addr != nodes[j].addr
}

/// Name, bin counts and peak bin of one displayed histogram.
pub struct HistogramSummary {
    /// Name of the histogram.
    pub label: String,
    /// Counts for each bin.
    pub counts: Vec<usize>,
    /// Maximum count over the bins.
    pub max_count: usize,
}

/// A summary is exact for a value series: its bins count the values between
/// the series' own minimum and maximum, and a degenerate series yields
/// all-zero bins.
pub open spec fn summary_exact(vals: Seq<i64>, s: HistogramSummary) -> bool {
    let mn = fold_min(vals, i64::MAX);
    let mx = fold_max(vals, i64::MIN);
    &&& s.counts@.len() == HISTOGRAM_COUNTS
    &&& is_max_count(s.counts@, s.max_count)
    &&& (vals.len() == 0 || mn == mx) ==> (forall|k: int|
        0 <= k < s.counts@.len() ==> #[trigger] s.counts@[k] == 0) && s.max_count == 0
    &&& vals.len() > 0 && mn < mx ==> counts_exact(
        vals,
        mn,
        mx - mn,
        HISTOGRAM_COUNTS as int,
        s.counts@,
    )
}

/// The betweenness series of a node list.
pub open spec fn betweenness_series(nodes: Seq<Node>) -> Seq<i64> {
    nodes.map_values(|n: Node| n.betweenness)
}

/// The closeness series of a node list.
pub open spec fn closeness_series(nodes: Seq<Node>) -> Seq<i64> {
    nodes.map_values(|n: Node| n.closeness)
}

/// The degree series of a node list: each node's connection count, in
/// millionths (saturated).
pub open spec fn degree_series(nodes: Seq<Node>) -> Seq<i64> {
    nodes.map_values(|n: Node| sat64(n.connections@.len() * (UNIT as int)) as i64)
}

/// Builds the three displayed histogram summaries (betweenness, closeness,
/// degree) of a node list.
pub fn create_histograms(nodes: &Vec<Node>) -> (r: Vec<HistogramSummary>)
    ensures
        r@.len() == 3,
        r@[0].label@ == "betweenness"@,
        r@[1].label@ == "closeness"@,
        r@[2].label@ == "degree"@,
        summary_exact(betweenness_series(nodes@), r@[0]),
        summary_exact(closeness_series(nodes@), r@[1]),
        summary_exact(degree_series(nodes@), r@[2]),
{
    let mut histogram_b = Histogram::default();
    let mut histogram_c = Histogram::default();
    let mut histogram_d = Histogram::default();

    let mut i: usize = 0;
    while i < nodes.len()
        invariant
            0 <= i <= nodes@.len(),
            histogram_b.min == i64::MAX && histogram_b.max == i64::MIN,
            histogram_c.min == i64::MAX && histogram_c.max == i64::MIN,
            histogram_d.min == i64::MAX && histogram_d.max == i64::MIN,
            histogram_b.values@ == betweenness_series(nodes@.take(i as int)),
            histogram_c.values@ == closeness_series(nodes@.take(i as int)),
            histogram_d.values@ == degree_series(nodes@.take(i as int)),
        decreases nodes@.len() - i,
    {
        let n = &nodes[i];
        histogram_b.add(n.betweenness);
        histogram_c.add(n.closeness);
        let deg = crate::saturate_i128_to_i64(n.connections.len() as i128 * (UNIT as i128));
        histogram_d.add(deg);
        proof {
            assert(betweenness_series(nodes@.take(i as int + 1)) =~= betweenness_series(
                nodes@.take(i as int),
            ).push(nodes@[i as int].betweenness));
            assert(closeness_series(nodes@.take(i as int + 1)) =~= closeness_series(
                nodes@.take(i as int),
            ).push(nodes@[i as int].closeness));
            assert(degree_series(nodes@.take(i as int + 1)) =~= degree_series(
                nodes@.take(i as int),
            ).push(sat64(nodes@[i as int].connections@.len() * (UNIT as int)) as i64));
        }
        i += 1;
    }
    proof {
        assert(nodes@.take(nodes@.len() as int) =~= nodes@);
        assert(betweenness_series(nodes@.take(nodes@.len() as int)) =~= betweenness_series(nodes@));
        assert(closeness_series(nodes@.take(nodes@.len() as int)) =~= closeness_series(nodes@));
        assert(degree_series(nodes@.take(nodes@.len() as int)) =~= degree_series(nodes@));
    }

    let mut histograms: Vec<HistogramSummary> = Vec::new();
    let (counts, max_count) = histogram_b.compute(HISTOGRAM_COUNTS);
    histograms.push(
        HistogramSummary { label: String::from_str("betweenness"), counts, max_count },
    );
    let (counts, max_count) = histogram_c.compute(HISTOGRAM_COUNTS);
    histograms.push(HistogramSummary { label: String::from_str("closeness"), counts, max_count });
    let (counts, max_count) = histogram_d.compute(HISTOGRAM_COUNTS);
    histograms.push(HistogramSummary { label: String::from_str("degree"), counts, max_count });
    histograms
}

} // verus!
