//! Graph utilities: structural node removal with index rewrite, bridge
//! detection via a betweenness threshold, graph reconstruction and the
//! network-type filter.

use vstd::prelude::*;

use crate::ips::IpsState;
use crate::nodes::{betweenness_series, conns_valid, distinct_addrs, symmetric_adjacency, Addr, NetworkType, Node};
use crate::statistics::spec_median;
use crate::{sat64, tdiv, UNIT};

verus! {

/// Index rewrite after removing position `idx`: indices above it move down
/// by one.
pub open spec fn shift_fn(idx: usize) -> spec_fn(usize) -> usize {
    |c: usize| if c > idx { (c - 1) as usize } else { c }
}

/// Keep a connection unless it points at the removed position.
pub open spec fn ne_fn(idx: usize) -> spec_fn(usize) -> bool {
    |c: usize| c != idx
}

/// The connection list of a surviving node after position `idx` is
/// removed: connections to `idx` are dropped, higher indices move down.
pub open spec fn removed_conns(s: Seq<usize>, idx: usize) -> Seq<usize> {
    s.filter(ne_fn(idx)).map_values(shift_fn(idx))
}

/// Membership in a rewritten connection list: exactly the surviving
/// connections, under the index rewrite.
pub proof fn lemma_removed_conns_contains(s: Seq<usize>, idx: usize, e: usize)
    ensures
        removed_conns(s, idx).contains(e) <==> exists|c: usize|
            s.contains(c) && c != idx && #[trigger] shift_fn(idx)(c) == e,
{
    broadcast use vstd::seq_lib::group_filter_ensures;
    broadcast use Seq::lemma_filter_contains_rev;

    let filtered = s.filter(ne_fn(idx));
    if removed_conns(s, idx).contains(e) {
        let m = choose|m: int|
            0 <= m < removed_conns(s, idx).len() && removed_conns(s, idx)[m] == e;
        let c = filtered[m];
        assert(filtered.contains(c));
        assert(s.contains(c) && ne_fn(idx)(c));
        assert(shift_fn(idx)(c) == e);
    }
    if exists|c: usize| s.contains(c) && c != idx && #[trigger] shift_fn(idx)(c) == e {
        let c = choose|c: usize| s.contains(c) && c != idx && #[trigger] shift_fn(idx)(c) == e;
        let i = choose|i: int| 0 <= i < s.len() && s[i] == c;
        assert(ne_fn(idx)(s[i]));
        assert(filtered.contains(c));
        let m = choose|m: int| 0 <= m < filtered.len() && filtered[m] == c;
        assert(removed_conns(s, idx)[m] == shift_fn(idx)(c));
        assert(removed_conns(s, idx).contains(e));
    }
}

/// The element-wise relation between a node vector and the same vector
/// with position `idx` removed: every surviving node keeps its data, and
/// its connection list is rewritten.
pub open spec fn removed_node_rel(prev: Seq<Node>, cur: Seq<Node>, idx: usize) -> bool {
    &&& idx < prev.len()
    &&& cur.len() == prev.len() - 1
    &&& forall|k: int|
        0 <= k < cur.len() ==> {
            let k0 = if k < idx {
                k
            } else {
                k + 1
            };
            &&& (#[trigger] cur[k]).addr == prev[k0].addr
            &&& cur[k].network_type == prev[k0].network_type
            &&& cur[k].betweenness == prev[k0].betweenness
            &&& cur[k].closeness == prev[k0].closeness
            &&& cur[k].geolocation == prev[k0].geolocation
            &&& cur[k].connections@ == removed_conns(prev[k0].connections@, idx)
        }
}

/// Removes the node at `node_idx` and rewrites all remaining connection
/// lists: connections to it disappear, higher indices move down by one.
/// Validity, symmetry and address distinctness of the adjacency are
/// preserved.
pub fn remove_node(nodes: &mut Vec<Node>, node_idx: usize)
    requires
        node_idx < old(nodes)@.len(),
    ensures
        removed_node_rel(old(nodes)@, final(nodes)@, node_idx),
        final(nodes)@.len() == old(nodes)@.len() - 1,
        conns_valid(old(nodes)@) ==> conns_valid(final(nodes)@),
        conns_valid(old(nodes)@) && symmetric_adjacency(old(nodes)@) ==> symmetric_adjacency(
            final(nodes)@,
        ),
        distinct_addrs(old(nodes)@) ==> distinct_addrs(final(nodes)@),
{
    let ghost prev = nodes@;
    let nodes_len = nodes.len();
    let mut out: Vec<Node> = Vec::new();
    let mut k: usize = 0;
    while k < nodes_len
        invariant
            0 <= k <= prev.len(),
            nodes@ == prev,
            nodes_len == prev.len(),
            node_idx < prev.len(),
            out@.len() == if k <= node_idx {
                k as int
            } else {
                k - 1
            },
            forall|m: int|
                0 <= m < out@.len() ==> {
                    let m0 = if m < node_idx {
                        m
                    } else {
                        m + 1
                    };
                    &&& (#[trigger] out@[m]).addr == prev[m0].addr
                    &&& out@[m].network_type == prev[m0].network_type
                    &&& out@[m].betweenness == prev[m0].betweenness
                    &&& out@[m].closeness == prev[m0].closeness
                    &&& out@[m].geolocation == prev[m0].geolocation
                    &&& out@[m].connections@ == removed_conns(prev[m0].connections@, node_idx)
                },
        decreases prev.len() - k,
    {
        if k != node_idx {
            let src = &nodes[k];
            let mut conns: Vec<usize> = Vec::new();
            let mut j: usize = 0;
            while j < src.connections.len()
                invariant
                    0 <= j <= src.connections@.len(),
                    conns@ == removed_conns(src.connections@.take(j as int), node_idx),
                decreases src.connections@.len() - j,
            {
                let c = src.connections[j];
                let ghost x = src.connections@[j as int];
                let ghost tk = src.connections@.take(j as int);
                proof {
                    assert(src.connections@.take(j as int + 1) =~= tk.push(x));
                    tk.lemma_filter_push(x, ne_fn(node_idx));
                }
                if c != node_idx {
                    let shifted = if c > node_idx {
                        c - 1
                    } else {
                        c
                    };
                    conns.push(shifted);
                    proof {
                        assert(ne_fn(node_idx)(x));
                        tk.filter(ne_fn(node_idx)).lemma_push_map_commute(shift_fn(node_idx), x);
                        assert(shift_fn(node_idx)(x) == shifted);
                        assert(conns@ == removed_conns(
                            src.connections@.take(j as int + 1),
                            node_idx,
                        ));
                    }
                } else {
                    proof {
                        assert(!ne_fn(node_idx)(x));
                        assert(conns@ == removed_conns(
                            src.connections@.take(j as int + 1),
                            node_idx,
                        ));
                    }
                }
                j += 1;
            }
            proof {
                assert(src.connections@.take(src.connections@.len() as int) =~= src.connections@);
            }
            out.push(
                Node {
                    addr: src.addr,
                    network_type: src.network_type,
                    betweenness: src.betweenness,
                    closeness: src.closeness,
                    connections: conns,
                    geolocation: src.geolocation,
                },
            );
        }
        k += 1;
    }
    proof {
        assert(removed_node_rel(prev, out@, node_idx));
        if conns_valid(prev) {
            lemma_removed_rel_conns_valid(prev, out@, node_idx);
            if symmetric_adjacency(prev) {
                lemma_removed_rel_symmetric(prev, out@, node_idx);
            }
        }
        if distinct_addrs(prev) {
            assert forall|a: int, b: int| 0 <= a < b < out@.len() implies out@[a].addr != out@[
                b ].addr by {
                let a0 = if a < node_idx {
                    a
                } else {
                    a + 1
                };
                let b0 = if b < node_idx {
                    b
                } else {
                    b + 1
                };
                assert(prev[a0].addr != prev[b0].addr);
            }
        }
    }
    *nodes = out;
}

/// Rewritten connection lists still point inside the shrunken vector.
proof fn lemma_removed_rel_conns_valid(prev: Seq<Node>, cur: Seq<Node>, idx: usize)
    requires
        removed_node_rel(prev, cur, idx),
        prev.len() <= usize::MAX,
        conns_valid(prev),
    ensures
        conns_valid(cur),
{
    broadcast use vstd::seq_lib::group_filter_ensures;

    assert forall|k: int, m: int|
        0 <= k < cur.len() && 0 <= m < cur[k].connections@.len() implies (#[trigger] cur[k]
        .connections@[m]) < cur.len() by {
        let k0 = if k < idx {
            k
        } else {
            k + 1
        };
        let s = prev[k0].connections@;
        let e = cur[k].connections@[m];
        assert(cur[k].connections@.contains(e));
        lemma_removed_conns_contains(s, idx, e);
        let c = choose|c: usize| s.contains(c) && c != idx && #[trigger] shift_fn(idx)(c) == e;
        assert(s.contains(c));
        let ci = choose|ci: int| 0 <= ci < s.len() && s[ci] == c;
        assert((c as int) < prev.len());
    }
}

/// The index rewrite keeps the adjacency symmetric.
proof fn lemma_removed_rel_symmetric(prev: Seq<Node>, cur: Seq<Node>, idx: usize)
    requires
        removed_node_rel(prev, cur, idx),
        prev.len() <= usize::MAX,
        conns_valid(prev),
        symmetric_adjacency(prev),
    ensures
        symmetric_adjacency(cur),
{
    assert forall|i: int, j: int|
        0 <= i < cur.len() && 0 <= j < cur.len() implies ((#[trigger] cur[i].connections@.contains(
        j as usize)) <==> (#[trigger] cur[j].connections@.contains(i as usize))) by {
        let i0 = if i < idx {
            i
        } else {
            i + 1
        };
        let j0 = if j < idx {
            j
        } else {
            j + 1
        };
        lemma_removed_conns_contains(prev[i0].connections@, idx, j as usize);
        lemma_removed_conns_contains(prev[j0].connections@, idx, i as usize);
        assert(shift_fn(idx)(j0 as usize) == j as usize);
        assert(shift_fn(idx)(i0 as usize) == i as usize);
        if cur[i].connections@.contains(j as usize) {
            let c = choose|c: usize|
                prev[i0].connections@.contains(c) && c != idx && #[trigger] shift_fn(idx)(c) == (
                j as usize);
            assert(c == j0 as usize);
            assert(prev[i0].connections@.contains(j0 as usize));
            assert(prev[j0].connections@.contains(i0 as usize));
            assert(cur[j].connections@.contains(i as usize));
        }
        if cur[j].connections@.contains(i as usize) {
            let c = choose|c: usize|
                prev[j0].connections@.contains(c) && c != idx && #[trigger] shift_fn(idx)(c) == (
                i as usize);
            assert(c == i0 as usize);
            assert(prev[j0].connections@.contains(i0 as usize));
            assert(prev[i0].connections@.contains(j0 as usize));
            assert(cur[i].connections@.contains(j as usize));
        }
    }
}

/// The running fold of the lowest-betweenness scan: the best index after
/// examining positions `k` and up, starting from `best`.
pub open spec fn spec_lowest_from(nodes: Seq<Node>, idxs: Seq<usize>, k: int, best: usize) -> usize
    decreases idxs.len() - k,
{
    if k < 0 || k >= idxs.len() {
        best
    } else {
        if nodes[idxs[k] as int].betweenness < nodes[best as int].betweenness {
            spec_lowest_from(nodes, idxs, k + 1, idxs[k])
        } else {
            spec_lowest_from(nodes, idxs, k + 1, best)
        }
    }
}

/// The index among `idxs` whose node has the lowest betweenness, ties to
/// the first occurrence; an empty list yields index 0.
pub open spec fn spec_lowest(nodes: Seq<Node>, idxs: Seq<usize>) -> usize {
    if idxs.len() == 0 {
        0
    } else {
        spec_lowest_from(nodes, idxs, 1, idxs[0])
    }
}

/// Among the given indices, the one whose node has the lowest betweenness;
/// ties go to the first occurrence, and an empty list yields index 0.
pub fn find_lowest_betweenness(nodes_idx: &Vec<usize>, state: &IpsState) -> (r: usize)
    requires
        forall|k: int| 0 <= k < nodes_idx@.len() ==> (#[trigger] nodes_idx@[k]) < state.nodes@.len(),
    ensures
        r == spec_lowest(state.nodes@, nodes_idx@),
        nodes_idx@.len() == 0 ==> r == 0,
        nodes_idx@.len() > 0 ==> exists|m: int|
            {
                &&& 0 <= m < nodes_idx@.len()
                &&& #[trigger] nodes_idx@[m] == r
                &&& forall|k: int|
                    0 <= k < nodes_idx@.len() ==> state.nodes@[r as int].betweenness <= state.nodes@[
                    #[trigger] nodes_idx@[k] as int].betweenness
                &&& forall|k: int|
                    0 <= k < m ==> state.nodes@[#[trigger] nodes_idx@[k] as int].betweenness
                        > state.nodes@[r as int].betweenness
            },
{
    if nodes_idx.len() == 0 {
        return 0;
    }
    let mut r = nodes_idx[0];
    let mut lowest = state.nodes[r].betweenness;
    let ghost m: int = 0;
    let mut k: usize = 1;
    while k < nodes_idx.len()
        invariant
            1 <= k <= nodes_idx@.len(),
            0 <= m < k,
            nodes_idx@[m] == r,
            (r as int) < state.nodes@.len(),
            lowest == state.nodes@[r as int].betweenness,
            forall|k2: int| 0 <= k2 < nodes_idx@.len() ==> (#[trigger] nodes_idx@[k2]) < state.nodes@.len(),
            forall|k2: int|
                0 <= k2 < k ==> lowest <= state.nodes@[#[trigger] nodes_idx@[k2] as int].betweenness,
            forall|k2: int|
                0 <= k2 < m ==> state.nodes@[#[trigger] nodes_idx@[k2] as int].betweenness > lowest,
            spec_lowest_from(state.nodes@, nodes_idx@, k as int, r) == spec_lowest(
                state.nodes@,
                nodes_idx@,
            ),
        decreases nodes_idx@.len() - k,
    {
        let idx = nodes_idx[k];
        let b = state.nodes[idx].betweenness;
        if b < lowest {
            lowest = b;
            r = idx;
            proof {
                m = k as int;
            }
        }
        k += 1;
    }
    proof {
        assert(0 <= m < nodes_idx@.len() && nodes_idx@[m] == r);
    }
    r
}

/// Two indices are adjacent: either lists the other among its connections.
pub open spec fn spec_adj(nodes: Seq<Node>, i: int, j: int) -> bool {
    &&& 0 <= i < nodes.len()
    &&& 0 <= j < nodes.len()
    &&& (nodes[i].connections@.contains(j as usize) || nodes[j].connections@.contains(i as usize))
}

/// The set of edges a node list describes, as ordered address pairs closed
/// under swapping (an undirected edge appears in both orientations).
pub open spec fn spec_edges(nodes: Seq<Node>) -> Set<(Addr, Addr)> {
    Set::new(
        |e: (Addr, Addr)|
            exists|i: int, j: int|
                #[trigger] spec_adj(nodes, i, j) && e == (nodes[i].addr, nodes[j].addr),
    )
}

/// An undirected graph over node addresses, stored as an edge list; the
/// abstract value is the set of both orientations of every stored edge.
pub struct Graph {
    /// One stored orientation of each inserted edge.
    pub edges: Vec<(Addr, Addr)>,
}

impl Graph {
    /// The set of edges: every stored pair together with its swap.
    pub open spec fn edge_set(self) -> Set<(Addr, Addr)> {
        Set::new(|e: (Addr, Addr)| self.edges@.contains(e) || self.edges@.contains((e.1, e.0)))
    }

    /// The empty graph.
    pub fn new() -> (g: Graph)
        ensures
            g.edge_set() == Set::<(Addr, Addr)>::empty(),
    {
        let g = Graph { edges: Vec::new() };
        proof {
            assert(g.edge_set() =~= Set::<(Addr, Addr)>::empty());
        }
        g
    }

    /// Whether the edge between `a` and `b` (in either orientation) is in
    /// the graph.
    pub fn contains(&self, a: Addr, b: Addr) -> (r: bool)
        ensures
            r == self.edge_set().contains((a, b)),
    {
        let mut i: usize = 0;
        while i < self.edges.len()
            invariant
                0 <= i <= self.edges@.len(),
                forall|k: int|
                    0 <= k < i ==> #[trigger] self.edges@[k] != (a, b) && self.edges@[k] != (b, a),
            decreases self.edges@.len() - i,
        {
            let (x, y) = self.edges[i];
            if (x == a && y == b) || (x == b && y == a) {
                proof {
                    assert(self.edges@.contains((a, b)) || self.edges@.contains((b, a)));
                }
                return true;
            }
            i += 1;
        }
        proof {
            assert(!self.edges@.contains((a, b)));
            assert(!self.edges@.contains((b, a)));
        }
        false
    }

    /// Insert the undirected edge between `a` and `b`; inserting an edge
    /// already present changes nothing.
    pub fn insert(&mut self, a: Addr, b: Addr)
        ensures
            final(self).edge_set() == old(self).edge_set().insert((a, b)).insert((b, a)),
    {
        let present = self.contains(a, b);
        if !present {
            let ghost pre = self.edges@;
            self.edges.push((a, b));
            proof {
                assert forall|e: (Addr, Addr)| #[trigger] self.edge_set().contains(e) implies old(
                    self,
                ).edge_set().insert((a, b)).insert((b, a)).contains(e) by {
                    if self.edges@.contains(e) {
                        let k = choose|k: int| 0 <= k < self.edges@.len() && self.edges@[k] == e;
                        if k < pre.len() {
                            assert(pre.contains(e));
                        } else {
                            assert(e == (a, b));
                        }
                    } else {
                        let k = choose|k: int|
                            0 <= k < self.edges@.len() && self.edges@[k] == (e.1, e.0);
                        if k < pre.len() {
                            assert(pre.contains((e.1, e.0)));
                        } else {
                            assert(e == (b, a));
                        }
                    }
                }
                assert forall|e: (Addr, Addr)|
                    old(self).edge_set().insert((a, b)).insert((b, a)).contains(e) implies #[trigger] self
                    .edge_set()
                    .contains(e) by {
                    if e == (a, b) {
                        assert(self.edges@[pre.len() as int] == (a, b));
                        assert(self.edges@.contains((a, b)));
                    } else if e == (b, a) {
                        assert(self.edges@[pre.len() as int] == (a, b));
                        assert(self.edges@.contains((a, b)));
                    } else {
                        assert(old(self).edge_set().contains(e));
                        if pre.contains(e) {
                            let k = choose|k: int| 0 <= k < pre.len() && pre[k] == e;
                            assert(self.edges@[k] == e);
                            assert(self.edges@.contains(e));
                        } else {
                            let k = choose|k: int| 0 <= k < pre.len() && pre[k] == (e.1, e.0);
                            assert(self.edges@[k] == (e.1, e.0));
                            assert(self.edges@.contains((e.1, e.0)));
                        }
                    }
                }
                assert(self.edge_set() =~= old(self).edge_set().insert((a, b)).insert((b, a)));
            }
        } else {
            proof {
                assert(old(self).edge_set().contains((a, b)));
                assert(old(self).edge_set().contains((b, a)));
                assert(self.edge_set() =~= old(self).edge_set().insert((a, b)).insert((b, a)));
            }
        }
    }
}

/// Reconstruct the undirected graph from the nodes' connection lists: one
/// edge for every `(i, j)` with `j` among `i`'s connections.
pub fn construct_graph(nodes: &Vec<Node>) -> (g: Graph)
    requires
        conns_valid(nodes@),
    ensures
        g.edge_set() == spec_edges(nodes@),
{
    let mut g = Graph::new();
    let mut i: usize = 0;
    while i < nodes.len()
        invariant
            0 <= i <= nodes@.len(),
            conns_valid(nodes@),
            forall|e: (Addr, Addr)|
                #[trigger] g.edge_set().contains(e) ==> spec_edges(nodes@).contains(e),
            forall|i2: int, k2: int|
                0 <= i2 < i && 0 <= k2 < nodes@[i2].connections@.len() ==> g.edge_set().contains(
                    (nodes@[i2].addr, nodes@[(#[trigger] nodes@[i2].connections@[k2]) as int].addr),
                ),
        decreases nodes@.len() - i,
    {
        let node = &nodes[i];
        let node_addr = node.addr;
        let mut k: usize = 0;
        while k < node.connections.len()
            invariant
                0 <= k <= node.connections@.len(),
                0 <= i < nodes@.len(),
                node == &nodes[i as int],
                node_addr == nodes@[i as int].addr,
                conns_valid(nodes@),
                forall|e: (Addr, Addr)|
                    #[trigger] g.edge_set().contains(e) ==> spec_edges(nodes@).contains(e),
                forall|i2: int, k2: int|
                    0 <= i2 < i && 0 <= k2 < nodes@[i2].connections@.len() ==> g.edge_set().contains(
                        (
                            nodes@[i2].addr,
                            nodes@[(#[trigger] nodes@[i2].connections@[k2]) as int].addr,
                        ),
                    ),
                forall|k2: int|
                    0 <= k2 < k ==> g.edge_set().contains(
                        (
                            nodes@[i as int].addr,
                            nodes@[(#[trigger] nodes@[i as int].connections@[k2]) as int].addr,
                        ),
                    ),
            decreases node.connections@.len() - k,
        {
            let c = node.connections[k];
            proof {
                assert(nodes@[i as int].connections@[k as int] == c);
                assert((c as int) < nodes@.len());
            }
            let peer_addr = nodes[c].addr;
            g.insert(node_addr, peer_addr);
            proof {
                assert(nodes@[i as int].connections@.contains(c));
                assert(spec_adj(nodes@, i as int, c as int));
                assert(spec_adj(nodes@, c as int, i as int));
                assert(spec_edges(nodes@).contains((nodes@[i as int].addr, nodes@[c as int].addr)));
                assert(spec_edges(nodes@).contains((nodes@[c as int].addr, nodes@[i as int].addr)));
            }
            k += 1;
        }
        i += 1;
    }
    proof {
        assert forall|e: (Addr, Addr)| spec_edges(nodes@).contains(e) implies #[trigger] g
            .edge_set()
            .contains(e) by {
            let (i2, j2) = choose|i2: int, j2: int|
                #[trigger] spec_adj(nodes@, i2, j2) && e == (nodes@[i2].addr, nodes@[j2].addr);
            if nodes@[i2].connections@.contains(j2 as usize) {
                let k2 = choose|k2: int|
                    0 <= k2 < nodes@[i2].connections@.len() && nodes@[i2].connections@[k2] == (
                    j2 as usize);
                assert(g.edge_set().contains((nodes@[i2].addr, nodes@[j2].addr)));
            } else {
                let k2 = choose|k2: int|
                    0 <= k2 < nodes@[j2].connections@.len() && nodes@[j2].connections@[k2] == (
                    i2 as usize);
                assert(g.edge_set().contains((nodes@[j2].addr, nodes@[i2].addr)));
            }
        }
        assert(g.edge_set() =~= spec_edges(nodes@));
    }
    g
}

/// Law: removing a node removes exactly the edges incident to its address.
/// Rebuilding the graph after `remove_node` yields the edges of the
/// original graph minus those touching the removed vertex, index rewrite
/// notwithstanding.
pub proof fn lemma_remove_node_edges(prev: Seq<Node>, cur: Seq<Node>, idx: usize)
    requires
        removed_node_rel(prev, cur, idx),
        prev.len() <= usize::MAX,
        conns_valid(prev),
        distinct_addrs(prev),
    ensures
        spec_edges(cur) == Set::new(
            |e: (Addr, Addr)|
                spec_edges(prev).contains(e) && e.0 != prev[idx as int].addr && e.1 != prev[
                    idx as int
                ].addr,
        ),
{
    let a_idx = prev[idx as int].addr;
    let target = Set::new(
        |e: (Addr, Addr)| spec_edges(prev).contains(e) && e.0 != a_idx && e.1 != a_idx,
    );
    assert forall|e: (Addr, Addr)| #[trigger] spec_edges(cur).contains(e) implies target.contains(
        e,
    ) by {
        let (i2, j2) = choose|i2: int, j2: int|
            #[trigger] spec_adj(cur, i2, j2) && e == (cur[i2].addr, cur[j2].addr);
        let i0 = if i2 < idx {
            i2
        } else {
            i2 + 1
        };
        let j0 = if j2 < idx {
            j2
        } else {
            j2 + 1
        };
        lemma_removed_conns_contains(prev[i0].connections@, idx, j2 as usize);
        lemma_removed_conns_contains(prev[j0].connections@, idx, i2 as usize);
        if cur[i2].connections@.contains(j2 as usize) {
            let c = choose|c: usize|
                prev[i0].connections@.contains(c) && c != idx && #[trigger] shift_fn(idx)(c) == (
                j2 as usize);
            assert(c == j0 as usize);
            assert(prev[i0].connections@.contains(j0 as usize));
        } else {
            let c = choose|c: usize|
                prev[j0].connections@.contains(c) && c != idx && #[trigger] shift_fn(idx)(c) == (
                i2 as usize);
            assert(c == i0 as usize);
            assert(prev[j0].connections@.contains(i0 as usize));
        }
        assert(spec_adj(prev, i0, j0));
        assert(spec_edges(prev).contains((prev[i0].addr, prev[j0].addr)));
        assert(prev[i0].addr != a_idx);
        assert(prev[j0].addr != a_idx);
    }
    assert forall|e: (Addr, Addr)| #[trigger] target.contains(e) implies spec_edges(cur).contains(
        e,
    ) by {
        let (i0, j0) = choose|i0: int, j0: int|
            #[trigger] spec_adj(prev, i0, j0) && e == (prev[i0].addr, prev[j0].addr);
        assert(i0 != idx) by {
            if i0 == idx {
                assert(e.0 == a_idx);
            }
        }
        assert(j0 != idx) by {
            if j0 == idx {
                assert(e.1 == a_idx);
            }
        }
        let i2 = if i0 < idx {
            i0
        } else {
            i0 - 1
        };
        let j2 = if j0 < idx {
            j0
        } else {
            j0 - 1
        };
        lemma_removed_conns_contains(prev[i0].connections@, idx, j2 as usize);
        lemma_removed_conns_contains(prev[j0].connections@, idx, i2 as usize);
        assert(shift_fn(idx)(j0 as usize) == j2 as usize);
        assert(shift_fn(idx)(i0 as usize) == i2 as usize);
        if prev[i0].connections@.contains(j0 as usize) {
            assert(cur[i2].connections@.contains(j2 as usize));
        } else {
            assert(prev[j0].connections@.contains(i0 as usize));
            assert(cur[j2].connections@.contains(i2 as usize));
        }
        assert(spec_adj(cur, i2, j2));
        assert(cur[i2].addr == prev[i0].addr);
        assert(cur[j2].addr == prev[j0].addr);
        assert(spec_edges(cur).contains((cur[i2].addr, cur[j2].addr)));
    }
    assert(spec_edges(cur) =~= target);
}

/// The suspected bridges of a graph: the pairs of adjacent indices whose
/// betweenness both exceed the threshold, stored as an undirected edge
/// list.
pub struct Bridges {
    /// One stored orientation of each bridge edge.
    pub edges: Vec<(usize, usize)>,
}

/// Whether the pair `(u, v)` occurs in an edge list, in either
/// orientation.
pub open spec fn linked_in(edges: Seq<(usize, usize)>, u: int, v: int) -> bool {
    exists|k: int|
        0 <= k < edges.len() && ((#[trigger] edges[k]) == (u as usize, v as usize) || edges[k] == (
        v as usize, u as usize))
}

impl Bridges {
    /// Whether `u` and `v` form a recorded bridge (in either orientation).
    pub open spec fn linked(self, u: int, v: int) -> bool {
        linked_in(self.edges@, u, v)
    }

    /// Query one pair.
    pub fn is_bridge(&self, u: usize, v: usize) -> (r: bool)
        ensures
            r == self.linked(u as int, v as int),
    {
        let mut k: usize = 0;
        while k < self.edges.len()
            invariant
                0 <= k <= self.edges@.len(),
                forall|k2: int|
                    0 <= k2 < k ==> #[trigger] self.edges@[k2] != (u, v) && self.edges@[k2] != (
                    v, u),
            decreases self.edges@.len() - k,
        {
            let (x, y) = self.edges[k];
            if (x == u && y == v) || (x == v && y == u) {
                return true;
            }
            k += 1;
        }
        false
    }
}

/// The bridge threshold of a node list: the betweenness median scaled by
/// the adjustment factor.
pub open spec fn spec_bridge_threshold(nodes: Seq<Node>, adjustment: i64) -> int {
    sat64(
        tdiv(
            spec_median(betweenness_series(nodes)) * adjustment,
            UNIT as int,
        ),
    )
}

/// Which pairs the bridge heuristic records: adjacent, with both
/// endpoints' betweenness strictly above the threshold.
pub open spec fn is_bridge_pair(nodes: Seq<Node>, t: int, u: int, v: int) -> bool {
    &&& 0 <= u < nodes.len()
    &&& 0 <= v < nodes.len()
    &&& (nodes[u].connections@.contains(v as usize) || nodes[v].connections@.contains(u as usize))
    &&& nodes[u].betweenness > t
    &&& nodes[v].betweenness > t
}

/// A bridge record is exact for a node list: precisely the adjacent pairs
/// whose two betweenness values lie strictly above the adjusted median
/// threshold are linked.
pub open spec fn bridges_exact(nodes: Seq<Node>, adjustment: i64, b: Bridges) -> bool {
    forall|u: int, v: int|
        0 <= u < nodes.len() && 0 <= v < nodes.len() ==> (#[trigger] b.linked(u, v)
            <==> is_bridge_pair(nodes, spec_bridge_threshold(nodes, adjustment), u, v))
}

/// Find the suspected bridges: edges whose two endpoints both have
/// betweenness strictly above the adjusted median threshold. Fewer than
/// two nodes yield no bridges.
pub fn find_bridges(nodes: &Vec<Node>, threshold_adjustment: i64) -> (r: Bridges)
    requires
        conns_valid(nodes@),
    ensures
        nodes@.len() < 2 ==> (forall|u: int, v: int| !r.linked(u, v)),
        nodes@.len() >= 2 ==> bridges_exact(nodes@, threshold_adjustment, r),
        forall|u: usize, v: usize|
            #[trigger] r.linked(u as int, v as int) ==> (u as int) < nodes@.len() && (v as int)
                < nodes@.len(),
{
    if nodes.len() < 2 {
        let r = Bridges { edges: Vec::new() };
        return r;
    }
    let nodes_len = nodes.len();
    let mut betweenness_list: Vec<i64> = Vec::new();
    let mut i: usize = 0;
    while i < nodes.len()
        invariant
            0 <= i <= nodes@.len(),
            betweenness_list@ == betweenness_series(nodes@.take(i as int)),
        decreases nodes@.len() - i,
    {
        proof {
            assert(betweenness_series(nodes@.take(i as int + 1)) =~= betweenness_series(
                nodes@.take(i as int),
            ).push(nodes@[i as int].betweenness));
        }
        betweenness_list.push(nodes[i].betweenness);
        i += 1;
    }
    proof {
        assert(nodes@.take(nodes@.len() as int) =~= nodes@);
        assert(betweenness_series(nodes@.take(nodes@.len() as int)) =~= betweenness_series(nodes@));
    }
    let betweenness_median = match crate::statistics::median(&betweenness_list) {
        Some(m) => m,
        None => 0,  // unreachable: the list has at least two entries
    };
    proof {
        assert((i128::MIN as int) < (betweenness_median as int) * (threshold_adjustment as int)
            && (betweenness_median as int) * (threshold_adjustment as int) < (i128::MAX as int))
            by (nonlinear_arith)
            requires
                i64::MIN as int <= betweenness_median as int <= i64::MAX as int,
                i64::MIN as int <= threshold_adjustment as int <= i64::MAX as int,
        ;
    }
    let t: i64 = crate::tdiv_i128_sat(
        betweenness_median as i128 * threshold_adjustment as i128,
        UNIT as i128,
    );
    let ghost ts = spec_bridge_threshold(nodes@, threshold_adjustment);
    proof {
        assert(t == ts);
    }
    let mut bridges = Bridges { edges: Vec::new() };
    let mut u: usize = 0;
    while u < nodes_len
        invariant
            0 <= u <= nodes@.len(),
            nodes_len == nodes@.len(),
            conns_valid(nodes@),
            t == ts,
            forall|k2: int|
                0 <= k2 < bridges.edges@.len() ==> ((#[trigger] bridges.edges@[k2]).0 as int)
                    < nodes@.len() && (bridges.edges@[k2].1 as int) < nodes@.len(),
            forall|u2: int, v2: int|
                0 <= u2 < nodes@.len() && 0 <= v2 < nodes@.len() ==> (#[trigger] linked_in(
                    bridges.edges@,
                    u2,
                    v2,
                ) <==> is_bridge_pair(nodes@, ts, u2, v2) && ((u2 < u && nodes@[
                u2 ].connections@.contains(v2 as usize)) || (v2 < u && nodes@[
                v2 ].connections@.contains(u2 as usize)))),
        decreases nodes@.len() - u,
    {
        let node_betweenness = nodes[u].betweenness;
        if node_betweenness > t {
            let conn_len = nodes[u].connections.len();
            let mut k: usize = 0;
            while k < conn_len
                invariant
                    0 <= k <= conn_len,
                    0 <= u < nodes@.len(),
                    nodes_len == nodes@.len(),
                    conn_len == nodes@[u as int].connections@.len(),
                    conns_valid(nodes@),
                    t == ts,
                    node_betweenness == nodes@[u as int].betweenness,
                    node_betweenness > ts,
                    forall|k2: int|
                        0 <= k2 < bridges.edges@.len() ==> ((#[trigger] bridges.edges@[k2]).0
                            as int) < nodes@.len() && (bridges.edges@[k2].1 as int) < nodes@.len(),
                    forall|u2: int, v2: int|
                        0 <= u2 < nodes@.len() && 0 <= v2 < nodes@.len() ==> (#[trigger] linked_in(
                            bridges.edges@,
                            u2,
                            v2,
                        ) <==> is_bridge_pair(nodes@, ts, u2, v2) && ((u2 < u && nodes@[
                        u2 ].connections@.contains(v2 as usize)) || (v2 < u && nodes@[
                        v2 ].connections@.contains(u2 as usize)) || (u2 == u && nodes@[
                        u as int ].connections@.take(k as int).contains(v2 as usize)) || (v2 == u
                            && nodes@[u as int].connections@.take(k as int).contains(
                            u2 as usize)))),
                decreases conn_len - k,
            {
                let c = nodes[u].connections[k];
                let ghost pre = bridges.edges@;
                proof {
                    assert(nodes@[u as int].connections@[k as int] == c);
                    assert((c as int) < nodes@.len());
                    assert(nodes@[u as int].connections@.take(k as int + 1) =~= nodes@[
                    u as int ].connections@.take(k as int).push(c));
                }
                if nodes[c].betweenness > t {
                    bridges.edges.push((u, c));
                    proof {
                        assert(nodes@[u as int].connections@.contains(c)) by {
                            assert(nodes@[u as int].connections@[k as int] == c);
                        }
                        assert(nodes@[u as int].connections@.take(k as int + 1).contains(c)) by {
                            assert(nodes@[u as int].connections@.take(k as int + 1)[k as int] == c);
                        }
                        assert forall|u2: int, v2: int|
                            0 <= u2 < nodes@.len() && 0 <= v2 < nodes@.len() implies (
                        #[trigger] linked_in(bridges.edges@, u2, v2) <==> is_bridge_pair(
                            nodes@,
                            ts,
                            u2,
                            v2,
                        ) && ((u2 < u && nodes@[u2].connections@.contains(v2 as usize)) || (v2 < u
                            && nodes@[v2].connections@.contains(u2 as usize)) || (u2 == u && nodes@[
                        u as int ].connections@.take(k as int + 1).contains(v2 as usize)) || (v2
                            == u && nodes@[u as int].connections@.take(k as int + 1).contains(
                            u2 as usize)))) by {
                            if linked_in(bridges.edges@, u2, v2) {
                                let k2 = choose|k2: int|
                                    0 <= k2 < bridges.edges@.len() && ((
                                    #[trigger] bridges.edges@[k2]) == (u2 as usize, v2 as usize)
                                        || bridges.edges@[k2] == (v2 as usize, u2 as usize));
                                if k2 < pre.len() {
                                    assert(pre[k2] == bridges.edges@[k2]);
                                    assert(linked_in(pre, u2, v2));
                                } else {
                                    assert(bridges.edges@[k2] == (u, c));
                                    assert(u2 == u as int && v2 == c as int || u2 == c as int && v2
                                        == u as int);
                                }
                            }
                            if is_bridge_pair(nodes@, ts, u2, v2) && ((u2 < u && nodes@[
                            u2 ].connections@.contains(v2 as usize)) || (v2 < u && nodes@[
                            v2 ].connections@.contains(u2 as usize)) || (u2 == u && nodes@[
                            u as int ].connections@.take(k as int + 1).contains(v2 as usize)) || (
                            v2 == u && nodes@[u as int].connections@.take(k as int + 1).contains(
                            u2 as usize))) {
                                if linked_in(pre, u2, v2) {
                                    let k2 = choose|k2: int|
                                        0 <= k2 < pre.len() && ((#[trigger] pre[k2]) == (
                                        u2 as usize,
                                        v2 as usize,
                                        ) || pre[k2] == (v2 as usize, u2 as usize));
                                    assert(bridges.edges@[k2] == pre[k2]);
                                    assert(linked_in(bridges.edges@, u2, v2));
                                } else {
                                    assert(bridges.edges@[pre.len() as int] == (u, c));
                                    if u2 == u && nodes@[u as int].connections@.take(
                                        k as int + 1,
                                    ).contains(v2 as usize) && !nodes@[
                                    u as int ].connections@.take(k as int).contains(v2 as usize) {
                                        assert(v2 == c as int);
                                        assert(linked_in(bridges.edges@, u as int, c as int));
                                    }
                                    if v2 == u && nodes@[u as int].connections@.take(
                                        k as int + 1,
                                    ).contains(u2 as usize) && !nodes@[
                                    u as int ].connections@.take(k as int).contains(u2 as usize) {
                                        assert(u2 == c as int);
                                        assert(linked_in(bridges.edges@, c as int, u as int));
                                    }
                                    assert(linked_in(bridges.edges@, u2, v2));
                                }
                            }
                        }
                    }
                } else {
                    proof {
                        assert forall|u2: int, v2: int|
                            0 <= u2 < nodes@.len() && 0 <= v2 < nodes@.len() implies (
                        #[trigger] linked_in(bridges.edges@, u2, v2) <==> is_bridge_pair(
                            nodes@,
                            ts,
                            u2,
                            v2,
                        ) && ((u2 < u && nodes@[u2].connections@.contains(v2 as usize)) || (v2 < u
                            && nodes@[v2].connections@.contains(u2 as usize)) || (u2 == u && nodes@[
                        u as int ].connections@.take(k as int + 1).contains(v2 as usize)) || (v2
                            == u && nodes@[u as int].connections@.take(k as int + 1).contains(
                            u2 as usize)))) by {
                            if u2 == u && nodes@[u as int].connections@.take(k as int + 1).contains(
                                v2 as usize,
                            ) && !nodes@[u as int].connections@.take(k as int).contains(
                                v2 as usize,
                            ) {
                                assert(v2 == c as int);
                                assert(nodes@[v2].betweenness <= ts);
                            }
                            if v2 == u && nodes@[u as int].connections@.take(k as int + 1).contains(
                                u2 as usize,
                            ) && !nodes@[u as int].connections@.take(k as int).contains(
                                u2 as usize,
                            ) {
                                assert(u2 == c as int);
                                assert(nodes@[u2].betweenness <= ts);
                            }
                        }
                    }
                }
                k += 1;
            }
            proof {
                assert(nodes@[u as int].connections@.take(
                    nodes@[u as int].connections@.len() as int,
                ) =~= nodes@[u as int].connections@);
            }
        } else {
            proof {
                assert forall|u2: int, v2: int|
                    0 <= u2 < nodes@.len() && 0 <= v2 < nodes@.len() implies (#[trigger] linked_in(
                    bridges.edges@,
                    u2,
                    v2,
                ) <==> is_bridge_pair(nodes@, ts, u2, v2) && ((u2 < u + 1 && nodes@[
                u2 ].connections@.contains(v2 as usize)) || (v2 < u + 1 && nodes@[
                v2 ].connections@.contains(u2 as usize)))) by {
                    if u2 == u as int {
                        assert(nodes@[u2].betweenness <= ts);
                    }
                    if v2 == u as int {
                        assert(nodes@[v2].betweenness <= ts);
                    }
                }
            }
        }
        u += 1;
    }
    proof {
        assert forall|u2: usize, v2: usize| #[trigger] bridges.linked(u2 as int, v2 as int)
            implies (u2 as int) < nodes@.len() && (v2 as int) < nodes@.len() by {
            let k2 = choose|k2: int|
                0 <= k2 < bridges.edges@.len() && ((#[trigger] bridges.edges@[k2]) == (u2, v2)
                    || bridges.edges@[k2] == (v2, u2));
            assert((bridges.edges@[k2].0 as int) < nodes@.len());
            assert((bridges.edges@[k2].1 as int) < nodes@.len());
        }
    }
    bridges
}

/// How many of the first `n` nodes belong to the requested network.
pub open spec fn kept_count(nodes: Seq<Node>, net: NetworkType, n: int) -> int
    decreases n,
{
    if n <= 0 {
        0
    } else {
        kept_count(nodes, net, n - 1) + if nodes[n - 1].network_type == net {
            1int
        } else {
            0int
        }
    }
}

/// The kept-count never exceeds the number of positions counted.
pub proof fn lemma_kept_count_bound(nodes: Seq<Node>, net: NetworkType, n: int)
    requires
        n >= 0,
    ensures
        0 <= kept_count(nodes, net, n) <= n,
    decreases n,
{
    if n > 0 {
        lemma_kept_count_bound(nodes, net, n - 1);
    }
}

/// The kept-count is monotone and bounded, and strictly grows across a
/// kept position.
pub proof fn lemma_kept_count_le(nodes: Seq<Node>, net: NetworkType, m: int, n: int)
    requires
        0 <= m <= n,
    ensures
        0 <= kept_count(nodes, net, m) <= kept_count(nodes, net, n) <= n,
        m < n && nodes[m].network_type == net ==> kept_count(nodes, net, m) < kept_count(
            nodes,
            net,
            n,
        ),
    decreases n - m,
{
    lemma_kept_count_bound(nodes, net, m);
    lemma_kept_count_bound(nodes, net, n);
    if m < n {
        lemma_kept_count_le(nodes, net, m + 1, n);
    }
}

/// Keep a connection when its target belongs to the requested network.
pub open spec fn filter_keep_fn(nodes: Seq<Node>, net: NetworkType) -> spec_fn(usize) -> bool {
    |c: usize| (c as int) < nodes.len() && nodes[c as int].network_type == net
}

/// Renumber a kept connection to its position among the kept nodes.
pub open spec fn renumber_fn(nodes: Seq<Node>, net: NetworkType) -> spec_fn(usize) -> usize {
    |c: usize| kept_count(nodes, net, c as int) as usize
}

/// The connection list of a kept node after the filter: connections to
/// dropped nodes disappear and the rest are renumbered; a node left
/// without connections receives a connection to itself.
pub open spec fn filtered_conns(node: Node, nodes: Seq<Node>, net: NetworkType, i2: int) -> Seq<
    usize,
> {
    let base = node.connections@.filter(filter_keep_fn(nodes, net)).map_values(
        renumber_fn(nodes, net),
    );
    if base.len() == 0 {
        seq![i2 as usize]
    } else {
        base
    }
}

/// One kept node of the filtered vector: same data under its new index,
/// with its connection list filtered and renumbered.
pub open spec fn filtered_node_ok(nodes: Seq<Node>, net: NetworkType, i: int, out: Seq<Node>) -> bool {
    let i2 = kept_count(nodes, net, i);
    &&& 0 <= i2 < out.len()
    &&& out[i2].addr == nodes[i].addr
    &&& out[i2].network_type == nodes[i].network_type
    &&& out[i2].betweenness == nodes[i].betweenness
    &&& out[i2].closeness == nodes[i].closeness
    &&& out[i2].geolocation == nodes[i].geolocation
    &&& out[i2].connections@ == filtered_conns(nodes[i], nodes, net, i2)
}

/// Keep only the nodes of the requested network: surviving nodes are
/// renumbered densely, connections to dropped nodes disappear, and a node
/// left without connections points at itself so that it stays present.
pub fn filter_network(nodes: &Vec<Node>, network: NetworkType) -> (r: Vec<Node>)
    requires
        conns_valid(nodes@),
    ensures
        r@.len() == kept_count(nodes@, network, nodes@.len() as int),
        forall|i: int|
            0 <= i < nodes@.len() && (#[trigger] nodes@[i]).network_type == network
                ==> filtered_node_ok(nodes@, network, i, r@),
        conns_valid(r@),
{
    let nodes_len = nodes.len();
    let mut new_idx: Vec<usize> = Vec::new();
    let mut kept: Vec<bool> = Vec::new();
    let mut count: usize = 0;
    let mut j: usize = 0;
    while j < nodes_len
        invariant
            0 <= j <= nodes@.len(),
            nodes_len == nodes@.len(),
            new_idx@.len() == j,
            kept@.len() == j,
            count as int == kept_count(nodes@, network, j as int),
            forall|m: int|
                0 <= m < j ==> (#[trigger] new_idx@[m]) as int == kept_count(nodes@, network, m),
            forall|m: int|
                0 <= m < j ==> ((#[trigger] kept@[m]) <==> nodes@[m].network_type == network),
        decreases nodes@.len() - j,
    {
        new_idx.push(count);
        let keep = network_type_eq(nodes[j].network_type, network);
        kept.push(keep);
        if keep {
            proof {
                lemma_kept_count_le(nodes@, network, j as int, nodes@.len() as int);
            }
            count += 1;
        }
        j += 1;
    }
    let mut r: Vec<Node> = Vec::new();
    let mut i: usize = 0;
    while i < nodes_len
        invariant
            0 <= i <= nodes@.len(),
            nodes_len == nodes@.len(),
            conns_valid(nodes@),
            new_idx@.len() == nodes@.len(),
            kept@.len() == nodes@.len(),
            forall|m: int|
                0 <= m < nodes@.len() ==> (#[trigger] new_idx@[m]) as int == kept_count(
                    nodes@,
                    network,
                    m,
                ),
            forall|m: int|
                0 <= m < nodes@.len() ==> ((#[trigger] kept@[m]) <==> nodes@[m].network_type
                    == network),
            r@.len() == kept_count(nodes@, network, i as int),
            forall|m: int|
                0 <= m < i && (#[trigger] nodes@[m]).network_type == network ==> filtered_node_ok(
                    nodes@,
                    network,
                    m,
                    r@,
                ),
            forall|m: int, m2: int|
                0 <= m < r@.len() && 0 <= m2 < r@[m].connections@.len() ==> ((#[trigger] r@[
                m ].connections@[m2]) as int) < kept_count(nodes@, network, nodes@.len() as int),
        decreases nodes@.len() - i,
    {
        let ghost pre_r = r@;
        if kept[i] {
            let src = &nodes[i];
            let mut conns: Vec<usize> = Vec::new();
            let mut k: usize = 0;
            while k < src.connections.len()
                invariant
                    0 <= k <= src.connections@.len(),
                    0 <= i < nodes@.len(),
                    src == &nodes[i as int],
                    conns_valid(nodes@),
                    new_idx@.len() == nodes@.len(),
                    kept@.len() == nodes@.len(),
                    forall|m: int|
                        0 <= m < nodes@.len() ==> (#[trigger] new_idx@[m]) as int == kept_count(
                            nodes@,
                            network,
                            m,
                        ),
                    forall|m: int|
                        0 <= m < nodes@.len() ==> ((#[trigger] kept@[m]) <==> nodes@[
                        m ].network_type == network),
                    conns@ == src.connections@.take(k as int).filter(
                        filter_keep_fn(nodes@, network),
                    ).map_values(renumber_fn(nodes@, network)),
                    forall|m: int|
                        0 <= m < conns@.len() ==> ((#[trigger] conns@[m]) as int) < kept_count(
                            nodes@,
                            network,
                            nodes@.len() as int,
                        ),
                decreases src.connections@.len() - k,
            {
                let c = src.connections[k];
                let ghost pred = filter_keep_fn(nodes@, network);
                let ghost renum = renumber_fn(nodes@, network);
                let ghost x = src.connections@[k as int];
                let ghost tk = src.connections@.take(k as int);
                proof {
                    assert(src.connections@.take(k as int + 1) =~= tk.push(x));
                    tk.lemma_filter_push(x, pred);
                    assert((c as int) < nodes@.len());
                }
                if kept[c] {
                    conns.push(new_idx[c]);
                    proof {
                        assert(pred(x));
                        tk.filter(pred).lemma_push_map_commute(renum, x);
                        assert(renum(x) == new_idx@[c as int]);
                        lemma_kept_count_le(nodes@, network, c as int, nodes@.len() as int);
                    }
                } else {
                    proof {
                        assert(!pred(x));
                    }
                }
                k += 1;
            }
            proof {
                assert(src.connections@.take(src.connections@.len() as int) =~= src.connections@);
                lemma_kept_count_le(nodes@, network, i as int, nodes@.len() as int);
            }
            if conns.len() == 0 {
                let self_idx = new_idx[i];
                conns.push(self_idx);
            }
            r.push(
                Node {
                    addr: src.addr,
                    network_type: src.network_type,
                    betweenness: src.betweenness,
                    closeness: src.closeness,
                    connections: conns,
                    geolocation: src.geolocation,
                },
            );
            proof {
                assert(kept_count(nodes@, network, i as int + 1) == kept_count(
                    nodes@,
                    network,
                    i as int,
                ) + 1);
                assert(r@[pre_r.len() as int].connections@ == filtered_conns(
                    nodes@[i as int],
                    nodes@,
                    network,
                    pre_r.len() as int,
                ));
                assert(filtered_node_ok(nodes@, network, i as int, r@));
                assert forall|m: int|
                    0 <= m < i + 1 && (#[trigger] nodes@[m]).network_type == network implies
                    filtered_node_ok(nodes@, network, m, r@) by {
                    if m < i {
                        assert(filtered_node_ok(nodes@, network, m, pre_r));
                        lemma_kept_count_le(nodes@, network, m, i as int);
                        assert(r@[kept_count(nodes@, network, m)] == pre_r[kept_count(
                            nodes@,
                            network,
                            m,
                        )]);
                    }
                }
            }
        } else {
            proof {
                assert(kept_count(nodes@, network, i as int + 1) == kept_count(
                    nodes@,
                    network,
                    i as int,
                ));
            }
        }
        i += 1;
    }
    proof {
        assert(conns_valid(r@));
    }
    r
}

/// Structural equality of two network types.
pub fn network_type_eq(a: NetworkType, b: NetworkType) -> (r: bool)
    ensures
        r <==> a == b,
{
    match (a, b) {
        (NetworkType::Zcash, NetworkType::Zcash) => true,
        (NetworkType::Unknown, NetworkType::Unknown) => true,
        (NetworkType::Invalid, NetworkType::Invalid) => true,
        _ => false,
    }
}

} // verus!
