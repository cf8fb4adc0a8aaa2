//! The emitted peer record: a node's address together with the addresses of
//! its recommended peers.

use vstd::prelude::*;

use crate::nodes::{Addr, Node};

verus! {

/// Output record pairing a node address with the addresses of its peers.
pub struct Peer {
    /// Address of the node.
    pub ip: Addr,
    /// Addresses of the node's peers.
    pub list: Vec<Addr>,
}

/// The mathematical value of a `Peer`.
pub ghost struct PeerView {
    /// Address of the node.
    pub ip: Addr,
    /// Addresses of the node's peers.
    pub list: Seq<Addr>,
}

impl View for Peer {
    type V = PeerView;

    open spec fn view(&self) -> PeerView {
        PeerView { ip: self.ip, list: self.list@ }
    }
}

impl Clone for Peer {
    /// A deep copy carrying exactly the same data.
    fn clone(&self) -> (r: Peer)
        ensures
            r@ == self@,
    {
        let mut list: Vec<Addr> = Vec::new();
        let mut i: usize = 0;
        while i < self.list.len()
            invariant
                0 <= i <= self.list@.len(),
                list@ == self.list@.take(i as int),
            decreases self.list@.len() - i,
        {
            list.push(self.list[i]);
            i += 1;
        }
        proof {
            assert(self.list@.take(self.list@.len() as int) =~= self.list@);
        }
        Peer { ip: self.ip, list }
    }
}

/// Keep a connection index when it points inside the vector and not back
/// at the node's own address.
pub open spec fn plist_pred(node: Node, nodes: Seq<Node>) -> spec_fn(usize) -> bool {
    |p: usize| (p as int) < nodes.len() && nodes[p as int].addr != node.addr
}

/// Resolve a connection index to its address.
pub open spec fn plist_addr(nodes: Seq<Node>) -> spec_fn(usize) -> Addr {
    |p: usize| nodes[p as int].addr
}

/// The peer addresses a node's connection list resolves to: connections
/// pointing outside the vector or back at the node's own address are
/// skipped.
pub open spec fn spec_peerlist(node: Node, nodes: Seq<Node>) -> Seq<Addr> {
    node.connections@.filter(plist_pred(node, nodes)).map_values(plist_addr(nodes))
}

/// A peer record resolves a node's connections: its own address, and each
/// resolved peer address exactly once.
pub open spec fn peer_record_ok(node: Node, nodes: Seq<Node>, p: Peer) -> bool {
    &&& p.ip == node.addr
    &&& forall|m1: int, m2: int|
        #![trigger p.list@[m1], p.list@[m2]]
        0 <= m1 < m2 < p.list@.len() ==> p.list@[m1] != p.list@[m2]
    &&& forall|a: Addr| #[trigger] p.list@.contains(a) <==> spec_peerlist(node, nodes).contains(a)
}

/// Membership in a pushed address list: the old members plus the new one.
pub proof fn lemma_push_contains_addr(s: Seq<Addr>, y: Addr, x: Addr)
    ensures
        s.push(y).contains(x) <==> (s.contains(x) || x == y),
{
    if s.push(y).contains(x) {
        let k = choose|k: int| 0 <= k < s.push(y).len() && s.push(y)[k] == x;
        if k < s.len() {
            assert(s[k] == x);
        }
    }
    if s.contains(x) {
        let k = choose|k: int| 0 <= k < s.len() && s[k] == x;
        assert(s.push(y)[k] == x);
    }
    if x == y {
        assert(s.push(y)[s.len() as int] == x);
    }
}

/// Whether the list holds the given address.
pub fn contains_addr(v: &Vec<Addr>, x: &Addr) -> (r: bool)
    ensures
        r == v@.contains(*x),
{
    let mut i: usize = 0;
    while i < v.len()
        invariant
            0 <= i <= v@.len(),
            forall|k: int| 0 <= k < i ==> v@[k] != *x,
        decreases v@.len() - i,
    {
        if addr_eq(&v[i], x) {
            return true;
        }
        i += 1;
    }
    false
}

impl Peer {
    /// Resolve every node's connection list into a peer record.
    pub fn generate_all_peerlists(nodes: &Vec<Node>) -> (r: Vec<Peer>)
        ensures
            r@.len() == nodes@.len(),
            forall|i: int|
                0 <= i < nodes@.len() ==> peer_record_ok(nodes@[i], nodes@, #[trigger] r@[i]),
    {
        let mut peer_list: Vec<Peer> = Vec::new();
        let mut i: usize = 0;
        while i < nodes.len()
            invariant
                0 <= i <= nodes@.len(),
                peer_list@.len() == i,
                forall|k: int|
                    0 <= k < i ==> peer_record_ok(nodes@[k], nodes@, #[trigger] peer_list@[k]),
            decreases nodes@.len() - i,
        {
            peer_list.push(Peer::generate_peerlist(&nodes[i], nodes));
            i += 1;
        }
        peer_list
    }

    /// Resolve one node's connection list into a peer record, skipping
    /// out-of-range connections and the node's own address, each resolved
    /// address kept once (first occurrence).
    pub fn generate_peerlist(node: &Node, nodes: &Vec<Node>) -> (r: Peer)
        ensures
            peer_record_ok(*node, nodes@, r),
            r.ip == node.addr,
    {
        let mut list: Vec<Addr> = Vec::new();
        let mut i: usize = 0;
        while i < node.connections.len()
            invariant
                0 <= i <= node.connections@.len(),
                forall|m1: int, m2: int|
                    #![trigger list@[m1], list@[m2]]
                    0 <= m1 < m2 < list@.len() ==> list@[m1] != list@[m2],
                forall|a: Addr|
                    #[trigger] list@.contains(a) <==> node.connections@.take(i as int).filter(
                        plist_pred(*node, nodes@),
                    ).map_values(plist_addr(nodes@)).contains(a),
            decreases node.connections@.len() - i,
        {
            let peer = node.connections[i];
            let ghost pred = plist_pred(*node, nodes@);
            let ghost to_addr = plist_addr(nodes@);
            let ghost x = node.connections@[i as int];
            let ghost tk = node.connections@.take(i as int);
            let ghost prefix = tk.filter(pred).map_values(to_addr);
            proof {
                assert(node.connections@.take(i as int + 1) =~= tk.push(x));
                tk.lemma_filter_push(x, pred);
            }
            if peer < nodes.len() && !addr_eq(&nodes[peer].addr, &node.addr) {
                let addr = nodes[peer].addr;
                let ghost pre_list = list@;
                let seen = contains_addr(&list, &addr);
                if !seen {
                    list.push(addr);
                }
                proof {
                    assert(pred(x));
                    assert(tk.push(x).filter(pred) == tk.filter(pred).push(x));
                    tk.filter(pred).lemma_push_map_commute(to_addr, x);
                    assert(to_addr(x) == addr);
                    assert(node.connections@.take(i as int + 1).filter(pred).map_values(to_addr)
                        == prefix.push(addr));
                    assert forall|a: Addr| #[trigger] list@.contains(a) <==> prefix.push(
                        addr,
                    ).contains(a) by {
                        lemma_push_contains_addr(prefix, addr, a);
                        if !seen {
                            lemma_push_contains_addr(pre_list, addr, a);
                        }
                    }
                    if !seen {
                        assert forall|m1: int, m2: int|
                            #![trigger list@[m1], list@[m2]]
                            0 <= m1 < m2 < list@.len() implies list@[m1] != list@[m2] by {
                            if m2 == list@.len() - 1 {
                                assert(list@[m1] == pre_list[m1]);
                                if pre_list[m1] == addr {
                                    assert(pre_list.contains(addr));
                                }
                            }
                        }
                    }
                }
            } else {
                proof {
                    assert(!pred(x));
                    assert(tk.push(x).filter(pred) == tk.filter(pred));
                    assert(node.connections@.take(i as int + 1).filter(pred).map_values(to_addr)
                        == prefix);
                }
            }
            i += 1;
        }
        proof {
            assert(node.connections@.take(node.connections@.len() as int) =~= node.connections@);
        }
        Peer { ip: node.addr, list }
    }
}

/// Structural equality of two addresses.
pub fn addr_eq(a: &Addr, b: &Addr) -> (r: bool)
    ensures
        r <==> *a == *b,
{
    a.ip == b.ip && a.port == b.port
}

} // verus!
