//! The finished collection of crawled nodes, keyed by address: no address
//! appears twice, and the nodes are held in ascending address order, which is
//! the iteration order.

use vstd::prelude::*;

use crate::address::Address;
use crate::node::{Node, NodeView};
use crate::order::{
    insert_sorted, lemma_insert_sorted, lemma_lex_asymmetric, lemma_lex_trichotomy, lex_lt,
    strictly_sorted, string_lt,
};

verus! {

/// `n` inserted into the address-sorted node sequence `g` before the first
/// node whose address is not below `n`'s.
pub open spec fn insert_by_addr(g: Seq<NodeView>, n: NodeView) -> Seq<NodeView>
    decreases g.len(),
{
    if g.len() == 0 {
        seq![n]
    } else if lex_lt(n.address, g[0].address) {
        seq![n] + g
    } else {
        seq![g[0]] + insert_by_addr(g.drop_first(), n)
    }
}

/// The addresses of the nodes of `g`, in storage order.
pub open spec fn keys_of(g: Seq<NodeView>) -> Seq<Seq<char>> {
    Seq::new(g.len(), |i: int| g[i].address)
}

/// An ordered mapping from address to node: one node per address, held in
/// ascending address order. Built incrementally by the crawl, then read-only.
pub struct Graph {
    nodes: Vec<Node>,
}

impl View for Graph {
    type V = Seq<NodeView>;

    closed spec fn view(&self) -> Seq<NodeView> {
        self.nodes.deep_view()
    }
}

impl Graph {
    /// The addresses of the stored nodes, in storage order.
    pub open spec fn keys(&self) -> Seq<Seq<char>> {
        keys_of(self@)
    }

    /// The addresses are strictly ascending: every address appears at most
    /// once, and iteration is in ascending address order.
    pub open spec fn wf(&self) -> bool {
        strictly_sorted(self.keys())
    }

    /// An empty graph.
    pub fn new() -> (r: Graph)
        ensures
            r@ == Seq::<NodeView>::empty(),
            r.wf(),
    {
        let g = Graph { nodes: Vec::new() };
        proof {
            assert(g@ =~= Seq::<NodeView>::empty());
        }
        g
    }

    /// How many nodes the graph holds.
    pub fn len(&self) -> (r: usize)
        ensures
            r == self@.len(),
    {
        self.nodes.len()
    }

    /// The stored nodes, in ascending address order.
    pub fn iter(&self) -> (r: &Vec<Node>)
        ensures
            r.deep_view() == self@,
    {
        &self.nodes
    }

    /// Whether `addr` is a key of the graph.
    pub fn contains(&self, addr: &Address) -> (r: bool)
        ensures
            r == self.keys().contains(addr@),
    {
        let mut i: usize = 0;
        loop
            invariant
                0 <= i <= self.nodes.len(),
                self@.len() == self.nodes.len(),
                forall|j: int| 0 <= j < i ==> #[trigger] self.keys()[j] != addr@,
            ensures
                (i < self.nodes.len() && self.keys()[i as int] == addr@) || (i
                    == self.nodes.len() && !self.keys().contains(addr@)),
            decreases self.nodes.len() - i,
        {
            if i >= self.nodes.len() {
                proof {
                    assert(forall|j: int|
                        0 <= j < self.keys().len() ==> #[trigger] self.keys()[j] != addr@);
                }
                break;
            }
            proof {
                assert(self@[i as int] == self.nodes@[i as int]@);
                assert(self.keys()[i as int] == self@[i as int].address);
            }
            if self.nodes[i].address == *addr {
                break;
            }
            i += 1;
        }
        if i < self.nodes.len() {
            proof {
                assert(self.keys().contains(addr@)) by {
                    assert(self.keys()[i as int] == addr@);
                }
            }
            true
        } else {
            false
        }
    }

    /// The node stored for `addr`, if any.
    pub fn get(&self, addr: &Address) -> (r: Option<&Node>)
        ensures
            r is Some <==> self.keys().contains(addr@),
            r matches Some(n) ==> n@.address == addr@ && self@.contains(n@),
    {
        let mut i: usize = 0;
        loop
            invariant
                0 <= i <= self.nodes.len(),
                self@.len() == self.nodes.len(),
                forall|j: int| 0 <= j < i ==> #[trigger] self.keys()[j] != addr@,
            ensures
                (i < self.nodes.len() && self.keys()[i as int] == addr@) || (i
                    == self.nodes.len() && !self.keys().contains(addr@)),
            decreases self.nodes.len() - i,
        {
            if i >= self.nodes.len() {
                proof {
                    assert(forall|j: int|
                        0 <= j < self.keys().len() ==> #[trigger] self.keys()[j] != addr@);
                }
                break;
            }
            proof {
                assert(self@[i as int] == self.nodes@[i as int]@);
                assert(self.keys()[i as int] == self@[i as int].address);
            }
            if self.nodes[i].address == *addr {
                break;
            }
            i += 1;
        }
        if i < self.nodes.len() {
            proof {
                assert(self.keys().contains(addr@)) by {
                    assert(self.keys()[i as int] == addr@);
                }
                assert(self@[i as int] == self.nodes@[i as int]@);
                assert(self@.contains(self@[i as int]));
            }
            Some(&self.nodes[i])
        } else {
            None
        }
    }

    /// Insert a node whose address is not yet a key, keeping the nodes in
    /// ascending address order.
    pub fn insert(&mut self, node: Node)
        requires
            old(self).wf(),
            !old(self).keys().contains(node@.address),
        ensures
            final(self).wf(),
            final(self)@ == insert_by_addr(old(self)@, node@),
            final(self).keys() == insert_sorted(old(self).keys(), node@.address),
    {
        proof {
            lemma_insert_by_addr(old(self)@, node@);
        }
        let ghost s = self@;
        let ghost ks = self.keys();
        let mut i: usize = 0;
        loop
            invariant
                0 <= i <= self.nodes.len(),
                s == self@,
                ks == self.keys(),
                s.len() == self.nodes.len(),
                forall|j: int| 0 <= j < i ==> lex_lt(#[trigger] ks[j], node@.address),
            ensures
                0 <= i <= self.nodes.len(),
                s == self@,
                ks == self.keys(),
                forall|j: int| 0 <= j < i ==> lex_lt(#[trigger] ks[j], node@.address),
                i < s.len() ==> !lex_lt(ks[i as int], node@.address),
            decreases self.nodes.len() - i,
        {
            if i >= self.nodes.len() {
                break;
            }
            proof {
                assert(s[i as int] == self.nodes@[i as int]@);
                assert(ks[i as int] == s[i as int].address);
            }
            if !string_lt(self.nodes[i].address.as_str(), node.address.as_str()) {
                break;
            }
            i += 1;
        }
        proof {
            assert(forall|j: int| 0 <= j < ks.len() ==> ks[j] != node@.address) by {
                assert(forall|j: int|
                    0 <= j < ks.len() && #[trigger] ks[j] == node@.address ==> ks.contains(
                        node@.address,
                    ));
            }
            lemma_insert_by_addr_position(s, node@, i as int);
        }
        self.nodes.insert(i, node);
        proof {
            assert(self@ =~= s.take(i as int) + seq![node@] + s.skip(i as int));
            lemma_keys_of_insert(s, node@, i as int);
        }
    }
}

/// Where `insert_by_addr` puts a node whose address is not yet present:
/// right after every node with a smaller address.
proof fn lemma_insert_by_addr_position(g: Seq<NodeView>, n: NodeView, i: int)
    requires
        0 <= i <= g.len(),
        forall|j: int| 0 <= j < g.len() ==> #[trigger] keys_of(g)[j] != n.address,
        forall|j: int| 0 <= j < i ==> lex_lt(#[trigger] keys_of(g)[j], n.address),
        i < g.len() ==> !lex_lt(keys_of(g)[i], n.address),
    ensures
        insert_by_addr(g, n) == g.take(i) + seq![n] + g.skip(i),
    decreases i,
{
    if i == 0 {
        if g.len() == 0 {
            assert(insert_by_addr(g, n) =~= g.take(0) + seq![n] + g.skip(0));
        } else {
            assert(keys_of(g)[0] == g[0].address);
            lemma_lex_trichotomy(n.address, g[0].address);
            assert(lex_lt(n.address, g[0].address));
            assert(g.take(0) + seq![n] + g.skip(0) =~= seq![n] + g);
        }
    } else {
        assert(keys_of(g)[0] == g[0].address);
        assert(lex_lt(g[0].address, n.address));
        lemma_lex_asymmetric(g[0].address, n.address);
        let tail = g.drop_first();
        assert(forall|j: int|
            0 <= j < tail.len() ==> #[trigger] keys_of(tail)[j] == keys_of(g)[j + 1]);
        lemma_insert_by_addr_position(tail, n, i - 1);
        assert(insert_by_addr(g, n) == seq![g[0]] + insert_by_addr(tail, n));
        assert(seq![g[0]] + (tail.take(i - 1) + seq![n] + tail.skip(i - 1)) =~= g.take(i) + seq![n]
            + g.skip(i));
    }
}

/// Inserting a node inserts its address into the key sequence at the same
/// position.
proof fn lemma_keys_of_insert(g: Seq<NodeView>, n: NodeView, i: int)
    requires
        0 <= i <= g.len(),
    ensures
        keys_of(g.take(i) + seq![n] + g.skip(i)) == keys_of(g).take(i) + seq![n.address] + keys_of(
            g,
        ).skip(i),
{
    assert(keys_of(g.take(i) + seq![n] + g.skip(i)) =~= keys_of(g).take(i) + seq![n.address]
        + keys_of(g).skip(i));
}

/// What inserting a fresh node does: the keys gain exactly the new address
/// (in order), the node contents gain exactly the new node, and sortedness is
/// kept.
pub proof fn lemma_insert_by_addr(g: Seq<NodeView>, n: NodeView)
    requires
        strictly_sorted(keys_of(g)),
        !keys_of(g).contains(n.address),
    ensures
        keys_of(insert_by_addr(g, n)) == insert_sorted(keys_of(g), n.address),
        strictly_sorted(keys_of(insert_by_addr(g, n))),
        insert_by_addr(g, n).len() == g.len() + 1,
        forall|v: NodeView| insert_by_addr(g, n).contains(v) <==> (g.contains(v) || v == n),
        insert_by_addr(g, n).contains(n),
    decreases g.len(),
{
    let r = insert_by_addr(g, n);
    let ks = keys_of(g);
    lemma_insert_sorted(ks, n.address);
    if g.len() == 0 {
        assert(keys_of(r) =~= insert_sorted(ks, n.address));
        assert(r[0] == n);
        assert(forall|v: NodeView| r.contains(v) ==> v == n);
    } else {
        assert(ks[0] == g[0].address);
        assert(n.address != g[0].address) by {
            assert(ks.contains(ks[0]));
        }
        if lex_lt(n.address, g[0].address) {
            assert(r =~= seq![n] + g);
            assert(insert_sorted(ks, n.address) == seq![n.address] + ks);
            assert(keys_of(r) =~= seq![n.address] + ks);
            assert(forall|v: NodeView| r.contains(v) <==> (g.contains(v) || v == n)) by {
                assert(r[0] == n);
                assert(forall|j: int| 0 <= j < g.len() ==> r[j + 1] == g[j]);
                assert(forall|j: int| 1 <= j < r.len() ==> r[j] == g[j - 1]);
            }
        } else {
            lemma_lex_trichotomy(n.address, g[0].address);
            assert(lex_lt(g[0].address, n.address));
            let tail = g.drop_first();
            assert(forall|j: int|
                0 <= j < tail.len() ==> #[trigger] keys_of(tail)[j] == ks[j + 1]);
            assert(strictly_sorted(keys_of(tail)));
            assert(!keys_of(tail).contains(n.address)) by {
                if keys_of(tail).contains(n.address) {
                    let j = choose|j: int|
                        0 <= j < keys_of(tail).len() && keys_of(tail)[j] == n.address;
                    assert(ks[j + 1] == n.address);
                    assert(ks.contains(ks[j + 1]));
                }
            }
            lemma_insert_by_addr(tail, n);
            let rt = insert_by_addr(tail, n);
            assert(r =~= seq![g[0]] + rt);
            assert(keys_of(r) =~= seq![g[0].address] + keys_of(rt));
            assert(keys_of(tail) =~= ks.drop_first());
            assert(insert_sorted(ks, n.address) == seq![ks[0]] + insert_sorted(
                ks.drop_first(),
                n.address,
            ));
            assert(keys_of(r) =~= insert_sorted(ks, n.address));
            assert(forall|v: NodeView| r.contains(v) <==> (v == g[0] || rt.contains(v))) by {
                assert(r[0] == g[0]);
                assert(forall|j: int| 0 <= j < rt.len() ==> r[j + 1] == rt[j]);
                assert(forall|j: int| 1 <= j < r.len() ==> r[j] == rt[j - 1]);
            }
            assert(forall|v: NodeView| g.contains(v) <==> (v == g[0] || tail.contains(v))) by {
                assert(forall|j: int| 0 <= j < tail.len() ==> g[j + 1] == tail[j]);
                assert(forall|j: int| 1 <= j < g.len() ==> g[j] == tail[j - 1]);
            }
        }
    }
}

} // verus!
