//! The crawl engine: a frontier-driven breadth-first traversal that fetches
//! each same-domain address at most once, up to a configurable depth.
//!
//! Fetching itself is the caller's concern: the caller repeatedly asks for
//! [`Crawler::next_target`], retrieves that page's body by whatever transport
//! it has, and hands the body to [`Crawler::process_page`]. The engine does
//! everything else — extraction, link resolution, domain scoping,
//! deduplication and depth accounting — and its whole step is pinned down by
//! [`crawl_step`].

use vstd::prelude::*;

use crate::address::{domain_of, Address};
use crate::extract::{hrefs_of, regex_find, regex_valid};
use crate::graph::{insert_by_addr, keys_of, lemma_insert_by_addr, Graph};
use crate::node::{children_of, Node, NodeView};
use crate::order::{insert_sorted, lemma_insert_sorted, sort_dedup, strictly_sorted};

verus! {

/// The mathematical state of a crawl.
#[verifier::ext_equal]
pub struct CrawlerView {
    /// The nodes fetched so far, in ascending address order.
    pub graph: Seq<NodeView>,
    /// The addresses queued for fetching, first-in-first-out.
    pub pending: Seq<Seq<char>>,
    /// The extraction pattern source text.
    pub pattern: Seq<char>,
    /// The breadth-first level currently being fetched.
    pub depth: int,
    /// The largest level that may still be fetched.
    pub max_depth: int,
    /// The graph size at which the current level is exhausted.
    pub next_depth_len: int,
    /// Whether the crawl has ended (frontier empty or depth exceeded).
    pub done: bool,
    /// The address the crawl started from.
    pub root: Seq<char>,
    /// The addresses fetched so far, in fetch order.
    pub fetched: Seq<Seq<char>>,
    /// The level each fetched address was fetched at, in fetch order.
    pub fetch_depths: Seq<int>,
}

/// Whether some node of `g` lists `a` among its children.
pub open spec fn linked_from(g: Seq<NodeView>, a: Seq<char>) -> bool {
    exists|v: NodeView| #[trigger] g.contains(v) && v.children.contains(a)
}

/// `children` appended to the queue `p`, in order, skipping every address
/// already a graph key (`k`) and every address already queued — the
/// deduplication step of the engine.
pub open spec fn enqueue(p: Seq<Seq<char>>, k: Seq<Seq<char>>, children: Seq<Seq<char>>) -> Seq<
    Seq<char>,
>
    decreases children.len(),
{
    if children.len() == 0 {
        p
    } else {
        let q = enqueue(p, k, children.drop_last());
        let c = children.last();
        if k.contains(c) || q.contains(c) {
            q
        } else {
            q.push(c)
        }
    }
}

/// The state a crawl starts from: an empty graph and a frontier holding only
/// the root.
pub open spec fn init_view(root: Seq<char>, pattern: Seq<char>, max_depth: int) -> CrawlerView {
    CrawlerView {
        graph: Seq::<NodeView>::empty(),
        pending: seq![root],
        pattern: pattern,
        depth: 0,
        max_depth: max_depth,
        next_depth_len: 1,
        done: false,
        root: root,
        fetched: Seq::<Seq<char>>::empty(),
        fetch_depths: Seq::<int>::empty(),
    }
}

/// One engine step on the first pending address `t`, given the fetched body:
/// the node built from the body is inserted into the graph; its children not
/// already known are appended to the frontier in document order; the level
/// boundary advances the depth when the graph reaches it; and the crawl ends
/// when the depth limit is exceeded or the frontier is exhausted.
pub open spec fn crawl_step(pre: CrawlerView, body: Seq<char>) -> CrawlerView {
    let t = pre.pending[0];
    let nv = NodeView {
        address: t,
        matches: sort_dedup(regex_find(pre.pattern, body)),
        children: children_of(t, hrefs_of(body)),
    };
    let graph2 = insert_by_addr(pre.graph, nv);
    let pending1 = pre.pending.drop_first();
    let pending2 = enqueue(pending1, keys_of(graph2), nv.children);
    let advance = graph2.len() == pre.next_depth_len;
    let depth2 = if advance {
        pre.depth + 1
    } else {
        pre.depth
    };
    let ndl2: int = if advance {
        if graph2.len() + pending2.len() <= usize::MAX as int {
            graph2.len() + pending2.len() as int
        } else {
            usize::MAX as int
        }
    } else {
        pre.next_depth_len
    };
    let done2 = depth2 > pre.max_depth || pending2.len() == 0;
    CrawlerView {
        graph: graph2,
        pending: pending2,
        pattern: pre.pattern,
        depth: depth2,
        max_depth: pre.max_depth,
        next_depth_len: ndl2,
        done: done2,
        root: pre.root,
        fetched: pre.fetched.push(t),
        fetch_depths: pre.fetch_depths.push(pre.depth),
    }
}

/// The engine's invariant over its mathematical state.
pub open spec fn crawler_inv(s: CrawlerView) -> bool {
    &&& strictly_sorted(keys_of(s.graph))
    &&& s.fetched.len() == s.graph.len()
    &&& s.fetch_depths.len() == s.fetched.len()
    &&& s.fetched.no_duplicates()
    &&& forall|a: Seq<char>| #[trigger]
        s.fetched.contains(a) <==> keys_of(s.graph).contains(a)
    &&& s.pending.no_duplicates()
    &&& forall|a: Seq<char>| #[trigger]
        s.pending.contains(a) ==> !keys_of(s.graph).contains(a)
    &&& forall|i: int, j: int|
        #![trigger s.fetch_depths[i], s.fetch_depths[j]]
        0 <= i <= j < s.fetch_depths.len() ==> s.fetch_depths[i] <= s.fetch_depths[j]
    &&& forall|i: int| 0 <= i < s.fetch_depths.len() ==> #[trigger] s.fetch_depths[i] <= s.max_depth
    &&& forall|i: int| 0 <= i < s.fetch_depths.len() ==> #[trigger] s.fetch_depths[i] <= s.depth
    &&& 0 <= s.depth <= s.graph.len()
    &&& !s.done ==> s.depth <= s.max_depth
    &&& forall|i: int| 0 <= i < s.graph.len() ==> (#[trigger] s.graph[i]).wf()
    &&& forall|a: Seq<char>| #[trigger]
        s.pending.contains(a) ==> a == s.root || linked_from(s.graph, a)
    &&& forall|a: Seq<char>| #[trigger]
        keys_of(s.graph).contains(a) ==> a == s.root || linked_from(s.graph, a)
}

/// The crawl engine: owns the frontier queue and the growing graph, and
/// drives the breadth-first traversal one fetched page at a time.
pub struct Crawler {
    graph: Graph,
    frontier: Vec<Address>,
    head: usize,
    pattern: String,
    depth: usize,
    max_depth: usize,
    next_depth_len: usize,
    done: bool,
    root: Ghost<Seq<char>>,
    fetched: Ghost<Seq<Seq<char>>>,
    fetch_depths: Ghost<Seq<int>>,
}

impl View for Crawler {
    type V = CrawlerView;

    closed spec fn view(&self) -> CrawlerView {
        CrawlerView {
            graph: self.graph@,
            pending: self.frontier.deep_view().skip(self.head as int),
            pattern: self.pattern@,
            depth: self.depth as int,
            max_depth: self.max_depth as int,
            next_depth_len: self.next_depth_len as int,
            done: self.done,
            root: self.root@,
            fetched: self.fetched@,
            fetch_depths: self.fetch_depths@,
        }
    }
}

impl Crawler {
    /// The engine is well formed: its state satisfies [`crawler_inv`].
    pub closed spec fn wf(&self) -> bool {
        &&& self.head <= self.frontier.len()
        &&& self.graph.wf()
        &&& crawler_inv(self@)
    }

    /// A crawl about to start from `root`: the frontier holds only the root,
    /// and nothing has been fetched. `max_depth` bounds the breadth-first
    /// level that may be fetched; `None` leaves the depth unbounded.
    pub fn new(root: &Address, pattern: &str, max_depth: Option<usize>) -> (r: Crawler)
        ensures
            r@ == init_view(
                root@,
                pattern@,
                match max_depth {
                    Some(d) => d as int,
                    None => usize::MAX as int,
                },
            ),
            r.wf(),
    {
        let md: usize = match max_depth {
            Some(d) => d,
            None => usize::MAX,
        };
        let mut frontier: Vec<Address> = Vec::new();
        frontier.push(root.dup());
        let r = Crawler {
            graph: Graph::new(),
            frontier,
            head: 0,
            pattern: String::from_str(pattern),
            depth: 0,
            max_depth: md,
            next_depth_len: 1,
            done: false,
            root: Ghost(root@),
            fetched: Ghost(Seq::<Seq<char>>::empty()),
            fetch_depths: Ghost(Seq::<int>::empty()),
        };
        proof {
            assert(r.frontier.deep_view() =~= seq![root@]);
            assert(r@.pending =~= seq![root@]);
            assert(r@ =~= init_view(
                root@,
                pattern@,
                match max_depth {
                    Some(d) => d as int,
                    None => usize::MAX as int,
                },
            ));
            assert(keys_of(r@.graph) =~= Seq::<Seq<char>>::empty());
            assert(r@.pending.no_duplicates());
            assert(forall|a: Seq<char>| #[trigger]
                r@.pending.contains(a) ==> a == root@) by {
                assert(forall|i: int| 0 <= i < r@.pending.len() ==> r@.pending[i] == root@);
            }
        }
        r
    }

    /// The next address the caller must fetch, if the crawl is still going:
    /// the front of the frontier queue.
    pub fn next_target(&self) -> (r: Option<Address>)
        requires
            self.wf(),
        ensures
            r is Some <==> (!self@.done && self@.pending.len() > 0),
            r matches Some(a) ==> a@ == self@.pending[0],
    {
        if self.done {
            return None;
        }
        if self.head < self.frontier.len() {
            proof {
                assert(self@.pending[0] == self.frontier.deep_view()[self.head as int]);
                assert(self.frontier.deep_view()[self.head as int] == self.frontier@[self.head as int]@);
            }
            Some(self.frontier[self.head].dup())
        } else {
            None
        }
    }

    /// Whether the crawl has ended: the frontier is exhausted or the depth
    /// limit was exceeded.
    pub fn is_done(&self) -> (r: bool)
        ensures
            r == self@.done,
    {
        self.done
    }

    /// The graph built so far.
    pub fn graph(&self) -> (g: &Graph)
        ensures
            g@ == self@.graph,
    {
        &self.graph
    }

    /// Hand the finished graph over, discarding the traversal state.
    pub fn into_graph(self) -> (g: Graph)
        requires
            self.wf(),
        ensures
            g@ == self@.graph,
            g.wf(),
    {
        self.graph
    }

    /// Whether `a` is queued and not yet fetched.
    fn pending_contains(&self, a: &Address) -> (r: bool)
        requires
            self.head <= self.frontier.len(),
        ensures
            r == self@.pending.contains(a@),
    {
        let ghost p = self@.pending;
        let mut j: usize = self.head;
        loop
            invariant
                self.head <= j <= self.frontier.len(),
                p == self@.pending,
                p.len() == self.frontier.len() - self.head,
                forall|q: int| 0 <= q < j - self.head ==> #[trigger] p[q] != a@,
            ensures
                (j < self.frontier.len() && p[j - self.head] == a@) || (j == self.frontier.len()
                    && !p.contains(a@)),
            decreases self.frontier.len() - j,
        {
            if j >= self.frontier.len() {
                proof {
                    assert(forall|q: int| 0 <= q < p.len() ==> #[trigger] p[q] != a@);
                }
                break;
            }
            proof {
                assert(p[j - self.head] == self.frontier.deep_view()[j as int]);
                assert(self.frontier.deep_view()[j as int] == self.frontier@[j as int]@);
            }
            if self.frontier[j] == *a {
                break;
            }
            j += 1;
        }
        if j < self.frontier.len() {
            proof {
                assert(p.contains(a@)) by {
                    assert(p[j - self.head] == a@);
                }
            }
            true
        } else {
            false
        }
    }

    /// Fetch-and-extract one page: `body` is the document retrieved for the
    /// current [`Crawler::next_target`]. Returns `false`, changing nothing,
    /// exactly when the pattern does not compile; otherwise performs one
    /// [`crawl_step`]. The address processed was never processed before.
    #[verifier::loop_isolation(false)]
    pub fn process_page(&mut self, body: &str) -> (r: bool)
        requires
            old(self).wf(),
            !old(self)@.done,
            old(self)@.pending.len() > 0,
        ensures
            final(self).wf(),
            r == regex_valid(old(self)@.pattern),
            !r ==> final(self)@ == old(self)@,
            r ==> final(self)@ == crawl_step(old(self)@, body@),
            r ==> !old(self)@.fetched.contains(old(self)@.pending[0]),
    {
        let ghost pre = self@;
        proof {
            assert(pre.pending[0] == self.frontier.deep_view()[self.head as int]);
            assert(self.frontier.deep_view()[self.head as int] == self.frontier@[self.head as int]@);
        }
        let target = self.frontier[self.head].dup();
        let node = match Node::new(&target, self.pattern.as_str(), body) {
            Some(n) => n,
            None => {
                proof {
                    assert(self@ =~= pre);
                }
                return false;
            },
        };
        let ghost nv = node@;
        let ghost t = pre.pending[0];
        proof {
            assert(nv.address == t);
            assert(pre.pending.contains(t)) by {
                assert(pre.pending[0] == t);
            }
            assert(!keys_of(pre.graph).contains(t));
            assert(!pre.fetched.contains(t));
        }
        // Copy the children for the enqueue phase; the node itself moves into
        // the graph.
        let mut children_copy: Vec<Address> = Vec::new();
        let mut k: usize = 0;
        proof {
            assert(children_copy.deep_view() =~= nv.children.take(0));
        }
        while k < node.children.len()
            invariant
                0 <= k <= node.children.len(),
                node.children.deep_view() == nv.children,
                node.children.deep_view().len() == node.children.len(),
                children_copy.deep_view() == nv.children.take(k as int),
            decreases node.children.len() - k,
        {
            proof {
                assert(node.children.deep_view()[k as int] == node.children@[k as int]@);
            }
            let ghost before = children_copy.deep_view();
            children_copy.push(node.children[k].dup());
            proof {
                assert(children_copy.deep_view() =~= before.push(nv.children[k as int]));
                assert(before.push(nv.children[k as int]) =~= nv.children.take(k + 1));
            }
            k += 1;
        }
        proof {
            assert(nv.children.take(node.children.len() as int) =~= nv.children);
        }
        // Pop the target and insert its node.
        self.head = self.head + 1;
        proof {
            assert(self@.pending =~= pre.pending.drop_first());
        }
        let ghost pending1 = pre.pending.drop_first();
        proof {
            lemma_insert_by_addr(pre.graph, nv);
            lemma_insert_sorted(keys_of(pre.graph), t);
        }
        self.graph.insert(node);
        let ghost graph2 = self@.graph;
        let ghost keys2 = keys_of(graph2);
        proof {
            assert(graph2 == insert_by_addr(pre.graph, nv));
            assert(keys2 == insert_sorted(keys_of(pre.graph), t));
            // The popped queue is duplicate-free and disjoint from the grown
            // key set.
            lemma_drop_first_no_duplicates(pre.pending);
            assert(forall|a: Seq<char>| #[trigger]
                pending1.contains(a) ==> pre.pending.contains(a)) by {
                assert(forall|q: int|
                    0 <= q < pending1.len() ==> #[trigger] pending1[q] == pre.pending[q + 1]);
            }
            assert(!pending1.contains(t));
            assert(forall|a: Seq<char>| #[trigger] pending1.contains(a) ==> !keys2.contains(a));
        }
        // Append the new, unknown children to the frontier in document order.
        let mut k: usize = 0;
        proof {
            assert(enqueue(pending1, keys2, nv.children.take(0)) == pending1) by {
                assert(nv.children.take(0).len() == 0);
            }
        }
        while k < children_copy.len()
            invariant
                0 <= k <= children_copy.len(),
                children_copy.deep_view() == nv.children,
                children_copy.deep_view().len() == children_copy.len(),
                self.head <= self.frontier.len(),
                self@.pending == enqueue(pending1, keys2, nv.children.take(k as int)),
                self@.graph == graph2,
                self@.pattern == pre.pattern,
                self@.depth == pre.depth,
                self@.max_depth == pre.max_depth,
                self@.next_depth_len == pre.next_depth_len,
                self@.done == pre.done,
                self@.root == pre.root,
                self@.fetched == pre.fetched,
                self@.fetch_depths == pre.fetch_depths,
            decreases children_copy.len() - k,
        {
            proof {
                assert(children_copy.deep_view()[k as int] == children_copy@[k as int]@);
                assert(nv.children.take(k + 1).drop_last() =~= nv.children.take(k as int));
                assert(nv.children.take(k + 1).last() == nv.children[k as int]);
            }
            let ghost before_pending = self@.pending;
            let in_graph = self.graph.contains(&children_copy[k]);
            let mut queued: bool = false;
            if !in_graph {
                queued = self.pending_contains(&children_copy[k]);
                if !queued {
                    let child = children_copy[k].dup();
                    let ghost fv = self.frontier.deep_view();
                    self.frontier.push(child);
                    proof {
                        assert(self.frontier.deep_view() =~= fv.push(nv.children[k as int]));
                        assert(self@.pending =~= before_pending.push(nv.children[k as int]));
                    }
                }
            }
            proof {
                let c = nv.children[k as int];
                let cs = nv.children.take(k as int + 1);
                assert(cs.len() == k + 1);
                assert(cs.drop_last() =~= nv.children.take(k as int));
                assert(cs.last() == c);
                assert(enqueue(pending1, keys2, cs) == (if keys2.contains(c)
                    || before_pending.contains(c) {
                    before_pending
                } else {
                    before_pending.push(c)
                }));
                assert(children_copy@[k as int]@ == c);
                assert(in_graph == keys2.contains(c));
                if in_graph || queued {
                    assert(self@.pending == before_pending);
                }
                assert(self@.pending == enqueue(pending1, keys2, cs));
            }
            k += 1;
        }
        proof {
            assert(nv.children.take(children_copy.len() as int) =~= nv.children);
        }
        let ghost pending2 = self@.pending;
        // Level accounting: advance the depth when the graph has filled the
        // current level; the next boundary covers everything now queued.
        let gl = self.graph.len();
        let advanced: bool = gl == self.next_depth_len;
        if advanced {
            proof {
                assert(pre.depth <= pre.graph.len());
                assert(graph2.len() == pre.graph.len() + 1);
            }
            self.depth = self.depth + 1;
            let pl = self.frontier.len() - self.head;
            self.next_depth_len = if gl <= usize::MAX - pl {
                gl + pl
            } else {
                usize::MAX
            };
        }
        // The crawl ends when the depth limit is exceeded or nothing is left.
        if self.depth > self.max_depth {
            self.done = true;
        } else if self.head >= self.frontier.len() {
            self.done = true;
        }
        self.fetched = Ghost(pre.fetched.push(t));
        self.fetch_depths = Ghost(pre.fetch_depths.push(pre.depth));
        proof {
            let post = crawl_step(pre, body@);
            assert(pending2.len() == self.frontier.len() - self.head);
            assert(self@ =~= post);
            lemma_step_preserves_inv(pre, body@);
        }
        true
    }
}

/// Dropping the front of a duplicate-free queue keeps it duplicate-free and
/// free of the dropped element.
proof fn lemma_drop_first_no_duplicates(p: Seq<Seq<char>>)
    requires
        p.len() > 0,
        p.no_duplicates(),
    ensures
        p.drop_first().no_duplicates(),
        !p.drop_first().contains(p[0]),
{
    let q = p.drop_first();
    assert(forall|i: int| 0 <= i < q.len() ==> q[i] == p[i + 1]);
    if q.contains(p[0]) {
        let i = choose|i: int| 0 <= i < q.len() && q[i] == p[0];
        assert(p[i + 1] == p[0]);
    }
}

/// What the deduplicating append keeps: the queue stays duplicate-free and
/// disjoint from the keys, keeps everything it had, and gains exactly the
/// children that are neither keys nor already queued.
proof fn lemma_enqueue(p: Seq<Seq<char>>, k: Seq<Seq<char>>, children: Seq<Seq<char>>)
    requires
        p.no_duplicates(),
        forall|a: Seq<char>| #[trigger] p.contains(a) ==> !k.contains(a),
    ensures
        enqueue(p, k, children).no_duplicates(),
        forall|a: Seq<char>| #[trigger] enqueue(p, k, children).contains(a) ==> !k.contains(a),
        forall|a: Seq<char>| #[trigger]
            enqueue(p, k, children).contains(a) <==> (p.contains(a) || (children.contains(a)
                && !k.contains(a))),
    decreases children.len(),
{
    let r = enqueue(p, k, children);
    if children.len() == 0 {
        assert(forall|a: Seq<char>| !children.contains(a));
    } else {
        let init = children.drop_last();
        let c = children.last();
        lemma_enqueue(p, k, init);
        let q = enqueue(p, k, init);
        assert(forall|a: Seq<char>| #[trigger]
            children.contains(a) <==> (init.contains(a) || a == c)) by {
            assert(forall|i: int| 0 <= i < init.len() ==> init[i] == children[i]);
            assert(children[children.len() - 1] == c);
            assert(forall|i: int|
                0 <= i < children.len() - 1 ==> #[trigger] children[i] == init[i]);
        }
        if k.contains(c) || q.contains(c) {
            assert(r == q);
        } else {
            assert(r == q.push(c));
            assert(forall|a: Seq<char>| #[trigger]
                r.contains(a) <==> (q.contains(a) || a == c)) by {
                assert(forall|i: int| 0 <= i < q.len() ==> r[i] == q[i]);
                assert(r[r.len() - 1] == c);
                assert(forall|i: int| 0 <= i < r.len() - 1 ==> #[trigger] r[i] == q[i]);
            }
            assert(r.no_duplicates()) by {
                assert(forall|i: int, j: int|
                    #![trigger r[i], r[j]]
                    0 <= i < j < q.len() ==> r[i] != r[j]);
                assert(forall|i: int|
                    0 <= i < q.len() ==> #[trigger] r[i] != c) by {
                    assert(forall|i: int| 0 <= i < q.len() && r[i] == c ==> q.contains(c));
                }
            }
        }
    }
}

/// One step from a state satisfying the invariant lands in a state
/// satisfying the invariant.
proof fn lemma_step_preserves_inv(pre: CrawlerView, body: Seq<char>)
    requires
        crawler_inv(pre),
        !pre.done,
        pre.pending.len() > 0,
        nv_wf_for(pre, body),
    ensures
        crawler_inv(crawl_step(pre, body)),
        !pre.fetched.contains(pre.pending[0]),
{
    let post = crawl_step(pre, body);
    let t = pre.pending[0];
    let nv = NodeView {
        address: t,
        matches: sort_dedup(regex_find(pre.pattern, body)),
        children: children_of(t, hrefs_of(body)),
    };
    assert(pre.pending.contains(t)) by {
        assert(pre.pending[0] == t);
    }
    assert(!keys_of(pre.graph).contains(t));
    assert(!pre.fetched.contains(t));
    lemma_insert_by_addr(pre.graph, nv);
    let graph2 = post.graph;
    let keys2 = keys_of(graph2);
    lemma_insert_sorted(keys_of(pre.graph), t);
    assert(keys2 == insert_sorted(keys_of(pre.graph), t));
    lemma_drop_first_no_duplicates(pre.pending);
    let pending1 = pre.pending.drop_first();
    assert(forall|a: Seq<char>| #[trigger] pending1.contains(a) ==> pre.pending.contains(a)) by {
        assert(forall|q: int|
            0 <= q < pending1.len() ==> #[trigger] pending1[q] == pre.pending[q + 1]);
    }
    assert(forall|a: Seq<char>| #[trigger] pending1.contains(a) ==> !keys2.contains(a));
    lemma_enqueue(pending1, keys2, nv.children);
    let pending2 = post.pending;

    // fetched bookkeeping
    assert(post.fetched.no_duplicates()) by {
        assert(forall|i: int, j: int|
            #![trigger post.fetched[i], post.fetched[j]]
            0 <= i < j < pre.fetched.len() ==> post.fetched[i] != post.fetched[j]);
        assert(post.fetched[post.fetched.len() - 1] == t);
        assert(forall|i: int|
            0 <= i < pre.fetched.len() ==> #[trigger] post.fetched[i] != t) by {
            assert(forall|i: int|
                0 <= i < pre.fetched.len() && post.fetched[i] == t ==> pre.fetched.contains(t));
        }
    }
    assert(forall|a: Seq<char>| #[trigger]
        post.fetched.contains(a) <==> (pre.fetched.contains(a) || a == t)) by {
        assert(forall|i: int| 0 <= i < pre.fetched.len() ==> post.fetched[i] == pre.fetched[i]);
        assert(post.fetched[post.fetched.len() - 1] == t);
        assert(forall|i: int|
            0 <= i < post.fetched.len() - 1 ==> #[trigger] post.fetched[i] == pre.fetched[i]);
    }
    assert(forall|a: Seq<char>| #[trigger] post.fetched.contains(a) <==> keys2.contains(a));

    // depth bookkeeping
    assert(forall|i: int|
        0 <= i < pre.fetch_depths.len() ==> post.fetch_depths[i] == pre.fetch_depths[i]);
    assert(post.fetch_depths[post.fetch_depths.len() - 1] == pre.depth);
    assert(forall|i: int, j: int|
        #![trigger post.fetch_depths[i], post.fetch_depths[j]]
        0 <= i <= j < post.fetch_depths.len() ==> post.fetch_depths[i] <= post.fetch_depths[j]);
    assert(pre.depth <= pre.max_depth);
    assert(forall|i: int|
        0 <= i < post.fetch_depths.len() ==> #[trigger] post.fetch_depths[i] <= post.max_depth);
    assert(forall|i: int|
        0 <= i < post.fetch_depths.len() ==> #[trigger] post.fetch_depths[i] <= post.depth);
    assert(0 <= post.depth <= post.graph.len());

    // node well-formedness
    assert(forall|i: int| 0 <= i < post.graph.len() ==> (#[trigger] post.graph[i]).wf()) by {
        assert(forall|i: int|
            0 <= i < post.graph.len() ==> post.graph.contains(#[trigger] post.graph[i]));
        assert(forall|v: NodeView| #[trigger]
            post.graph.contains(v) ==> (pre.graph.contains(v) || v == nv));
        assert(forall|v: NodeView| #[trigger]
            pre.graph.contains(v) ==> v.wf()) by {
            assert(forall|i: int|
                0 <= i < pre.graph.len() && pre.graph[i] == pre.graph[i] ==> (
                #[trigger] pre.graph[i]).wf());
        }
    }

    // provenance of queued and stored addresses
    assert(post.graph.contains(nv));
    assert(forall|v: NodeView| #[trigger] pre.graph.contains(v) ==> post.graph.contains(v));
    assert(forall|a: Seq<char>| linked_from(pre.graph, a) ==> linked_from(post.graph, a));
    assert(forall|a: Seq<char>| #[trigger]
        pending2.contains(a) ==> a == post.root || linked_from(post.graph, a)) by {
        assert(forall|a: Seq<char>| #[trigger]
            nv.children.contains(a) ==> linked_from(post.graph, a));
        assert(forall|a: Seq<char>| #[trigger]
            pending1.contains(a) ==> a == pre.root || linked_from(pre.graph, a));
    }
    assert forall|a: Seq<char>| #[trigger]
        keys2.contains(a) implies a == post.root || linked_from(post.graph, a) by {
        assert(keys_of(pre.graph).contains(a) || a == t);
        if keys_of(pre.graph).contains(a) {
            assert(a == pre.root || linked_from(pre.graph, a));
            if linked_from(pre.graph, a) {
                let v = choose|v: NodeView| #[trigger] pre.graph.contains(v)
                    && v.children.contains(a);
                assert(post.graph.contains(v));
            }
        } else {
            assert(t == pre.root || linked_from(pre.graph, t));
            if linked_from(pre.graph, t) {
                let v = choose|v: NodeView| #[trigger] pre.graph.contains(v)
                    && v.children.contains(t);
                assert(post.graph.contains(v));
            }
        }
    }
}

/// The node built by one step is well formed.
spec fn nv_wf_for(pre: CrawlerView, body: Seq<char>) -> bool {
    NodeView {
        address: pre.pending[0],
        matches: sort_dedup(regex_find(pre.pattern, body)),
        children: children_of(pre.pending[0], hrefs_of(body)),
    }.wf()
}

/// No address is fetched more than once: the fetch log of a well-formed
/// crawl has no duplicates, however many link paths or cycles lead to an
/// address.
pub proof fn lemma_no_duplicate_fetches(c: Crawler)
    requires
        c.wf(),
    ensures
        c@.fetched.no_duplicates(),
{
}

/// Breadth-first order: fetch levels never decrease along the fetch log, so
/// an address fetched at level `d` was fetched before every address of level
/// `d + 2` (indices into the fetch log order it).
pub proof fn lemma_breadth_first_order(c: Crawler, i: int, j: int)
    requires
        c.wf(),
        0 <= i < c@.fetch_depths.len(),
        0 <= j < c@.fetch_depths.len(),
        c@.fetch_depths[i] + 2 <= c@.fetch_depths[j],
    ensures
        i < j,
{
    if j <= i {
        assert(c@.fetch_depths[j] <= c@.fetch_depths[i]);
    }
}

/// Domain scoping: every graph key other than the root is listed as a child
/// of some crawled page, and a child is kept only when its domain equals the
/// domain of the page that referenced it.
pub proof fn lemma_domain_scoping(c: Crawler, a: Seq<char>)
    requires
        c.wf(),
        keys_of(c@.graph).contains(a),
        a != c@.root,
    ensures
        exists|v: NodeView| #[trigger]
            c@.graph.contains(v) && v.children.contains(a) && domain_of(a) == domain_of(v.address),
{
    assert(linked_from(c@.graph, a));
    let v = choose|v: NodeView| #[trigger] c@.graph.contains(v) && v.children.contains(a);
    assert(v.wf()) by {
        let i = choose|i: int| 0 <= i < c@.graph.len() && c@.graph[i] == v;
        assert((c@.graph[i]).wf());
    }
    assert(domain_of(a) == domain_of(v.address)) by {
        let q = choose|q: int| 0 <= q < v.children.len() && v.children[q] == a;
        assert(domain_of(v.children[q]) == domain_of(v.address));
    }
}

/// Depth bound, operationally: every fetch of a well-formed crawl happened
/// at a level no greater than the configured maximum.
pub proof fn lemma_fetches_within_depth(c: Crawler, i: int)
    requires
        c.wf(),
        0 <= i < c@.fetch_depths.len(),
    ensures
        c@.fetch_depths[i] <= c@.max_depth,
{
}

/// Depth bound at zero: with a maximum depth of `0`, the very first step
/// ends the crawl with exactly one node — the root — in the graph.
pub proof fn lemma_depth_zero(root: Seq<char>, pattern: Seq<char>, body: Seq<char>)
    ensures
        crawl_step(init_view(root, pattern, 0), body).done,
        crawl_step(init_view(root, pattern, 0), body).graph.len() == 1,
        crawl_step(init_view(root, pattern, 0), body).graph[0].address == root,
{
    let pre = init_view(root, pattern, 0);
    let post = crawl_step(pre, body);
    let nv = NodeView {
        address: root,
        matches: sort_dedup(regex_find(pattern, body)),
        children: children_of(root, hrefs_of(body)),
    };
    assert(pre.pending[0] == root);
    assert(post.graph == insert_by_addr(Seq::<NodeView>::empty(), nv));
    assert(post.graph =~= seq![nv]);
    assert(post.depth == 1);
}

} // verus!
