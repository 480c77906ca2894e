//! One fetched page: its address, the pattern matches found in its body, and
//! the same-domain hyperlink targets discovered on it.

use vstd::prelude::*;

use crate::address::{domain_of, resolve, resolve_spec, Address};
use crate::extract::{extract_hrefs, find_matches, hrefs_of, regex_find, regex_valid};
use crate::order::{
    insert_sorted, lemma_insert_sorted, lemma_lex_asymmetric, lemma_lex_trichotomy,
    lemma_sort_dedup, lex_lt, sort_dedup, strictly_sorted, string_lt,
};

verus! {

/// The mathematical content of a [`Node`]: plain character sequences.
pub struct NodeView {
    pub address: Seq<char>,
    pub matches: Seq<Seq<char>>,
    pub children: Seq<Seq<char>>,
}

impl NodeView {
    /// Every child was kept only if its domain equals the page's own domain,
    /// and the match list is in ascending order without duplicates.
    pub open spec fn wf(self) -> bool {
        &&& forall|i: int|
            0 <= i < self.children.len() ==> domain_of(#[trigger] self.children[i]) == domain_of(
                self.address,
            )
        &&& strictly_sorted(self.matches)
    }
}

/// One fetched page. Its identity is its address alone: two nodes are equal
/// iff their addresses are equal.
pub struct Node {
    /// The address the page was fetched for.
    pub address: Address,
    /// Every substring of the body matched by the extraction pattern, in
    /// ascending order, duplicates collapsed.
    pub matches: Vec<String>,
    /// Every same-domain hyperlink target discovered on the page, in document
    /// order, duplicates kept.
    pub children: Vec<Address>,
}

impl View for Node {
    type V = NodeView;

    open spec fn view(&self) -> NodeView {
        NodeView {
            address: self.address@,
            matches: self.matches.deep_view(),
            children: self.children.deep_view(),
        }
    }
}

impl DeepView for Node {
    type V = NodeView;

    open spec fn deep_view(&self) -> NodeView {
        self.view()
    }
}

impl PartialEq for Node {
    fn eq(&self, other: &Node) -> (r: bool) {
        self.address == other.address
    }
}

impl vstd::std_specs::cmp::PartialEqSpecImpl for Node {
    open spec fn obeys_eq_spec() -> bool {
        true
    }

    open spec fn eq_spec(&self, other: &Node) -> bool {
        self.address@ == other.address@
    }
}

/// The same-domain children discovered from the raw href strings `hrefs`
/// found on the page at `base`: each href is resolved against `base`, and
/// kept (in order) only when resolution succeeds and the resolved domain
/// equals the domain of `base`.
pub open spec fn children_of(base: Seq<char>, hrefs: Seq<Seq<char>>) -> Seq<Seq<char>>
    decreases hrefs.len(),
{
    if hrefs.len() == 0 {
        Seq::<Seq<char>>::empty()
    } else {
        let rest = children_of(base, hrefs.drop_last());
        match resolve_spec(hrefs.last(), base) {
            Some(c) => if domain_of(c) == domain_of(base) {
                rest.push(c)
            } else {
                rest
            },
            None => rest,
        }
    }
}

/// Where `x` belongs in the sorted sequence `s`: scanning past every element
/// below `x` lands either on `x` itself (nothing to insert) or on the place
/// `insert_sorted` fills.
proof fn lemma_insert_sorted_position(s: Seq<Seq<char>>, x: Seq<char>, i: int)
    requires
        strictly_sorted(s),
        0 <= i <= s.len(),
        forall|j: int| 0 <= j < i ==> lex_lt(#[trigger] s[j], x),
        i < s.len() ==> !lex_lt(s[i], x),
    ensures
        i < s.len() && s[i] == x ==> insert_sorted(s, x) == s,
        !(i < s.len() && s[i] == x) ==> insert_sorted(s, x) == s.take(i) + seq![x] + s.skip(i),
    decreases i,
{
    if i == 0 {
        if s.len() == 0 {
            assert(insert_sorted(s, x) =~= s.take(0) + seq![x] + s.skip(0));
        } else if s[0] == x {
        } else {
            lemma_lex_trichotomy(x, s[0]);
            assert(lex_lt(x, s[0]));
            assert(s.take(0) + seq![x] + s.skip(0) =~= seq![x] + s);
        }
    } else {
        assert(lex_lt(s[0], x));
        lemma_lex_asymmetric(s[0], x);
        let tail = s.drop_first();
        assert(strictly_sorted(tail)) by {
            assert(forall|p: int, q: int|
                0 <= p < q < tail.len() ==> tail[p] == s[p + 1] && tail[q] == s[q + 1]);
        }
        assert(forall|j: int| 0 <= j < i - 1 ==> lex_lt(#[trigger] tail[j], x)) by {
            assert(forall|j: int| 0 <= j < i - 1 ==> tail[j] == s[j + 1]);
        }
        assert(i - 1 < tail.len() ==> !lex_lt(tail[i - 1], x)) by {
            if i - 1 < tail.len() {
                assert(tail[i - 1] == s[i]);
            }
        }
        lemma_insert_sorted_position(tail, x, i - 1);
        assert(insert_sorted(s, x) == seq![s[0]] + insert_sorted(tail, x));
        if i < s.len() && s[i] == x {
            assert(tail[i - 1] == s[i]);
            assert(seq![s[0]] + tail =~= s);
        } else {
            assert(seq![s[0]] + (tail.take(i - 1) + seq![x] + tail.skip(i - 1)) =~= s.take(i)
                + seq![x] + s.skip(i));
        }
    }
}

/// Insert one match into a sorted, duplicate-free list, keeping it so.
fn insert_match(v: &mut Vec<String>, x: String)
    requires
        strictly_sorted(old(v).deep_view()),
    ensures
        final(v).deep_view() == insert_sorted(old(v).deep_view(), x@),
        strictly_sorted(final(v).deep_view()),
{
    proof {
        lemma_insert_sorted(old(v).deep_view(), x@);
    }
    let ghost s = v.deep_view();
    let mut i: usize = 0;
    loop
        invariant
            0 <= i <= v.len(),
            s == v.deep_view(),
            s.len() == v.len(),
            strictly_sorted(s),
            forall|j: int| 0 <= j < i ==> lex_lt(#[trigger] s[j], x@),
        ensures
            0 <= i <= v.len(),
            s == v.deep_view(),
            forall|j: int| 0 <= j < i ==> lex_lt(#[trigger] s[j], x@),
            i < v.len() ==> !lex_lt(s[i as int], x@),
        decreases v.len() - i,
    {
        if i >= v.len() {
            break;
        }
        proof {
            assert(s[i as int] == v@[i as int]@);
        }
        if !string_lt(v[i].as_str(), x.as_str()) {
            break;
        }
        i += 1;
    }
    proof {
        lemma_insert_sorted_position(s, x@, i as int);
    }
    if i < v.len() {
        if v[i] == x {
            assert(v.deep_view() == insert_sorted(s, x@));
            return;
        }
    }
    v.insert(i, x);
    proof {
        assert(v.deep_view() =~= s.take(i as int) + seq![x@] + s.skip(i as int));
    }
}

/// The matched substrings in ascending order, duplicates collapsed.
fn sort_matches(items: Vec<String>) -> (r: Vec<String>)
    ensures
        r.deep_view() == sort_dedup(items.deep_view()),
        strictly_sorted(r.deep_view()),
{
    let mut out: Vec<String> = Vec::new();
    let mut k: usize = 0;
    proof {
        assert(out.deep_view() =~= sort_dedup(items.deep_view().take(0)));
    }
    while k < items.len()
        invariant
            0 <= k <= items.len(),
            items.deep_view().len() == items.len(),
            out.deep_view() == sort_dedup(items.deep_view().take(k as int)),
            strictly_sorted(out.deep_view()),
        decreases items.len() - k,
    {
        proof {
            assert(items.deep_view()[k as int] == items[k as int]@);
        }
        insert_match(&mut out, items[k].clone());
        proof {
            let dv = items.deep_view();
            assert(dv.take(k + 1).drop_last() =~= dv.take(k as int));
            assert(dv.take(k + 1).last() == dv[k as int]);
            assert(out.deep_view() == sort_dedup(dv.take(k + 1)));
        }
        k += 1;
    }
    proof {
        assert(items.deep_view().take(items.len() as int) =~= items.deep_view());
    }
    out
}

impl Node {
    /// Build the node for one fetched page: `address` is the page's own
    /// (already normalized) address, `pattern` the extraction pattern source,
    /// and `body` the document text that was fetched for the address. Fails
    /// exactly when `pattern` does not compile; fetching itself is the
    /// caller's concern.
    pub fn new(address: &Address, pattern: &str, body: &str) -> (r: Option<Node>)
        ensures
            r is Some <==> regex_valid(pattern@),
            r matches Some(n) ==> n@.address == address@ && n@.matches == sort_dedup(
                regex_find(pattern@, body@),
            ) && n@.children == children_of(address@, hrefs_of(body@)) && n@.wf(),
            r matches Some(n) ==> forall|m: Seq<char>|
                #[trigger] n@.matches.contains(m) <==> regex_find(pattern@, body@).contains(m),
    {
        let found = match find_matches(pattern, body) {
            Some(f) => f,
            None => {
                return None;
            },
        };
        proof {
            lemma_sort_dedup(found.deep_view());
        }
        let matches = sort_matches(found);
        let hrefs = extract_hrefs(body);
        let mut children: Vec<Address> = Vec::new();
        let mut k: usize = 0;
        proof {
            assert(children.deep_view() =~= children_of(address@, hrefs.deep_view().take(0)));
        }
        while k < hrefs.len()
            invariant
                0 <= k <= hrefs.len(),
                hrefs.deep_view().len() == hrefs.len(),
                hrefs.deep_view() == hrefs_of(body@),
                children.deep_view() == children_of(address@, hrefs.deep_view().take(k as int)),
                forall|i: int|
                    0 <= i < children.deep_view().len() ==> domain_of(
                        #[trigger] children.deep_view()[i],
                    ) == domain_of(address@),
            decreases hrefs.len() - k,
        {
            proof {
                assert(hrefs.deep_view()[k as int] == hrefs[k as int]@);
                let dv = hrefs.deep_view();
                assert(dv.take(k + 1).drop_last() =~= dv.take(k as int));
                assert(dv.take(k + 1).last() == dv[k as int]);
            }
            let ghost before = children.deep_view();
            match resolve(hrefs[k].as_str(), address) {
                Some(child) => {
                    if child.same_domain(address) {
                        children.push(child);
                        proof {
                            assert(children.deep_view() =~= before.push(child@));
                        }
                    }
                },
                None => {},
            }
            k += 1;
        }
        proof {
            assert(hrefs.deep_view().take(hrefs.len() as int) =~= hrefs.deep_view());
        }
        Some(Node { address: address.dup(), matches, children })
    }
}

} // verus!
