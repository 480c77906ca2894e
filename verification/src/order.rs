//! A total lexicographic order over strings (by character code point): the
//! iteration order of the graph and the stable order of each node's match
//! list.

use vstd::prelude::*;

verus! {

/// Strict lexicographic order on character sequences, by code point.
pub open spec fn lex_lt(a: Seq<char>, b: Seq<char>) -> bool
    decreases a.len(),
{
    if b.len() == 0 {
        false
    } else if a.len() == 0 {
        true
    } else if a[0] == b[0] {
        lex_lt(a.drop_first(), b.drop_first())
    } else {
        a[0] < b[0]
    }
}

pub proof fn lemma_lex_irreflexive(a: Seq<char>)
    ensures
        !lex_lt(a, a),
    decreases a.len(),
{
    if a.len() != 0 {
        lemma_lex_irreflexive(a.drop_first());
    }
}

/// Any two sequences are ordered one way, the other, or equal.
pub proof fn lemma_lex_trichotomy(a: Seq<char>, b: Seq<char>)
    ensures
        lex_lt(a, b) || lex_lt(b, a) || a == b,
    decreases a.len(),
{
    if a.len() == 0 && b.len() == 0 {
        assert(a =~= b);
    } else if a.len() != 0 && b.len() != 0 {
        if a[0] == b[0] {
            lemma_lex_trichotomy(a.drop_first(), b.drop_first());
            if a.drop_first() == b.drop_first() {
                assert(a.drop_first().len() == a.len() - 1);
                assert(b.drop_first().len() == b.len() - 1);
                assert(a.len() == b.len());
                assert forall|i: int| 0 <= i < a.len() implies a[i] == b[i] by {
                    if i > 0 {
                        assert(a[i] == a.drop_first()[i - 1]);
                        assert(b[i] == b.drop_first()[i - 1]);
                    }
                }
                assert(a =~= b);
            }
        }
    }
}

pub proof fn lemma_lex_asymmetric(a: Seq<char>, b: Seq<char>)
    requires
        lex_lt(a, b),
    ensures
        !lex_lt(b, a),
        a != b,
    decreases a.len(),
{
    lemma_lex_irreflexive(a);
    if a.len() != 0 && b.len() != 0 && a[0] == b[0] {
        lemma_lex_asymmetric(a.drop_first(), b.drop_first());
    }
}

pub proof fn lemma_lex_transitive(a: Seq<char>, b: Seq<char>, c: Seq<char>)
    requires
        lex_lt(a, b),
        lex_lt(b, c),
    ensures
        lex_lt(a, c),
    decreases a.len(),
{
    if b.len() != 0 && c.len() != 0 && a.len() != 0 {
        if a[0] == b[0] && b[0] == c[0] {
            lemma_lex_transitive(a.drop_first(), b.drop_first(), c.drop_first());
        }
    }
}

/// Dropping an equal prefix does not change how two sequences compare.
proof fn lemma_lex_skip(a: Seq<char>, b: Seq<char>, i: int)
    requires
        0 <= i <= a.len(),
        i <= b.len(),
        forall|j: int| 0 <= j < i ==> a[j] == b[j],
    ensures
        lex_lt(a, b) == lex_lt(a.skip(i), b.skip(i)),
    decreases i,
{
    if i > 0 {
        assert(a[0] == b[0]);
        lemma_lex_skip(a.drop_first(), b.drop_first(), i - 1);
        assert(a.drop_first().skip(i - 1) =~= a.skip(i));
        assert(b.drop_first().skip(i - 1) =~= b.skip(i));
    } else {
        assert(a.skip(0) =~= a);
        assert(b.skip(0) =~= b);
    }
}

/// Strict lexicographic comparison of two strings.
pub fn string_lt(a: &str, b: &str) -> (r: bool)
    ensures
        r == lex_lt(a@, b@),
{
    let na: usize = a.unicode_len();
    let nb: usize = b.unicode_len();
    let mut i: usize = 0;
    loop
        invariant
            0 <= i <= na,
            i <= nb,
            na == a@.len(),
            nb == b@.len(),
            forall|j: int| 0 <= j < i ==> a@[j] == b@[j],
        decreases na - i,
    {
        proof {
            lemma_lex_skip(a@, b@, i as int);
        }
        if i >= nb {
            return false;
        }
        if i >= na {
            return true;
        }
        let ca = a.get_char(i);
        let cb = b.get_char(i);
        if ca != cb {
            return ca < cb;
        }
        i += 1;
    }
}

/// `x` inserted into the sorted, duplicate-free sequence `s`, keeping it
/// sorted; when `x` is already present, `s` is unchanged.
pub open spec fn insert_sorted(s: Seq<Seq<char>>, x: Seq<char>) -> Seq<Seq<char>>
    decreases s.len(),
{
    if s.len() == 0 {
        seq![x]
    } else if x == s[0] {
        s
    } else if lex_lt(x, s[0]) {
        seq![x] + s
    } else {
        seq![s[0]] + insert_sorted(s.drop_first(), x)
    }
}

/// The elements of `s` in ascending lexicographic order, duplicates
/// collapsed.
pub open spec fn sort_dedup(s: Seq<Seq<char>>) -> Seq<Seq<char>>
    decreases s.len(),
{
    if s.len() == 0 {
        Seq::<Seq<char>>::empty()
    } else {
        insert_sorted(sort_dedup(s.drop_last()), s.last())
    }
}

/// Strictly ascending in lexicographic order (hence duplicate-free).
pub open spec fn strictly_sorted(s: Seq<Seq<char>>) -> bool {
    forall|i: int, j: int| 0 <= i < j < s.len() ==> lex_lt(s[i], s[j])
}

/// `insert_sorted` keeps a sorted sequence sorted and makes its element set
/// the old set with `x` added.
pub proof fn lemma_insert_sorted(s: Seq<Seq<char>>, x: Seq<char>)
    requires
        strictly_sorted(s),
    ensures
        strictly_sorted(insert_sorted(s, x)),
        insert_sorted(s, x).to_set() == s.to_set().insert(x),
        insert_sorted(s, x).contains(x),
        forall|y: Seq<char>| insert_sorted(s, x).contains(y) <==> (s.contains(y) || y == x),
    decreases s.len(),
{
    let r = insert_sorted(s, x);
    if s.len() == 0 {
        assert(r =~= seq![x]);
        assert(r.contains(x)) by {
            assert(r[0] == x);
        }
        assert(forall|y: Seq<char>| r.contains(y) ==> y == x);
        assert(r.to_set() =~= s.to_set().insert(x));
    } else if x == s[0] {
        assert(s.contains(x)) by {
            assert(s[0] == x);
        }
        assert(r.to_set() =~= s.to_set().insert(x));
    } else if lex_lt(x, s[0]) {
        assert(r =~= seq![x] + s);
        assert(forall|y: Seq<char>| r.contains(y) <==> (s.contains(y) || y == x)) by {
            assert(forall|i: int| 0 <= i < s.len() ==> r[i + 1] == s[i]);
            assert(r[0] == x);
            assert(forall|i: int| 1 <= i < r.len() ==> r[i] == s[i - 1]);
        }
        assert(r.to_set() =~= s.to_set().insert(x));
        assert forall|i: int, j: int| 0 <= i < j < r.len() implies lex_lt(r[i], r[j]) by {
            if i == 0 {
                if j > 1 {
                    lemma_lex_transitive(x, s[0], s[j - 1]);
                }
            }
        }
    } else {
        let tail = s.drop_first();
        lemma_lex_trichotomy(x, s[0]);
        assert(lex_lt(s[0], x));
        assert(strictly_sorted(tail)) by {
            assert(forall|i: int, j: int|
                0 <= i < j < tail.len() ==> tail[i] == s[i + 1] && tail[j] == s[j + 1]);
        }
        lemma_insert_sorted(tail, x);
        let rt = insert_sorted(tail, x);
        assert(r =~= seq![s[0]] + rt);
        assert(r[0] == s[0]);
        assert(forall|i: int| 1 <= i < r.len() ==> r[i] == rt[i - 1]);
        assert(forall|y: Seq<char>| r.contains(y) <==> (y == s[0] || rt.contains(y))) by {
            assert(forall|i: int| 0 <= i < rt.len() ==> r[i + 1] == rt[i]);
        }
        assert(forall|y: Seq<char>| s.contains(y) <==> (y == s[0] || tail.contains(y))) by {
            assert(forall|i: int| 0 <= i < tail.len() ==> s[i + 1] == tail[i]);
            assert(forall|i: int| 1 <= i < s.len() ==> s[i] == tail[i - 1]);
        }
        assert(r.to_set() =~= s.to_set().insert(x));
        assert forall|i: int, j: int| 0 <= i < j < r.len() implies lex_lt(r[i], r[j]) by {
            if i == 0 {
                assert(rt.contains(r[j])) by {
                    assert(r[j] == rt[j - 1]);
                }
                if rt[j - 1] == x {
                } else {
                    assert(tail.contains(rt[j - 1]));
                    let k = choose|k: int| 0 <= k < tail.len() && tail[k] == rt[j - 1];
                    assert(s[k + 1] == tail[k]);
                    assert(lex_lt(s[0], s[k + 1]));
                }
            }
        }
    }
}

/// `sort_dedup` yields a sorted sequence whose element set is that of its
/// input.
pub proof fn lemma_sort_dedup(s: Seq<Seq<char>>)
    ensures
        strictly_sorted(sort_dedup(s)),
        sort_dedup(s).to_set() == s.to_set(),
        forall|y: Seq<char>| sort_dedup(s).contains(y) <==> s.contains(y),
    decreases s.len(),
{
    let r = sort_dedup(s);
    if s.len() == 0 {
        assert(r.to_set() =~= s.to_set());
        assert(forall|y: Seq<char>| !r.contains(y) && !s.contains(y));
    } else {
        let init = s.drop_last();
        lemma_sort_dedup(init);
        lemma_insert_sorted(sort_dedup(init), s.last());
        assert(forall|y: Seq<char>| s.contains(y) <==> (init.contains(y) || y == s.last())) by {
            assert(forall|i: int| 0 <= i < init.len() ==> s[i] == init[i]);
            assert(s[s.len() - 1] == s.last());
        }
        assert(r.to_set() =~= s.to_set());
    }
}

} // verus!
