//! Addresses: normalized, fragment-free absolute resource locators.
//!
//! An [`Address`] is the unit of identity for the whole crawl: two addresses
//! are equal iff their normalized string forms are equal. Fragments identify
//! in-page anchors, not distinct fetchable resources, so they are stripped
//! before a raw string ever becomes an `Address`.

use vstd::prelude::*;

verus! {

/// What `url::Url::parse` returns for a raw string: `Some` of the normalized
/// serialization when the string is an absolute URL, `None` when it cannot be
/// parsed without a base. The result depends on the input string alone.
pub uninterp spec fn url_parse(raw: Seq<char>) -> Option<Seq<char>>;

/// What resolving the reference `raw` against the absolute URL string `base`
/// returns: `Some` of the normalized serialization of the resolved URL, or
/// `None` when resolution fails. The result depends on the two strings alone.
pub uninterp spec fn url_join(base: Seq<char>, raw: Seq<char>) -> Option<Seq<char>>;

/// The domain component of the URL string `addr`: `None` when the string does
/// not parse as an absolute URL or its host is not a domain name (e.g. an IP
/// address, or a `file:` URL with no host).
pub uninterp spec fn domain_of(addr: Seq<char>) -> Option<Seq<char>>;

/// Relies on `url::Url::parse` and `url::Url::as_str`: parsing either yields
/// the normalized serialization of the input, a function of the input string
/// alone, or fails.
#[verifier::external_body]
fn parse_url(raw: &str) -> (r: Option<String>)
    ensures
        r is Some <==> url_parse(raw@) is Some,
        r matches Some(s) ==> s@ == url_parse(raw@).unwrap(),
{
    match url::Url::parse(raw) {
        Ok(u) => Some(String::from(u.as_str())),
        Err(_) => None,
    }
}

/// Relies on `url::Url::join` (with `url::Url::parse` converting `base`):
/// standard URL resolution of `raw` against `base`, a function of the two
/// strings alone; it fails when `base` does not parse or the resolution is
/// invalid.
#[verifier::external_body]
fn join_url(base: &str, raw: &str) -> (r: Option<String>)
    ensures
        r is Some <==> url_join(base@, raw@) is Some,
        r matches Some(s) ==> s@ == url_join(base@, raw@).unwrap(),
{
    match url::Url::parse(base) {
        Ok(b) => match b.join(raw) {
            Ok(u) => Some(String::from(u.as_str())),
            Err(_) => None,
        },
        Err(_) => None,
    }
}

/// Relies on `url::Url::domain` (with `url::Url::parse` converting `addr`):
/// the domain component is a function of the URL string alone; absent when
/// the string does not parse or the host is not a domain name.
#[verifier::external_body]
fn domain_str(addr: &str) -> (r: Option<String>)
    ensures
        r is Some <==> domain_of(addr@) is Some,
        r matches Some(d) ==> d@ == domain_of(addr@).unwrap(),
{
    match url::Url::parse(addr) {
        Ok(u) => u.domain().map(String::from),
        Err(_) => None,
    }
}

/// Index of the first `'#'` in `s`, or `s.len()` when there is none: the
/// start of the fragment component of a raw hyperlink string.
pub open spec fn frag_start(s: Seq<char>) -> int
    decreases s.len(),
{
    if s.len() == 0 {
        0
    } else if s[0] == '#' {
        0
    } else {
        1 + frag_start(s.drop_first())
    }
}

/// `s` with its fragment component (everything from the first `'#'` on)
/// removed.
pub open spec fn strip_frag(s: Seq<char>) -> Seq<char> {
    s.take(frag_start(s))
}

/// Resolving a raw hyperlink string against a base address: the fragment is
/// stripped unconditionally, then the rest is resolved by standard URL
/// resolution semantics.
pub open spec fn resolve_spec(raw: Seq<char>, base: Seq<char>) -> Option<Seq<char>> {
    url_join(base, strip_frag(raw))
}

/// Parsing a raw string as a root address: the fragment is stripped, then the
/// rest must parse as an absolute URL.
pub open spec fn parse_spec(raw: Seq<char>) -> Option<Seq<char>> {
    url_parse(strip_frag(raw))
}

/// `frag_start` is exactly the position of the first `'#'`.
pub proof fn lemma_frag_start_at(s: Seq<char>, i: int)
    requires
        0 <= i <= s.len(),
        forall|j: int| 0 <= j < i ==> s[j] != '#',
        i == s.len() || s[i] == '#',
    ensures
        frag_start(s) == i,
    decreases i,
{
    if i == 0 {
    } else {
        assert(s[0] != '#');
        lemma_frag_start_at(s.drop_first(), i - 1);
    }
}

/// A string without a `'#'` is unchanged by fragment stripping.
pub proof fn lemma_strip_no_hash(s: Seq<char>)
    requires
        !s.contains('#'),
    ensures
        strip_frag(s) == s,
{
    assert(forall|j: int| 0 <= j < s.len() ==> s[j] != '#');
    lemma_frag_start_at(s, s.len() as int);
    assert(s.take(s.len() as int) =~= s);
}

/// Appending any fragment to a fragment-free string strips back to it.
pub proof fn lemma_strip_appended_fragment(path: Seq<char>, frag: Seq<char>)
    requires
        !path.contains('#'),
    ensures
        strip_frag(path + seq!['#'] + frag) == path,
{
    let s = path + seq!['#'] + frag;
    assert(forall|j: int| 0 <= j < path.len() ==> s[j] == path[j]);
    assert(forall|j: int| 0 <= j < path.len() ==> s[j] != '#');
    assert(s[path.len() as int] == '#');
    lemma_frag_start_at(s, path.len() as int);
    assert(s.take(path.len() as int) =~= path);
}

/// Two raw link strings that differ only in their fragment components resolve
/// to the same address (or both fail): resolution never looks at the
/// fragment. In particular `path`, `path#frag1` and `path#frag2` all resolve
/// alike.
pub proof fn lemma_fragment_idempotence(
    path: Seq<char>,
    frag1: Seq<char>,
    frag2: Seq<char>,
    base: Seq<char>,
)
    requires
        !path.contains('#'),
    ensures
        resolve_spec(path + seq!['#'] + frag1, base) == resolve_spec(path, base),
        resolve_spec(path + seq!['#'] + frag2, base) == resolve_spec(path, base),
{
    lemma_strip_no_hash(path);
    lemma_strip_appended_fragment(path, frag1);
    lemma_strip_appended_fragment(path, frag2);
}

/// A normalized, fragment-free absolute resource locator: the unique key for
/// a crawled page. Its view is the sequence of characters of its normalized
/// string form, and two addresses are equal iff those forms are equal.
pub struct Address {
    repr: String,
}

impl View for Address {
    type V = Seq<char>;

    closed spec fn view(&self) -> Seq<char> {
        self.repr@
    }
}

impl DeepView for Address {
    type V = Seq<char>;

    open spec fn deep_view(&self) -> Seq<char> {
        self.view()
    }
}

impl Address {
    /// Parse a raw string as an absolute address, stripping any fragment.
    /// Returns `None` exactly when the fragment-free rest is not an absolute
    /// URL.
    pub fn parse(raw: &str) -> (r: Option<Address>)
        ensures
            r is Some <==> parse_spec(raw@) is Some,
            r matches Some(a) ==> a@ == parse_spec(raw@).unwrap(),
    {
        let stripped = strip_fragment(raw);
        match parse_url(stripped) {
            Some(s) => Some(Address { repr: s }),
            None => None,
        }
    }

    /// The normalized string form.
    pub fn as_str(&self) -> (r: &str)
        ensures
            r@ == self@,
    {
        self.repr.as_str()
    }

    /// An owned copy of the normalized string form.
    pub fn to_text(&self) -> (r: String)
        ensures
            r@ == self@,
    {
        self.repr.clone()
    }

    /// A copy of the address.
    pub fn dup(&self) -> (r: Address)
        ensures
            r@ == self@,
    {
        Address { repr: self.repr.clone() }
    }

    /// Whether two addresses have the same domain component.
    pub fn same_domain(&self, other: &Address) -> (r: bool)
        ensures
            r == (domain_of(self@) == domain_of(other@)),
    {
        same_domain_str(self.as_str(), other.as_str())
    }
}

impl PartialEq for Address {
    fn eq(&self, other: &Address) -> (r: bool) {
        self.repr == other.repr
    }
}

impl vstd::std_specs::cmp::PartialEqSpecImpl for Address {
    open spec fn obeys_eq_spec() -> bool {
        true
    }

    open spec fn eq_spec(&self, other: &Address) -> bool {
        self@ == other@
    }
}

/// Resolve a raw hyperlink string against a base address into an absolute,
/// fragment-free address. Returns `None` exactly when the fragment-free rest
/// of `raw` cannot be resolved against `base`.
pub fn resolve(raw: &str, base: &Address) -> (r: Option<Address>)
    ensures
        r is Some <==> resolve_spec(raw@, base@) is Some,
        r matches Some(a) ==> a@ == resolve_spec(raw@, base@).unwrap(),
{
    let stripped = strip_fragment(raw);
    match join_url(base.as_str(), stripped) {
        Some(s) => Some(Address { repr: s }),
        None => None,
    }
}

/// Whether two URL strings have the same domain component.
pub fn same_domain_str(a: &str, b: &str) -> (r: bool)
    ensures
        r == (domain_of(a@) == domain_of(b@)),
{
    let da = domain_str(a);
    let db = domain_str(b);
    match (da, db) {
        (Some(x), Some(y)) => x == y,
        (None, None) => true,
        _ => false,
    }
}

/// The prefix of `raw` before its first `'#'`: the raw link with its
/// fragment component removed.
fn strip_fragment(raw: &str) -> (r: &str)
    ensures
        r@ == strip_frag(raw@),
{
    let n: usize = raw.unicode_len();
    let mut i: usize = 0;
    let mut found: bool = false;
    while i < n && !found
        invariant
            0 <= i <= n,
            n == raw@.len(),
            forall|j: int| 0 <= j < i ==> raw@[j] != '#',
            found ==> i < n && raw@[i as int] == '#',
        decreases n - i + (if found { 0int } else { 1int }),
    {
        if raw.get_char(i) == '#' {
            found = true;
        } else {
            i += 1;
        }
    }
    proof {
        lemma_frag_start_at(raw@, i as int);
    }
    raw.substring_char(0, i)
}

} // verus!
