//! Extraction patterns and the two pluggable page capabilities the crawl
//! consumes: pattern matching over a page body, and hyperlink extraction
//! from markup.

use vstd::prelude::*;

verus! {

/// A named built-in extraction pattern, or a user-supplied expression.
pub enum PatternType<'a> {
    Phone,
    Email,
    Regex(&'a str),
}

/// The phone-number pattern source text.
pub open spec fn phone_pattern() -> Seq<char> {
    "\\(\\d{3}\\)\\s?\\d{3}[-.]\\d{4}|\\d{3}[-./\\s]\\d{3}[-.\\s]\\d{4}"@
}

/// The e-mail pattern source text.
pub open spec fn email_pattern() -> Seq<char> {
    "([0-9a-zA-Z]([-.\\w]*[0-9a-zA-Z])*@([0-9a-zA-Z][-\\w]*[0-9a-zA-Z]\\.)+[a-zA-Z]{2,9})"@
}

/// The pattern source text that each `PatternType` stands for.
pub open spec fn regexp_spec(pattern: PatternType) -> Seq<char> {
    match pattern {
        PatternType::Phone => phone_pattern(),
        PatternType::Email => email_pattern(),
        PatternType::Regex(s) => s@,
    }
}

impl PatternType<'_> {
    /// The pattern source text: a built-in expression for `Phone` and
    /// `Email`, the user's own expression for `Regex`.
    pub fn get_regexp(pattern: PatternType) -> (r: String)
        ensures
            r@ == regexp_spec(pattern),
    {
        match pattern {
            PatternType::Phone => String::from_str(
                "\\(\\d{3}\\)\\s?\\d{3}[-.]\\d{4}|\\d{3}[-./\\s]\\d{3}[-.\\s]\\d{4}",
            ),
            PatternType::Email => String::from_str(
                "([0-9a-zA-Z]([-.\\w]*[0-9a-zA-Z])*@([0-9a-zA-Z][-\\w]*[0-9a-zA-Z]\\.)+[a-zA-Z]{2,9})",
            ),
            PatternType::Regex(regexp) => String::from_str(regexp),
        }
    }
}

/// Whether `pattern` compiles as a regular expression: a function of the
/// pattern text alone.
pub uninterp spec fn regex_valid(pattern: Seq<char>) -> bool;

/// Every substring of `body` matched by the compiled form of `pattern`, in
/// match order: a function of the two strings alone.
pub uninterp spec fn regex_find(pattern: Seq<char>, body: Seq<char>) -> Seq<Seq<char>>;

/// Relies on `regex::Regex::new` and `regex::Regex::find_iter`: whether a
/// pattern compiles, and the sequence of non-overlapping leftmost matches in
/// a haystack, are functions of the pattern and haystack strings alone.
#[verifier::external_body]
pub(crate) fn find_matches(pattern: &str, body: &str) -> (r: Option<Vec<String>>)
    ensures
        r is Some <==> regex_valid(pattern@),
        r matches Some(v) ==> v.deep_view() == regex_find(pattern@, body@),
{
    match regex::Regex::new(pattern) {
        Ok(re) => Some(re.find_iter(body).map(|m| String::from(m.as_str())).collect()),
        Err(_) => None,
    }
}

/// Whether `pattern` compiles as a regular expression.
pub fn pattern_is_valid(pattern: &str) -> (r: bool)
    ensures
        r == regex_valid(pattern@),
{
    find_matches(pattern, "").is_some()
}

/// Every hyperlink reference attribute value in `body`, in document order: a
/// function of the body string alone.
pub uninterp spec fn hrefs_of(body: Seq<char>) -> Seq<Seq<char>>;

/// Relies on `select::document::Document` and `select::predicate::Name`: the
/// `href` attribute values of the `<a>` elements of the parsed document, in
/// document order — a function of the body string alone.
#[verifier::external_body]
pub(crate) fn extract_hrefs(body: &str) -> (r: Vec<String>)
    ensures
        r.deep_view() == hrefs_of(body@),
{
    let document = select::document::Document::from(body);
    document
        .find(select::predicate::Name("a"))
        .filter_map(|node| node.attr("href").map(String::from))
        .collect()
}

} // verus!
