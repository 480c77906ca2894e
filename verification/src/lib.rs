//! Crawl a web site breadth-first from a root address, follow same-domain
//! links up to a configurable depth, and extract pattern matches from each
//! visited page.
//!
//! The crate is organised around plain data: an [`Address`] is a normalized,
//! fragment-free locator string; a `Node` is one fetched page (its address,
//! its pattern matches, its same-domain children); a `Graph` maps addresses
//! to nodes in ascending address order; a `Crawler` drives the traversal one
//! page at a time, with the caller supplying each fetched body.

mod address;
mod crawler;
mod extract;
mod graph;
mod node;
mod order;
mod serial;

pub use crate::address::resolve;
pub use crate::address::same_domain_str;
pub use crate::address::Address;
pub use crate::crawler::Crawler;
pub use crate::extract::pattern_is_valid;
pub use crate::extract::PatternType;
pub use crate::graph::Graph;
pub use crate::node::Node;
