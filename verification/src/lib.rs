//! Best-first path search over a lazily discovered link graph.
//!
//! The pages of a site form a directed graph whose edges are the links from
//! one page to another. The graph is not known in advance: the links of a
//! page are known only once the page has been fetched. This crate holds the
//! logic of a search for a path from a source page to a target page over
//! such a graph, and leaves the fetching to its user.
//!
//! - [`segment`] cuts the final path segment out of an identifier.
//! - [`heuristic`] estimates the cost of a node from its depth and from the
//!   edit distance between its final segment and the target's.
//! - [`graph`] stores the discovered nodes, each with the index of the node
//!   it was discovered from.
//! - [`frontier`] queues the nodes that await expansion, cheapest first.
//! - [`cache`] remembers the links of fetched pages and which fetches are
//!   under way, so that no page is fetched twice.
//! - [`page`] reads the links of a page out of its HTML.
//! - [`search`] drives the search over the pages that the cache holds.
//! - [`text`] has small helpers on strings and lists of strings.

pub mod cache;
pub mod frontier;
pub mod graph;
pub mod heuristic;
pub mod page;
pub mod search;
pub mod segment;
pub mod text;
