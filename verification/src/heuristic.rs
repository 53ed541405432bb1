//! The cost estimate that orders the frontier: path depth plus the edit
//! distance between the final segments of a node's identifier and the
//! target's. The estimate is a heuristic and may overestimate, so the search
//! it orders finds a path, not necessarily a shortest one.

use vstd::prelude::*;
use crate::segment::{last_segment, link_last_part};

verus! {

/// The Damerau-Levenshtein distance of `s` and `t` as the `distance` crate
/// computes it. The crate documents it as the number of changes of single
/// characters (insertion, deletion, substitution, transposition) that are
/// needed to turn one text into the other.
pub uninterp spec fn damerau_levenshtein(s: Seq<char>, t: Seq<char>) -> usize;

/// Calls `distance::damerau_levenshtein`. Its result is a function of the two
/// texts alone; the contract gives that result its name and claims nothing
/// else of it.
#[verifier::external_body]
fn edit_distance(s: &str, t: &str) -> (d: usize)
    ensures
        d == damerau_levenshtein(s@, t@),
{
    distance::damerau_levenshtein(s, t)
}

/// Edit distance between the final segments of two identifiers.
pub open spec fn segment_distance(link: Seq<char>, target: Seq<char>) -> usize {
    damerau_levenshtein(last_segment(link), last_segment(target))
}

/// Cost of a node with identifier `link` found `depth` hops below the root.
pub open spec fn cost_of(depth: usize, link: Seq<char>, target: Seq<char>) -> u128 {
    (depth + 1 + segment_distance(link, target)) as u128
}

/// Edit distance between the final segments of `link` and `target`.
pub fn link_distance(link: &str, target: &str) -> (d: usize)
    ensures
        d == segment_distance(link@, target@),
{
    edit_distance(link_last_part(link), link_last_part(target))
}

/// Cost of a node whose parent lies `depth` hops below the root and whose
/// final segment is `distance` edits away from the target's.
pub fn path_cost(depth: usize, distance: usize) -> (cost: u128)
    ensures
        cost == depth + 1 + distance,
{
    depth as u128 + 1 + distance as u128
}

/// Cost of the node `link` discovered from a parent `depth` hops below the
/// root, in a search for `target`.
pub fn link_cost(depth: usize, link: &str, target: &str) -> (cost: u128)
    ensures
        cost == cost_of(depth, link@, target@),
{
    path_cost(depth, link_distance(link, target))
}

} // verus!
