//! Point-in-polygon lookup of administrative boundaries.
//!
//! The crate models geographic coordinates as fixed-point integers
//! (degrees scaled by 1e7), builds a bounding-box tree over a set of
//! administrative boundaries, and answers containment queries, both for
//! single points and for newline-delimited bulk payloads.

use vstd::prelude::*;

pub mod boundary;
pub mod codec;
pub mod geom;
pub mod location;
pub mod rtree;
pub mod service;

verus! {

use crate::geom::Coord;
use crate::rtree::RTree;

/// All boundaries that truly contain the location: bounding-box pruning
/// through the tree, then the exact polygon test on each candidate.
/// Returns indices into the tree's boundary list, in traversal order.
pub fn boundaries(loc: Coord, tree: &RTree) -> (out: Vec<usize>)
    requires
        tree.wf(),
        loc.valid(),
    ensures
        out@ == tree.locate_spec(loc),
{
    tree.locate(loc)
}

} // verus!
