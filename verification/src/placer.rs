//! The placer, which gives the final coordinates to the elements of a
//! lowered graph.

use vstd::prelude::*;
use crate::layout::VisualGraph;

verus! {

/// Holds the graph whose elements are being placed.
#[derive(Debug)]
pub struct Placer<'a> {
    pub vg: &'a mut VisualGraph,
}

impl<'a> Placer<'a> {
    pub fn new(vg: &'a mut VisualGraph) -> (r: Self)
        ensures
            *r.vg == *old(vg),
            *final(vg) == *final(r.vg),
    {
        Placer { vg }
    }
}

} // verus!
