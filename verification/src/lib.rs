use vstd::prelude::*;

pub mod seqs;
pub mod base;
pub mod handles;
pub mod unit_map;
pub mod rank;
pub mod dag;
pub mod reach;
pub mod toposort;
pub mod topo_order;
pub mod levels;
pub mod level_order;
pub mod sums;
pub mod crossing;
pub mod inter;
pub mod optimizer;
pub mod layout;
pub mod placement;
pub mod lowering;
pub mod placer;

verus! {
} // verus!
