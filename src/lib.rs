//! Hierarchical range blocks over a byte buffer, their aggregates, and the
//! outlines of unions of range blocks.
use vstd::prelude::*;

pub mod range_blocks;
pub mod aggregate;
pub mod range_border;
pub mod outline;
pub mod view_modes;

verus! {

} // verus!
