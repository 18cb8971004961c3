//! Broad-phase collision detection over axis-aligned bounding boxes.
//!
//! Boxes live on an integer lattice: callers that work with real-valued
//! geometry round every box outwards onto the lattice, so that any two
//! bodies that touch have lattice boxes that overlap. On those boxes the
//! library builds a bounding-volume hierarchy by spatial-median splits and
//! enumerates every candidate pair of bodies whose boxes overlap, serially
//! or on a work-stealing thread pool.
pub mod aabb;
pub mod structs;
pub mod srl_bvh;
pub mod broad;
pub mod par_bvh;
pub mod pipeline;
