//! Fixed-point simulation of circular cells drifting in a flow field inside a
//! bounded arena, with spatial-index accelerated collision resolution.
pub mod geometry;
pub mod cell;
pub mod spatial;
pub mod collision;
pub mod habitat;
