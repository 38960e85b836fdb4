//! Procedural voxel-world content synthesis.
//!
//! Three verified components: a chunk/cell voxel model populated by a
//! noise-driven terrain generator, a decoration pass layered on top of it,
//! and a Wave-Function-Collapse constraint solver that assigns tile
//! patterns to a 3D lattice under socket-adjacency constraints.
//!
//! Noise fields are sampled by the surrounding application (fractional
//! Brownian motion over a coherent-noise primitive) and handed in as
//! fixed-point integers in thousandths; everything downstream of the
//! samples is verified integer logic.

pub mod noisefield;
pub mod randhash;
pub mod vox;
pub mod wfc;
pub mod worldgen;

use vstd::prelude::*;

verus! {

} // verus!
