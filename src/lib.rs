//! Stitching of level-local node chains into a single Hamiltonian cycle over a
//! three-dimensional lattice: loom assembly, cycle weaving, and the shared
//! cycle abstraction.
use vstd::prelude::*;

pub mod cycle;
pub mod loom;
pub mod translate;
pub mod weave;

verus! {

} // verus!
