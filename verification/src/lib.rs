//! The integer side of a small rigid-ball simulation: the spatial grid of the
//! broad phase and the choice of colliding pairs, the camera controls, the
//! spawn key and the start-up lattice, and the merging of mesh index lists.
use vstd::prelude::*;

pub mod grid;
pub mod world;
pub mod input;
pub mod scene;
pub mod mesh;
