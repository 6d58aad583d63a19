//! Core model of a plank-cutting puzzle: polyomino coordinate sets, seeded
//! procedural generation of holes and planks, interactive cut splitting with
//! flood-fill connectivity analysis, and a linear undo/redo history.
#![verifier::loop_isolation(false)]

pub mod connect;
pub mod control;
pub mod coord;
pub mod coordset;
pub mod cut;
pub mod gen;
pub mod history;
pub mod level;
pub mod rng;

pub use coord::{neighbours, Coord};
pub use coordset::CoordSet;
