//! Penrose memory: an aperiodic memory palace whose cells are addressed by
//! golden-ratio hashing of lattice positions.
//!
//! This crate holds the integer logic of the palace (tile bookkeeping, the
//! Fibonacci-word tile bits, the 3-colouring, lifecycle transitions, Lamport
//! clocks, consolidation planning, the cut-and-project lattice walk and the
//! tensor layout of tiles) with its contracts proved by Verus.

pub mod clock;
pub mod compiler;
pub mod consolidation;
pub mod conservation;
pub mod cut_and_project;
pub mod golden;
pub mod lifecycle;
pub mod memory;
pub mod prediction;
pub mod tensor_tile;

pub use clock::LamportClock;
pub use lifecycle::TileLifecycle;
pub use memory::{Centroid, PenroseMemory, Tile};
