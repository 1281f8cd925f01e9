//! A 2-D particle-fluid core: spatial indexes that answer radius queries over
//! a dynamic point set, and a simulation step that rebuilds an index each tick
//! and integrates particle motion against it.
//!
//! All geometry is carried in integer milli-units: one length unit of the
//! simulated domain is 1000 milli-units, so the classic constants (cell size
//! 10, interaction radius 20, nudge 0.001) stay exactly representable.

pub mod curves;
pub mod hash_grid;
pub mod hilbert_tree;
pub mod numeric;
pub mod particle;
pub mod quad_tree;
pub mod seq_facts;
pub mod v2;
