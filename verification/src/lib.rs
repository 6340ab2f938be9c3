//! Procedural terrain generation and hydraulic-erosion simulation.
//!
//! The pipeline: continent shapes are laid down by bounded random walks,
//! cleaned up by an iterative flood-fill smoother, combined with a coherent
//! noise contribution into a fixed-point height field, and then eroded by
//! repeated droplet passes that spread their effect through precomputed
//! weighted brushes.

use vstd::prelude::*;

pub mod app;
pub mod brush;
pub mod continent;
pub mod erosion;
pub mod fixedp;
pub mod map;
pub mod randoms;
pub mod smoother;
pub mod update_thread;
pub mod util;
pub mod world;
pub mod worldgen;

verus! {

/// Fixed-point scale: heights are stored as `round(real_height * 1_000_000)`.
pub const HEIGHT_SCALE: i32 = 1_000_000;

} // verus!
