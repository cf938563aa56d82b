//! A declarative 2D layout and animation engine.
//!
//! Layouts are trees of nodes authored in a resolution-independent
//! coordinate space. They are spawned into an arena of live nodes whose
//! transforms and paint order are derived from their declared geometry, and
//! animated by keyframes grouped into typed channels and remapped by easing
//! curves.
use vstd::prelude::*;

pub mod fixed;
pub mod curve;
pub mod playback;
pub mod animation;
pub mod geometry;
pub mod layout;
pub mod scene;
pub mod registry;
pub mod helpers;
pub mod builtin;
pub mod pending;
pub mod engine;

verus! {

} // verus!
