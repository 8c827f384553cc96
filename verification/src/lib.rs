//! A sparse, unbounded Conway's Game of Life engine.
//!
//! The engine owns the coordinate model, the sparse live/frontier store, the
//! generation-advance algorithm, and the text-based configuration parser.
//! Windowing and rendering are collaborators that only read coordinates.

pub mod laws;
pub mod life;
pub mod view;
