//! A verified spatial-influence engine for a 2D tile map.
//!
//! The crate models a rectangular grid of terrain tiles with an optional
//! resource overlay, a registry of competing empires, and three weighted
//! shortest-path algorithms over the grid: initial territory claiming from a
//! capital, an arbitrary single-source distance field for visualization, and
//! simultaneous competitive frontier growth. It also renders the logical
//! state into packed-color pixel buffers and supports disc-shaped brush
//! edits, all with machine-checked contracts.

pub mod brush;
pub mod empire;
pub mod influence;
pub mod text;
pub mod world;
pub mod queue;
pub mod render;
pub mod resource;
pub mod terrain;
