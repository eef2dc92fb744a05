//! Wave-function-collapse tile map generation: a tile catalog, an adjacency
//! model learned from a sample grid, the superposition wave, constraint
//! propagation, the collapsing solver, and the editable map the samples are
//! drawn on.

pub mod tile;
pub mod catalog;
pub mod adjacency;
pub mod wave;
pub mod propagate;
pub mod collapse;
pub mod editor;
