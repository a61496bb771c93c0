//! Entropy-guided constraint propagation on a two-dimensional grid.
//!
//! Every cell of the grid carries a wave, one weight per base state. The
//! engine repeatedly picks the undecided cell of least entropy, resolves it to
//! its heaviest state, and removes from the surrounding cells every state that
//! may not stand next to the chosen one.
//!
//! Weights and entropies are fixed-point numbers: the integer `w` stands for
//! the real number `w / UNIT`.

pub mod color;
pub mod roots;
pub mod weight;
pub mod error;
pub mod random;
pub mod wave;
pub mod adjacency;
pub mod grid;
pub mod engine;
pub mod model;
pub mod render;
pub mod tiles;
pub mod laws;
