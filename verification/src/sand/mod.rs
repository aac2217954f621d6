//! Falling sand: a block cellular automaton in which cells move.
pub mod canvas;
pub mod check;
pub mod cpu;
pub mod gpu;
pub mod laws;
pub mod rules;
pub mod session;
pub mod world;
