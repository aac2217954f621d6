//! Conway's Game of Life on a torus.
pub mod cpu;
pub mod gpu;
pub mod layout;
pub mod session;
pub mod view;
