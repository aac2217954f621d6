//! 2D lighting: a jump-flooded distance field over a painted scene.
pub mod check;
pub mod cpu;
pub mod exact;
pub mod gpu;
pub mod laws;
pub mod layout;
pub mod ray;
pub mod rules;
pub mod scene;
pub mod session;
pub mod view;
