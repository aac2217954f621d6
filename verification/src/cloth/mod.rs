//! Cloth: a grid of particles held together by links that are solved batch by
//! batch.
pub mod cpu;
pub mod draw;
pub mod gpu;
pub mod raster;
pub mod rules;
pub mod session;
pub mod stretch;
pub mod world;
