//! Verified building blocks of the tileworld demos.
pub mod brush;
pub mod cloth;
pub mod filters;
pub mod grid;
pub mod input;
pub mod life;
pub mod light2d;
pub mod mandelbrot;
pub mod march;
pub mod parallel;
pub mod pixels;
pub mod random;
pub mod raymarch;
pub mod sand;
pub mod tiles;
