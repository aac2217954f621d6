//! The Mandelbrot set: what is rendered, and pictures made pixel by pixel.
pub mod bench;
pub mod cpu;
pub mod view;
