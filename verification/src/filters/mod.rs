//! An image filter chain: grayscale, a separable 5x5 blur, and Sobel edges.
pub mod cpu;
pub mod dims;
pub mod gpu;
pub mod laws;
pub mod scene;
