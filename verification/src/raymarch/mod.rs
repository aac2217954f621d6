//! The ray marcher: parameter block, quality levels, window session, and how two
//! pictures are compared.
pub mod diff;
pub mod scene;
pub mod session;
