//! The disk: what is said to its controller, and how its first sector is
//! read.

pub mod ata;
pub mod fat16;
