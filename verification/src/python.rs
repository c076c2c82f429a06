//! What the Python wrappers of the library decide and compute.

pub mod attributes;
pub mod dataset;
pub mod fill;
pub mod index;
pub mod s3;
