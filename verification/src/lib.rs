//! Reading HDF5 and netCDF-4 datasets through an index of their chunks.

pub mod extent;
pub mod filters;
pub mod idx;
pub mod layout;
pub mod names;
pub mod path;
pub mod python;
pub mod reader;
pub mod text;
