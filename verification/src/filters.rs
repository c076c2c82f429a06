//! The filters that chunks pass through when they are written.

pub mod byteorder;
pub mod gzip;
pub mod shuffle;
