//! The index of a file: its groups, datasets and chunks.

pub mod any;
pub mod attributes;
pub mod dataset;
pub mod index;
pub mod serialized;
pub mod slices;

pub use any::DatasetD;
pub use attributes::{AttributeValue, Attributes, DatasetMeta};
pub use dataset::{Chunk, ChunkSlice, ChunkTable, Dataset, Datatype, Order};
pub use index::{GroupIndex, Index};
pub use serialized::SerializedIndex;
