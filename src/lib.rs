//! Content-addressed file storage: block naming and collision chains, the
//! streaming slicer's chunk arithmetic, name validation, and the directory
//! listing rules of the metadata tree, all with verified contracts.

pub mod digest;
pub mod error;
pub mod ingest;
pub mod listing;
pub mod lock;
pub mod model;
pub mod naming;
pub mod path_utils;
pub mod pool;
pub mod slicer;
pub mod store;
mod text;

pub use error::MetadataError;
