//! Log-structured merge tree of one bucket.
pub mod batch;
pub mod conflict;
pub mod delta;
pub mod flush;
pub mod isolation;
pub mod lifecycle;
pub mod read;
pub mod scan;
pub mod sources;
pub mod tree;
pub mod version;
