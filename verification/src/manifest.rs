//! The durable description of a database: its buckets, tables and counters.
pub mod decode;
pub mod edits;
pub mod effects;
pub mod encode;
pub mod faults;
pub mod object;
pub mod state;
pub mod store;
