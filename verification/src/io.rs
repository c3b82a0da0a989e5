//! Input and output: completions, the classes of platform operations, and the order in which
//! operations on the same files run.
pub mod completion;
pub mod control;
pub mod disk;
pub mod driver;
pub mod exclusion;
pub mod matrix;
pub mod path;
pub mod plan;
pub mod resources;
pub mod running;
pub mod scheduler;
pub mod task;
