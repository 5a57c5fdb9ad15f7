//! Durable changes to files: what to do, in which order, and what failures mean.

pub mod directory;
pub mod path;
pub mod plan;
pub mod pool;
pub mod read;
pub mod scan;
