//! Finding Rust projects under a directory and cleaning their Cargo build
//! artifacts: the decisions, orderings, text layouts and bookkeeping of the
//! tool, each stated as a contract and proved.

pub mod text;
pub mod format;
pub mod paths;
pub mod scan;
pub mod ui;
pub mod cleaner;
pub mod report;
