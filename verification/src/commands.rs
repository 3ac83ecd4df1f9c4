//! The decisions each subcommand takes; running git and touching files is
//! left to the caller.

pub mod clone;
pub mod list;
pub mod passthrough;
pub mod remove;
pub mod sync;
