//! Verified core of `git sidecar`: remote-URL normalisation, lexical path
//! handling, the managed block of a repository's exclude file, the textual
//! editing of the per-repository config file, and the decisions the
//! commands take.

pub mod cli;
pub mod commands;
pub mod config;
pub mod exclude;
pub mod git;
pub mod layout;
pub mod order;
pub mod paths;
pub mod remote;
pub mod text;
