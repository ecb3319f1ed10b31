//! Build planning for C++ projects that use modules: the manifest, the module
//! dependency graph, content hashes for caching, wave scheduling of
//! compilations, and the compiler and linker command lines.

pub mod cli;
pub mod commands;
pub mod config;
pub mod errors;
pub mod graph;
pub mod hashing;
pub mod plan;
pub mod scanner;
pub mod schedule;
pub mod text;
pub mod unit;
