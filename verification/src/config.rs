//! The project manifest (`Crub.toml`): the package settings and the binaries to link.

use vstd::prelude::*;

verus! {

/// The `[package]` table: the compiler and how to call it, and where sources
/// and build outputs live.
#[derive(Clone, Debug)]
pub struct Package {
    pub version: Option<String>,
    pub compiler: String,
    pub standard: String,
    pub source_dir: String,
    pub out_dir: String,
    pub flags: Vec<String>,
    pub include_dirs: Vec<String>,
    pub lib_dirs: Vec<String>,
    pub libs: Vec<String>,
}

/// One `[[bin]]` entry: the executable's name and its main source file.
#[derive(Clone, Debug)]
pub struct BinTarget {
    pub name: String,
    pub path: String,
}

/// The whole manifest.
#[derive(Clone, Debug)]
pub struct Manifest {
    pub package: Package,
    pub bin: Vec<BinTarget>,
}

} // verus!
