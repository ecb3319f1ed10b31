//! Why a build stops, and the message shown for it.

use vstd::prelude::*;
use crate::text::prefixed;

verus! {

/// The ways a build or a compilation database export can fail.
pub enum BuildError {
    /// The manifest file could not be read.
    ManifestNotFound,
    /// The manifest is not valid; the parser's explanation.
    ManifestInvalid(String),
    /// The object directory could not be created; the system's explanation.
    ObjectDirFailed(String),
    /// No C++ source file was found.
    NoSources,
    /// The module imports form a cycle.
    CyclicDependency,
    /// Units remain and none of them can be compiled.
    Deadlock,
    /// The compiler could not be started; the system's explanation.
    CompilerSpawnFailed(String),
    /// The compiler reported an error on this source file.
    CompilationAborted(String),
    /// A compilation task panicked; its explanation.
    TaskPanicked(String),
    /// A target's main file is not among the sources.
    MainFileNotFound { path: String, target: String },
    /// The linker could not be started; the system's explanation.
    LinkerSpawnFailed(String),
    /// The linker reported an error on this target.
    LinkFailed(String),
    /// The compilation database could not be serialized; the serializer's explanation.
    CompdbSerializeFailed(String),
    /// The compilation database could not be written; the system's explanation.
    CompdbWriteFailed(String),
}

impl BuildError {
    /// The message shown to the user.
    pub open spec fn message_text(&self) -> Seq<char> {
        match self {
            BuildError::ManifestNotFound => "Configuration file (Crub.toml) not found."@,
            BuildError::ManifestInvalid(d) => "Failed to parse Crub.toml: "@ + d@,
            BuildError::ObjectDirFailed(d) => "Failed to create obj dir: "@ + d@,
            BuildError::NoSources => "No C++ source files found in the source directory."@,
            BuildError::CyclicDependency => "🔄 Cyclic dependency detected in your C++ modules!"@,
            BuildError::Deadlock => "Deadlock detected during parallel compilation!"@,
            BuildError::CompilerSpawnFailed(d) => "Failed to spawn compiler: "@ + d@,
            BuildError::CompilationAborted(p) => "Compilation aborted for "@ + p@,
            BuildError::TaskPanicked(d) => "Task panicked: "@ + d@,
            BuildError::MainFileNotFound { path, target } => "Main file '"@ + path@ + "' for target '"@
                + target@ + "' not found in source directory."@,
            BuildError::LinkerSpawnFailed(d) => d@,
            BuildError::LinkFailed(t) => "Failed to link target '"@ + t@ + "'"@,
            BuildError::CompdbSerializeFailed(d) => "Failed to serialize compile_commands.json: "@ + d@,
            BuildError::CompdbWriteFailed(d) => "Failed to write compile_commands.json: "@ + d@,
        }
    }

    /// The message shown to the user.
    pub fn message(&self) -> (m: String)
        ensures
            m@ == self.message_text(),
    {
        match self {
            BuildError::ManifestNotFound => String::from_str("Configuration file (Crub.toml) not found."),
            BuildError::ManifestInvalid(d) => prefixed("Failed to parse Crub.toml: ", d.as_str()),
            BuildError::ObjectDirFailed(d) => prefixed("Failed to create obj dir: ", d.as_str()),
            BuildError::NoSources => String::from_str("No C++ source files found in the source directory."),
            BuildError::CyclicDependency => String::from_str("🔄 Cyclic dependency detected in your C++ modules!"),
            BuildError::Deadlock => String::from_str("Deadlock detected during parallel compilation!"),
            BuildError::CompilerSpawnFailed(d) => prefixed("Failed to spawn compiler: ", d.as_str()),
            BuildError::CompilationAborted(p) => prefixed("Compilation aborted for ", p.as_str()),
            BuildError::TaskPanicked(d) => prefixed("Task panicked: ", d.as_str()),
            BuildError::MainFileNotFound { path, target } => {
                let mut m = prefixed("Main file '", path.as_str());
                m.append("' for target '");
                m.append(target.as_str());
                m.append("' not found in source directory.");
                m
            },
            BuildError::LinkerSpawnFailed(d) => String::from_str(d.as_str()),
            BuildError::LinkFailed(t) => {
                let mut m = prefixed("Failed to link target '", t.as_str());
                m.append("'");
                m
            },
            BuildError::CompdbSerializeFailed(d) => prefixed("Failed to serialize compile_commands.json: ", d.as_str()),
            BuildError::CompdbWriteFailed(d) => prefixed("Failed to write compile_commands.json: ", d.as_str()),
        }
    }
}

} // verus!
