//! A translation unit: one C++ source file as the build sees it.

use vstd::prelude::*;

verus! {

/// One C++ source file: where it is, the module it exports (if any), the
/// modules it imports, and the hash of its own contents.
#[derive(Clone, Debug)]
pub struct TranslationUnit {
    pub path: String,
    pub exported_module: Option<String>,
    pub imports: Vec<String>,
    pub base_hash: Vec<u8>,
}

impl TranslationUnit {
    /// The imported module names as character sequences.
    pub open spec fn import_names(self) -> Seq<Seq<char>> {
        self.imports@.map_values(|s: String| s@)
    }

    /// Whether this unit exports the module called `name`.
    pub open spec fn exports(self, name: Seq<char>) -> bool {
        self.exported_module matches Some(m) && m@ == name
    }
}

} // verus!
