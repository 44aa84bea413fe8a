//! Description of the structure of a ROOT tree.

use vstd::prelude::*;

verus! {

/// Metadata for a single TTree branch.
#[derive(Debug, Clone)]
pub struct BranchInfo {
    /// Branch name.
    pub name: String,
    /// C++ type name as reported by ROOT.
    pub cpp_type: String,
    /// Rust type interpretation.
    pub rust_type: String,
    /// Number of entries.
    pub entries: i64,
}

/// High-level description of a ROOT TTree.
#[derive(Debug, Clone)]
pub struct TreeInfo {
    /// Tree name.
    pub name: String,
    /// Total entries.
    pub entries: i64,
    /// All top-level branches.
    pub branches: Vec<BranchInfo>,
}

/// The description of the tree `tree_name`, read with `entries` entries and
/// the top-level branches `branches`, in the order the tree lists them.
pub fn tree_info(tree_name: &str, entries: i64, branches: Vec<BranchInfo>) -> (info: TreeInfo)
    ensures
        info.name@ == tree_name@,
        info.entries == entries,
        info.branches@ == branches@,
{
    TreeInfo { name: tree_name.to_owned(), entries, branches }
}

} // verus!
