//! Tree descriptions of ROOT files written with oxyroot.

use std::path::{Path, PathBuf};

use oxyroot::{RootFile, WriterTree};
use root_vortex::info::{tree_info, BranchInfo, TreeInfo};
use tempfile::TempDir;

/// Writes the fixture with three branches `x`, `y`, `z` of three entries.
fn write_primitives(path: &Path) -> anyhow::Result<()> {
    let mut file = RootFile::create(path)?;
    let mut tree = WriterTree::new("tree");
    tree.new_branch("x", vec![1_i32, 2, 3].into_iter());
    tree.new_branch("y", vec![1.5_f64, 2.5, 3.5].into_iter());
    tree.new_branch("z", vec![10_i64, 20, 30].into_iter());
    tree.write(&mut file)?;
    file.close()?;
    Ok(())
}

/// Writes the fixture with two vector branches of three entries.
fn write_vectors(path: &Path) -> anyhow::Result<()> {
    let mut file = RootFile::create(path)?;
    let mut tree = WriterTree::new("tree");
    tree.new_branch(
        "vector_i32",
        vec![vec![1_i32], vec![1, 2], vec![1, 2, 3]].into_iter(),
    );
    tree.new_branch(
        "vector_f32",
        vec![vec![1.0_f32], vec![1.0, 2.0], vec![]].into_iter(),
    );
    tree.write(&mut file)?;
    file.close()?;
    Ok(())
}

/// Reads the tree `tree_name` of the file at `path` and describes it.
fn describe(path: &Path, tree_name: &str) -> anyhow::Result<TreeInfo> {
    let mut root_file = RootFile::open(path)?;
    let tree = root_file.get_tree(tree_name)?;
    let branches: Vec<BranchInfo> = tree
        .branches()
        .map(|b| BranchInfo {
            name: b.name().to_string(),
            cpp_type: b.item_type_name(),
            rust_type: b.interpretation(),
            entries: b.entries(),
        })
        .collect();
    Ok(tree_info(tree_name, tree.entries(), branches))
}

fn fixture_path(dir: &TempDir, name: &str) -> PathBuf {
    dir.path().join(name)
}

#[test]
fn test_tree_info_basic() -> anyhow::Result<()> {
    let dir = TempDir::new()?;
    let path = fixture_path(&dir, "primitives.root");
    write_primitives(&path)?;

    let info = describe(&path, "tree")?;
    assert_eq!(info.name, "tree");
    assert_eq!(info.entries, 3);
    assert_eq!(info.branches.len(), 3);

    let names: Vec<_> = info.branches.iter().map(|b| b.name.as_str()).collect();
    assert!(names.contains(&"x"));
    assert!(names.contains(&"y"));
    assert!(names.contains(&"z"));

    Ok(())
}

#[test]
fn test_tree_info_vectors() -> anyhow::Result<()> {
    let dir = TempDir::new()?;
    let path = fixture_path(&dir, "vectors.root");
    write_vectors(&path)?;

    let info = describe(&path, "tree")?;
    assert_eq!(info.entries, 3);
    assert_eq!(info.branches.len(), 2);

    let vector_i32 = info
        .branches
        .iter()
        .find(|branch| branch.name == "vector_i32")
        .expect("vector_i32 branch");
    assert_eq!(vector_i32.rust_type, "Vec<i32>");

    let vector_f32 = info
        .branches
        .iter()
        .find(|branch| branch.name == "vector_f32")
        .expect("vector_f32 branch");
    assert_eq!(vector_f32.rust_type, "Vec<f32>");

    Ok(())
}

#[test]
fn tree_info_keeps_name_entries_and_branches() {
    let branches = vec![
        BranchInfo {
            name: "a".to_string(),
            cpp_type: "int32_t".to_string(),
            rust_type: "i32".to_string(),
            entries: 7,
        },
        BranchInfo {
            name: "b".to_string(),
            cpp_type: "double".to_string(),
            rust_type: "f64".to_string(),
            entries: 7,
        },
    ];
    let info = tree_info("events", 7, branches);
    assert_eq!(info.name, "events");
    assert_eq!(info.entries, 7);
    assert_eq!(info.branches.len(), 2);
    assert_eq!(info.branches[0].name, "a");
    assert_eq!(info.branches[1].cpp_type, "double");
    assert_eq!(info.branches[1].rust_type, "f64");
}

#[test]
fn tree_info_of_empty_tree() {
    let info = tree_info("empty", 0, Vec::new());
    assert_eq!(info.name, "empty");
    assert_eq!(info.entries, 0);
    assert!(info.branches.is_empty());
}

#[test]
fn fixtures_plan_all_branches() -> anyhow::Result<()> {
    let dir = TempDir::new()?;
    let path = fixture_path(&dir, "vectors.root");
    write_vectors(&path)?;
    let info = describe(&path, "tree")?;
    let plan = match root_vortex::plan_conversion("tree", info.entries, &info.branches) {
        Ok(plan) => plan,
        Err(e) => panic!("unexpected error: {:?}", e),
    };
    assert_eq!(plan.summary.entries, 3);
    assert_eq!(plan.summary.columns_written, 2);
    assert!(plan.summary.columns_skipped.is_empty());
    Ok(())
}
