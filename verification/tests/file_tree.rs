use std::path::PathBuf;

use file_tree::shard;
use file_tree::{FileTree, IoError};

#[test]
fn file_tree_basic() {
    let mut ft = FileTree::new(false).unwrap();
    let path = ft.get_new_file().unwrap();
    let pb = PathBuf::from(&path);
    assert_eq!(pb.file_name().unwrap(), "000000000000");
    assert_eq!(
        PathBuf::from(ft.get_new_file().unwrap()).file_name().unwrap(),
        "000000000001"
    );

    let tail = PathBuf::from("000/000/000/000000000000");
    assert!(pb.ends_with(tail));
}

#[test]
fn new_dir() {
    let mut ft = FileTree::new(false).unwrap();
    let mut p = String::new();
    for _ in 0..1001 {
        p = ft.get_new_file().unwrap();
    }
    assert!(PathBuf::from(p).ends_with(PathBuf::from("000/000/001/000000001000")));
}

#[test]
fn sequential_from_existing_counts_from_zero() {
    let mut ft = FileTree::from_existing(String::from("base"));
    let p0 = ft.get_new_file().unwrap();
    let p1 = ft.get_new_file().unwrap();
    assert_eq!(p0, "base/000/000/000/000000000000");
    assert_eq!(p1, "base/000/000/000/000000000001");
}

#[test]
fn get_root_reports_given_path() {
    let ft = FileTree::from_existing(String::from("alpha/beta"));
    assert_eq!(ft.get_root(), "alpha/beta");
    let ft2 = FileTree::new_in(String::from("gamma"), true).unwrap();
    assert_eq!(ft2.get_root(), "gamma");
}

#[test]
fn error_when_base_is_missing() {
    let r = FileTree::new_in(String::from("/nonexistent_file_tree_base_a7c1/x"), false);
    assert!(matches!(r, Err(IoError::Os(_))));
}

#[test]
fn persistent_default_root_has_unique_name() {
    let ft = FileTree::new(true).unwrap();
    let root = ft.get_root();
    let pb = PathBuf::from(&root);
    let name = pb.file_name().unwrap().to_str().unwrap();
    // the hyphenated rendering of a UUID
    assert_eq!(name.len(), 36);
}

#[test]
fn temporary_root_uses_prefix() {
    let ft = FileTree::new(false).unwrap();
    let root = ft.get_root();
    let pb = PathBuf::from(&root);
    let name = pb.file_name().unwrap().to_str().unwrap().to_string();
    // the fixed tag, a dot, and a 12-character random suffix
    assert!(name.starts_with("file_tree."));
    assert_eq!(name.len(), "file_tree".len() + 13);
}

#[test]
fn temporary_root_in_given_base() {
    let outer = FileTree::new(false).unwrap();
    let base = outer.get_root();
    let ft = FileTree::new_in(base.clone(), false).unwrap();
    let root = ft.get_root();
    assert!(root.starts_with(&format!("{}/file_tree.", base)));
    assert_eq!(root.len(), base.len() + 1 + "file_tree".len() + 13);
}

#[test]
fn shard_encoding_formula() {
    assert_eq!(shard::leaf_name_of(0), "000000000000");
    assert_eq!(shard::leaf_name_of(1), "000000000001");
    assert_eq!(shard::leaf_name_of(1000), "000000001000");
    assert_eq!(shard::rel_path_of(0), "000/000/000/000000000000");
    assert_eq!(shard::rel_path_of(1000), "000/000/001/000000001000");
    assert_eq!(shard::rel_path_of(999_999_999_999), "999/999/999/999999999999");
    assert_eq!(
        shard::slot_path_of(&String::from("r"), 123_456_789_012),
        "r/123/456/789/123456789012"
    );
}
