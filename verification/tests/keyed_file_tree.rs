use std::path::Path;

use file_tree::KeyedFileTree;

#[test]
fn keyed_file_tree_basic() {
    let mut ft = KeyedFileTree::new(false).unwrap();
    let path = ft.get(String::from("key1")).unwrap();
    assert!(!Path::new(&path).exists());
}

#[test]
fn dup_key() {
    let mut ft = KeyedFileTree::new(false).unwrap();

    let mut path = None;
    for _ in 0..10 {
        let new_p = ft.get(String::from("key1")).unwrap();
        if path.is_none() {
            path = Some(new_p);
            continue;
        }
        assert_eq!(new_p, path.unwrap());
        path = Some(new_p);
    }
}

#[test]
fn new_key() {
    let mut ft = KeyedFileTree::new(false).unwrap();
    let path1 = ft.get(String::from("key1")).unwrap();
    let path2 = ft.get(String::from("key1")).unwrap();
    let path3 = ft.get(String::from("key2")).unwrap();
    assert_eq!(path1, path2);
    assert_ne!(path1, path3);
}

#[test]
fn keyed_from_existing_restores_mapping() {
    let mut ft = KeyedFileTree::new(true).unwrap();
    let p1 = ft.get(String::from("key1")).unwrap();
    let root = ft.get_root();
    let map = ft.get_existing_files();
    assert_eq!(map.len(), 1);
    assert_eq!(map[0].0, "key1");
    assert_eq!(map[0].1, p1);

    let mut ft2 = KeyedFileTree::from_existing(root, map);
    let p2 = ft2.get(String::from("key1")).unwrap();
    assert_eq!(p1, p2);
}

#[test]
fn existing_files_empty_on_fresh_tree() {
    let ft = KeyedFileTree::new(false).unwrap();
    assert!(ft.get_existing_files().is_empty());
}

#[test]
fn keyed_root_reports_given_path() {
    let ft = KeyedFileTree::new_in(String::from("delta"), true).unwrap();
    assert_eq!(ft.get_root(), "delta");
}
