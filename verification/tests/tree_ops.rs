use file_tree::fs::{DirEntry, FileSystem};
use file_tree::tree::Node;
use file_tree::path::TreePath;
use file_tree::tree::{NodeKind, OpenChange, ScanError, Tree};

fn path(parts: &[&str]) -> TreePath {
    TreePath { parts: parts.iter().map(|p| p.to_string()).collect() }
}

fn entry(name: &str, is_directory: bool) -> DirEntry {
    DirEntry { name: name.to_string(), is_directory }
}

fn sample_fs() -> FileSystem {
    let mut fs = FileSystem::new();
    fs.add_listing(
        path(&["root"]),
        vec![entry("b.txt", false), entry("a.txt", false), entry("sub", true)],
    );
    fs.add_listing(path(&["root", "sub"]), vec![entry("c.txt", false)]);
    fs
}

#[test]
fn new_sorts_siblings_by_name() {
    let fs = sample_fs();
    let tree = Tree::new(&fs, &path(&["root"])).unwrap();
    let names: Vec<String> = tree.nodes.iter().map(|n| n.name.clone()).collect();
    assert_eq!(names, vec!["a.txt".to_string(), "b.txt".to_string(), "sub".to_string()]);
}

#[test]
fn new_fails_only_for_an_unreadable_target() {
    let fs = sample_fs();
    assert_eq!(Tree::new(&fs, &path(&["missing"])).err(), Some(ScanError::Unreadable));
    assert!(Tree::new(&fs, &path(&["root"])).is_ok());
}

#[test]
fn end_to_end_render_toggle_and_indices() {
    let fs = sample_fs();
    let tree = Tree::new(&fs, &path(&["root"])).unwrap();
    assert_eq!(tree.render(), " - 📄  a.txt\n - 📄  b.txt\n - 📁  sub/ :");

    let tree = tree.toggle(&fs, &path(&["root", "sub"]), OpenChange::SetOpen);
    assert_eq!(
        tree.render(),
        " - 📄  a.txt\n - 📄  b.txt\n - 📂  sub/ :\n   - 📄  c.txt"
    );
    assert_eq!(tree.find_index(&path(&["root", "sub"])), Some(2));
    assert_eq!(tree.find_index(&path(&["root", "sub", "c.txt"])), Some(3));
    let node = tree.get(3).unwrap();
    assert_eq!(node.name, "c.txt");
    assert_eq!(
        node.path.parts,
        vec!["root".to_string(), "sub".to_string(), "c.txt".to_string()]
    );
}

#[test]
fn sorting_survives_toggle_and_refresh() {
    let fs = sample_fs();
    let tree = Tree::new(&fs, &path(&["root"])).unwrap();
    let tree = tree.toggle(&fs, &path(&["root", "sub"]), OpenChange::SetOpen);
    let names: Vec<String> = tree.nodes.iter().map(|n| n.name.clone()).collect();
    assert_eq!(names, vec!["a.txt".to_string(), "b.txt".to_string(), "sub".to_string()]);
    let tree = tree.refresh(&fs, &path(&["root"])).unwrap();
    let names: Vec<String> = tree.nodes.iter().map(|n| n.name.clone()).collect();
    assert_eq!(names, vec!["a.txt".to_string(), "b.txt".to_string(), "sub".to_string()]);
}

#[test]
fn visible_index_consistency_for_hidden_and_shown_paths() {
    let fs = sample_fs();
    let tree = Tree::new(&fs, &path(&["root"])).unwrap();
    // sub is closed, so c.txt is hidden behind it
    assert_eq!(tree.find_index(&path(&["root", "sub", "c.txt"])), None);
    let i = tree.find_index(&path(&["root", "b.txt"])).unwrap();
    let node = tree.get(i).unwrap();
    assert_eq!(node.path.parts, vec!["root".to_string(), "b.txt".to_string()]);
    assert!(tree.get(3).is_none());
}

#[test]
fn reveal_is_idempotent_for_rendering_and_visible_nodes() {
    let fs = sample_fs();
    let target = path(&["root", "sub", "c.txt"]);
    let tree = Tree::new(&fs, &path(&["root"])).unwrap();
    let once = Tree::reveal_path(tree, &fs, &target);
    let render_once = once.render();
    let visible_once: Vec<Vec<String>> = once
        .visible_nodes()
        .iter()
        .map(|n| n.path.parts.clone())
        .collect();
    let twice = Tree::reveal_path(once, &fs, &target);
    assert_eq!(twice.render(), render_once);
    let visible_twice: Vec<Vec<String>> = twice
        .visible_nodes()
        .iter()
        .map(|n| n.path.parts.clone())
        .collect();
    assert_eq!(visible_twice, visible_once);
}

#[test]
fn refresh_preserves_expansion_state() {
    let mut fs = FileSystem::new();
    fs.add_listing(path(&["root"]), vec![entry("alpha", true), entry("corner", true)]);
    fs.add_listing(path(&["root", "alpha"]), vec![entry("beta", true)]);
    fs.add_listing(path(&["root", "alpha", "beta"]), vec![]);
    fs.add_listing(path(&["root", "corner"]), vec![entry("d.txt", false)]);

    let tree = Tree::new(&fs, &path(&["root"])).unwrap();
    // open alpha and alpha/beta; corner stays closed
    let tree = Tree::reveal_path(tree, &fs, &path(&["root", "alpha", "beta"]));
    let expected = " - 📂  alpha/ :\n   - 📂  beta/ :\n - 📁  corner/ :";
    assert_eq!(tree.render(), expected);

    let tree = tree.refresh(&fs, &path(&["root"])).unwrap();
    assert_eq!(tree.render(), expected);
}

#[test]
fn refresh_drops_entries_deleted_on_disk() {
    let fs = sample_fs();
    let tree = Tree::new(&fs, &path(&["root"])).unwrap();
    let tree = tree.toggle(&fs, &path(&["root", "sub"]), OpenChange::SetOpen);
    assert!(tree.render().contains("c.txt"));

    // c.txt vanishes from disk between the scan and the refresh
    let mut fs2 = FileSystem::new();
    fs2.add_listing(
        path(&["root"]),
        vec![entry("b.txt", false), entry("a.txt", false), entry("sub", true)],
    );
    fs2.add_listing(path(&["root", "sub"]), vec![]);

    let tree = tree.refresh(&fs2, &path(&["root"])).unwrap();
    assert_eq!(tree.render(), " - 📄  a.txt\n - 📄  b.txt\n - 📂  sub/ :");
}

#[test]
fn toggle_flip_closes_an_open_directory_but_keeps_its_children_cached() {
    let fs = sample_fs();
    let tree = Tree::new(&fs, &path(&["root"])).unwrap();
    let tree = tree.toggle(&fs, &path(&["root", "sub"]), OpenChange::Flip);
    assert!(tree.render().contains("c.txt"));
    let tree = tree.toggle(&fs, &path(&["root", "sub"]), OpenChange::Flip);
    assert!(!tree.render().contains("c.txt"));
    // the cache is retained even while closed
    let sub = tree.get(2).unwrap();
    match &sub.kind {
        NodeKind::Directory { open, children } => {
            assert!(!open);
            assert!(children.is_some());
        }
        NodeKind::File => panic!("sub must be a directory"),
    }
}

#[test]
fn unreadable_child_directory_is_skipped_not_fatal() {
    // root/sub has no listing: populating it fails silently, root still works
    let mut fs = FileSystem::new();
    fs.add_listing(path(&["root"]), vec![entry("sub", true), entry("a.txt", false)]);
    let tree = Tree::new(&fs, &path(&["root"])).unwrap();
    let tree = tree.toggle(&fs, &path(&["root", "sub"]), OpenChange::SetOpen);
    assert_eq!(tree.render(), " - 📄  a.txt\n - 📂  sub/ :");
    let sub = tree.get(1).unwrap();
    match &sub.kind {
        NodeKind::Directory { open, children } => {
            assert!(open);
            assert!(children.is_none());
        }
        NodeKind::File => panic!("sub must be a directory"),
    }
}

#[test]
fn node_refresh_rescans_only_populated_children() {
    let fs = sample_fs();
    let sub_path = path(&["root", "sub"]);
    let populated = Node {
        name: "sub".to_string(),
        path: path(&["root", "sub"]),
        kind: NodeKind::Directory {
            open: true,
            children: Some(Tree::new(&fs, &sub_path).unwrap()),
        },
    };
    // a populated directory is re-scanned; the scan fails against an empty
    // snapshot, so the cache is dropped
    let empty_fs = FileSystem::new();
    let refreshed = populated.refresh(&empty_fs);
    match refreshed.kind {
        NodeKind::Directory { open, children } => {
            assert!(open);
            assert!(children.is_none());
        }
        NodeKind::File => panic!("sub must be a directory"),
    }

    let never_populated = Node {
        name: "sub".to_string(),
        path: path(&["root", "sub"]),
        kind: NodeKind::Directory { open: false, children: None },
    };
    let refreshed = never_populated.refresh(&fs);
    match refreshed.kind {
        NodeKind::Directory { children, .. } => assert!(children.is_none()),
        NodeKind::File => panic!("sub must be a directory"),
    }
}
