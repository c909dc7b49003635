use file_tree::explorer::{is_valid_lisp_atom, ExplorerAction, ExplorerKey, FileExplorer};
use file_tree::fs::{DirEntry, FileSystem};
use file_tree::path::TreePath;
use file_tree::tree::ScanError;

fn path(parts: &[&str]) -> TreePath {
    TreePath { parts: parts.iter().map(|p| p.to_string()).collect() }
}

fn entry(name: &str, is_directory: bool) -> DirEntry {
    DirEntry { name: name.to_string(), is_directory }
}

fn sample_fs() -> FileSystem {
    let mut fs = FileSystem::new();
    fs.add_listing(
        path(&["root"]),
        vec![entry("b.txt", false), entry("a.txt", false), entry("sub", true)],
    );
    fs.add_listing(path(&["root", "sub"]), vec![entry("c.txt", false)]);
    fs
}

#[test]
fn panel_text_mirrors_the_tree() {
    let fs = sample_fs();
    let explorer = FileExplorer::new(&fs, &path(&["root"])).unwrap();
    assert_eq!(explorer.text, " - 📄  a.txt\n - 📄  b.txt\n - 📁  sub/ :");
}

#[test]
fn reveal_path_returns_the_line_of_the_revealed_entry() {
    let fs = sample_fs();
    let mut explorer = FileExplorer::new(&fs, &path(&["root"])).unwrap();
    let line = explorer.reveal_path(&fs, &path(&["root", "sub", "c.txt"]));
    assert_eq!(line, Some(3));
    assert!(explorer.text.contains("c.txt"));
    let line = explorer.reveal_path(&fs, &path(&["root", "gone.txt"]));
    assert_eq!(line, None);
}

#[test]
fn refresh_failure_retains_the_previous_state() {
    let fs = sample_fs();
    let mut explorer = FileExplorer::new(&fs, &path(&["root"])).unwrap();
    let before = explorer.text.clone();
    let empty = FileSystem::new();
    assert_eq!(explorer.refresh(&empty, &path(&["root"])), Err(ScanError::Unreadable));
    assert_eq!(explorer.text, before);
    assert!(explorer.refresh(&fs, &path(&["root"])).is_ok());
}

#[test]
fn enter_on_a_file_emits_an_open_intent() {
    let fs = sample_fs();
    let mut explorer = FileExplorer::new(&fs, &path(&["root"])).unwrap();
    match explorer.handle_key_event(&fs, ExplorerKey::Enter, 0) {
        ExplorerAction::OpenFile(p) => {
            assert_eq!(p.parts, vec!["root".to_string(), "a.txt".to_string()]);
        }
        _ => panic!("activating a file must emit an open intent"),
    }
}

#[test]
fn enter_on_a_directory_toggles_it_and_rerenders() {
    let fs = sample_fs();
    let mut explorer = FileExplorer::new(&fs, &path(&["root"])).unwrap();
    match explorer.handle_key_event(&fs, ExplorerKey::Enter, 2) {
        ExplorerAction::ToggledDirectory => {}
        _ => panic!("activating a directory must toggle it"),
    }
    assert_eq!(
        explorer.text,
        " - 📄  a.txt\n - 📄  b.txt\n - 📂  sub/ :\n   - 📄  c.txt"
    );
    match explorer.handle_key_event(&fs, ExplorerKey::Enter, 99) {
        ExplorerAction::Nothing => {}
        _ => panic!("a line past the end carries no node"),
    }
}

#[test]
fn space_requests_the_menu_for_the_current_node() {
    let fs = sample_fs();
    let mut explorer = FileExplorer::new(&fs, &path(&["root"])).unwrap();
    match explorer.handle_key_event(&fs, ExplorerKey::Space, 1) {
        ExplorerAction::ActionMenu(Some(p)) => {
            assert_eq!(p.parts, vec!["root".to_string(), "b.txt".to_string()]);
        }
        _ => panic!("space must request the menu with the node under the cursor"),
    }
    match explorer.handle_key_event(&fs, ExplorerKey::Space, 9) {
        ExplorerAction::ActionMenu(None) => {}
        _ => panic!("space with no node still requests the menu"),
    }
    match explorer.handle_key_event(&fs, ExplorerKey::Other, 0) {
        ExplorerAction::Forwarded => {}
        _ => panic!("other keys belong to the editor"),
    }
}

#[test]
fn get_current_node_resolves_the_cursor_line() {
    let fs = sample_fs();
    let explorer = FileExplorer::new(&fs, &path(&["root"])).unwrap();
    let node = explorer.get_current_node(2).unwrap();
    assert_eq!(node.name, "sub");
    assert!(explorer.get_current_node(3).is_none());
}

#[test]
fn lisp_atom_validity() {
    assert!(is_valid_lisp_atom("foo"));
    assert!(is_valid_lisp_atom("foo-bar42"));
    assert!(!is_valid_lisp_atom(""));
    assert!(!is_valid_lisp_atom("a b"));
    assert!(!is_valid_lisp_atom("a\tb"));
    assert!(!is_valid_lisp_atom("(a"));
    assert!(!is_valid_lisp_atom("a)"));
}
