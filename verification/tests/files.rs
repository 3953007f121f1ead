use sourcegen::{list_rust_files, name_is_hidden, Entry, EntryKind, Walk};
use std::path::PathBuf;

fn entry(path: &str, kind: EntryKind) -> Entry {
    let path = PathBuf::from(path);
    let name = path.file_name().unwrap().to_str().unwrap().to_string();
    Entry { path, name, kind }
}

fn paths(entries: &[Entry]) -> Vec<PathBuf> {
    entries.iter().map(|e| e.path.clone()).collect()
}

#[test]
fn hidden_directory_is_never_read() {
    let mut walk = Walk::new(PathBuf::from("root"));
    assert_eq!(walk.next_dir(), Some(PathBuf::from("root")));
    walk.visit(vec![entry("root/.git", EntryKind::Dir), entry("root/bar.rs", EntryKind::File)]);
    assert_eq!(walk.next_dir(), None);
    let found = list_rust_files(walk.found);
    assert_eq!(paths(&found), vec![PathBuf::from("root/bar.rs")]);
}

#[test]
fn hidden_files_are_not_listed() {
    let mut walk = Walk::new(PathBuf::from("d"));
    walk.next_dir();
    walk.visit(vec![
        entry("d/.hidden.rs", EntryKind::File),
        entry("d/seen.rs", EntryKind::File),
        entry("d/.cache", EntryKind::Other),
    ]);
    assert_eq!(paths(&walk.found), vec![PathBuf::from("d/seen.rs")]);
    assert!(walk.work.is_empty());
}

#[test]
fn directories_are_read_last_added_first() {
    let mut walk = Walk::new(PathBuf::from("r"));
    assert_eq!(walk.next_dir(), Some(PathBuf::from("r")));
    walk.visit(vec![
        entry("r/a", EntryKind::Dir),
        entry("r/x.rs", EntryKind::File),
        entry("r/b", EntryKind::Dir),
        entry("r/link", EntryKind::Other),
    ]);
    assert_eq!(walk.work, vec![PathBuf::from("r/a"), PathBuf::from("r/b")]);
    assert_eq!(walk.next_dir(), Some(PathBuf::from("r/b")));
    walk.visit(vec![entry("r/b/c", EntryKind::Dir), entry("r/b/y.txt", EntryKind::File)]);
    assert_eq!(walk.next_dir(), Some(PathBuf::from("r/b/c")));
    walk.visit(Vec::new());
    assert_eq!(walk.next_dir(), Some(PathBuf::from("r/a")));
    walk.visit(vec![entry("r/a/z.rs", EntryKind::File)]);
    assert_eq!(walk.next_dir(), None);
    assert_eq!(walk.next_dir(), None);
    assert_eq!(
        paths(&walk.found),
        vec![PathBuf::from("r/x.rs"), PathBuf::from("r/b/y.txt"), PathBuf::from("r/a/z.rs")]
    );
    let rust = list_rust_files(walk.found);
    assert_eq!(paths(&rust), vec![PathBuf::from("r/x.rs"), PathBuf::from("r/a/z.rs")]);
}

#[test]
fn rust_files_end_in_dot_rs() {
    let files = vec![
        entry("a.rs", EntryKind::File),
        entry("b.rsx", EntryKind::File),
        entry("rs", EntryKind::File),
        entry("c.RS", EntryKind::File),
        entry("d.tar.rs", EntryKind::File),
        Entry { path: PathBuf::from("odd"), name: String::new(), kind: EntryKind::File },
    ];
    let rust = list_rust_files(files);
    assert_eq!(paths(&rust), vec![PathBuf::from("a.rs"), PathBuf::from("d.tar.rs")]);
    assert!(list_rust_files(Vec::new()).is_empty());
}

#[test]
fn entry_without_a_name_is_not_hidden() {
    assert!(!name_is_hidden(""));
    assert!(name_is_hidden("."));
    assert!(name_is_hidden(".git"));
    assert!(!name_is_hidden("a.git"));
    let mut walk = Walk::new(PathBuf::from("r"));
    walk.next_dir();
    walk.visit(vec![Entry { path: PathBuf::from("r/x"), name: String::new(), kind: EntryKind::File }]);
    assert_eq!(walk.found.len(), 1);
}
