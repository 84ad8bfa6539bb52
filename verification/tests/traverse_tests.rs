use minigrep::traverse::{EntryKind, Traversal};

fn strings(list: &[&str]) -> Vec<String> {
    list.iter().map(|s| s.to_string()).collect()
}

#[test]
fn root_that_is_a_regular_file_is_the_whole_list() {
    let mut t = Traversal::new("notes.txt".to_string());
    assert!(!t.done());
    assert_eq!(t.next_path(), "notes.txt");
    t.step(EntryKind::RegularFile);
    assert!(t.done());
    assert_eq!(t.into_files(), strings(&["notes.txt"]));
}

#[test]
fn missing_root_yields_an_empty_list() {
    let mut t = Traversal::new("no/such/path".to_string());
    t.step(EntryKind::Missing);
    assert!(t.done());
    assert!(t.into_files().is_empty());
}

#[test]
fn directory_children_replace_their_directory() {
    let mut t = Traversal::new("root".to_string());
    t.step(EntryKind::Directory(strings(&["root/a.txt", "root/sub"])));
    assert!(!t.done());
    // pending is a stack: the last child is classified first
    assert_eq!(t.next_path(), "root/sub");
    t.step(EntryKind::Directory(strings(&["root/sub/b.txt"])));
    assert_eq!(t.next_path(), "root/sub/b.txt");
    t.step(EntryKind::RegularFile);
    assert_eq!(t.next_path(), "root/a.txt");
    t.step(EntryKind::RegularFile);
    assert!(t.done());
    let files = t.into_files();
    assert_eq!(files, strings(&["root/sub/b.txt", "root/a.txt"]));
}

#[test]
fn unreadable_directory_contributes_no_files() {
    let mut t = Traversal::new("root".to_string());
    t.step(EntryKind::Directory(strings(&["root/locked", "root/a.txt"])));
    assert_eq!(t.next_path(), "root/a.txt");
    t.step(EntryKind::RegularFile);
    // the directory's children could not be listed
    assert_eq!(t.next_path(), "root/locked");
    t.step(EntryKind::Directory(Vec::new()));
    assert!(t.done());
    assert_eq!(t.into_files(), strings(&["root/a.txt"]));
}

#[test]
fn missing_entry_inside_a_tree_is_skipped() {
    let mut t = Traversal::new("root".to_string());
    t.step(EntryKind::Directory(strings(&["root/gone", "root/kept.txt"])));
    t.step(EntryKind::RegularFile);
    t.step(EntryKind::Missing);
    assert!(t.done());
    assert_eq!(t.into_files(), strings(&["root/kept.txt"]));
}

#[test]
fn every_reachable_file_appears_exactly_once() {
    // root -> (a.txt, sub -> (b.txt, c.txt), empty_dir)
    let mut t = Traversal::new("root".to_string());
    t.step(EntryKind::Directory(strings(&[
        "root/a.txt",
        "root/sub",
        "root/empty",
    ])));
    t.step(EntryKind::Directory(Vec::new()));
    t.step(EntryKind::Directory(strings(&["root/sub/b.txt", "root/sub/c.txt"])));
    t.step(EntryKind::RegularFile);
    t.step(EntryKind::RegularFile);
    t.step(EntryKind::RegularFile);
    assert!(t.done());
    let mut files = t.into_files();
    files.sort();
    assert_eq!(
        files,
        strings(&["root/a.txt", "root/sub/b.txt", "root/sub/c.txt"])
    );
}
