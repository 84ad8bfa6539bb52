//! The two components composed, as the search tool runs them: a traversal
//! fed with filesystem observations, then a scan over the files it found.

use minigrep::config::Config;
use minigrep::scan::{count_matches, scan_files, ScanOutcome};
use minigrep::traverse::{EntryKind, Traversal};

fn strings(list: &[&str]) -> Vec<String> {
    list.iter().map(|s| s.to_string()).collect()
}

/// The contents of the example tree: `a.txt` greets twice, `b.txt` not at all.
fn contents_of(path: &str) -> Option<String> {
    match path {
        "root/a.txt" => Some("Hello world\nHELLO AGAIN".to_string()),
        "root/b.txt" => Some("nothing here".to_string()),
        _ => None,
    }
}

fn traverse_example_tree() -> Vec<String> {
    let mut t = Traversal::new("root".to_string());
    t.step(EntryKind::Directory(strings(&["root/a.txt", "root/b.txt"])));
    t.step(EntryKind::RegularFile);
    t.step(EntryKind::RegularFile);
    assert!(t.done());
    t.into_files()
}

#[test]
fn full_scan_finds_both_greetings_case_insensitively() {
    let config = Config::new(strings(&["prog", "hello", "root", "-i"])).unwrap();
    let files = traverse_example_tree();
    assert_eq!(files.len(), 2);
    let contents: Vec<Option<String>> = files.iter().map(|p| contents_of(p)).collect();
    let outcomes = scan_files(&files, &contents, &config.query, config.case_sensitive);
    for (outcome, path) in outcomes.iter().zip(files.iter()) {
        if let ScanOutcome::Scanned(records) = outcome {
            for record in records {
                assert_eq!(&record.path, path);
                assert_eq!(record.path, "root/a.txt");
            }
        }
    }
    assert_eq!(count_matches(outcomes), 2);
}

#[test]
fn full_scan_finds_nothing_case_sensitively() {
    let config = Config::new(strings(&["prog", "hello", "root"])).unwrap();
    assert!(config.case_sensitive);
    let files = traverse_example_tree();
    let contents: Vec<Option<String>> = files.iter().map(|p| contents_of(p)).collect();
    let outcomes = scan_files(&files, &contents, &config.query, config.case_sensitive);
    assert_eq!(count_matches(outcomes), 0);
}

#[test]
fn missing_root_scans_no_file_and_counts_no_match() {
    let mut t = Traversal::new("no/such/root".to_string());
    t.step(EntryKind::Missing);
    assert!(t.done());
    let files = t.into_files();
    assert!(files.is_empty());
    let contents: Vec<Option<String>> = Vec::new();
    let outcomes = scan_files(&files, &contents, &"hello".to_string(), false);
    assert_eq!(count_matches(outcomes), 0);
}
