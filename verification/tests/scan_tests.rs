use minigrep::scan::{count_matches, scan_file, scan_files, MatchRecord, ScanOutcome};

fn records(o: &ScanOutcome) -> &Vec<MatchRecord> {
    match o {
        ScanOutcome::Scanned(rs) => rs,
        ScanOutcome::Unreadable => panic!("expected a scanned file"),
    }
}

#[test]
fn two_files_two_case_insensitive_matches() {
    let paths = vec!["root/a.txt".to_string(), "root/b.txt".to_string()];
    let contents = vec![
        Some("Hello world\nHELLO AGAIN".to_string()),
        Some("nothing here".to_string()),
    ];
    let query = "hello".to_string();
    let outcomes = scan_files(&paths, &contents, &query, false);
    assert_eq!(outcomes.len(), 2);
    let a = records(&outcomes[0]);
    assert_eq!(a.len(), 2);
    assert_eq!(a[0].path, "root/a.txt");
    assert_eq!(a[0].line, "Hello world");
    assert_eq!(a[0].line_index, 0);
    assert_eq!(a[1].path, "root/a.txt");
    assert_eq!(a[1].line, "HELLO AGAIN");
    assert_eq!(a[1].line_index, 1);
    assert!(records(&outcomes[1]).is_empty());
    assert_eq!(count_matches(outcomes), 2);
}

#[test]
fn same_tree_case_sensitive_finds_nothing() {
    let paths = vec!["root/a.txt".to_string(), "root/b.txt".to_string()];
    let contents = vec![
        Some("Hello world\nHELLO AGAIN".to_string()),
        Some("nothing here".to_string()),
    ];
    let query = "hello".to_string();
    let outcomes = scan_files(&paths, &contents, &query, true);
    assert!(records(&outcomes[0]).is_empty());
    assert!(records(&outcomes[1]).is_empty());
    assert_eq!(count_matches(outcomes), 0);
}

#[test]
fn no_files_means_no_matches() {
    let paths: Vec<String> = Vec::new();
    let contents: Vec<Option<String>> = Vec::new();
    let outcomes = scan_files(&paths, &contents, &"hello".to_string(), false);
    assert!(outcomes.is_empty());
    assert_eq!(count_matches(outcomes), 0);
}

#[test]
fn unreadable_file_is_skipped_and_the_rest_still_counts() {
    let paths = vec!["locked.txt".to_string(), "open.txt".to_string()];
    let contents = vec![None, Some("hello there\nbye".to_string())];
    let query = "hello".to_string();
    let outcomes = scan_files(&paths, &contents, &query, true);
    assert!(matches!(outcomes[0], ScanOutcome::Unreadable));
    let open = records(&outcomes[1]);
    assert_eq!(open.len(), 1);
    assert_eq!(open[0].line, "hello there");
    assert_eq!(open[0].line_index, 0);
    assert_eq!(count_matches(outcomes), 1);
}

#[test]
fn one_unreadable_file_alone() {
    let o = scan_file(
        &"gone.txt".to_string(),
        &None,
        &"query".to_string(),
        true,
    );
    assert!(matches!(o, ScanOutcome::Unreadable));
    assert_eq!(count_matches(vec![o]), 0);
}

#[test]
fn scanning_twice_reports_the_same_results() {
    let paths = vec!["a.txt".to_string(), "b.txt".to_string()];
    let contents = vec![
        Some("alpha\nbeta\nalpha beta".to_string()),
        None,
    ];
    let query = "alpha".to_string();
    let first = scan_files(&paths, &contents, &query, true);
    let second = scan_files(&paths, &contents, &query, true);
    assert_eq!(first.len(), second.len());
    for (x, y) in first.iter().zip(second.iter()) {
        match (x, y) {
            (ScanOutcome::Scanned(rx), ScanOutcome::Scanned(ry)) => {
                assert_eq!(rx.len(), ry.len());
                for (a, b) in rx.iter().zip(ry.iter()) {
                    assert_eq!(a.path, b.path);
                    assert_eq!(a.line, b.line);
                    assert_eq!(a.line_index, b.line_index);
                }
            },
            (ScanOutcome::Unreadable, ScanOutcome::Unreadable) => {},
            _ => panic!("the two scans disagree"),
        }
    }
    assert_eq!(count_matches(first), count_matches(second));
}
