use minigrep::config::Config;

fn args(list: &[&str]) -> Vec<String> {
    list.iter().map(|s| s.to_string()).collect()
}

#[test]
fn rejects_too_few_arguments() {
    let r = Config::new(args(&["prog", "query"]));
    assert_eq!(r.err(), Some("not enough arguments"));
}

#[test]
fn rejects_too_many_arguments() {
    let r = Config::new(args(&["prog", "query", "path", "-i", "extra"]));
    assert_eq!(r.err(), Some("too many arguments"));
}

#[test]
fn rejects_unknown_flag() {
    let r = Config::new(args(&["prog", "query", "path", "--verbose"]));
    assert_eq!(r.err(), Some("invalid third argument"));
}

#[test]
fn defaults_to_case_sensitive() {
    let c = Config::new(args(&["prog", "needle", "some/dir"])).unwrap();
    assert_eq!(c.query, "needle");
    assert_eq!(c.path, "some/dir");
    assert!(c.case_sensitive);
    assert!(c.paths.is_empty());
}

#[test]
fn short_flag_turns_case_sensitivity_off() {
    let c = Config::new(args(&["prog", "needle", "dir", "-i"])).unwrap();
    assert!(!c.case_sensitive);
}

#[test]
fn capital_short_flag_turns_case_sensitivity_off() {
    let c = Config::new(args(&["prog", "needle", "dir", "-I"])).unwrap();
    assert!(!c.case_sensitive);
}

#[test]
fn long_flag_turns_case_sensitivity_off() {
    let c = Config::new(args(&["prog", "needle", "dir", "--ignore-case"])).unwrap();
    assert!(!c.case_sensitive);
}
