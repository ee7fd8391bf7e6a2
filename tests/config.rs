use minigrep::config::{same_text, Arguments, Mode, Scan, USAGE_ERROR};
use minigrep::search::run_search;

fn tokens(words: &[&str]) -> Vec<String> {
    words.iter().map(|w| w.to_string()).collect()
}

#[test]
fn one_unknown_token_is_invalid() {
    let r = Arguments::new(&tokens(&["minigrep", "foo"]));
    assert_eq!(r.err(), Some(USAGE_ERROR));
}

#[test]
fn other_invalid_forms() {
    assert!(Arguments::new(&tokens(&[])).is_err());
    assert!(Arguments::new(&tokens(&["prog"])).is_err());
}

#[test]
fn meta_trigger_without_version_switch_is_search_or_stats() {
    let a = Arguments::new(&tokens(&["prog", "minigrep", "-x"])).unwrap();
    assert_eq!(a.mode(), Mode::Search);
    assert_eq!(a.query, "minigrep");
    assert_eq!(a.file_name, "-x");
    let b = Arguments::new(&tokens(&["prog", "minigrep", "file.txt"])).unwrap();
    assert_eq!(b.mode(), Mode::Search);
    assert_eq!(b.query, "minigrep");
    assert_eq!(b.file_name, "file.txt");
    let c = Arguments::new(&tokens(&["prog", "minigrep", "-S"])).unwrap();
    assert_eq!(c.mode(), Mode::Stats);
    assert_eq!(c.file_name, "minigrep");
    assert_eq!(c.query, "");
}

#[test]
fn invalid_forms_carry_the_usage_hint() {
    for words in [vec![], vec!["prog"], vec!["prog", "x"], vec!["prog", "minigrep"]] {
        assert_eq!(Arguments::new(&tokens(&words)).err(), Some(USAGE_ERROR));
    }
}

#[test]
fn help_trigger() {
    let a = Arguments::new(&tokens(&["prog", "minigrep_help"])).unwrap();
    assert!(a.help_option);
    assert_eq!(a.mode(), Mode::Help);
    assert_eq!(a.query, "");
}

#[test]
fn version_switch() {
    for v in ["-v", "--version"] {
        let a = Arguments::new(&tokens(&["prog", "minigrep", v])).unwrap();
        assert!(a.view_version);
        assert_eq!(a.mode(), Mode::Version);
    }
}

#[test]
fn stats_switch() {
    for s in ["-S", "--stats"] {
        let a = Arguments::new(&tokens(&["prog", "war.txt", s])).unwrap();
        assert!(a.view_stats);
        assert_eq!(a.file_name, "war.txt");
        assert_eq!(a.query, "");
        assert_eq!(a.mode(), Mode::Stats);
    }
}

#[test]
fn query_and_target() {
    let a = Arguments::new(&tokens(&["prog", "hello", "hello.txt"])).unwrap();
    assert_eq!(a.query, "hello");
    assert_eq!(a.file_name, "hello.txt");
    assert!(!a.case_ignore && !a.line_number && !a.query_count && !a.line_count && !a.non_match);
    assert_eq!(a.mode(), Mode::Search);
    assert_eq!(a.scan(), Scan::Exact);
}

#[test]
fn flags_are_additive_and_unknown_ones_ignored() {
    let a = Arguments::new(&tokens(&["prog", "q", "f", "--line-number", "-zz", "-c", "-lc"])).unwrap();
    assert!(a.line_number && a.query_count && a.line_count);
    assert!(!a.case_ignore && !a.non_match);
    let b = Arguments::new(&tokens(&["prog", "q", "f", "--ignore-case", "--invert-match", "--query-count", "--line-count"])).unwrap();
    assert!(b.case_ignore && b.non_match && b.query_count && b.line_count);
    assert!(!b.line_number);
    let c = Arguments::new(&tokens(&["prog", "q", "f", "nothing"])).unwrap();
    assert!(!c.case_ignore && !c.line_number && !c.query_count && !c.line_count && !c.non_match);
    assert_eq!(c.query, "q");
}

#[test]
fn flags_are_case_sensitive() {
    let a = Arguments::new(&tokens(&["prog", "q", "f", "-I"])).unwrap();
    assert!(a.non_match && !a.case_ignore);
    assert_eq!(a.scan(), Scan::Invert);
    let b = Arguments::new(&tokens(&["prog", "q", "f", "-i"])).unwrap();
    assert!(b.case_ignore && !b.non_match);
}

#[test]
fn case_insensitive_takes_priority() {
    let a = Arguments::new(&tokens(&["prog", "ab", "f", "-i", "-I"])).unwrap();
    assert_eq!(a.scan(), Scan::CaseInsensitive);
    let r = run_search(&a, "AB\ncd\nab");
    let lines: Vec<usize> = r.line_info.iter().map(|l| l.line_number).collect();
    assert_eq!(lines, vec![0, 2]);
    let b = Arguments::new(&tokens(&["prog", "ab", "f", "-I"])).unwrap();
    let r = run_search(&b, "AB\ncd\nab");
    let lines: Vec<usize> = r.line_info.iter().map(|l| l.line_number).collect();
    assert_eq!(lines, vec![0, 1]);
}

#[test]
fn default_configuration() {
    let a = Arguments::default();
    assert_eq!(a.query, "");
    assert_eq!(a.file_name, "");
    assert_eq!(a.mode(), Mode::Search);
}

#[test]
fn text_equality() {
    assert!(same_text("é", "é"));
    assert!(!same_text("ab", "abc"));
    assert!(!same_text("ab", "ac"));
}
