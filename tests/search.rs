use minigrep::lines::split_lines;
use minigrep::matching::{contains_text, occurrence_count};
use minigrep::search::{search, search_case_insensitive, search_invert_match, search_records, SearchResult};

fn numbers(r: &SearchResult) -> Vec<usize> {
    r.line_info.iter().map(|l| l.line_number).collect()
}

fn texts<'a>(r: &SearchResult<'a>) -> Vec<&'a str> {
    r.line_info.iter().map(|l| l.line_content).collect()
}

#[test]
fn split_keeps_lines_without_trailing_empty() {
    assert_eq!(split_lines("a\nb\n"), vec!["a", "b"]);
    assert_eq!(split_lines(""), Vec::<&str>::new());
}

#[test]
fn split_drops_carriage_return_before_line_feed() {
    assert_eq!(split_lines("a\r\nb\r\n"), vec!["a", "b"]);
    assert_eq!(split_lines("a\r"), vec!["a\r"]);
    assert_eq!(split_lines("\n\nx"), vec!["", "", "x"]);
    assert_eq!(split_lines("é\nü"), vec!["é", "ü"]);
}

#[test]
fn non_overlapping_occurrences() {
    let r = search("aa", "aaa");
    assert_eq!(r.count, 1);
    assert_eq!(r.line_count, 1);
    assert_eq!(occurrence_count("aaa", "aa"), 1);
    assert_eq!(occurrence_count("aaaa", "aa"), 2);
    assert_eq!(occurrence_count("abcabc", "bc"), 2);
}

#[test]
fn empty_query_counts_characters_plus_one() {
    assert_eq!(occurrence_count("héllo", ""), 6);
    assert_eq!(occurrence_count("", ""), 1);
    assert!(contains_text("abc", ""));
    assert!(contains_text("abc", "bc"));
    assert!(!contains_text("abc", "cb"));
}

#[test]
fn empty_query_matches_every_line() {
    let content = "ab\n\ncd";
    let r = search("", content);
    assert_eq!(numbers(&r), vec![0, 1, 2]);
    assert_eq!(r.count, 7);
    assert_eq!(r.line_count, 3);
    let inv = search_invert_match("", content);
    assert!(inv.line_info.is_empty());
    assert_eq!(inv.count, 0);
    assert_eq!(inv.line_count, 0);
}

#[test]
fn line_count_equals_reported_lines() {
    let content = "one fish\ntwo fish\nred\nblue fish fish";
    for r in [search("fish", content), search_case_insensitive("FISH", content), search_invert_match("fish", content)] {
        assert_eq!(r.line_count, r.line_info.len());
    }
    let r = search("fish", content);
    assert_eq!(numbers(&r), vec![0, 1, 3]);
    assert_eq!(texts(&r), vec!["one fish", "two fish", "blue fish fish"]);
    assert_eq!(r.count, 4);
}

#[test]
fn invert_match_complements_search() {
    let content = "alpha\nbeta\ngamma\nalphabet\n";
    let hit = numbers(&search("alpha", content));
    let miss = search_invert_match("alpha", content);
    assert_eq!(hit, vec![0, 3]);
    assert_eq!(numbers(&miss), vec![1, 2]);
    assert_eq!(texts(&miss), vec!["beta", "gamma"]);
    assert_eq!(miss.count, 0);
    assert_eq!(miss.line_count, 2);
}

#[test]
fn case_insensitive_covers_exact_matches() {
    let content = "Hello\nhello\nHELLO\nbye";
    assert_eq!(numbers(&search("Hello", content)), vec![0]);
    let r = search_case_insensitive("Hello", content);
    assert_eq!(numbers(&r), vec![0, 1, 2]);
    assert_eq!(texts(&r), vec!["Hello", "hello", "HELLO"]);
    assert_eq!(r.count, 3);
}

#[test]
fn case_insensitive_end_to_end() {
    let r = search_case_insensitive("hello", "hello world\nHELLO again\ngoodbye\n");
    assert_eq!(numbers(&r), vec![0, 1]);
    assert_eq!(texts(&r), vec!["hello world", "HELLO again"]);
    assert_eq!(r.count, 2);
    assert_eq!(r.line_count, 2);
}

#[test]
fn case_insensitive_lowercases_beyond_ascii() {
    let r = search_case_insensitive("ÉTÉ", "été\nÉté\nhiver");
    assert_eq!(numbers(&r), vec![0, 1]);
    assert_eq!(r.count, 2);
}

#[test]
fn search_records_tests_keys() {
    let records = vec!["A", "B", "C"];
    let keys = vec!["x", "yx", "z"];
    let r = search_records(&records, &keys, "x", false);
    assert_eq!(numbers(&r), vec![0, 1]);
    assert_eq!(texts(&r), vec!["A", "B"]);
    assert_eq!(r.count, 2);
    let inv = search_records(&records, &keys, "x", true);
    assert_eq!(texts(&inv), vec!["C"]);
    assert_eq!(inv.count, 0);
}

#[test]
fn no_match_gives_empty_result() {
    let r = search("zzz", "abc\ndef");
    assert!(r.line_info.is_empty());
    assert_eq!(r.count, 0);
    assert_eq!(r.line_count, 0);
    let e = search("a", "");
    assert!(e.line_info.is_empty());
}
