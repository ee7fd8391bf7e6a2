use minigrep::stats::{file_stats, word_report, WordFrequencyReport};

fn freq(r: &WordFrequencyReport, w: &str) -> Option<usize> {
    r.frequencies.iter().find(|e| e.0 == w).map(|e| e.1)
}

#[test]
fn stats_of_a_sentence() {
    let r = file_stats("The cat sat. The Cat ran.");
    assert_eq!(freq(&r, "the"), Some(2));
    assert_eq!(freq(&r, "cat"), Some(2));
    assert_eq!(freq(&r, "sat."), Some(1));
    assert_eq!(freq(&r, "ran."), Some(1));
    assert_eq!(freq(&r, "The"), None);
    assert_eq!(r.frequencies.len(), 4);
    assert_eq!(r.character_count, 20);
    assert_eq!(r.line_count, 1);
}

#[test]
fn stats_split_on_any_white_space() {
    let r = file_stats("a\tb\n\na  b\r\nc\u{3000}a\n");
    assert_eq!(freq(&r, "a"), Some(3));
    assert_eq!(freq(&r, "b"), Some(2));
    assert_eq!(freq(&r, "c"), Some(1));
    assert_eq!(r.frequencies.len(), 3);
    assert_eq!(r.character_count, 6);
    assert_eq!(r.line_count, 4);
}

#[test]
fn stats_of_empty_text() {
    let r = file_stats("");
    assert!(r.frequencies.is_empty());
    assert_eq!(r.character_count, 0);
    assert_eq!(r.line_count, 0);
}

#[test]
fn word_report_counts_given_folded_text() {
    let r = word_report("x y x", "X Y X\nmore");
    assert_eq!(freq(&r, "x"), Some(2));
    assert_eq!(freq(&r, "y"), Some(1));
    assert_eq!(r.character_count, 3);
    assert_eq!(r.line_count, 2);
}

#[test]
fn stats_lowercase_non_ascii_words() {
    let r = file_stats("Éclair éclair");
    assert_eq!(freq(&r, "éclair"), Some(2));
    assert_eq!(r.character_count, 12);
}
