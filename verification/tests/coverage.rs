//! Scenario tests for the substring-matching coverage analyzer.

use sentence_coverage::analyzer::{count_sentence_data, coverage_percent, find_first, Analyzer};

#[test]
fn no_marks_counts_terminators() {
    let a = Analyzer::from_text(b"One. Two. Three.");
    assert_eq!(a.get_sentence_data(), (3, 0));
}

#[test]
fn empty_text_has_no_sentences() {
    let a = Analyzer::from_text(b"");
    assert_eq!(a.get_sentence_data(), (0, 0));
}

#[test]
fn trailing_fragment_not_counted() {
    let a = Analyzer::from_text(b"A. B");
    assert_eq!(a.get_sentence_data(), (1, 0));
}

#[test]
fn round_trip_counts() {
    let mut a = Analyzer::from_text(b"A. B. C.");
    assert_eq!(a.get_sentence_data(), (3, 0));
    assert!(a.mark_segment(b"B"));
    assert_eq!(a.get_sentence_data(), (3, 1));
    assert!(a.mark_segment(b"A"));
    assert!(a.mark_segment(b"C"));
    assert_eq!(a.get_sentence_data(), (3, 3));
}

#[test]
fn marking_one_sentence_increments_once() {
    let mut a = Analyzer::from_text(b"A. B. C.");
    assert!(a.mark_segment(b"B"));
    assert_eq!(a.get_sentence_data(), (3, 1));
}

#[test]
fn marking_twice_is_idempotent() {
    let mut a = Analyzer::from_text(b"A. B. C.");
    assert!(a.mark_segment(b"B"));
    let once = a.get_sentence_data();
    assert!(a.mark_segment(b"B"));
    assert_eq!(a.get_sentence_data(), once);
    assert_eq!(once, (3, 1));
}

#[test]
fn unmatched_segment_is_noop() {
    let mut a = Analyzer::from_text(b"A. B. C.");
    assert!(!a.mark_segment(b"Z"));
    assert_eq!(a.get_sentence_data(), (3, 0));
}

#[test]
fn covered_never_exceeds_total() {
    let mut a = Analyzer::from_text(b"A. B. C.");
    assert!(a.mark_segment(b"A. B"));
    let (total, covered) = a.get_sentence_data();
    assert!(covered <= total);
    assert_eq!((total, covered), (3, 2));
}

#[test]
fn strips_carriage_returns() {
    let a = Analyzer::from_text(b"A.\r\nB.");
    assert_eq!(a.text_len(), 5);
    assert_eq!(a.text_bytes().as_slice(), b"A.\nB.");
    assert_eq!(a.get_sentence_data(), (2, 0));
}

#[test]
fn first_occurrence_only_is_marked() {
    let mut a = Analyzer::from_text(b"ab. ab.");
    assert!(a.mark_segment(b"ab"));
    assert_eq!(a.get_sentence_data(), (2, 1));
}

#[test]
fn segment_crossing_sentences_covers_both() {
    let mut a = Analyzer::from_text(b"A. B.");
    assert!(a.mark_segment(b"A. B"));
    assert_eq!(a.get_sentence_data(), (2, 2));
}

#[test]
fn find_first_returns_lowest_offset() {
    let text: Vec<u8> = b"ab ab".to_vec();
    assert_eq!(find_first(&text, b"ab"), Some(0));
    assert_eq!(find_first(&text, b"b a"), Some(1));
    assert_eq!(find_first(&text, b"zz"), None);
    assert_eq!(find_first(&text, b""), Some(0));
}

#[test]
fn percentage_rounds_down() {
    assert_eq!(coverage_percent(0, 0), 0);
    assert_eq!(coverage_percent(3, 1), 33);
    assert_eq!(coverage_percent(3, 3), 100);
    assert_eq!(coverage_percent(7, 2), 28);
}

#[test]
fn count_sentence_data_latches_within_sentence() {
    let text: Vec<u8> = b"x.y.".to_vec();
    let covered: Vec<bool> = vec![true, false, false, false];
    assert_eq!(count_sentence_data(&text, &covered), (2, 1));
}
