//! Scenario tests for the position-exact mode: page markers, position
//! strings, and offset-range marking.

use sentence_coverage::page::Page;
use sentence_coverage::parse::{parse_position, Position};
use sentence_coverage::CoverageError;

#[test]
fn marker_parses_page_and_offset() {
    let page = Page::from_segment(b"Hello world (Doc, S. 2: 100)").unwrap();
    assert_eq!(page.number(), 2);
    assert_eq!(page.start_offset(), 100);
    assert_eq!(page.text_bytes().as_slice(), b"Hello world");
    assert_eq!(page.get_sentence_data(), (0, 0));
}

#[test]
fn greedy_text_takes_last_marker() {
    let page = Page::from_segment(b"a (b, S. 1: 2) c (d, S. 3: 4)").unwrap();
    assert_eq!(page.number(), 3);
    assert_eq!(page.start_offset(), 4);
    assert_eq!(page.text_bytes().as_slice(), b"a (b, S. 1: 2) c");
}

#[test]
fn malformed_marker_rejected() {
    assert!(matches!(
        Page::from_segment(b"no marker here"),
        Err(CoverageError::MalformedRecord)
    ));
    assert!(matches!(
        Page::from_segment(b""),
        Err(CoverageError::MalformedRecord)
    ));
    assert!(matches!(
        Page::from_segment(b"text (Doc, S. : 100)"),
        Err(CoverageError::MalformedRecord)
    ));
    assert!(matches!(
        Page::from_segment(b"text (Doc, S. 2: 100"),
        Err(CoverageError::MalformedRecord)
    ));
}

#[test]
fn marker_number_overflow_rejected() {
    assert!(matches!(
        Page::from_segment(b"t (C, S. 99999999999999999999999: 1)"),
        Err(CoverageError::MalformedRecord)
    ));
}

#[test]
fn range_marks_cover_sentences() {
    let mut page = Page::from_segment(b"One. Two. (Doc, S. 1: 50)").unwrap();
    assert_eq!(page.get_sentence_data(), (2, 0));
    let r = page.set_encoded_range(
        Position { page: 1, offset: 55 },
        Position { page: 1, offset: 57 },
    );
    assert!(r.is_ok());
    assert_eq!(page.get_sentence_data(), (2, 1));
}

#[test]
fn mismatched_pages_rejected() {
    let mut page = Page::from_segment(b"One. Two. (Doc, S. 1: 50)").unwrap();
    let r = page.set_encoded_range(
        Position { page: 1, offset: 55 },
        Position { page: 2, offset: 57 },
    );
    assert!(matches!(r, Err(CoverageError::PositionInconsistent)));
    assert_eq!(page.get_sentence_data(), (2, 0));
}

#[test]
fn offsets_outside_page_rejected() {
    let mut page = Page::from_segment(b"One. Two. (Doc, S. 1: 50)").unwrap();
    let before_page = page.set_encoded_range(
        Position { page: 1, offset: 40 },
        Position { page: 1, offset: 55 },
    );
    assert!(matches!(before_page, Err(CoverageError::OffsetOutOfRange)));
    let past_end = page.set_encoded_range(
        Position { page: 1, offset: 55 },
        Position { page: 1, offset: 99 },
    );
    assert!(matches!(past_end, Err(CoverageError::OffsetOutOfRange)));
    let inverted = page.set_encoded_range(
        Position { page: 1, offset: 57 },
        Position { page: 1, offset: 55 },
    );
    assert!(matches!(inverted, Err(CoverageError::OffsetOutOfRange)));
    assert_eq!(page.get_sentence_data(), (2, 0));
}

#[test]
fn parse_position_reads_both_numbers() {
    let p = parse_position(b"2: 100").unwrap();
    assert_eq!(p, Position { page: 2, offset: 100 });
}

#[test]
fn parse_position_rejects_malformed() {
    for bad in [
        b"abc".as_slice(),
        b"12".as_slice(),
        b"3:4".as_slice(),
        b": 5".as_slice(),
        b"7: ".as_slice(),
        b"".as_slice(),
        b"1: 2x".as_slice(),
    ] {
        assert!(matches!(
            parse_position(bad),
            Err(CoverageError::MalformedRecord)
        ));
    }
}

#[test]
fn parse_position_rejects_overflow() {
    assert!(matches!(
        parse_position(b"99999999999999999999: 1"),
        Err(CoverageError::MalformedRecord)
    ));
}

#[test]
fn pages_accumulate_like_a_document() {
    let mut pages = vec![
        Page::from_segment(b"One. Two. (Doc, S. 1: 0)").unwrap(),
        Page::from_segment(b"Three. Four. (Doc, S. 2: 9)").unwrap(),
    ];
    let start = parse_position(b"2: 9").unwrap();
    let end = parse_position(b"2: 13").unwrap();
    assert_eq!(start.page, 2);
    assert_eq!(end.page, 2);
    let first_page = pages[0].number();
    let target = &mut pages[start.page - first_page];
    assert!(target.set_encoded_range(start, end).is_ok());
    let mut all = (0, 0);
    for page in &pages {
        let (t, e) = page.get_sentence_data();
        all.0 += t;
        all.1 += e;
    }
    assert_eq!(all, (4, 1));
}
