use std::collections::HashMap;

use cofd_pdf_extract::extract::{extract, highlight_segments, ExtractError};
use cofd_pdf_extract::meta::{Op, PageRange, SectionDefinition, SectionKind, Span};

fn pages_abcde() -> HashMap<usize, Vec<u8>> {
    let mut pages = HashMap::new();
    pages.insert(1usize, b"abc".to_vec());
    pages.insert(2usize, b"de".to_vec());
    pages
}

fn section(pages: PageRange, span: Option<Span>, ops: Vec<Op>) -> SectionDefinition {
    SectionDefinition {
        name: b"sec".to_vec(),
        pages,
        span,
        kind: SectionKind::Merit { subkind: None },
        ops,
    }
}

#[test]
fn concatenation_is_pages_in_order_without_separator() {
    let pages = pages_abcde();
    let sec = section(PageRange { start: 1, end: 2 }, None, Vec::new());
    let ex = extract(&pages, &sec).unwrap();
    assert_eq!(ex.full, b"abcde".to_vec());
    assert_eq!(ex.text, b"abcde".to_vec());
    assert_eq!(ex.full.len(), 3 + 2);
    assert_eq!(ex.span_start, 0);
    assert_eq!(ex.span_end, 5);
}

#[test]
fn extract_is_pure() {
    let pages = pages_abcde();
    let sec = section(
        PageRange { start: 1, end: 2 },
        Some(Span::Bounded { start: 1, end: 4 }),
        vec![Op::Delete { start: 0, end: 0 }],
    );
    let a = extract(&pages, &sec).unwrap();
    let b = extract(&pages, &sec).unwrap();
    assert_eq!(a, b);
}

#[test]
fn empty_bounded_span_gives_empty_text() {
    let pages = pages_abcde();
    let sec = section(
        PageRange { start: 1, end: 2 },
        Some(Span::Bounded { start: 2, end: 2 }),
        Vec::new(),
    );
    let ex = extract(&pages, &sec).unwrap();
    assert_eq!(ex.text, Vec::<u8>::new());
    assert_eq!(ex.full, b"abcde".to_vec());
}

#[test]
fn deleting_the_whole_working_text_gives_empty_text() {
    let pages = pages_abcde();
    let sec = section(
        PageRange { start: 1, end: 2 },
        None,
        vec![Op::Delete { start: 0, end: 4 }],
    );
    let ex = extract(&pages, &sec).unwrap();
    assert_eq!(ex.text, Vec::<u8>::new());
}

#[test]
fn disjoint_deletes_are_order_independent() {
    let mut pages = HashMap::new();
    pages.insert(1usize, b"ABCDEFGH".to_vec());
    let range = PageRange { start: 1, end: 1 };
    let a = Op::Delete { start: 1, end: 2 };
    let b = Op::Delete { start: 5, end: 6 };
    let first = extract(&pages, &section(range, None, vec![a, b])).unwrap();
    let second = extract(&pages, &section(range, None, vec![b, a])).unwrap();
    assert_eq!(first.text, b"ADEH".to_vec());
    assert_eq!(second.text, b"ADEH".to_vec());
}

#[test]
fn overlapping_deletes_clamp_to_current_bounds() {
    let mut pages = HashMap::new();
    pages.insert(1usize, b"0123456789".to_vec());
    let range = PageRange { start: 1, end: 1 };
    let ops = vec![Op::Delete { start: 2, end: 7 }, Op::Delete { start: 5, end: 6 }];
    let ex = extract(&pages, &section(range, None, ops)).unwrap();
    assert_eq!(ex.text, b"01".to_vec());
}

#[test]
fn delete_starting_past_the_end_removes_nothing() {
    let mut pages = HashMap::new();
    pages.insert(1usize, b"xyz".to_vec());
    let range = PageRange { start: 1, end: 1 };
    let ex = extract(&pages, &section(range, None, vec![Op::Delete { start: 7, end: 9 }]))
        .unwrap();
    assert_eq!(ex.text, b"xyz".to_vec());
}

#[test]
fn out_of_bounds_span_fails_with_invalid_span() {
    let pages = pages_abcde();
    let range = PageRange { start: 1, end: 2 };
    let r = extract(&pages, &section(range, Some(Span::Bounded { start: 9, end: 11 }), Vec::new()));
    assert_eq!(r, Err(ExtractError::InvalidSpan));
    let r = extract(&pages, &section(range, Some(Span::Open { start: 6 }), Vec::new()));
    assert_eq!(r, Err(ExtractError::InvalidSpan));
    let r = extract(&pages, &section(range, Some(Span::Bounded { start: 3, end: 2 }), Vec::new()));
    assert_eq!(r, Err(ExtractError::InvalidSpan));
}

#[test]
fn missing_page_fails_and_names_the_first_missing_page() {
    let mut pages = HashMap::new();
    pages.insert(1usize, b"abc".to_vec());
    pages.insert(4usize, b"gh".to_vec());
    let sec = section(PageRange { start: 1, end: 4 }, None, Vec::new());
    let r = extract(&pages, &sec);
    assert_eq!(r, Err(ExtractError::MissingPage { page: 2 }));
}

#[test]
fn open_span_runs_to_the_end() {
    let pages = pages_abcde();
    let sec = section(PageRange { start: 1, end: 2 }, Some(Span::Open { start: 2 }), Vec::new());
    let ex = extract(&pages, &sec).unwrap();
    assert_eq!(ex.text, b"cde".to_vec());
    assert_eq!(ex.span_start, 2);
    assert_eq!(ex.span_end, 5);
}

#[test]
fn display_text_toggles_between_full_and_edited() {
    let pages = pages_abcde();
    let sec = section(
        PageRange { start: 1, end: 2 },
        Some(Span::Bounded { start: 0, end: 3 }),
        vec![Op::Delete { start: 0, end: 0 }],
    );
    let ex = extract(&pages, &sec).unwrap();
    assert_eq!(ex.display_text(true), &ex.full);
    assert_eq!(ex.display_text(false), &ex.text);
    assert_eq!(ex.text, b"bc".to_vec());
}

#[test]
fn highlight_segments_split_the_concatenation_around_the_span() {
    let pages = pages_abcde();
    let sec = section(
        PageRange { start: 1, end: 2 },
        Some(Span::Bounded { start: 1, end: 4 }),
        Vec::new(),
    );
    let ex = extract(&pages, &sec).unwrap();
    let (before, span, after) = highlight_segments(&ex);
    assert_eq!(before, (0, 1));
    assert_eq!(span, (1, 4));
    assert_eq!(after, (4, 5));
}

#[test]
fn section_mutators_edit_in_place() {
    let mut sec = section(PageRange { start: 1, end: 2 }, None, Vec::new());
    sec.set_pages(3, 7);
    assert_eq!(sec.pages, PageRange { start: 3, end: 7 });
    sec.set_span(Some(Span::Open { start: 1 }));
    assert_eq!(sec.span, Some(Span::Open { start: 1 }));
    sec.push_delete(2, 5);
    assert_eq!(sec.ops, vec![Op::Delete { start: 2, end: 4 }]);
}
