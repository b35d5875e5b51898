use cofd_pdf_extract::codec::{decode_meta, encode_meta};
use cofd_pdf_extract::meta::{Op, PageRange, SectionDefinition, SectionKind, SourceMeta, Span};
use cofd_pdf_extract::store::{find_or_create, sidecar_path, SidecarFile};

fn sample_record() -> SourceMeta {
    SourceMeta {
        hash: 12345678901234567890,
        timestamp: 1700000000,
        sections: vec![
            SectionDefinition {
                name: b"Fleet of Foot".to_vec(),
                pages: PageRange { start: 44, end: 45 },
                span: Some(Span::Bounded { start: 10, end: 230 }),
                kind: SectionKind::Merit { subkind: Some(b"physical".to_vec()) },
                ops: vec![
                    Op::Delete { start: 0, end: 12 },
                    Op::Delete { start: 40, end: 55 },
                ],
            },
            SectionDefinition {
                name: b"Broken \"quote\" and back\\slash".to_vec(),
                pages: PageRange { start: 90, end: 90 },
                span: Some(Span::Open { start: 7 }),
                kind: SectionKind::Condition,
                ops: Vec::new(),
            },
            SectionDefinition {
                name: b"Blinded".to_vec(),
                pages: PageRange { start: 280, end: 281 },
                span: None,
                kind: SectionKind::Tilt,
                ops: vec![Op::Delete { start: 3, end: 3 }],
            },
        ],
    }
}

#[test]
fn empty_record_encodes_to_the_canonical_form() {
    let m = SourceMeta { hash: 42, timestamp: 0, sections: Vec::new() };
    let bytes = encode_meta(&m);
    assert_eq!(
        bytes,
        b"{\n\t\"hash\": 42,\n\t\"timestamp\": 0,\n\t\"sections\": []\n}".to_vec()
    );
}

#[test]
fn one_section_encodes_to_the_canonical_form() {
    let m = SourceMeta {
        hash: 7,
        timestamp: 9,
        sections: vec![SectionDefinition {
            name: b"Ambidextrous".to_vec(),
            pages: PageRange { start: 1, end: 2 },
            span: Some(Span::Bounded { start: 3, end: 8 }),
            kind: SectionKind::Merit { subkind: None },
            ops: vec![Op::Delete { start: 0, end: 1 }],
        }],
    };
    let bytes = encode_meta(&m);
    let expected = "{\n\t\"hash\": 7,\n\t\"timestamp\": 9,\n\t\"sections\": [\n\t\t{\n\t\t\t\"name\": \"Ambidextrous\",\n\t\t\t\"pages\": [1, 2],\n\t\t\t\"span\": {\"range\": [3, 8]},\n\t\t\t\"kind\": {\"merit\": null},\n\t\t\t\"ops\": [\n\t\t\t\t{\"delete\": {\"range\": [0, 1]}}\n\t\t\t]\n\t\t}\n\t]\n}";
    assert_eq!(bytes, expected.as_bytes().to_vec());
}

#[test]
fn save_then_load_returns_the_same_record() {
    let m = sample_record();
    let bytes = encode_meta(&m);
    let back = decode_meta(&bytes).expect("canonical bytes must parse");
    assert_eq!(back, m);
}

#[test]
fn empty_record_round_trips() {
    let m = SourceMeta { hash: u64::MAX, timestamp: u64::MAX, sections: Vec::new() };
    assert_eq!(decode_meta(&encode_meta(&m)), Some(m));
}

#[test]
fn corrupt_bytes_do_not_parse() {
    assert_eq!(decode_meta(&b"not json at all".to_vec()), None);
    assert_eq!(decode_meta(&b"{\n\t\"hash\": }".to_vec()), None);
    assert_eq!(decode_meta(&Vec::new()), None);
    let mut truncated = encode_meta(&sample_record());
    truncated.pop();
    assert_eq!(decode_meta(&truncated), None);
}

#[test]
fn trailing_garbage_is_rejected() {
    let mut bytes = encode_meta(&SourceMeta { hash: 1, timestamp: 2, sections: Vec::new() });
    bytes.push(b'\n');
    assert_eq!(decode_meta(&bytes), None);
}

#[test]
fn lookup_in_empty_directory_creates_a_fresh_record() {
    let outcome = find_or_create(99, &b"Rulebook".to_vec(), &Vec::new());
    assert!(outcome.created);
    assert_eq!(outcome.meta.hash, 99);
    assert_eq!(outcome.meta.timestamp, 0);
    assert_eq!(outcome.meta.sections, Vec::new());
    assert_eq!(outcome.path, b"meta/Rulebook.json".to_vec());
    assert_eq!(outcome.skipped, 0);
}

#[test]
fn lookup_returns_the_matching_sidecar_record_unchanged() {
    let wanted = sample_record();
    let other = SourceMeta { hash: 5, timestamp: 3, sections: Vec::new() };
    let entries = vec![
        SidecarFile { path: b"meta/other.json".to_vec(), data: encode_meta(&other) },
        SidecarFile { path: b"meta/wanted.json".to_vec(), data: encode_meta(&wanted) },
    ];
    let outcome = find_or_create(wanted.hash, &b"src".to_vec(), &entries);
    assert!(!outcome.created);
    assert_eq!(outcome.meta, wanted);
    assert_eq!(outcome.path, b"meta/wanted.json".to_vec());
    assert_eq!(outcome.skipped, 0);
}

#[test]
fn corrupt_sidecar_beside_two_valid_ones_is_skipped() {
    let wanted = sample_record();
    let other = SourceMeta { hash: 5, timestamp: 3, sections: Vec::new() };
    let entries = vec![
        SidecarFile { path: b"meta/bad.json".to_vec(), data: b"{{{ corrupt".to_vec() },
        SidecarFile { path: b"meta/other.json".to_vec(), data: encode_meta(&other) },
        SidecarFile { path: b"meta/wanted.json".to_vec(), data: encode_meta(&wanted) },
    ];
    let outcome = find_or_create(wanted.hash, &b"src".to_vec(), &entries);
    assert!(!outcome.created);
    assert_eq!(outcome.meta, wanted);
    assert_eq!(outcome.path, b"meta/wanted.json".to_vec());
    assert_eq!(outcome.skipped, 1);
}

#[test]
fn no_match_counts_every_corrupt_sidecar() {
    let other = SourceMeta { hash: 5, timestamp: 3, sections: Vec::new() };
    let entries = vec![
        SidecarFile { path: b"meta/a.json".to_vec(), data: b"".to_vec() },
        SidecarFile { path: b"meta/b.json".to_vec(), data: encode_meta(&other) },
        SidecarFile { path: b"meta/c.json".to_vec(), data: b"%%%".to_vec() },
    ];
    let outcome = find_or_create(1234, &b"doc".to_vec(), &entries);
    assert!(outcome.created);
    assert_eq!(outcome.meta.hash, 1234);
    assert_eq!(outcome.meta.sections, Vec::new());
    assert_eq!(outcome.path, b"meta/doc.json".to_vec());
    assert_eq!(outcome.skipped, 2);
}

#[test]
fn sidecar_path_derives_from_the_base_name() {
    assert_eq!(sidecar_path(&b"Hurt Locker".to_vec()), b"meta/Hurt Locker.json".to_vec());
}

#[test]
fn add_section_appends_a_fresh_section() {
    let mut m = SourceMeta::new_empty(8);
    m.add_section(b"Unnamed".to_vec());
    assert_eq!(m.sections.len(), 1);
    let sec = &m.sections[0];
    assert_eq!(sec.name, b"Unnamed".to_vec());
    assert_eq!(sec.pages, PageRange { start: 1, end: 2 });
    assert_eq!(sec.span, None);
    assert_eq!(sec.kind, SectionKind::Merit { subkind: None });
    assert_eq!(sec.ops, Vec::new());
}
