use delta_reader_backend::canonical::{
    check_pdf_hash, check_worker_model, classify_canonical_reading_units, extraction_status,
    generate_canonical_reading_units, is_formula_or_table, is_heading, is_page_one_metadata,
    is_reference_entry, last_json_line, pdf_hash_hex, sentence_spans, slice_utf16,
    starts_reference_section, upload_reading_units, CanonicalError,
};
use delta_reader_backend::models::{
    CandidateKind, CanonicalExtractorMetadata, CanonicalExtractorOptions, CanonicalItemRange,
    CanonicalReadingUnit, CanonicalTextItem, CanonicalTextModel, CanonicalTextPage,
    TextQuoteSelector,
};

fn test_unit(text: &str, page: usize, norm_start: usize) -> CanonicalReadingUnit {
    let length = text.encode_utf16().count();
    CanonicalReadingUnit {
        sentence_id: format!("cp{page}s{norm_start}"),
        page,
        text: text.to_owned(),
        normalized_text: text.to_owned(),
        norm_start,
        norm_end: norm_start + length,
        start_item_id: format!("p{page}i1"),
        end_item_id: format!("p{page}i1"),
        item_ranges: vec![CanonicalItemRange {
            item_id: format!("p{page}i1"),
            normalized_start: 0,
            normalized_end: length,
        }],
        quote_selector: TextQuoteSelector {
            exact: text.to_owned(),
            prefix: String::new(),
            suffix: String::new(),
        },
        candidate_kind: CandidateKind::Unknown,
    }
}

fn item(id: &str, page: usize, text: &str, start: usize, end: usize) -> CanonicalTextItem {
    CanonicalTextItem {
        item_id: id.to_owned(),
        page,
        str: text.to_owned(),
        normalized_str: text.to_owned(),
        raw_start: start,
        raw_end: end,
        normalized_start: start,
        normalized_end: end,
        has_eol: false,
    }
}

fn page(number: usize, text: &str, items: Vec<CanonicalTextItem>) -> CanonicalTextPage {
    CanonicalTextPage {
        page: number,
        raw_text: text.to_owned(),
        normalized_text: text.to_owned(),
        text_items: items,
    }
}

fn model(pages: Vec<CanonicalTextPage>) -> CanonicalTextModel {
    CanonicalTextModel {
        schema_version: "1.0".to_owned(),
        document_id: 0,
        pdf_hash: "e3b0c44298fc1c149afbf4c8996fb92427ae41e4649b934ca495991b7852b855".to_owned(),
        extractor: CanonicalExtractorMetadata {
            name: "pdfjs".to_owned(),
            version: "4".to_owned(),
            options: CanonicalExtractorOptions {
                disable_font_face: true,
                include_marked_content: false,
                use_system_fonts: false,
            },
        },
        pages,
    }
}

fn fixture_like_model() -> CanonicalTextModel {
    let first = "A transformer spans lines. Repeated phrase. Repeated phrase.";
    let second = "Unicode café text.";
    model(vec![
        page(
            1,
            first,
            vec![
                item("p1i1", 1, "A ", 0, 2),
                item("p1i2", 1, "trans", 2, 7),
                item("p1i3", 1, "former spans lines.", 7, 26),
                item("p1i4", 1, " Repeated phrase.", 26, 43),
                item("p1i5", 1, " Repeated phrase.", 43, 60),
            ],
        ),
        page(2, second, vec![item("p2i1", 2, second, 0, 18)]),
    ])
}

#[test]
fn classifies_candidate_kinds_deterministically() {
    let mut units = vec![
        test_unit("Bitcoin: A Peer-to-Peer Electronic Cash System", 1, 0),
        test_unit("Satoshi Nakamoto", 1, 50),
        test_unit("satoshin@gmx.com", 1, 70),
        test_unit("https://www.bitcoin.org", 1, 90),
        test_unit("Abstract", 1, 120),
        test_unit("1. Introduction", 1, 130),
        test_unit(
            "A purely peer-to-peer payment can be sent directly between two parties.",
            1,
            150,
        ),
        test_unit("Brief note.", 2, 0),
        test_unit("Table 1: x = 2 + 3", 2, 20),
        test_unit("References", 3, 0),
        test_unit("[1] W. Dai, b-money, 1998.", 3, 20),
    ];

    classify_canonical_reading_units(&mut units);

    assert_eq!(units[0].candidate_kind, CandidateKind::Metadata);
    assert_eq!(units[1].candidate_kind, CandidateKind::Metadata);
    assert_eq!(units[2].candidate_kind, CandidateKind::Metadata);
    assert_eq!(units[3].candidate_kind, CandidateKind::Metadata);
    assert_eq!(units[4].candidate_kind, CandidateKind::Heading);
    assert_eq!(units[5].candidate_kind, CandidateKind::Heading);
    assert_eq!(units[6].candidate_kind, CandidateKind::BodySentence);
    assert_eq!(units[7].candidate_kind, CandidateKind::ShortFragment);
    assert_eq!(units[8].candidate_kind, CandidateKind::FormulaOrTable);
    assert_eq!(units[9].candidate_kind, CandidateKind::Heading);
    assert_eq!(units[10].candidate_kind, CandidateKind::Reference);
    assert!(is_reference_entry("[7] A. Author, A cited work."));
}

#[test]
fn canonical_reading_units_are_stable_and_page_scoped() {
    let model = fixture_like_model();
    let first = generate_canonical_reading_units(&model).unwrap();
    let second = generate_canonical_reading_units(&model).unwrap();
    let ids = first
        .iter()
        .map(|unit| unit.sentence_id.as_str())
        .collect::<Vec<_>>();
    assert_eq!(ids, vec!["cp1s1", "cp1s2", "cp1s3", "cp2s1"]);
    assert_eq!(
        second
            .iter()
            .map(|unit| unit.sentence_id.as_str())
            .collect::<Vec<_>>(),
        ids
    );
    assert!(first.iter().all(|unit| !unit.item_ranges.is_empty()));
    assert!(first
        .iter()
        .all(|unit| unit.quote_selector.exact == unit.normalized_text));
}

#[test]
fn multi_span_hyphenated_sentence_preserves_item_ranges() {
    let units = generate_canonical_reading_units(&fixture_like_model()).unwrap();
    let unit = &units[0];
    assert_eq!(unit.normalized_text, "A transformer spans lines.");
    assert_eq!(unit.start_item_id, "p1i1");
    assert_eq!(unit.end_item_id, "p1i3");
    assert_eq!(
        unit.item_ranges
            .iter()
            .map(|range| range.item_id.as_str())
            .collect::<Vec<_>>(),
        vec!["p1i1", "p1i2", "p1i3"]
    );
    assert_eq!(unit.item_ranges[1].normalized_start, 0);
    assert_eq!(unit.item_ranges[1].normalized_end, 5);
}

#[test]
fn repeated_sentences_have_distinct_ids_ranges_and_quote_context() {
    let units = generate_canonical_reading_units(&fixture_like_model()).unwrap();
    let first = &units[1];
    let second = &units[2];
    assert_eq!(first.text, second.text);
    assert_ne!(first.sentence_id, second.sentence_id);
    assert_ne!(first.norm_start, second.norm_start);
    assert_ne!(first.start_item_id, second.start_item_id);
    assert!(!first.quote_selector.prefix.is_empty());
    assert!(!first.quote_selector.suffix.is_empty());
    assert!(!second.quote_selector.prefix.is_empty());
    assert_eq!(first.quote_selector.prefix, "A transformer spans lines.");
    assert_eq!(first.quote_selector.suffix, "Repeated phrase.");
    assert_eq!(first.norm_start, 27);
    assert_eq!(first.norm_end, 43);
}

#[test]
fn classification_preserves_item_ranges() {
    let mut units = generate_canonical_reading_units(&fixture_like_model()).unwrap();
    let before = units
        .iter()
        .map(|unit| {
            unit.item_ranges
                .iter()
                .map(|r| (r.item_id.clone(), r.normalized_start, r.normalized_end))
                .collect::<Vec<_>>()
        })
        .collect::<Vec<_>>();
    classify_canonical_reading_units(&mut units);
    let after = units
        .iter()
        .map(|unit| {
            unit.item_ranges
                .iter()
                .map(|r| (r.item_id.clone(), r.normalized_start, r.normalized_end))
                .collect::<Vec<_>>()
        })
        .collect::<Vec<_>>();
    assert_eq!(before, after);
    assert!(units.iter().all(|unit| !unit.item_ranges.is_empty()));
}

#[test]
fn sentence_without_text_item_is_refused() {
    let bad = model(vec![page(
        3,
        "Covered sentence. Uncovered sentence.",
        vec![item("p3i1", 3, "Covered sentence.", 0, 17)],
    )]);
    match generate_canonical_reading_units(&bad) {
        Err(CanonicalError::UnmappedSentence { sentence, page }) => {
            assert_eq!(sentence, 2);
            assert_eq!(page, 3);
        }
        other => panic!("unexpected result {other:?}"),
    }
}

#[test]
fn upload_units_require_matching_page_count() {
    let model = fixture_like_model();
    match upload_reading_units(&model, 3) {
        Err(CanonicalError::PageCountMismatch { canonical, legacy }) => {
            assert_eq!(canonical, 2);
            assert_eq!(legacy, 3);
        }
        other => panic!("unexpected result {other:?}"),
    }
    assert_eq!(upload_reading_units(&model, 2).unwrap().len(), 4);
    assert_eq!(extraction_status(true), "canonical_text_extracted");
    assert_eq!(extraction_status(false), "legacy_text_fallback");
}

#[test]
fn spans_count_bytes_and_utf16_units() {
    let spans = sentence_spans("Unicode café text.");
    assert_eq!(spans.len(), 1);
    assert_eq!(spans[0].byte_start, 0);
    assert_eq!(spans[0].byte_end, 19);
    assert_eq!(spans[0].norm_start, 0);
    assert_eq!(spans[0].norm_end, 18);
    let quoted = sentence_spans("He said \"stop.\" Then left. x");
    assert_eq!(quoted.len(), 3);
    assert_eq!(quoted[0].byte_end, 15);
    assert_eq!(quoted[1].byte_start, 16);
    assert_eq!(quoted[2].byte_start, 27);
    assert!(sentence_spans("   ").is_empty());
    assert_eq!(sentence_spans("v1.2 is out").len(), 1);
}

#[test]
fn utf16_slices_keep_whole_characters() {
    assert_eq!(slice_utf16("Unicode café text.", 8, 12), "café");
    assert_eq!(slice_utf16("a😀b", 0, 2), "a");
    assert_eq!(slice_utf16("a😀b", 1, 3), "😀");
    assert_eq!(slice_utf16("abc", 2, 1), "");
}

#[test]
fn headings_formulas_and_references() {
    assert!(is_heading("4.2. Results"));
    assert!(is_heading("Conclusion:"));
    assert!(!is_heading("1.a. Not numbered"));
    assert!(!is_heading("Intro"));
    assert!(is_formula_or_table("table: results"));
    assert!(is_formula_or_table("x = y + 1"));
    assert!(!is_formula_or_table("a = b in prose with many words around it"));
    assert!(!is_formula_or_table("   "));
    assert!(starts_reference_section("References [1] A."));
    assert!(starts_reference_section("REFERENCES."));
    assert!(!starts_reference_section("Referenced work"));
    assert!(is_reference_entry("12. Smith, \"A title\", 2001."));
    assert!(!is_reference_entry("12. Smith, A title, 2001."));
    assert!(!is_reference_entry("[] Empty."));
    assert!(!is_reference_entry("No dot here"));
}

#[test]
fn page_one_metadata_needs_page_one_and_top_position() {
    assert!(is_page_one_metadata(&test_unit("Jane Doe, John Roe", 1, 10)));
    assert!(!is_page_one_metadata(&test_unit("Jane Doe, John Roe", 2, 10)));
    assert!(!is_page_one_metadata(&test_unit("Jane Doe, John Roe", 1, 501)));
    assert!(!is_page_one_metadata(&test_unit("Jane Doe wrote this.", 1, 10)));
    assert!(is_page_one_metadata(&test_unit("see www.example.org", 1, 10)));
}

#[test]
fn references_section_runs_to_the_end() {
    let mut units = vec![
        test_unit("References", 5, 0),
        test_unit("A long body sentence that would otherwise count as body text.", 5, 20),
        test_unit("2. Methods", 5, 90),
    ];
    classify_canonical_reading_units(&mut units);
    assert_eq!(units[0].candidate_kind, CandidateKind::Heading);
    assert_eq!(units[1].candidate_kind, CandidateKind::Reference);
    assert_eq!(units[2].candidate_kind, CandidateKind::Reference);
}

#[test]
fn worker_output_and_model_checks() {
    let out = b"log line\n{\"a\":1}\nmore log\n{\"b\":2}\ntrailing";
    assert_eq!(last_json_line(out), Some((26, 33)));
    assert_eq!(last_json_line(b"no json here"), None);
    assert_eq!(last_json_line(b"{x}"), Some((0, 3)));

    let good = fixture_like_model();
    assert!(check_worker_model(good.clone(), 0).is_ok());
    assert!(matches!(
        check_worker_model(good.clone(), 7),
        Err(CanonicalError::DocumentIdMismatch)
    ));
    let mut old_schema = good.clone();
    old_schema.schema_version = "0.9".to_owned();
    match check_worker_model(old_schema, 0) {
        Err(CanonicalError::UnsupportedSchema(version)) => assert_eq!(version, "0.9"),
        other => panic!("unexpected result {other:?}"),
    }
    let mut bad_hash = good;
    bad_hash.pdf_hash = "xyz".to_owned();
    assert!(matches!(
        check_worker_model(bad_hash, 0),
        Err(CanonicalError::InvalidHash)
    ));
}

#[test]
fn pdf_hash_is_lower_hex_sha256() {
    assert_eq!(
        pdf_hash_hex(b""),
        "e3b0c44298fc1c149afbf4c8996fb92427ae41e4649b934ca495991b7852b855"
    );
    assert_eq!(
        pdf_hash_hex(b"abc"),
        "ba7816bf8f01cfea414140de5dae2223b00361a396177a9cb410ff61f20015ad"
    );
    let model = fixture_like_model();
    assert!(check_pdf_hash(model.clone(), b"").is_ok());
    match check_pdf_hash(model, b"abc") {
        Err(CanonicalError::HashMismatch { actual, expected }) => {
            assert_eq!(
                actual,
                "e3b0c44298fc1c149afbf4c8996fb92427ae41e4649b934ca495991b7852b855"
            );
            assert_eq!(
                expected,
                "ba7816bf8f01cfea414140de5dae2223b00361a396177a9cb410ff61f20015ad"
            );
        }
        other => panic!("unexpected result {other:?}"),
    }
}

#[test]
fn classifying_twice_or_a_prefix_gives_the_same_kinds() {
    let units = vec![
        test_unit("Abstract", 1, 0),
        test_unit("A purely peer-to-peer payment can be sent directly between two parties.", 1, 10),
        test_unit("References", 2, 0),
        test_unit("A long sentence after the references heading goes on here.", 2, 20),
    ];
    let mut once = units.clone();
    classify_canonical_reading_units(&mut once);
    let mut twice = once.clone();
    classify_canonical_reading_units(&mut twice);
    let kinds = |v: &[CanonicalReadingUnit]| v.iter().map(|u| u.candidate_kind).collect::<Vec<_>>();
    assert_eq!(kinds(&once), kinds(&twice));
    assert_eq!(
        kinds(&once),
        vec![
            CandidateKind::Heading,
            CandidateKind::BodySentence,
            CandidateKind::Heading,
            CandidateKind::Reference,
        ]
    );
    let mut prefix = units[..2].to_vec();
    classify_canonical_reading_units(&mut prefix);
    assert_eq!(kinds(&prefix), kinds(&once[..2]));
}
