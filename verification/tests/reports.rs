use delta_reader_backend::quest::build_quests_from_annotations;
use delta_reader_backend::diagnostics::{kind_examples, sentence_diagnostics};
use delta_reader_backend::evaluation::{
    analyze_fixture, detailed_labels, gate_diagnostics, labeled_pairs, mismatched, GoldLabel,
    ProductBaseline,
};
use delta_reader_backend::fixture::{
    gold_template, valid_fixture_type, CandidateExport, LabelIssue, ManualGoldLabel, ReviewFinding,
};
use delta_reader_backend::models::{
    CandidateKind, CanonicalExtractorMetadata, CanonicalExtractorOptions, CanonicalItemRange,
    CanonicalReadingUnit, CanonicalTextModel, CanonicalTextPage, Priority, ReaderDirective,
    TextQuoteSelector,
};
use delta_reader_backend::review::{
    candidates_by_page, count_equal, debug_kind_name, finding_message, issue_message,
    labeled_page_names, sorted_unique, suspicious_labels,
};

fn unit_on(id: &str, page: usize, kind: CandidateKind, text: &str) -> CanonicalReadingUnit {
    CanonicalReadingUnit {
        sentence_id: id.to_owned(),
        page,
        text: text.to_owned(),
        normalized_text: text.to_owned(),
        norm_start: 0,
        norm_end: 1,
        start_item_id: "i".to_owned(),
        end_item_id: "i".to_owned(),
        item_ranges: vec![CanonicalItemRange {
            item_id: "i".to_owned(),
            normalized_start: 0,
            normalized_end: 1,
        }],
        quote_selector: TextQuoteSelector {
            exact: text.to_owned(),
            prefix: String::new(),
            suffix: String::new(),
        },
        candidate_kind: kind,
    }
}

fn model_with_pages(pages: &[usize]) -> CanonicalTextModel {
    CanonicalTextModel {
        schema_version: "1.0".to_owned(),
        document_id: 0,
        pdf_hash: "0".repeat(64),
        extractor: CanonicalExtractorMetadata {
            name: "pdfjs".to_owned(),
            version: "1".to_owned(),
            options: CanonicalExtractorOptions {
                disable_font_face: true,
                include_marked_content: false,
                use_system_fonts: false,
            },
        },
        pages: pages
            .iter()
            .map(|page| CanonicalTextPage {
                page: *page,
                raw_text: String::new(),
                normalized_text: String::new(),
                text_items: Vec::new(),
            })
            .collect(),
    }
}

fn export_on(id: &str, page: usize, kind: CandidateKind, length: usize) -> CandidateExport {
    CandidateExport {
        sentence_id: id.to_owned(),
        page,
        candidate_kind: kind,
        text: format!("Text of {id}."),
        normalized_text: format!("Text of {id}."),
        length,
        item_ranges_present: true,
        tags: Vec::new(),
    }
}

fn manual(id: &str, priority: &str, directive: &str, reason: &str) -> ManualGoldLabel {
    ManualGoldLabel {
        sentence_id: id.to_owned(),
        text: String::new(),
        expected_priority: priority.to_owned(),
        expected_directive: directive.to_owned(),
        reason: reason.to_owned(),
        label_type: None,
        difficulty: None,
        tags: Vec::new(),
        annotator: None,
        review_status: None,
        allow_non_body: false,
    }
}

#[test]
fn sentence_diagnostics_count_pages_lengths_and_kinds() {
    let long_text = "x".repeat(501);
    let units = vec![
        unit_on("cp1s1", 1, CandidateKind::BodySentence, "A body sentence that is long enough."),
        unit_on("cp1s2", 1, CandidateKind::ShortFragment, "Short."),
        unit_on("cp3s1", 3, CandidateKind::BodySentence, &long_text),
        unit_on("cp3s2", 3, CandidateKind::Heading, "Caf\u{e9} \u{1F600} heading text here"),
    ];
    let model = model_with_pages(&[1, 2, 3]);
    let d = sentence_diagnostics(&model, &units);
    assert_eq!(d.page_count, 3);
    assert_eq!(d.sentence_count, 4);
    assert_eq!(d.per_page, vec![(1, 2), (2, 0), (3, 2)]);
    // The emoji counts as two UTF-16 units.
    assert_eq!(d.total_length, 36 + 6 + 501 + 25);
    assert_eq!(d.long_count, 1);
    assert_eq!(d.short_count, 2);
    assert_eq!(
        d.kind_counts,
        vec![
            (CandidateKind::BodySentence, 2),
            (CandidateKind::Heading, 1),
            (CandidateKind::Metadata, 0),
            (CandidateKind::Reference, 0),
            (CandidateKind::FormulaOrTable, 0),
            (CandidateKind::ShortFragment, 1),
            (CandidateKind::Unknown, 0),
        ]
    );
}

#[test]
fn units_on_pages_the_model_lacks_are_still_tallied() {
    let units = vec![unit_on("cp9s1", 9, CandidateKind::Unknown, "Stray.")];
    let d = sentence_diagnostics(&model_with_pages(&[2]), &units);
    assert_eq!(d.per_page, vec![(2, 0), (9, 1)]);
}

#[test]
fn kind_examples_take_the_first_units_of_a_kind() {
    let units = vec![
        unit_on("a", 1, CandidateKind::BodySentence, "One."),
        unit_on("b", 1, CandidateKind::Heading, "Two"),
        unit_on("c", 1, CandidateKind::BodySentence, "Three."),
        unit_on("d", 1, CandidateKind::BodySentence, "Four."),
    ];
    assert_eq!(kind_examples(&units, CandidateKind::BodySentence, 2), vec![0, 2]);
    assert_eq!(kind_examples(&units, CandidateKind::BodySentence, 5), vec![0, 2, 3]);
    assert!(kind_examples(&units, CandidateKind::Reference, 3).is_empty());
}

#[test]
fn issue_and_finding_messages_name_the_sentence() {
    assert_eq!(
        issue_message(&LabelIssue::DuplicateSentence("cp1s1".to_owned())),
        "duplicate sentence_id cp1s1"
    );
    assert_eq!(
        issue_message(&LabelIssue::InvalidValue {
            sentence_id: "cp1s2".to_owned(),
            field: "difficulty",
            value: "extreme".to_owned(),
        }),
        "cp1s2 has invalid difficulty 'extreme'"
    );
    assert_eq!(
        issue_message(&LabelIssue::NonBody {
            sentence_id: "cp2s1".to_owned(),
            kind: CandidateKind::FormulaOrTable,
        }),
        "cp2s1 targets FormulaOrTable; set allow_non_body=true only when intentional"
    );
    assert_eq!(
        finding_message(&ReviewFinding::VeryShortDelta("cp1s3".to_owned(), 12)),
        "cp1s3 is a very short delta (12 chars)"
    );
    assert_eq!(
        finding_message(&ReviewFinding::NonBodyDelta("cp1s4".to_owned(), CandidateKind::Metadata)),
        "cp1s4 labels Metadata as delta"
    );
    assert_eq!(
        finding_message(&ReviewFinding::CrowdedPage(4, 7)),
        "page 4 has 7 highlights"
    );
    assert_eq!(
        finding_message(&ReviewFinding::MissingBody("cp5s1".to_owned())),
        "missing body candidate cp5s1"
    );
    assert_eq!(debug_kind_name(CandidateKind::BodySentence), "BodySentence");
}

#[test]
fn sorted_unique_sorts_by_character_and_drops_repeats() {
    let values = vec![
        "b".to_owned(),
        "a".to_owned(),
        String::new(),
        "b".to_owned(),
        "B".to_owned(),
        "ab".to_owned(),
    ];
    assert_eq!(sorted_unique(&values), vec!["B", "a", "ab", "b"]);
}

#[test]
fn suspicious_labels_gather_issues_findings_crowded_pages_and_gaps() {
    let mut candidates = vec![export_on("cp1s1", 1, CandidateKind::Reference, 50)];
    for k in 2..=8 {
        candidates.push(export_on(&format!("cp2s{k}"), 2, CandidateKind::BodySentence, 10));
    }
    candidates.push(export_on("cp3s1", 3, CandidateKind::BodySentence, 40));
    let mut labels = vec![manual("cp1s1", "delta", "highlight", "")];
    for k in 2..=8 {
        labels.push(manual(&format!("cp2s{k}"), "familiar", "highlight", "Seen."));
    }
    labels.push(manual("cp9s9", "bridge", "callout", "Gone."));
    let lines = suspicious_labels(&candidates, &labels);
    assert_eq!(
        lines,
        vec![
            "cp1s1 has an empty reason",
            "cp1s1 is a delta with an empty reason",
            "cp1s1 labels Reference as delta",
            "cp1s1 targets Reference; set allow_non_body=true only when intentional",
            "missing body candidate cp3s1",
            "page 2 has 7 highlights",
            "unknown sentence_id cp9s9",
        ]
    );
}

#[test]
fn labeled_pages_and_value_counts_follow_the_labels() {
    let candidates = vec![
        export_on("cp1s1", 1, CandidateKind::BodySentence, 40),
        export_on("cp12s1", 12, CandidateKind::BodySentence, 40),
    ];
    let labels = vec![
        manual("cp12s1", "delta", "highlight", "r"),
        manual("cp9s9", "delta", "highlight", "r"),
        manual("cp1s1", "bridge", "callout", "r"),
    ];
    assert_eq!(labeled_page_names(&candidates, &labels), vec!["12", "1"]);
    let priorities = labels.iter().map(|l| l.expected_priority.clone()).collect::<Vec<_>>();
    assert_eq!(count_equal(&priorities, "delta"), 2);
    assert_eq!(count_equal(&priorities, "familiar"), 0);
}

#[test]
fn candidate_sheet_groups_by_ascending_page() {
    let candidates = vec![
        export_on("a", 3, CandidateKind::BodySentence, 40),
        export_on("b", 1, CandidateKind::BodySentence, 40),
        export_on("c", 3, CandidateKind::Heading, 40),
        export_on("d", 2, CandidateKind::BodySentence, 40),
    ];
    assert_eq!(
        candidates_by_page(&candidates),
        vec![(1, vec![1]), (2, vec![3]), (3, vec![0, 2])]
    );
}

#[test]
fn gold_template_blanks_every_body_sentence() {
    let candidates = vec![
        export_on("cp1s1", 1, CandidateKind::Heading, 10),
        export_on("cp1s2", 1, CandidateKind::BodySentence, 40),
        export_on("cp1s3", 1, CandidateKind::BodySentence, 40),
    ];
    let template = gold_template(&candidates);
    assert_eq!(template.len(), 2);
    assert_eq!(template[0].sentence_id, "cp1s2");
    assert_eq!(template[0].text, "Text of cp1s2.");
    assert_eq!(template[1].sentence_id, "cp1s3");
    assert!(template[0].expected_priority.is_empty());
    assert_eq!(template[0].label_type.as_deref(), Some(""));
    assert_eq!(template[0].review_status.as_deref(), Some(""));
    assert!(!template[0].allow_non_body);
}

#[test]
fn fixture_types_are_smoke_realistic_or_adversarial() {
    assert!(valid_fixture_type("smoke"));
    assert!(valid_fixture_type("adversarial"));
    assert!(!valid_fixture_type("Smoke"));
    assert!(!valid_fixture_type(""));
}

fn gold_label(id: &str, p: Priority, d: ReaderDirective) -> GoldLabel {
    GoldLabel {
        sentence_id: id.to_owned(),
        expected_priority: p,
        expected_directive: d,
        reason: "r".to_owned(),
    }
}

#[test]
fn labels_are_paired_with_their_units_and_predictions() {
    let baseline = ProductBaseline {
        reader_profile: "Experienced retrieval lead".to_owned(),
        known_concepts: Vec::new(),
        familiar_claims: vec!["previously validated configuration".to_owned()],
        interests: vec!["adaptive freshness budget".to_owned()],
        explicit_not_interested_topics: Vec::new(),
    };
    let units = vec![
        unit_on("cp1s1", 1, CandidateKind::Heading, "Results"),
        unit_on(
            "cp1s2",
            1,
            CandidateKind::BodySentence,
            "An adaptive freshness budget was in the previously validated configuration.",
        ),
        unit_on("cp1s3", 1, CandidateKind::BodySentence, "Plain text about nothing."),
    ];
    let predictions = analyze_fixture(&units, &baseline);
    assert_eq!(predictions.len(), 2);
    let gold = vec![
        gold_label("cp1s3", Priority::Bridge, ReaderDirective::LeaveNormal),
        gold_label("cp1s1", Priority::Familiar, ReaderDirective::LeaveNormal),
        gold_label("cp1s2", Priority::Delta, ReaderDirective::Highlight),
    ];
    assert_eq!(labeled_pairs(&gold, &predictions), vec![(0, 1), (2, 0)]);
    assert_eq!(detailed_labels(&gold, &units, &predictions), vec![(0, 2, 1), (2, 1, 0)]);
    assert!(!mismatched(&gold[0], &predictions[1].1));
    assert!(mismatched(&gold[2], &predictions[0].1));
    let gate = gate_diagnostics(&predictions);
    assert_eq!(gate.delta_eligibility_checked, 1);
    assert_eq!(gate.delta_demoted_by_familiar_claim, 1);
    assert_eq!(gate.delta_kept_due_to_novelty_cue, 0);
}

fn chunk(id: &str, page: usize) -> delta_reader_backend::models::TextChunk {
    delta_reader_backend::models::TextChunk { id: id.to_owned(), page, text: "Text.".to_owned() }
}

fn chunk_annotation(id: &str, priority: Priority) -> delta_reader_backend::models::ChunkAnnotation {
    delta_reader_backend::models::ChunkAnnotation {
        chunk_id: id.to_owned(),
        source: delta_reader_backend::models::AnnotationSource::Ai,
        priority,
        directive: ReaderDirective::Highlight,
        confidence: 900_000,
        rationale: "r".to_owned(),
        reader_label: "l".to_owned(),
    }
}

#[test]
fn chunk_quests_ask_about_the_pages_of_delta_chunks() {
    let chunks = vec![chunk("p1c1", 1), chunk("p2c1", 2), chunk("p3c1", 3)];
    let annotations = vec![
        chunk_annotation("p1c1", Priority::Familiar),
        chunk_annotation("p3c1", Priority::Delta),
        chunk_annotation("p9c9", Priority::Delta),
        chunk_annotation("p2c1", Priority::Delta),
    ];
    let quests = build_quests_from_annotations(&chunks, &annotations);
    assert_eq!(quests.len(), 2);
    assert_eq!(quests[0].id, "quest-1");
    assert_eq!(
        quests[0].question,
        "On page 3, what new claim, mechanism, or tradeoff is worth slowing down for?"
    );
    assert_eq!(quests[0].anchor_chunk_ids, vec!["p3c1"]);
    assert_eq!(quests[1].id, "quest-2");
    assert_eq!(quests[1].anchor_chunk_ids, vec!["p2c1"]);

    let none = build_quests_from_annotations(&chunks, &[chunk_annotation("p1c1", Priority::Bridge)]);
    assert_eq!(none.len(), 1);
    assert_eq!(
        none[0].question,
        "Which part of the author's argument changes what you already believed?"
    );
    assert_eq!(none[0].anchor_chunk_ids, vec!["p1c1", "p2c1"]);
}
