use delta_reader_backend::delta_policy::DeltaEligibilityDiagnostics;
use delta_reader_backend::evaluation::ProductBaseline;
use delta_reader_backend::fixture::{
    count_pages, count_values, export_candidate, format_counts, highlight_label_pages,
    label_issues, missing_body_candidates, review_counts, review_label_findings,
    validate_baseline, CandidateExport, LabelIssue, ManualGoldLabel, ReviewFinding,
};
use delta_reader_backend::models::{
    CandidateKind, CanonicalItemRange, CanonicalReadingUnit, TextQuoteSelector, UserBaseline,
};
use delta_reader_backend::session::{DocumentSession, SessionStore, SESSION_TTL_MS};

fn unit(id: &str, kind: CandidateKind, text: &str, ranges: usize) -> CanonicalReadingUnit {
    CanonicalReadingUnit {
        sentence_id: id.to_owned(),
        page: 2,
        text: text.to_owned(),
        normalized_text: text.to_owned(),
        norm_start: 0,
        norm_end: 1,
        start_item_id: "i".to_owned(),
        end_item_id: "i".to_owned(),
        item_ranges: (0..ranges)
            .map(|k| CanonicalItemRange {
                item_id: format!("i{k}"),
                normalized_start: 0,
                normalized_end: 1,
            })
            .collect(),
        quote_selector: TextQuoteSelector {
            exact: text.to_owned(),
            prefix: String::new(),
            suffix: String::new(),
        },
        candidate_kind: kind,
    }
}

fn export(id: &str, kind: CandidateKind, length: usize) -> CandidateExport {
    CandidateExport {
        sentence_id: id.to_owned(),
        page: 1,
        candidate_kind: kind,
        text: "t".to_owned(),
        normalized_text: "t".to_owned(),
        length,
        item_ranges_present: true,
        tags: Vec::new(),
    }
}

fn gold(id: &str, priority: &str, directive: &str, reason: &str) -> ManualGoldLabel {
    ManualGoldLabel {
        sentence_id: id.to_owned(),
        text: String::new(),
        expected_priority: priority.to_owned(),
        expected_directive: directive.to_owned(),
        reason: reason.to_owned(),
        label_type: None,
        difficulty: None,
        tags: Vec::new(),
        annotator: None,
        review_status: None,
        allow_non_body: false,
    }
}

#[test]
fn export_tags_short_numeric_and_multi_item_sentences() {
    let short = export_candidate(&unit("cp2s1", CandidateKind::ShortFragment, "Up 31%.", 2));
    assert_eq!(
        short.tags,
        vec!["very_short", "contains_numeric_result", "multi_item_range"]
    );
    assert_eq!(short.length, 7);
    assert!(short.item_ranges_present);
    let plain = export_candidate(&unit(
        "cp2s2",
        CandidateKind::BodySentence,
        "A sentence long enough to avoid the short tag entirely.",
        0,
    ));
    assert!(plain.tags.is_empty());
    assert!(!plain.item_ranges_present);
    assert_eq!(plain.page, 2);
}

#[test]
fn label_issues_are_found_in_order() {
    let candidates = vec![
        export("cp1s1", CandidateKind::BodySentence, 40),
        export("cp1s2", CandidateKind::Reference, 40),
    ];
    let mut odd = gold("cp1s1", "novel", "paint", "  ");
    odd.difficulty = Some("extreme".to_owned());
    odd.review_status = Some(String::new());
    let labels = vec![
        gold("cp1s1", "delta", "highlight", "New result."),
        odd,
        gold("cp9s9", "delta", "highlight", "x"),
        gold("cp1s2", "familiar", "leave_normal", "Ref."),
    ];
    let issues = label_issues(&candidates, &labels);
    assert_eq!(issues.len(), 7);
    assert!(matches!(&issues[0], LabelIssue::DuplicateSentence(id) if id == "cp1s1"));
    assert!(matches!(&issues[1], LabelIssue::InvalidPriority(id) if id == "cp1s1"));
    assert!(matches!(&issues[2], LabelIssue::InvalidDirective(id) if id == "cp1s1"));
    assert!(matches!(&issues[3], LabelIssue::EmptyReason(id) if id == "cp1s1"));
    assert!(matches!(&issues[4], LabelIssue::InvalidValue { field, value, .. } if *field == "difficulty" && value == "extreme"));
    assert!(matches!(&issues[5], LabelIssue::UnknownSentence(id) if id == "cp9s9"));
    assert!(matches!(&issues[6], LabelIssue::NonBody { kind: CandidateKind::Reference, .. }));
}

#[test]
fn value_counts_are_sorted_and_skip_empty_values() {
    let values = vec![
        "delta".to_owned(),
        "bridge".to_owned(),
        String::new(),
        "delta".to_owned(),
        "10".to_owned(),
        "2".to_owned(),
    ];
    let counts = count_values(&values);
    assert_eq!(
        counts,
        vec![
            ("10".to_owned(), 1),
            ("2".to_owned(), 1),
            ("bridge".to_owned(), 1),
            ("delta".to_owned(), 2)
        ]
    );
    assert_eq!(format_counts(&counts), "10=1, 2=1, bridge=1, delta=2");
    assert_eq!(format_counts(&[]), "");
    assert_eq!(count_pages(&[3, 1, 3, 2, 3]), vec![(1, 1), (2, 1), (3, 3)]);
}

#[test]
fn review_counts_and_findings() {
    let candidates = vec![
        export("cp1s1", CandidateKind::BodySentence, 12),
        export("cp1s2", CandidateKind::Metadata, 40),
        export("cp1s3", CandidateKind::BodySentence, 40),
    ];
    let mut trap = gold("cp1s2", "delta", "highlight", "");
    trap.tags = vec!["trap".to_owned()];
    trap.review_status = Some("approved".to_owned());
    let labels = vec![gold("cp1s1", "delta", "highlight", "Short."), trap];
    let counts = review_counts(&candidates, &labels);
    assert_eq!(counts.body_count, 2);
    assert_eq!(counts.labeled_body, 1);
    assert_eq!(counts.trap_count, 1);
    assert_eq!(counts.draft_count, 1);
    assert_eq!(counts.reviewed_count, 1);
    let findings = review_label_findings(&candidates, &labels);
    assert_eq!(findings.len(), 3);
    assert!(matches!(&findings[0], ReviewFinding::VeryShortDelta(id, 12) if id == "cp1s1"));
    assert!(matches!(&findings[1], ReviewFinding::DeltaWithoutReason(id) if id == "cp1s2"));
    assert!(matches!(&findings[2], ReviewFinding::NonBodyDelta(id, CandidateKind::Metadata) if id == "cp1s2"));
    assert_eq!(highlight_label_pages(&candidates, &labels), vec![1, 1]);
    assert_eq!(missing_body_candidates(&candidates, &labels), vec!["cp1s3"]);
}

#[test]
fn baseline_needs_a_reader_profile() {
    let mut b = ProductBaseline {
        reader_profile: "  ".to_owned(),
        known_concepts: Vec::new(),
        familiar_claims: Vec::new(),
        interests: Vec::new(),
        explicit_not_interested_topics: Vec::new(),
    };
    assert!(validate_baseline(&b).is_err());
    b.reader_profile = "Analyst".to_owned();
    assert!(validate_baseline(&b).is_ok());
}

fn session(id: u128, uploaded_at_ms: i64) -> DocumentSession {
    DocumentSession {
        id,
        filename: "document.pdf".to_owned(),
        uploaded_at_ms,
        page_count: 1,
        pdf_bytes: Vec::new(),
        chunks: Vec::new(),
        sentence_candidates: Vec::new(),
        canonical_text_model: None,
        canonical_sentence_candidates: Vec::new(),
        concepts: Vec::new(),
        baseline: None,
        quests: Vec::new(),
        annotations: Vec::new(),
        reading_anchors: Vec::new(),
        canonical_sentence_annotations: Vec::new(),
        delta_eligibility_diagnostics: DeltaEligibilityDiagnostics::default(),
    }
}

#[test]
fn sessions_expire_six_hours_after_upload() {
    let mut store = SessionStore::new();
    store.insert(session(1, 0), 0);
    store.insert(session(2, 1_000), 1_000);
    assert!(store.get(1, SESSION_TTL_MS).is_some());
    assert!(store.get(1, SESSION_TTL_MS + 1).is_none());
    assert_eq!(store.get(2, SESSION_TTL_MS + 1).unwrap().id, 2);
    assert!(store.get(2, SESSION_TTL_MS + 1_001).is_none());
    assert!(store.get(3, 0).is_none());
}

#[test]
fn baseline_set_on_a_session_is_read_back() {
    let mut store = SessionStore::new();
    store.insert(session(7, 100), 100);
    let baseline = UserBaseline {
        express_text: "I know retrieval.".to_owned(),
        mastered_concept_ids: vec!["concept-1".to_owned()],
    };
    assert!(store.set_baseline(7, baseline.clone(), 200));
    assert!(!store.set_baseline(8, baseline, 200));
    let got = store.get(7, 300).unwrap();
    assert_eq!(
        got.baseline.as_ref().unwrap().express_text,
        "I know retrieval."
    );
    assert!(store.record_analysis(
        7,
        Vec::new(),
        Vec::new(),
        Vec::new(),
        Vec::new(),
        DeltaEligibilityDiagnostics::default(),
        400
    ));
    assert!(!store.record_analysis(
        7,
        Vec::new(),
        Vec::new(),
        Vec::new(),
        Vec::new(),
        DeltaEligibilityDiagnostics::default(),
        100 + SESSION_TTL_MS + 1
    ));
}
