use delta_reader_backend::ai::{apply_delta_eligibility_gate, baseline_claims};
use delta_reader_backend::analysis::finish_analysis;
use delta_reader_backend::annotation::{
    canonical_annotation_from_candidate, normalize_annotation, validate_annotations,
    validate_canonical_annotations, validate_reading_anchors, RawCanonicalAnnotation,
    RawChunkAnnotation, RawReadingAnchor,
};
use delta_reader_backend::keywords::keyword_candidates;
use delta_reader_backend::mock::{mock_canonical_analysis, AiAnalysis, MockProvider};
use delta_reader_backend::models::{
    AnnotationSource, CandidateKind, CanonicalItemRange, CanonicalReadingUnit, ConceptTag,
    Priority, ReaderDirective, SentenceCandidate, TextChunk, TextQuoteSelector, UserBaseline,
};
use delta_reader_backend::pdf::extract_sentence_candidates;
use delta_reader_backend::quest::build_quests_from_canonical_annotations;

fn canonical_candidate(sentence_id: &str, kind: CandidateKind) -> CanonicalReadingUnit {
    let text = "This canonical body sentence is long enough for a safe inline annotation.";
    CanonicalReadingUnit {
        sentence_id: sentence_id.to_owned(),
        page: if sentence_id.starts_with("cp9") { 9 } else { 1 },
        text: text.to_owned(),
        normalized_text: text.to_owned(),
        norm_start: 0,
        norm_end: text.encode_utf16().count(),
        start_item_id: "p1i1".to_owned(),
        end_item_id: "p1i1".to_owned(),
        item_ranges: vec![CanonicalItemRange {
            item_id: "p1i1".to_owned(),
            normalized_start: 0,
            normalized_end: text.encode_utf16().count(),
        }],
        quote_selector: TextQuoteSelector {
            exact: text.to_owned(),
            prefix: "Earlier context".to_owned(),
            suffix: "Later context".to_owned(),
        },
        candidate_kind: kind,
    }
}

fn empty_baseline() -> UserBaseline {
    UserBaseline {
        express_text: String::new(),
        mastered_concept_ids: Vec::new(),
    }
}

#[test]
fn mock_provider_marks_mastered_concepts_familiar() {
    let provider = MockProvider;
    let chunks = vec![TextChunk {
        id: "p1c1".to_owned(),
        page: 1,
        text: "This section explains transformers and attention.".to_owned(),
    }];
    let concepts = vec![ConceptTag {
        id: "concept-1".to_owned(),
        label: "Transformers".to_owned(),
        description: "Model family".to_owned(),
    }];
    let baseline = UserBaseline {
        express_text: String::new(),
        mastered_concept_ids: vec!["concept-1".to_owned()],
    };
    let sentence_candidates = extract_sentence_candidates(&chunks);

    let result = provider.analyze_delta(&chunks, &[], &sentence_candidates, &concepts, &baseline);

    assert!(result.annotations.is_empty());
    assert!(matches!(result.reading_anchors[0].priority, Priority::Familiar));
    assert!(matches!(result.reading_anchors[0].source, AnnotationSource::Mock));
    assert!(matches!(result.reading_anchors[0].directive, ReaderDirective::SoftFade));
}

#[test]
fn fallback_annotations_do_not_manipulate_pdf_text() {
    let chunks = vec![TextChunk {
        id: "p1c1".to_owned(),
        page: 1,
        text: "A long omitted chunk. ".repeat(80),
    }];

    let annotations = validate_annotations(&chunks, Vec::new());

    assert!(matches!(annotations[0].priority, Priority::Delta));
    assert!(matches!(annotations[0].source, AnnotationSource::Fallback));
    assert!(matches!(annotations[0].directive, ReaderDirective::LeaveNormal));
}

#[test]
fn rejects_unknown_sentence_ids() {
    let candidates = vec![SentenceCandidate {
        sentence_id: "p1c1s1".to_owned(),
        chunk_id: "p1c1".to_owned(),
        page: 1,
        text: "This complete sentence is long enough to anchor safely.".to_owned(),
        char_start: 0,
        char_end: 54,
    }];
    let anchors = validate_reading_anchors(
        &candidates,
        vec![RawReadingAnchor {
            sentence_ids: vec!["unknown".to_owned()],
            priority: "delta".to_owned(),
            directive: "highlight".to_owned(),
            confidence: Some(900_000),
            rationale: "unknown".to_owned(),
            reader_label: String::new(),
        }],
    );
    assert!(anchors.is_empty());
}

#[test]
fn canonical_validation_rejects_unknown_and_missing_ranges() {
    let valid = canonical_candidate("cp1s1", CandidateKind::BodySentence);
    let mut missing_ranges = canonical_candidate("cp1s2", CandidateKind::BodySentence);
    missing_ranges.item_ranges.clear();
    let raw = |sentence_id: &str| RawCanonicalAnnotation {
        sentence_id: sentence_id.to_owned(),
        priority: "delta".to_owned(),
        directive: "highlight".to_owned(),
        confidence: Some(900_000),
        rationale: "Novel mechanism.".to_owned(),
        reader_label: String::new(),
    };

    assert!(validate_canonical_annotations(
        &[valid.clone(), missing_ranges.clone()],
        vec![raw("unknown")],
        AnnotationSource::Ai,
    )
    .is_empty());
    assert!(validate_canonical_annotations(
        &[valid, missing_ranges],
        vec![raw("cp1s2")],
        AnnotationSource::Ai,
    )
    .is_empty());
    assert!(validate_canonical_annotations(
        &[canonical_candidate("cp1s1", CandidateKind::BodySentence)],
        vec![RawCanonicalAnnotation {
            sentence_id: "cp1s1".to_owned(),
            priority: "novel".to_owned(),
            directive: "paint".to_owned(),
            confidence: Some(900_000),
            rationale: "Invalid enums.".to_owned(),
            reader_label: String::new(),
        }],
        AnnotationSource::Ai,
    )
    .is_empty());
}

#[test]
fn canonical_annotation_resolves_ranges_and_quote_selector() {
    let candidate = canonical_candidate("cp1s1", CandidateKind::BodySentence);
    let annotations = validate_canonical_annotations(
        std::slice::from_ref(&candidate),
        vec![RawCanonicalAnnotation {
            sentence_id: candidate.sentence_id.clone(),
            priority: "delta".to_owned(),
            directive: "highlight".to_owned(),
            confidence: Some(910_000),
            rationale: "Novel mechanism.".to_owned(),
            reader_label: String::new(),
        }],
        AnnotationSource::Ai,
    );

    assert_eq!(annotations.len(), 1);
    assert_eq!(annotations[0].item_ranges.len(), 1);
    assert_eq!(annotations[0].item_ranges[0].item_id, "p1i1");
    assert_eq!(annotations[0].quote_selector.exact, candidate.normalized_text);
    assert_eq!(annotations[0].quote_selector.prefix, "Earlier context");
    assert_eq!(annotations[0].quote_selector.suffix, "Later context");
    assert_eq!(annotations[0].source_text, candidate.normalized_text);
    assert_eq!(annotations[0].annotation_id, "ca-cp1s1");
    assert_eq!(annotations[0].confidence, 910_000);
    assert_eq!(annotations[0].reader_label, "New insight");
}

#[test]
fn metadata_and_references_cannot_be_inline_targets() {
    let metadata = canonical_candidate("cp1s1", CandidateKind::Metadata);
    let reference = canonical_candidate("cp9s1", CandidateKind::Reference);
    let raw = |sentence_id: &str, directive: &str, priority: &str| RawCanonicalAnnotation {
        sentence_id: sentence_id.to_owned(),
        priority: priority.to_owned(),
        directive: directive.to_owned(),
        confidence: Some(900_000),
        rationale: "Context.".to_owned(),
        reader_label: String::new(),
    };

    assert!(validate_canonical_annotations(
        &[metadata.clone(), reference.clone()],
        vec![raw("cp1s1", "highlight", "delta")],
        AnnotationSource::Ai,
    )
    .is_empty());
    assert!(validate_canonical_annotations(
        &[metadata.clone(), reference],
        vec![raw("cp9s1", "soft_fade", "familiar")],
        AnnotationSource::Ai,
    )
    .is_empty());
    let callout = validate_canonical_annotations(
        &[metadata],
        vec![raw("cp1s1", "callout", "bridge")],
        AnnotationSource::Ai,
    );
    assert_eq!(callout.len(), 1, "non-inline callouts remain valid");
}

#[test]
fn mock_canonical_analysis_prefers_body_sentences() {
    let candidates = vec![
        canonical_candidate("cp1s1", CandidateKind::Metadata),
        canonical_candidate("cp1s2", CandidateKind::BodySentence),
        canonical_candidate("cp1s3", CandidateKind::Reference),
    ];
    let analysis = mock_canonical_analysis(&candidates, &[], &empty_baseline());

    assert_eq!(analysis.canonical_annotations.len(), 1);
    assert_eq!(analysis.canonical_annotations[0].sentence_id, "cp1s2");
    assert_eq!(
        analysis.canonical_annotations[0].candidate_kind,
        CandidateKind::BodySentence
    );
}

#[test]
fn post_validation_gate_demotes_familiar_delta_and_keeps_new_result() {
    let mut familiar_candidate = canonical_candidate("cp1s1", CandidateKind::BodySentence);
    familiar_candidate.normalized_text =
        "This was part of the previously validated configuration.".to_owned();
    let mut novel_candidate = canonical_candidate("cp1s2", CandidateKind::BodySentence);
    novel_candidate.normalized_text =
        "Evaluation shows the previously validated configuration reduced errors by 31 percent."
            .to_owned();
    let mut annotations = vec![
        canonical_annotation_from_candidate(
            &familiar_candidate,
            Priority::Delta,
            ReaderDirective::Highlight,
            900_000,
            "Predicted delta.".to_owned(),
            "New insight".to_owned(),
            AnnotationSource::Ai,
        ),
        canonical_annotation_from_candidate(
            &novel_candidate,
            Priority::Delta,
            ReaderDirective::Highlight,
            900_000,
            "Predicted delta.".to_owned(),
            "New insight".to_owned(),
            AnnotationSource::Ai,
        ),
    ];
    let diagnostics = apply_delta_eligibility_gate(
        &mut annotations,
        &[],
        &UserBaseline {
            express_text: "previously validated configuration".to_owned(),
            mastered_concept_ids: Vec::new(),
        },
    );

    assert_eq!(annotations[0].priority, Priority::Familiar);
    assert_eq!(annotations[0].directive, ReaderDirective::LeaveNormal);
    assert_eq!(annotations[1].priority, Priority::Delta);
    assert_eq!(diagnostics.delta_eligibility_checked, 2);
    assert_eq!(diagnostics.delta_demoted_by_familiar_claim, 1);
    assert_eq!(diagnostics.delta_kept_due_to_novelty_cue, 1);
    assert_eq!(diagnostics.familiar_claim_overlap_count, 2);
}

#[test]
fn rejects_chunk_sized_reading_anchors() {
    let long_text = format!("{}.", "Long sentence content ".repeat(30));
    let candidates = vec![SentenceCandidate {
        sentence_id: "p1c1s1".to_owned(),
        chunk_id: "p1c1".to_owned(),
        page: 1,
        text: long_text.clone(),
        char_start: 0,
        char_end: long_text.chars().count(),
    }];
    let anchors = validate_reading_anchors(
        &candidates,
        vec![RawReadingAnchor {
            sentence_ids: vec!["p1c1s1".to_owned()],
            priority: "delta".to_owned(),
            directive: "highlight".to_owned(),
            confidence: Some(900_000),
            rationale: "too long".to_owned(),
            reader_label: String::new(),
        }],
    );
    assert!(anchors.is_empty());
}

#[test]
fn normalizes_confidence_and_missing_label() {
    let chunk = TextChunk {
        id: "p1c1".to_owned(),
        page: 1,
        text: "Novel mechanism.".to_owned(),
    };
    let raw = RawChunkAnnotation {
        chunk_id: "p1c1".to_owned(),
        priority: "delta".to_owned(),
        directive: "highlight".to_owned(),
        confidence: Some(2_500_000),
        rationale: "Useful novelty.".to_owned(),
        reader_label: String::new(),
    };

    let annotation = normalize_annotation(&chunk, &raw);

    assert_eq!(annotation.confidence, 1_000_000);
    assert_eq!(annotation.reader_label, "New insight");
    assert!(matches!(annotation.source, AnnotationSource::Ai));
}

#[test]
fn misplaced_directive_in_priority_is_conservative_not_error() {
    let chunks = vec![TextChunk {
        id: "p1c1".to_owned(),
        page: 1,
        text: "Brief context.".to_owned(),
    }];
    let annotations = validate_annotations(
        &chunks,
        vec![RawChunkAnnotation {
            chunk_id: "p1c1".to_owned(),
            priority: "leave_normal".to_owned(),
            directive: "leave_normal".to_owned(),
            confidence: Some(730_000),
            rationale: "Ordinary background.".to_owned(),
            reader_label: String::new(),
        }],
    );

    assert!(matches!(annotations[0].priority, Priority::Bridge));
    assert!(matches!(annotations[0].directive, ReaderDirective::LeaveNormal));
    assert_eq!(annotations[0].confidence, 730_000);
}

#[test]
fn anchors_join_consecutive_sentences_of_one_chunk() {
    let chunks = vec![TextChunk {
        id: "p1c1".to_owned(),
        page: 1,
        text: "The first sentence is here today. The second sentence follows it closely."
            .to_owned(),
    }];
    let candidates = extract_sentence_candidates(&chunks);
    let anchors = validate_reading_anchors(
        &candidates,
        vec![RawReadingAnchor {
            sentence_ids: vec!["p1c1s1".to_owned(), "p1c1s2".to_owned()],
            priority: "bridge".to_owned(),
            directive: "callout".to_owned(),
            confidence: None,
            rationale: "Context.".to_owned(),
            reader_label: "  ".to_owned(),
        }],
    );
    assert_eq!(anchors.len(), 1);
    assert_eq!(anchors[0].anchor_id, "a-p1c1s1-p1c1s2");
    assert_eq!(anchors[0].source, AnnotationSource::Ai);
    assert_eq!(anchors[0].char_start, 0);
    assert_eq!(anchors[0].char_end, candidates[1].char_end);
    assert_eq!(anchors[0].confidence, 500_000);
    assert_eq!(anchors[0].reader_label, "Bridge context");
}

#[test]
fn repeated_canonical_ids_keep_the_first_annotation() {
    let candidate = canonical_candidate("cp1s1", CandidateKind::BodySentence);
    let raw = |directive: &str, priority: &str| RawCanonicalAnnotation {
        sentence_id: "cp1s1".to_owned(),
        priority: priority.to_owned(),
        directive: directive.to_owned(),
        confidence: Some(-5),
        rationale: "Either.".to_owned(),
        reader_label: "Mine".to_owned(),
    };
    let annotations = validate_canonical_annotations(
        std::slice::from_ref(&candidate),
        vec![raw("callout", "bridge"), raw("highlight", "delta")],
        AnnotationSource::Mock,
    );
    assert_eq!(annotations.len(), 1);
    assert_eq!(annotations[0].directive, ReaderDirective::Callout);
    assert_eq!(annotations[0].confidence, 0);
    assert_eq!(annotations[0].reader_label, "Mine");
    assert_eq!(annotations[0].source, AnnotationSource::Mock);
}

#[test]
fn baseline_claims_split_on_sentence_marks() {
    assert_eq!(
        baseline_claims("First claim. Second claim;third\n\n  "),
        vec!["First claim", "Second claim", "third"]
    );
}

#[test]
fn finish_analysis_rebuilds_quests_from_gated_annotations() {
    let candidate = canonical_candidate("cp1s1", CandidateKind::BodySentence);
    let annotation = canonical_annotation_from_candidate(
        &candidate,
        Priority::Delta,
        ReaderDirective::Highlight,
        900_000,
        "Predicted delta.".to_owned(),
        "New insight".to_owned(),
        AnnotationSource::Ai,
    );
    let analysis = AiAnalysis {
        quests: Vec::new(),
        annotations: Vec::new(),
        reading_anchors: Vec::new(),
        canonical_annotations: vec![annotation],
    };
    let (quests, annotations, anchors, canonical, diagnostics) =
        finish_analysis(analysis, &[], &empty_baseline());
    assert!(annotations.is_empty());
    assert!(anchors.is_empty());
    assert_eq!(canonical.len(), 1);
    assert_eq!(canonical[0].priority, Priority::Delta);
    assert_eq!(diagnostics.delta_eligibility_checked, 1);
    assert_eq!(diagnostics.delta_demoted_by_familiar_claim, 0);
    assert_eq!(quests.len(), 1);
    assert_eq!(quests[0].id, "quest-1");
    assert_eq!(quests[0].anchor_chunk_ids, vec!["cp1s1"]);
}

#[test]
fn gating_twice_changes_nothing_more() {
    let mut candidate = canonical_candidate("cp1s1", CandidateKind::BodySentence);
    candidate.normalized_text = "This was part of the previously validated configuration.".to_owned();
    let mut annotations = vec![canonical_annotation_from_candidate(
        &candidate,
        Priority::Delta,
        ReaderDirective::Highlight,
        900_000,
        "Predicted delta.".to_owned(),
        "New insight".to_owned(),
        AnnotationSource::Ai,
    )];
    let baseline = UserBaseline {
        express_text: "previously validated configuration".to_owned(),
        mastered_concept_ids: Vec::new(),
    };
    apply_delta_eligibility_gate(&mut annotations, &[], &baseline);
    let rationale = annotations[0].rationale.clone();
    assert!(rationale.starts_with("Predicted delta. Delta eligibility gate demoted"));
    assert_eq!(annotations[0].reader_label, "Likely familiar");
    let again = apply_delta_eligibility_gate(&mut annotations, &[], &baseline);
    assert_eq!(again.delta_eligibility_checked, 0);
    assert_eq!(annotations[0].rationale, rationale);
    assert_eq!(annotations[0].priority, Priority::Familiar);
}

#[test]
fn canonical_quests_fall_back_to_a_general_question() {
    let candidate = canonical_candidate("cp1s1", CandidateKind::BodySentence);
    let annotation = canonical_annotation_from_candidate(
        &candidate,
        Priority::Bridge,
        ReaderDirective::Callout,
        550_000,
        "Context.".to_owned(),
        "Bridge context".to_owned(),
        AnnotationSource::Mock,
    );
    let quests = build_quests_from_canonical_annotations(&[annotation]);
    assert_eq!(quests.len(), 1);
    assert_eq!(quests[0].id, "quest-1");
    assert_eq!(quests[0].anchor_chunk_ids, vec!["cp1s1"]);
}

#[test]
fn mock_concepts_rank_long_words_by_frequency() {
    let provider = MockProvider;
    let chunks = vec![TextChunk {
        id: "p1c1".to_owned(),
        page: 1,
        text: "Retrieval pipelines and retrieval budgets; pipelines, about budgets. Budgets!"
            .to_owned(),
    }];
    let concepts = provider.generate_concepts(&chunks);
    let labels = concepts.iter().map(|c| c.label.as_str()).collect::<Vec<_>>();
    assert_eq!(labels, vec!["Budgets", "Pipelines", "Retrieval"]);
    assert_eq!(concepts[0].id, "concept-1");
    assert_eq!(concepts[2].id, "concept-3");
    assert_eq!(
        concepts[1].description,
        "Document concept related to Pipelines."
    );
}

#[test]
fn mock_concepts_fall_back_without_keywords() {
    let provider = MockProvider;
    let chunks = vec![TextChunk {
        id: "p1c1".to_owned(),
        page: 1,
        text: "Tiny words only.".to_owned(),
    }];
    let concepts = provider.generate_concepts(&chunks);
    let labels = concepts.iter().map(|c| c.label.as_str()).collect::<Vec<_>>();
    assert_eq!(labels, vec!["Core Argument", "Evidence", "Method"]);
}

#[test]
fn keyword_candidates_drop_stop_words_and_short_words() {
    assert_eq!(
        keyword_candidates("Between between document DOCUMENT science scientific"),
        vec!["Science", "Scientific"]
    );
}
