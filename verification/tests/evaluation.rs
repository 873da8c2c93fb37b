use delta_reader_backend::evaluation::{
    analyze_fixture, error_groups, evaluation_counts, likely_error_cause, maximum_phrase_score,
    phrase_score, predict_candidate, validate_gold, GoldError, GoldLabel, ProductBaseline, Score,
};
use delta_reader_backend::models::{
    CandidateKind, CanonicalItemRange, CanonicalReadingUnit, Priority, ReaderDirective,
    TextQuoteSelector,
};

fn baseline() -> ProductBaseline {
    ProductBaseline {
        reader_profile: "Experienced retrieval engineer".to_owned(),
        known_concepts: vec!["indexing workflows".to_owned()],
        familiar_claims: vec!["vector databases store embeddings".to_owned()],
        interests: vec!["adaptive freshness budgets".to_owned()],
        explicit_not_interested_topics: vec!["vendor pricing".to_owned()],
    }
}

#[test]
fn deterministic_fixture_analysis_separates_product_roles() {
    let baseline = baseline();
    assert_eq!(
        predict_candidate("Vector databases store embeddings for retrieval.", &baseline).priority,
        Priority::Familiar
    );
    assert_eq!(
        predict_candidate(
            "Indexing workflows now use adaptive freshness budgets for updates.",
            &baseline
        )
        .priority,
        Priority::Bridge
    );
    assert_eq!(
        predict_candidate(
            "Adaptive freshness budgets reduce stale answers by 31 percent.",
            &baseline
        )
        .priority,
        Priority::Delta
    );
    assert_eq!(
        predict_candidate("Vendor pricing lists subscription tiers.", &baseline).directive,
        ReaderDirective::LeaveNormal
    );
}

#[test]
fn familiarity_gate_demotes_adversarial_false_delta() {
    let baseline = ProductBaseline {
        reader_profile: "Experienced retrieval lead".to_owned(),
        known_concepts: Vec::new(),
        familiar_claims: vec!["previously validated configuration".to_owned()],
        interests: vec!["adaptive freshness budget".to_owned()],
        explicit_not_interested_topics: Vec::new(),
    };
    let prediction = predict_candidate(
        "An adaptive freshness budget was in the previously validated configuration.",
        &baseline,
    );
    let gold = GoldLabel {
        sentence_id: "cp1s4".to_owned(),
        expected_priority: Priority::Familiar,
        expected_directive: ReaderDirective::LeaveNormal,
        reason: "Already known.".to_owned(),
    };

    assert_eq!(prediction.priority, Priority::Familiar);
    assert_eq!(prediction.directive, ReaderDirective::LeaveNormal);
    assert!(prediction.gate_decision.demoted_by_familiar_claim);
    assert!(prediction.gate_decision.interest_overlap_without_novelty);
    assert_eq!(
        prediction.signals.matched_familiar_claims,
        vec!["previously validated configuration"]
    );
    assert_eq!(
        prediction.signals.matched_interests,
        vec!["adaptive freshness budget"]
    );
    assert_eq!(likely_error_cause(&gold, &prediction), "familiar_claim_overlap");
}

#[test]
fn phrase_scores_are_exact_fractions() {
    assert_eq!(
        phrase_score("Vector databases store embeddings.", "vector databases"),
        Score { hits: 1, total: 1 }
    );
    assert_eq!(
        phrase_score("The budget was adaptive.", "adaptive freshness budget"),
        Score { hits: 2, total: 3 }
    );
    assert_eq!(phrase_score("anything", "   "), Score { hits: 0, total: 1 });
    assert_eq!(phrase_score("anything", "a of"), Score { hits: 0, total: 1 });
    assert_eq!(
        maximum_phrase_score(
            "The budget was adaptive.",
            &["unrelated topic".to_owned(), "adaptive freshness budget".to_owned()]
        ),
        Score { hits: 2, total: 3 }
    );
    assert_eq!(maximum_phrase_score("x", &[]), Score { hits: 0, total: 1 });
}

#[test]
fn beginners_get_bridge_callouts_by_default() {
    let mut b = baseline();
    b.reader_profile = "Curious Beginner".to_owned();
    let p = predict_candidate("Something entirely different happens here.", &b);
    assert_eq!(p.priority, Priority::Bridge);
    assert_eq!(p.directive, ReaderDirective::Callout);
    assert_eq!(p.confidence, Some(Score { hits: 1, total: 2 }));
    let q = predict_candidate("Something entirely different happens here.", &baseline());
    assert_eq!(q.directive, ReaderDirective::LeaveNormal);
}

fn unit(id: &str, kind: CandidateKind, text: &str) -> CanonicalReadingUnit {
    CanonicalReadingUnit {
        sentence_id: id.to_owned(),
        page: 1,
        text: text.to_owned(),
        normalized_text: text.to_owned(),
        norm_start: 0,
        norm_end: 1,
        start_item_id: "i".to_owned(),
        end_item_id: "i".to_owned(),
        item_ranges: vec![CanonicalItemRange {
            item_id: "i".to_owned(),
            normalized_start: 0,
            normalized_end: 1,
        }],
        quote_selector: TextQuoteSelector {
            exact: text.to_owned(),
            prefix: String::new(),
            suffix: String::new(),
        },
        candidate_kind: kind,
    }
}

fn label(id: &str, p: Priority, d: ReaderDirective) -> GoldLabel {
    GoldLabel {
        sentence_id: id.to_owned(),
        expected_priority: p,
        expected_directive: d,
        reason: "Reason.".to_owned(),
    }
}

#[test]
fn gold_labels_must_cover_body_sentences_once() {
    let units = vec![
        unit("cp1s1", CandidateKind::BodySentence, "Body one."),
        unit("cp1s2", CandidateKind::Heading, "Heading"),
        unit("cp1s3", CandidateKind::BodySentence, "Body two."),
    ];
    let good = vec![
        label("cp1s1", Priority::Delta, ReaderDirective::Highlight),
        label("cp1s3", Priority::Bridge, ReaderDirective::Callout),
    ];
    assert!(validate_gold(&good, &units).is_ok());
    match validate_gold(&[label("cp9s9", Priority::Delta, ReaderDirective::Highlight)], &units) {
        Err(GoldError::UnknownSentence(id)) => assert_eq!(id, "cp9s9"),
        other => panic!("unexpected {other:?}"),
    }
    match validate_gold(&[label("cp1s2", Priority::Delta, ReaderDirective::Highlight)], &units) {
        Err(GoldError::NotBodySentence(id, kind)) => {
            assert_eq!(id, "cp1s2");
            assert_eq!(kind, CandidateKind::Heading);
        }
        other => panic!("unexpected {other:?}"),
    }
    let repeated = vec![
        label("cp1s1", Priority::Delta, ReaderDirective::Highlight),
        label("cp1s1", Priority::Delta, ReaderDirective::Highlight),
    ];
    match validate_gold(&repeated, &units) {
        Err(GoldError::RepeatedSentence(id)) => assert_eq!(id, "cp1s1"),
        other => panic!("unexpected {other:?}"),
    }
    match validate_gold(&good[..1], &units) {
        Err(GoldError::OmittedBodySentence(id)) => assert_eq!(id, "cp1s3"),
        other => panic!("unexpected {other:?}"),
    }
}

#[test]
fn counts_follow_labels_and_predictions() {
    let b = baseline();
    let units = vec![
        unit(
            "cp1s1",
            CandidateKind::BodySentence,
            "Adaptive freshness budgets reduce stale answers by 31 percent.",
        ),
        unit(
            "cp1s2",
            CandidateKind::BodySentence,
            "Vector databases store embeddings for retrieval.",
        ),
        unit("cp1s3", CandidateKind::Heading, "Heading"),
    ];
    let predictions = analyze_fixture(&units, &b);
    assert_eq!(predictions.len(), 2);
    assert_eq!(predictions[0].0, "cp1s1");
    assert_eq!(predictions[0].1.priority, Priority::Delta);
    let gold = vec![
        label("cp1s1", Priority::Delta, ReaderDirective::Highlight),
        label("cp1s2", Priority::Delta, ReaderDirective::Highlight),
        label("cp1s3", Priority::Familiar, ReaderDirective::LeaveNormal),
    ];
    let c = evaluation_counts(&gold, &predictions);
    assert_eq!(c.scored, 2);
    assert_eq!(c.expected_delta, 2);
    assert_eq!(c.predicted_delta, 1);
    assert_eq!(c.true_delta, 1);
    assert_eq!(c.false_negative_delta_count, 1);
    assert_eq!(c.false_positive_delta_count, 0);
    assert_eq!(c.highlights, 1);
    assert_eq!(c.soft_fades, 1);
    assert_eq!(c.visible, 2);
    let groups = error_groups(&gold[1], &predictions[1].1);
    assert!(groups.false_negative_delta);
    assert!(!groups.false_positive_delta);
    assert!(!groups.bridge_confusion);
}
