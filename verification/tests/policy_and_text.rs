use delta_reader_backend::delta_policy::{
    evaluate_delta_eligibility, BaselineEvidence, DeltaEligibilityDecision,
    DeltaEligibilityDiagnostics,
};
use delta_reader_backend::fixture::fixture_dir;
use delta_reader_backend::models::TextChunk;
use delta_reader_backend::pdf::{chunk_paragraphs, extract_sentence_candidates, extract_text_chunks};

#[test]
fn familiar_claim_vetoes_interest_without_novelty() {
    let familiar = vec!["previously validated configuration".to_owned()];
    let interests = vec!["adaptive freshness budget".to_owned()];
    let decision = evaluate_delta_eligibility(
        "The adaptive freshness budget was in the previously validated configuration.",
        true,
        BaselineEvidence {
            familiar_claims: &familiar,
            interests: &interests,
            ..BaselineEvidence::default()
        },
    );
    assert!(decision.demoted_by_familiar_claim);
    assert!(decision.interest_overlap_without_novelty);
    assert!(!decision.eligible);
}

#[test]
fn numeric_new_result_survives_familiar_overlap() {
    let familiar = vec!["adaptive freshness budget".to_owned()];
    let decision = evaluate_delta_eligibility(
        "Evaluation shows the adaptive freshness budget reduced stale answers by 31 percent.",
        true,
        BaselineEvidence {
            familiar_claims: &familiar,
            ..BaselineEvidence::default()
        },
    );
    assert!(decision.eligible);
    assert!(decision.kept_due_to_novelty_cue);
}

#[test]
fn not_new_evidence_does_not_trigger_new_cue() {
    let familiar = vec!["previously validated configuration".to_owned()];
    let decision = evaluate_delta_eligibility(
        "This was in the previously validated configuration and is not new evidence.",
        true,
        BaselineEvidence {
            familiar_claims: &familiar,
            ..BaselineEvidence::default()
        },
    );
    assert!(decision.demoted_by_familiar_claim);
    assert!(!decision.novelty_cues.iter().any(|cue| cue == "new"));
}

#[test]
fn chunks_paragraphs_without_losing_text() {
    let chunks = chunk_paragraphs("First idea.\n\nSecond idea.");
    assert_eq!(chunks, vec!["First idea.\n\nSecond idea."]);
}

#[test]
fn skips_empty_pages_without_losing_page_count() {
    assert!(chunk_paragraphs("").is_empty());
}

#[test]
fn sentence_candidates_preserve_chunk_and_page_offsets() {
    let chunks = vec![TextChunk {
        id: "p2c3".to_owned(),
        page: 2,
        text: "First sentence. Second sentence!".to_owned(),
    }];
    let candidates = extract_sentence_candidates(&chunks);
    assert_eq!(candidates.len(), 2);
    assert_eq!(candidates[1].sentence_id, "p2c3s2");
    assert_eq!(candidates[1].chunk_id, "p2c3");
    assert_eq!(candidates[1].page, 2);
    assert_eq!(candidates[1].text, "Second sentence!");
    assert_eq!(candidates[1].char_start, 16);
    assert_eq!(candidates[1].char_end, 32);
}

#[test]
fn fixture_names_cannot_escape_product_root() {
    assert!(fixture_dir("real-paper").is_ok());
    assert!(fixture_dir("../private").is_err());
    assert!(fixture_dir("with/slash").is_err());
}

#[test]
fn fixture_dir_lies_under_the_product_root() {
    assert_eq!(
        fixture_dir("real-paper").unwrap(),
        "resource/product-fixtures/real-paper"
    );
    assert!(fixture_dir("").is_err());
    assert!(fixture_dir(".hidden").is_err());
    assert!(fixture_dir("under_score-9").is_ok());
}

#[test]
fn demotion_and_eligibility_exclude_each_other() {
    let familiar = vec!["previously validated configuration".to_owned()];
    for text in [
        "The previously validated configuration still applies.",
        "We found the previously validated configuration regressed.",
        "Unrelated text about cooking.",
    ] {
        let decision = evaluate_delta_eligibility(
            text,
            true,
            BaselineEvidence {
                familiar_claims: &familiar,
                ..BaselineEvidence::default()
            },
        );
        assert_eq!(decision.eligible, !decision.demoted_by_familiar_claim);
        assert!(!(decision.demoted_by_familiar_claim && decision.kept_due_to_novelty_cue));
    }
}

#[test]
fn unchecked_sentence_is_always_eligible() {
    let familiar = vec!["previously validated configuration".to_owned()];
    let decision = evaluate_delta_eligibility(
        "The previously validated configuration still applies.",
        false,
        BaselineEvidence {
            familiar_claims: &familiar,
            ..BaselineEvidence::default()
        },
    );
    assert!(!decision.checked);
    assert!(decision.eligible);
    assert!(!decision.demoted_by_familiar_claim);
    assert!(decision.familiar_claim_overlap);
    assert_eq!(
        decision.matched_familiar_claims,
        vec!["previously validated configuration"]
    );
}

#[test]
fn familiar_cue_alone_counts_as_overlap() {
    let decision = evaluate_delta_eligibility(
        "This is standard practice for retrieval teams.",
        true,
        BaselineEvidence::default(),
    );
    assert_eq!(decision.familiar_cues, vec!["standard practice"]);
    assert!(decision.familiar_claim_overlap);
    assert!(decision.demoted_by_familiar_claim);
}

#[test]
fn diagnostics_record_counts_each_flag() {
    let mut diagnostics = DeltaEligibilityDiagnostics::default();
    let mut decision = DeltaEligibilityDecision::default();
    decision.checked = true;
    decision.demoted_by_familiar_claim = true;
    decision.familiar_claim_overlap = true;
    diagnostics.record(&decision);
    let mut kept = DeltaEligibilityDecision::default();
    kept.checked = true;
    kept.kept_due_to_novelty_cue = true;
    kept.familiar_claim_overlap = true;
    diagnostics.record(&kept);
    let mut unchecked = DeltaEligibilityDecision::default();
    unchecked.familiar_claim_overlap = true;
    diagnostics.record(&unchecked);
    assert_eq!(diagnostics.delta_eligibility_checked, 2);
    assert_eq!(diagnostics.delta_demoted_by_familiar_claim, 1);
    assert_eq!(diagnostics.delta_kept_due_to_novelty_cue, 1);
    assert_eq!(diagnostics.interest_overlap_without_novelty, 0);
    assert_eq!(diagnostics.familiar_claim_overlap_count, 2);
}

#[test]
fn long_paragraphs_are_packed_into_separate_chunks() {
    let first = "a".repeat(1200);
    let second = "b".repeat(1200);
    let text = format!("{first}\n\n{second}");
    let chunks = chunk_paragraphs(&text);
    assert_eq!(chunks, vec![first, second]);
}

#[test]
fn sentence_ids_count_within_each_chunk() {
    let chunks = vec![
        TextChunk {
            id: "p1c1".to_owned(),
            page: 1,
            text: "One. Two.".to_owned(),
        },
        TextChunk {
            id: "p1c2".to_owned(),
            page: 1,
            text: "Three?".to_owned(),
        },
    ];
    let candidates = extract_sentence_candidates(&chunks);
    let ids = candidates
        .iter()
        .map(|c| c.sentence_id.as_str())
        .collect::<Vec<_>>();
    assert_eq!(ids, vec!["p1c1s1", "p1c1s2", "p1c2s1"]);
    assert_eq!(candidates[2].char_start, 0);
    assert_eq!(candidates[2].char_end, 6);
}

#[test]
fn chunking_keeps_every_paragraph_in_order() {
    let first = "a".repeat(900);
    let second = "b".repeat(900);
    let text = format!("  {first}  \n\n\n\n short one \n\n{second}\n\n");
    let chunks = chunk_paragraphs(&text);
    assert_eq!(chunks.len(), 2);
    assert_eq!(chunks.join("\n\n"), format!("{first}\n\nshort one\n\n{second}"));
}

#[test]
fn chunk_ids_name_page_and_position() {
    let long = "x".repeat(1400);
    let pages = vec![format!("{long}\n\n{long}"), String::new(), "Third page.".to_owned()];
    let (count, chunks) = extract_text_chunks(&pages).unwrap();
    assert_eq!(count, 3);
    let ids = chunks.iter().map(|c| c.id.as_str()).collect::<Vec<_>>();
    assert_eq!(ids, vec!["p1c1", "p1c2", "p3c1"]);
    assert_eq!(chunks[2].page, 3);
}

#[test]
fn unicode_white_space_is_trimmed_and_letters_are_not() {
    assert_eq!(chunk_paragraphs("\u{a0}\u{3000}Text here.\u{2029}\t"), vec!["Text here."]);
    assert_eq!(chunk_paragraphs("xText herex"), vec!["xText herex"]);
}

#[test]
fn recorded_counts_balance_demotions_and_kept_cues() {
    let familiar = vec!["previously validated configuration".to_owned()];
    let interests = vec!["adaptive freshness budget".to_owned()];
    let texts = [
        ("The adaptive freshness budget was in the previously validated configuration.", true),
        ("The previously validated configuration now improves by 31 percent.", true),
        ("Unrelated sentence.", false),
    ];
    let mut forward = delta_reader_backend::delta_policy::DeltaEligibilityDiagnostics::default();
    let mut backward = delta_reader_backend::delta_policy::DeltaEligibilityDiagnostics::default();
    let decisions = texts
        .iter()
        .map(|(text, highlight)| {
            evaluate_delta_eligibility(
                text,
                *highlight,
                BaselineEvidence { known_concepts: &[], familiar_claims: &familiar, interests: &interests },
            )
        })
        .collect::<Vec<_>>();
    for d in &decisions {
        forward.record(d);
    }
    for d in decisions.iter().rev() {
        backward.record(d);
    }
    assert_eq!(forward.delta_eligibility_checked, 2);
    assert_eq!(
        forward.delta_demoted_by_familiar_claim + forward.delta_kept_due_to_novelty_cue,
        forward.familiar_claim_overlap_count
    );
    assert_eq!(forward.delta_demoted_by_familiar_claim, backward.delta_demoted_by_familiar_claim);
    assert_eq!(forward.delta_kept_due_to_novelty_cue, backward.delta_kept_due_to_novelty_cue);
    assert_eq!(forward.familiar_claim_overlap_count, backward.familiar_claim_overlap_count);
}
