//! The last step of a document analysis: the delta eligibility eligibility filter over the
//! canonical annotations, and quests rebuilt from what the eligibility filter left.
use vstd::prelude::*;

use crate::ai::{apply_delta_eligibility_gate, claims_of, gate_counts, is_gated};
use crate::delta_policy::DeltaEligibilityDiagnostics;
use crate::mock::AiAnalysis;
use crate::models::{
    CanonicalSentenceAnnotation, ChunkAnnotation, ConceptTag, Quest, ReadingAnchor, UserBaseline,
};
use crate::quest::{are_canonical_quests, rebuild_canonical_quests};

verus! {

/// Applies the delta eligibility eligibility filter to a provider's analysis and, when it
/// has canonical annotations, rebuilds its quests from the eligibility filterd ones.
/// Returns the quests, chunk annotations, reading anchors, canonical
/// annotations and the eligibility filter's diagnostics.
pub fn finish_analysis(analysis: AiAnalysis, concepts: &[ConceptTag], baseline: &UserBaseline) -> (r: (
    Vec<Quest>,
    Vec<ChunkAnnotation>,
    Vec<ReadingAnchor>,
    Vec<CanonicalSentenceAnnotation>,
    DeltaEligibilityDiagnostics,
))
    ensures
        r.3@.len() == analysis.canonical_annotations@.len(),
        forall|i: int|
            0 <= i < r.3@.len() ==> is_gated(
                #[trigger] r.3@[i],
                analysis.canonical_annotations@[i],
                claims_of(baseline.express_text@),
            ),
        ({
            let (c, d, k, o) = gate_counts(
                analysis.canonical_annotations@,
                claims_of(baseline.express_text@),
            );
            &&& r.4.delta_eligibility_checked == c
            &&& r.4.delta_demoted_by_familiar_claim == d
            &&& r.4.delta_kept_due_to_novelty_cue == k
            &&& r.4.interest_overlap_without_novelty == 0
            &&& r.4.familiar_claim_overlap_count == o
        }),
        r.3@.len() > 0 ==> are_canonical_quests(r.0@, r.3@),
        r.3@.len() == 0 ==> r.0 == analysis.quests,
        r.1 == analysis.annotations,
        r.2 == analysis.reading_anchors,
{
    let AiAnalysis { quests, annotations, reading_anchors, canonical_annotations } = analysis;
    let mut canonical = canonical_annotations;
    let diagnostics = apply_delta_eligibility_gate(canonical.as_mut_slice(), concepts, baseline);
    let quests = if canonical.len() > 0 {
        rebuild_canonical_quests(canonical.as_slice())
    } else {
        quests
    };
    (quests, annotations, reading_anchors, canonical, diagnostics)
}

} // verus!
