//! Analysis orchestration that does not depend on a provider's transport:
//! the post-validation delta eligibility eligibility filter, baseline claims, the
//! deterministic mock provider and provider configuration.
use vstd::prelude::*;

use crate::annotation::label_of;
use crate::delta_policy::{
    detected_cues, evaluate_delta_eligibility, familiar_cues, has_numeric_comparison,
    matched, novelty_cues_of, string_views, BaselineEvidence, DeltaEligibilityDiagnostics,
};
use crate::models::{CanonicalSentenceAnnotation, ConceptTag, Priority, ReaderDirective, UserBaseline};
use crate::text::{
    chars_eq, chars_of, extend_chars, keep_nonempty, nonempty, split_at_marks, split_marked,
    string_from_chars, trim, trim_chars, views,
};

verus! {

// ---------------------------------------------------------------------------
// Baseline evidence
// ---------------------------------------------------------------------------

/// Characters that end a claim in a free-text baseline.
pub open spec fn is_claim_separator(c: char) -> bool {
    c == '\n' || c == '.' || c == ';'
}

/// The claims of a free-text baseline: its trimmed non-empty pieces between
/// line breaks, full stops and semicolons.
pub open spec fn claims_of(text: Seq<char>) -> Seq<Seq<char>> {
    split_marked(text, text.map_values(|c: char| is_claim_separator(c))).map_values(
        |p: Seq<char>| trim(p),
    ).filter(|p: Seq<char>| nonempty(p))
}

/// Splits a free-text baseline into claims.
pub fn baseline_claims(text: &str) -> (r: Vec<String>)
    ensures
        string_views(r@) == claims_of(text@),
{
    let chars = chars_of(text);
    let mut marks: Vec<bool> = Vec::new();
    let mut i: usize = 0;
    while i < chars.len()
        invariant
            i <= chars@.len(),
            chars@ == text@,
            marks@ == chars@.take(i as int).map_values(|c: char| is_claim_separator(c)),
        decreases chars@.len() - i,
    {
        let c = chars[i];
        marks.push(c == '\n' || c == '.' || c == ';');
        i = i + 1;
        assert(marks@ =~= chars@.take(i as int).map_values(|c: char| is_claim_separator(c)));
    }
    assert(chars@.take(i as int) =~= chars@);
    let pieces = split_at_marks(chars.as_slice(), marks.as_slice());
    let mut trimmed: Vec<Vec<char>> = Vec::new();
    let mut k: usize = 0;
    while k < pieces.len()
        invariant
            k <= pieces@.len(),
            views(trimmed@) == views(pieces@).take(k as int).map_values(|p: Seq<char>| trim(p)),
        decreases pieces@.len() - k,
    {
        let ghost before = views(trimmed@);
        trimmed.push(trim_chars(pieces[k].as_slice()));
        assert(views(trimmed@) =~= before.push(trim(pieces@[k as int]@)));
        assert(views(pieces@).take(k + 1) =~= views(pieces@).take(k as int).push(pieces@[k as int]@));
        k = k + 1;
        assert(views(trimmed@) =~= views(pieces@).take(k as int).map_values(|p: Seq<char>| trim(p)));
    }
    assert(views(pieces@).take(k as int) =~= views(pieces@));
    let kept = keep_nonempty(trimmed);
    let mut out: Vec<String> = Vec::new();
    let mut j: usize = 0;
    while j < kept.len()
        invariant
            j <= kept@.len(),
            string_views(out@) == views(kept@).take(j as int),
        decreases kept@.len() - j,
    {
        let ghost before = string_views(out@);
        out.push(string_from_chars(kept[j].as_slice()));
        assert(string_views(out@) =~= before.push(kept@[j as int]@));
        assert(views(kept@).take(j + 1) =~= views(kept@).take(j as int).push(kept@[j as int]@));
        j = j + 1;
    }
    assert(views(kept@).take(j as int) =~= views(kept@));
    out
}

/// The labels of the concepts that the reader marked as mastered.
pub open spec fn mastered_labels(concepts: Seq<ConceptTag>, baseline: UserBaseline) -> Seq<Seq<char>> {
    concepts.filter(
        |c: ConceptTag| string_views(baseline.mastered_concept_ids@).contains(c.id@),
    ).map_values(|c: ConceptTag| c.label@)
}

/// Whether `id` is one of `ids`.
pub fn contains_string(ids: &Vec<String>, id: &String) -> (r: bool)
    ensures
        r == string_views(ids@).contains(id@),
{
    let idc = chars_of(id.as_str());
    let mut i: usize = 0;
    while i < ids.len()
        invariant
            i <= ids@.len(),
            idc@ == id@,
            forall|k: int| 0 <= k < i ==> ids@[k]@ != id@,
        decreases ids@.len() - i,
    {
        let c = chars_of(ids[i].as_str());
        if chars_eq(c.as_slice(), idc.as_slice()) {
            assert(string_views(ids@)[i as int] == id@);
            return true;
        }
        i = i + 1;
    }
    assert forall|k: int| 0 <= k < string_views(ids@).len() implies string_views(ids@)[k] != id@ by {
        assert(string_views(ids@)[k] == ids@[k]@);
    }
    false
}

/// The concepts that the reader marked as mastered.
pub fn mastered_concepts<'a>(concepts: &'a [ConceptTag], baseline: &UserBaseline) -> (r: Vec<&'a ConceptTag>)
    ensures
        r@.map_values(|c: &ConceptTag| *c) == concepts@.filter(
            |c: ConceptTag| string_views(baseline.mastered_concept_ids@).contains(c.id@),
        ),
{
    let ghost f = |c: ConceptTag| string_views(baseline.mastered_concept_ids@).contains(c.id@);
    let mut r: Vec<&ConceptTag> = Vec::new();
    let mut i: usize = 0;
    while i < concepts.len()
        invariant
            i <= concepts@.len(),
            f == (|c: ConceptTag| string_views(baseline.mastered_concept_ids@).contains(c.id@)),
            r@.map_values(|c: &ConceptTag| *c) == concepts@.take(i as int).filter(f),
        decreases concepts@.len() - i,
    {
        assert(concepts@.take(i + 1).drop_last() =~= concepts@.take(i as int));
        assert(concepts@.take(i + 1).last() == concepts@[i as int]);
        reveal(Seq::filter);
        if contains_string(&baseline.mastered_concept_ids, &concepts[i].id) {
            let ghost before = r@.map_values(|c: &ConceptTag| *c);
            r.push(&concepts[i]);
            assert(r@.map_values(|c: &ConceptTag| *c) =~= before.push(concepts@[i as int]));
        }
        i = i + 1;
    }
    assert(concepts@.take(i as int) =~= concepts@);
    r
}

// ---------------------------------------------------------------------------
// The delta eligibility eligibility filter over canonical annotations
// ---------------------------------------------------------------------------

/// A delta annotation that asks for a highlight.
pub open spec fn is_delta_highlight(a: CanonicalSentenceAnnotation) -> bool {
    a.priority == Priority::Delta && a.directive == ReaderDirective::Highlight
}

/// Whether the text carries a novelty cue or a numeric comparison.
pub open spec fn has_novelty(text: Seq<char>) -> bool {
    novelty_cues_of(text).len() > 0 || has_numeric_comparison(text)
}

/// Whether the text overlaps a familiar claim or carries a familiar cue.
pub open spec fn familiar_overlap(text: Seq<char>, claims: Seq<Seq<char>>) -> bool {
    matched(text, claims).len() > 0 || detected_cues(text, familiar_cues()).len() > 0
}

/// Whether the eligibility filter demotes `a`: a delta highlight that overlaps familiar
/// evidence without a novelty cue.
pub open spec fn gate_demotes(a: CanonicalSentenceAnnotation, claims: Seq<Seq<char>>) -> bool {
    is_delta_highlight(a) && familiar_overlap(a.source_text@, claims) && !has_novelty(a.source_text@)
}

/// The note that the eligibility filter adds to a demoted annotation's rationale.
pub open spec fn demotion_note() -> Seq<char> {
    " Delta eligibility gate demoted this annotation because it overlaps familiar baseline evidence without a novelty cue."@
}

/// Whether `new` is `old` after the eligibility filter: demoted annotations become
/// familiar, leave the text normal, get the familiar label and a rationale
/// that explains the demotion; every other annotation is unchanged.
pub open spec fn is_gated(new: CanonicalSentenceAnnotation, old: CanonicalSentenceAnnotation, claims: Seq<Seq<char>>) -> bool {
    if gate_demotes(old, claims) {
        &&& new.annotation_id == old.annotation_id
        &&& new.sentence_id == old.sentence_id
        &&& new.page == old.page
        &&& new.directive == ReaderDirective::LeaveNormal
        &&& new.priority == Priority::Familiar
        &&& new.confidence == old.confidence
        &&& new.source == old.source
        &&& new.source_text == old.source_text
        &&& new.item_ranges == old.item_ranges
        &&& new.quote_selector == old.quote_selector
        &&& new.candidate_kind == old.candidate_kind
        &&& new.rationale@ == trim(trim(old.rationale@) + demotion_note())
        &&& new.reader_label@ == label_of(Priority::Familiar)
    } else {
        new == old
    }
}

/// How many annotations the eligibility filter checks, demotes, keeps for novelty, and
/// finds overlapping familiar evidence.
pub open spec fn gate_counts(s: Seq<CanonicalSentenceAnnotation>, claims: Seq<Seq<char>>) -> (nat, nat, nat, nat)
    decreases s.len(),
{
    if s.len() == 0 {
        (0, 0, 0, 0)
    } else {
        let (c, d, k, o) = gate_counts(s.drop_last(), claims);
        let a = s.last();
        if is_delta_highlight(a) {
            let overlap = familiar_overlap(a.source_text@, claims);
            let novel = has_novelty(a.source_text@);
            (
                c + 1,
                if overlap && !novel { d + 1 } else { d },
                if overlap && novel { k + 1 } else { k },
                if overlap { o + 1 } else { o },
            )
        } else {
            (c, d, k, o)
        }
    }
}

pub proof fn lemma_gate_counts_bound(s: Seq<CanonicalSentenceAnnotation>, claims: Seq<Seq<char>>)
    ensures
        gate_counts(s, claims).0 <= s.len(),
        gate_counts(s, claims).1 <= s.len(),
        gate_counts(s, claims).2 <= s.len(),
        gate_counts(s, claims).3 <= s.len(),
    decreases s.len(),
{
    if s.len() > 0 {
        lemma_gate_counts_bound(s.drop_last(), claims);
    }
}

/// The eligibility filter's counts: every demotion and every novelty keep is a checked
/// annotation with familiar overlap, and the overlaps are exactly those two.
pub proof fn lemma_gate_counts_partition(s: Seq<CanonicalSentenceAnnotation>, claims: Seq<Seq<char>>)
    ensures
        gate_counts(s, claims).1 + gate_counts(s, claims).2 == gate_counts(s, claims).3,
        gate_counts(s, claims).3 <= gate_counts(s, claims).0,
    decreases s.len(),
{
    if s.len() > 0 {
        lemma_gate_counts_partition(s.drop_last(), claims);
    }
}

/// The eligibility filter only demotes: a gated annotation keeps its identity, text,
/// ranges and confidence, ends either unchanged or familiar and left
/// normal, and is never demoted again.
pub proof fn lemma_gate_only_demotes(
    new: CanonicalSentenceAnnotation,
    old: CanonicalSentenceAnnotation,
    claims: Seq<Seq<char>>,
)
    requires
        is_gated(new, old, claims),
    ensures
        new.sentence_id == old.sentence_id,
        new.source_text == old.source_text,
        new.item_ranges == old.item_ranges,
        new.confidence == old.confidence,
        new == old || (new.priority == Priority::Familiar && new.directive
            == ReaderDirective::LeaveNormal),
        !gate_demotes(new, claims),
        is_delta_highlight(new) ==> new == old,
{
}

/// Filtering twice is filtering once.
pub proof fn lemma_gate_idempotent(
    a: CanonicalSentenceAnnotation,
    b: CanonicalSentenceAnnotation,
    c: CanonicalSentenceAnnotation,
    claims: Seq<Seq<char>>,
)
    requires
        is_gated(b, a, claims),
        is_gated(c, b, claims),
    ensures
        c == b,
{
}

/// The rationale of a demoted annotation.
fn demoted_rationale(rationale: &String) -> (r: String)
    ensures
        r@ == trim(trim(rationale@) + demotion_note()),
{
    let mut t = trim_chars(chars_of(rationale.as_str()).as_slice());
    let note = chars_of(
        " Delta eligibility gate demoted this annotation because it overlaps familiar baseline evidence without a novelty cue.",
    );
    extend_chars(&mut t, note.as_slice());
    let r = trim_chars(t.as_slice());
    string_from_chars(r.as_slice())
}

/// Demotes delta highlights that overlap the reader's familiar evidence (the
/// claims of the free-text baseline, or familiar cues) without a novelty cue,
/// and counts the eligibility filter's decisions.  Other annotations are left unchanged.
pub fn apply_delta_eligibility_gate(
    annotations: &mut [CanonicalSentenceAnnotation],
    concepts: &[ConceptTag],
    baseline: &UserBaseline,
) -> (r: DeltaEligibilityDiagnostics)
    ensures
        final(annotations)@.len() == old(annotations)@.len(),
        forall|i: int|
            0 <= i < old(annotations)@.len() ==> is_gated(
                #[trigger] final(annotations)@[i],
                old(annotations)@[i],
                claims_of(baseline.express_text@),
            ),
        ({
            let (c, d, k, o) = gate_counts(old(annotations)@, claims_of(baseline.express_text@));
            &&& r.delta_eligibility_checked == c
            &&& r.delta_demoted_by_familiar_claim == d
            &&& r.delta_kept_due_to_novelty_cue == k
            &&& r.interest_overlap_without_novelty == 0
            &&& r.familiar_claim_overlap_count == o
        }),
{
    let ghost olds = annotations@;
    let mastered = mastered_concepts(concepts, baseline);
    let mut known_concepts: Vec<String> = Vec::new();
    let mut m: usize = 0;
    while m < mastered.len()
        invariant
            m <= mastered@.len(),
        decreases mastered@.len() - m,
    {
        known_concepts.push(mastered[m].label.clone());
        m = m + 1;
    }
    let familiar_claims = baseline_claims(baseline.express_text.as_str());
    let ghost claims = claims_of(baseline.express_text@);
    let interests: Vec<String> = Vec::new();
    let mut diagnostics = DeltaEligibilityDiagnostics::default();
    let n = annotations.len();
    let mut i: usize = 0;
    while i < n
        invariant
            n == annotations@.len() == olds.len(),
            i <= n,
            string_views(familiar_claims@) == claims,
            interests@.len() == 0,
            forall|k: int| 0 <= k < i ==> is_gated(#[trigger] annotations@[k], olds[k], claims),
            forall|k: int| i <= k < n ==> #[trigger] annotations@[k] == olds[k],
            ({
                let (c, d, k, o) = gate_counts(olds.take(i as int), claims);
                &&& diagnostics.delta_eligibility_checked == c
                &&& diagnostics.delta_demoted_by_familiar_claim == d
                &&& diagnostics.delta_kept_due_to_novelty_cue == k
                &&& diagnostics.interest_overlap_without_novelty == 0
                &&& diagnostics.familiar_claim_overlap_count == o
            }),
        decreases n - i,
    {
        proof {
            lemma_gate_counts_bound(olds.take(i as int), claims);
            assert(olds.take(i + 1).drop_last() =~= olds.take(i as int));
            assert(olds.take(i + 1).last() == olds[i as int]);
        }
        let is_delta_highlight = matches!(annotations[i].priority, Priority::Delta) && matches!(
            annotations[i].directive,
            ReaderDirective::Highlight,
        );
        if is_delta_highlight {
            let evidence = BaselineEvidence {
                known_concepts: known_concepts.as_slice(),
                familiar_claims: familiar_claims.as_slice(),
                interests: interests.as_slice(),
            };
            let decision = evaluate_delta_eligibility(
                annotations[i].source_text.as_str(),
                true,
                evidence,
            );
            proof {
                assert(string_views(interests@) =~= Seq::<Seq<char>>::empty());
                reveal(Seq::filter);
            }
            diagnostics.record(&decision);
            if decision.demoted_by_familiar_claim {
                let rationale = demoted_rationale(&annotations[i].rationale);
                annotations[i].priority = Priority::Familiar;
                annotations[i].directive = ReaderDirective::LeaveNormal;
                annotations[i].reader_label = "Likely familiar".to_owned();
                annotations[i].rationale = rationale;
            }
        }
        i = i + 1;
    }
    assert(olds.take(n as int) =~= olds);
    diagnostics
}

} // verus!
