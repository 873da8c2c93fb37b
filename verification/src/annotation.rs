//! Reader guidance built from model output: enum parsing, confidence
//! clamping, validation of canonical sentence annotations and legacy reading
//! anchors, and conservative fallbacks.
use vstd::prelude::*;

use crate::models::{
    AnnotationSource, CandidateKind, CanonicalItemRange, CanonicalReadingUnit,
    CanonicalSentenceAnnotation, ChunkAnnotation, Priority, ReadingAnchor, ReaderDirective,
    SentenceCandidate, TextChunk, CONFIDENCE_SCALE,
};
use crate::text::{
    capped_byte_len, utf8_len, chars_eq, chars_eq_str, chars_of, contains_word, extend_chars, join, join_chars, lowercase,
    split_words, string_from_chars, to_lowercase, trim, trim_bounds, trim_chars, trim_end, views,
    words,
};

verus! {

// ---------------------------------------------------------------------------
// Priorities, directives, labels and confidences
// ---------------------------------------------------------------------------

/// The directive that goes with a priority.
pub open spec fn directive_of(priority: Priority) -> ReaderDirective {
    match priority {
        Priority::Delta => ReaderDirective::Highlight,
        Priority::Bridge => ReaderDirective::Callout,
        Priority::Familiar => ReaderDirective::SoftFade,
    }
}

pub fn directive_for_priority(priority: Priority) -> (r: ReaderDirective)
    ensures
        r == directive_of(priority),
{
    match priority {
        Priority::Delta => ReaderDirective::Highlight,
        Priority::Bridge => ReaderDirective::Callout,
        Priority::Familiar => ReaderDirective::SoftFade,
    }
}

/// The default confidence of a priority, in millionths (0.74, 0.55, 0.68).
pub open spec fn confidence_of(priority: Priority) -> u32 {
    match priority {
        Priority::Delta => 740_000,
        Priority::Bridge => 550_000,
        Priority::Familiar => 680_000,
    }
}

pub fn confidence_for_priority(priority: Priority) -> (r: u32)
    ensures
        r == confidence_of(priority),
{
    match priority {
        Priority::Delta => 740_000,
        Priority::Bridge => 550_000,
        Priority::Familiar => 680_000,
    }
}

/// The reader-facing label of a priority.
pub open spec fn label_of(priority: Priority) -> Seq<char> {
    match priority {
        Priority::Delta => "New insight"@,
        Priority::Bridge => "Bridge context"@,
        Priority::Familiar => "Likely familiar"@,
    }
}

pub fn reader_label_for_priority(priority: Priority) -> (r: &'static str)
    ensures
        r@ == label_of(priority),
{
    match priority {
        Priority::Delta => "New insight",
        Priority::Bridge => "Bridge context",
        Priority::Familiar => "Likely familiar",
    }
}

/// A confidence in millionths as the model reports it, clamped to [0, 1];
/// a missing confidence counts as 0.5.
pub open spec fn clamped_confidence(c: Option<i64>) -> u32 {
    match c {
        None => 500_000,
        Some(x) => if x < 0 {
            0
        } else if x > 1_000_000 {
            1_000_000
        } else {
            x as u32
        },
    }
}

pub fn clamp_confidence(c: Option<i64>) -> (r: u32)
    ensures
        r == clamped_confidence(c),
        r <= CONFIDENCE_SCALE,
{
    match c {
        None => 500_000,
        Some(x) => if x < 0 {
            0
        } else if x > 1_000_000 {
            1_000_000
        } else {
            x as u32
        },
    }
}

/// The label to show: the model's label, or the priority's label when the
/// model's label is blank.
pub open spec fn label_or_default(label: Seq<char>, priority: Priority) -> Seq<char> {
    if trim(label).len() == 0 {
        label_of(priority)
    } else {
        label
    }
}

pub fn label_or_default_exec(label: String, priority: Priority) -> (r: String)
    ensures
        r@ == label_or_default(label@, priority),
{
    let t = trim_chars(chars_of(label.as_str()).as_slice());
    if t.len() == 0 {
        reader_label_for_priority(priority).to_owned()
    } else {
        label
    }
}

// ---------------------------------------------------------------------------
// Enum tokens
// ---------------------------------------------------------------------------

/// The token of a model-provided enum value: trimmed, lower-cased, with `-`
/// and spaces turned into `_`.
pub open spec fn enum_token(v: Seq<char>) -> Seq<char> {
    lowercase(trim(v)).map_values(|c: char| if c == '-' || c == ' ' { '_' } else { c })
}

pub fn normalize_enum_token(value: &str) -> (r: Vec<char>)
    ensures
        r@ == enum_token(value@),
{
    let t = trim_chars(chars_of(value).as_slice());
    let ts = string_from_chars(t.as_slice());
    let lower = to_lowercase(ts.as_str());
    let chars = chars_of(lower.as_str());
    let mut r: Vec<char> = Vec::new();
    let mut i: usize = 0;
    while i < chars.len()
        invariant
            i <= chars@.len(),
            chars@ == lowercase(trim(value@)),
            r@ == chars@.take(i as int).map_values(
                |c: char| if c == '-' || c == ' ' { '_' } else { c },
            ),
        decreases chars@.len() - i,
    {
        let c = chars[i];
        if c == '-' || c == ' ' {
            r.push('_');
        } else {
            r.push(c);
        }
        i = i + 1;
        assert(r@ =~= chars@.take(i as int).map_values(
            |c: char| if c == '-' || c == ' ' { '_' } else { c },
        ));
    }
    assert(chars@.take(i as int) =~= chars@);
    r
}

/// The priority that a model-provided value names, if any.
pub open spec fn parsed_priority(v: Seq<char>) -> Option<Priority> {
    let t = enum_token(v);
    if t == "delta"@ {
        Some(Priority::Delta)
    } else if t == "bridge"@ {
        Some(Priority::Bridge)
    } else if t == "familiar"@ {
        Some(Priority::Familiar)
    } else {
        None
    }
}

/// The directive that a model-provided value names, if any.
pub open spec fn parsed_directive(v: Seq<char>) -> Option<ReaderDirective> {
    let t = enum_token(v);
    if t == "highlight"@ {
        Some(ReaderDirective::Highlight)
    } else if t == "soft_fade"@ || t == "softfade"@ || t == "fade"@ {
        Some(ReaderDirective::SoftFade)
    } else if t == "callout"@ {
        Some(ReaderDirective::Callout)
    } else if t == "leave_normal"@ || t == "leavenormal"@ || t == "normal"@ {
        Some(ReaderDirective::LeaveNormal)
    } else {
        None
    }
}

pub fn parse_priority(value: &str) -> (r: Option<Priority>)
    ensures
        r == parsed_priority(value@),
{
    let t = normalize_enum_token(value);
    if chars_eq_str(t.as_slice(), "delta") {
        Some(Priority::Delta)
    } else if chars_eq_str(t.as_slice(), "bridge") {
        Some(Priority::Bridge)
    } else if chars_eq_str(t.as_slice(), "familiar") {
        Some(Priority::Familiar)
    } else {
        None
    }
}

pub fn parse_directive(value: &str) -> (r: Option<ReaderDirective>)
    ensures
        r == parsed_directive(value@),
{
    let t = normalize_enum_token(value);
    let s = t.as_slice();
    if chars_eq_str(s, "highlight") {
        Some(ReaderDirective::Highlight)
    } else if chars_eq_str(s, "soft_fade") || chars_eq_str(s, "softfade") || chars_eq_str(s, "fade") {
        Some(ReaderDirective::SoftFade)
    } else if chars_eq_str(s, "callout") {
        Some(ReaderDirective::Callout)
    } else if chars_eq_str(s, "leave_normal") || chars_eq_str(s, "leavenormal") || chars_eq_str(
        s,
        "normal",
    ) {
        Some(ReaderDirective::LeaveNormal)
    } else {
        None
    }
}

// ---------------------------------------------------------------------------
// Directive rules
// ---------------------------------------------------------------------------

/// Inline directives (highlight, soft fade) only go with body sentences.
pub open spec fn kind_allows(kind: CandidateKind, directive: ReaderDirective) -> bool {
    match directive {
        ReaderDirective::Highlight | ReaderDirective::SoftFade => kind == CandidateKind::BodySentence,
        ReaderDirective::Callout | ReaderDirective::LeaveNormal => true,
    }
}

pub fn candidate_kind_allows_directive(kind: CandidateKind, directive: ReaderDirective) -> (r: bool)
    ensures
        r == kind_allows(kind, directive),
{
    match directive {
        ReaderDirective::Highlight | ReaderDirective::SoftFade => {
            matches!(kind, CandidateKind::BodySentence)
        },
        ReaderDirective::Callout | ReaderDirective::LeaveNormal => true,
    }
}

/// A highlight must be a delta and a soft fade must be familiar.
pub open spec fn directive_fits(directive: ReaderDirective, priority: Priority) -> bool {
    match directive {
        ReaderDirective::Highlight => priority == Priority::Delta,
        ReaderDirective::SoftFade => priority == Priority::Familiar,
        ReaderDirective::Callout | ReaderDirective::LeaveNormal => true,
    }
}

pub fn valid_directive_priority(directive: ReaderDirective, priority: Priority) -> (r: bool)
    ensures
        r == directive_fits(directive, priority),
{
    match directive {
        ReaderDirective::Highlight => matches!(priority, Priority::Delta),
        ReaderDirective::SoftFade => matches!(priority, Priority::Familiar),
        ReaderDirective::Callout | ReaderDirective::LeaveNormal => true,
    }
}

// ---------------------------------------------------------------------------
// Canonical sentence annotations
// ---------------------------------------------------------------------------

pub fn clone_item_ranges(v: &Vec<CanonicalItemRange>) -> (r: Vec<CanonicalItemRange>)
    ensures
        r@ == v@,
{
    let mut r: Vec<CanonicalItemRange> = Vec::new();
    let mut i: usize = 0;
    while i < v.len()
        invariant
            i <= v@.len(),
            r@ == v@.take(i as int),
        decreases v@.len() - i,
    {
        r.push(v[i].clone());
        i = i + 1;
        assert(r@ =~= v@.take(i as int));
    }
    assert(v@.take(i as int) =~= v@);
    r
}

/// `a` is the annotation of `candidate` with the given guidance.
pub open spec fn is_annotation_of(
    a: CanonicalSentenceAnnotation,
    candidate: CanonicalReadingUnit,
    priority: Priority,
    directive: ReaderDirective,
    confidence: u32,
    rationale: Seq<char>,
    reader_label: Seq<char>,
    source: AnnotationSource,
) -> bool {
    &&& a.annotation_id@ == "ca-"@ + candidate.sentence_id@
    &&& a.sentence_id@ == candidate.sentence_id@
    &&& a.page == candidate.page
    &&& a.directive == directive
    &&& a.priority == priority
    &&& a.confidence == confidence
    &&& a.source == source
    &&& a.source_text@ == candidate.normalized_text@
    &&& a.item_ranges@ == candidate.item_ranges@
    &&& a.quote_selector == candidate.quote_selector
    &&& a.candidate_kind == candidate.candidate_kind
    &&& a.rationale@ == rationale
    &&& a.reader_label@ == reader_label
}

/// The annotation of `candidate`: its id is `ca-` and the sentence id, and it
/// carries the sentence's text, item ranges and quote selector.
pub fn canonical_annotation_from_candidate(
    candidate: &CanonicalReadingUnit,
    priority: Priority,
    directive: ReaderDirective,
    confidence: u32,
    rationale: String,
    reader_label: String,
    source: AnnotationSource,
) -> (r: CanonicalSentenceAnnotation)
    ensures
        is_annotation_of(
            r,
            *candidate,
            priority,
            directive,
            confidence,
            rationale@,
            reader_label@,
            source,
        ),
{
    let mut id = chars_of("ca-");
    let sid = chars_of(candidate.sentence_id.as_str());
    extend_chars(&mut id, sid.as_slice());
    CanonicalSentenceAnnotation {
        annotation_id: string_from_chars(id.as_slice()),
        sentence_id: candidate.sentence_id.clone(),
        page: candidate.page,
        directive,
        priority,
        confidence,
        source,
        source_text: candidate.normalized_text.clone(),
        item_ranges: clone_item_ranges(&candidate.item_ranges),
        quote_selector: candidate.quote_selector.clone(),
        candidate_kind: candidate.candidate_kind,
        rationale,
        reader_label,
    }
}

/// A sentence annotation as the model returns it, before validation.
/// The confidence is in millionths.
pub struct RawCanonicalAnnotation {
    pub sentence_id: String,
    pub priority: String,
    pub directive: String,
    pub confidence: Option<i64>,
    pub rationale: String,
    pub reader_label: String,
}

/// Index of the last candidate with sentence id `id`.
pub open spec fn last_with_id(c: Seq<CanonicalReadingUnit>, id: Seq<char>) -> Option<int>
    decreases c.len(),
{
    if c.len() == 0 {
        None
    } else if c.last().sentence_id@ == id {
        Some(c.len() - 1)
    } else {
        last_with_id(c.drop_last(), id)
    }
}

pub proof fn lemma_last_with_id(c: Seq<CanonicalReadingUnit>, id: Seq<char>)
    ensures
        match last_with_id(c, id) {
            Some(i) => 0 <= i < c.len() && c[i].sentence_id@ == id && forall|k: int|
                i < k < c.len() ==> c[k].sentence_id@ != id,
            None => forall|k: int| 0 <= k < c.len() ==> c[k].sentence_id@ != id,
        },
    decreases c.len(),
{
    if c.len() > 0 {
        lemma_last_with_id(c.drop_last(), id);
        assert forall|k: int| 0 <= k < c.len() - 1 implies c.drop_last()[k] == c[k] by {}
    }
}

/// Position of the last candidate with sentence id `id`.
pub fn find_last_candidate(candidates: &[CanonicalReadingUnit], id: &str) -> (r: Option<usize>)
    ensures
        match last_with_id(candidates@, id@) {
            Some(i) => r == Some(i as usize),
            None => r is None,
        },
        r matches Some(i) ==> i < candidates@.len(),
{
    proof {
        lemma_last_with_id(candidates@, id@);
    }
    let idc = chars_of(id);
    let mut i = candidates.len();
    while i > 0
        invariant
            i <= candidates@.len(),
            idc@ == id@,
            forall|k: int| i <= k < candidates@.len() ==> candidates@[k].sentence_id@ != id@,
        decreases i,
    {
        let c = chars_of(candidates[i - 1].sentence_id.as_str());
        if chars_eq(c.as_slice(), idc.as_slice()) {
            proof {
                lemma_last_with_id(candidates@, id@);
                assert(candidates@[i - 1].sentence_id@ == id@);
                match last_with_id(candidates@, id@) {
                    Some(m) => {
                        if m > i - 1 {
                            assert(candidates@[m].sentence_id@ != id@);
                        }
                        if m < i - 1 {
                            assert(candidates@[i - 1].sentence_id@ != id@);
                        }
                        assert(m == i - 1);
                    },
                    None => {
                        assert(candidates@[i - 1].sentence_id@ != id@);
                    },
                }
            }
            return Some(i - 1);
        }
        i = i - 1;
    }
    proof {
        lemma_last_with_id(candidates@, id@);
        if let Some(m) = last_with_id(candidates@, id@) {
            assert(candidates@[m].sentence_id@ == id@);
        }
    }
    None
}

/// The model mentions the sentence of `raws[j]` for the first time at `j`.
pub open spec fn first_mention(raws: Seq<RawCanonicalAnnotation>, j: int) -> bool {
    forall|k: int| 0 <= k < j ==> raws[k].sentence_id@ != raws[j].sentence_id@
}

/// Whether the highlight or fade of a sentence this long is refused (over 500 characters).
pub open spec fn too_long_for_inline(d: ReaderDirective, text: Seq<char>) -> bool {
    (d == ReaderDirective::Highlight || d == ReaderDirective::SoftFade) && text.len() > 500
}

/// The candidate that `raw` annotates when it is valid on its own: a known
/// sentence with item ranges, a known priority and directive that fit
/// together and fit the kind of sentence, and no inline directive on a
/// sentence over 500 characters.
pub open spec fn canonical_target(cands: Seq<CanonicalReadingUnit>, raw: RawCanonicalAnnotation) -> Option<int> {
    match last_with_id(cands, raw.sentence_id@) {
        None => None,
        Some(ci) => {
            let c = cands[ci];
            match (parsed_priority(raw.priority@), parsed_directive(raw.directive@)) {
                (Some(p), Some(d)) => if c.item_ranges@.len() > 0 && directive_fits(d, p) && kind_allows(
                    c.candidate_kind,
                    d,
                ) && !too_long_for_inline(d, c.normalized_text@) {
                    Some(ci)
                } else {
                    None
                },
                _ => None,
            }
        },
    }
}

/// The accepted model annotations: (position in `raws`, candidate index)
/// of each first mention of a sentence that is valid on its own.
pub open spec fn canonical_plan(cands: Seq<CanonicalReadingUnit>, raws: Seq<RawCanonicalAnnotation>) -> Seq<(int, int)>
    decreases raws.len(),
{
    if raws.len() == 0 {
        Seq::<(int, int)>::empty()
    } else {
        let prev = canonical_plan(cands, raws.drop_last());
        let j = raws.len() - 1;
        if first_mention(raws, j) {
            match canonical_target(cands, raws[j]) {
                Some(ci) => prev.push((j, ci)),
                None => prev,
            }
        } else {
            prev
        }
    }
}

/// `a` is the annotation that the accepted `raw` gives for `candidate`.
pub open spec fn is_validated_annotation(
    a: CanonicalSentenceAnnotation,
    candidate: CanonicalReadingUnit,
    raw: RawCanonicalAnnotation,
    source: AnnotationSource,
) -> bool {
    let p = parsed_priority(raw.priority@).unwrap();
    is_annotation_of(
        a,
        candidate,
        p,
        parsed_directive(raw.directive@).unwrap(),
        clamped_confidence(raw.confidence),
        raw.rationale@,
        label_or_default(raw.reader_label@, p),
        source,
    )
}

/// Whether `r` holds the validated annotations of `raws`.
pub open spec fn are_validated_annotations(
    r: Seq<CanonicalSentenceAnnotation>,
    cands: Seq<CanonicalReadingUnit>,
    raws: Seq<RawCanonicalAnnotation>,
    source: AnnotationSource,
) -> bool {
    let plan = canonical_plan(cands, raws);
    &&& r.len() == plan.len()
    &&& forall|k: int|
        0 <= k < r.len() ==> is_validated_annotation(
            #[trigger] r[k],
            cands[plan[k].1],
            raws[plan[k].0],
            source,
        )
}

pub proof fn lemma_canonical_plan_bounds(cands: Seq<CanonicalReadingUnit>, raws: Seq<RawCanonicalAnnotation>)
    ensures
        forall|k: int|
            0 <= k < canonical_plan(cands, raws).len() ==> {
                let e = #[trigger] canonical_plan(cands, raws)[k];
                &&& 0 <= e.0 < raws.len()
                &&& canonical_target(cands, raws[e.0]) == Some(e.1)
            },
    decreases raws.len(),
{
    if raws.len() > 0 {
        lemma_canonical_plan_bounds(cands, raws.drop_last());
        let prev = canonical_plan(cands, raws.drop_last());
        assert forall|k: int| 0 <= k < prev.len() implies raws.drop_last()[prev[k].0] == raws[prev[k].0] by {}
    }
}

proof fn lemma_canonical_plan_order(cands: Seq<CanonicalReadingUnit>, raws: Seq<RawCanonicalAnnotation>, k1: int, k2: int)
    requires
        0 <= k1 < k2 < canonical_plan(cands, raws).len(),
    ensures
        canonical_plan(cands, raws)[k1].0 < canonical_plan(cands, raws)[k2].0,
    decreases raws.len(),
{
    let d = raws.drop_last();
    let prev = canonical_plan(cands, d);
    lemma_canonical_plan_bounds(cands, d);
    if k2 < prev.len() {
        lemma_canonical_plan_order(cands, d, k1, k2);
    } else {
        assert(canonical_plan(cands, raws)[k1] == prev[k1]);
        assert(canonical_plan(cands, raws)[k2].0 == raws.len() - 1);
    }
}

/// Each sentence is annotated at most once: the validated annotations name
/// pairwise different sentences, whatever the model repeated.
pub proof fn lemma_annotated_once(
    r: Seq<CanonicalSentenceAnnotation>,
    cands: Seq<CanonicalReadingUnit>,
    raws: Seq<RawCanonicalAnnotation>,
    source: AnnotationSource,
    k1: int,
    k2: int,
)
    requires
        are_validated_annotations(r, cands, raws, source),
        0 <= k1 < k2 < r.len(),
    ensures
        r[k1].sentence_id@ != r[k2].sentence_id@,
{
    let plan = canonical_plan(cands, raws);
    lemma_canonical_plan_bounds(cands, raws);
    lemma_canonical_plan_order(cands, raws, k1, k2);
    let (j1, c1) = plan[k1];
    let (j2, c2) = plan[k2];
    assert(is_validated_annotation(r[k1], cands[c1], raws[j1], source));
    assert(is_validated_annotation(r[k2], cands[c2], raws[j2], source));
    lemma_canonical_plan_entry(cands, raws, k2);
    lemma_last_with_id(cands, raws[j1].sentence_id@);
    lemma_last_with_id(cands, raws[j2].sentence_id@);
    assert(raws[j1].sentence_id@ != raws[j2].sentence_id@);
}

/// Inline guidance stays conservative: a validated highlight is a delta and
/// a validated fade is familiar, both only on body sentences of at most 500
/// characters; metadata, references, formulas and fragments get at most a
/// callout.
pub proof fn lemma_inline_guidance_fits(
    r: Seq<CanonicalSentenceAnnotation>,
    cands: Seq<CanonicalReadingUnit>,
    raws: Seq<RawCanonicalAnnotation>,
    source: AnnotationSource,
    k: int,
)
    requires
        are_validated_annotations(r, cands, raws, source),
        0 <= k < r.len(),
    ensures
        r[k].directive == ReaderDirective::Highlight ==> r[k].priority == Priority::Delta,
        r[k].directive == ReaderDirective::SoftFade ==> r[k].priority == Priority::Familiar,
        (r[k].directive == ReaderDirective::Highlight || r[k].directive == ReaderDirective::SoftFade) ==> (
        r[k].candidate_kind == CandidateKind::BodySentence && r[k].source_text@.len() <= 500),
        r[k].item_ranges@.len() > 0,
{
    let plan = canonical_plan(cands, raws);
    lemma_canonical_plan_bounds(cands, raws);
    let (j, c) = plan[k];
    assert(is_validated_annotation(r[k], cands[c], raws[j], source));
    assert(canonical_target(cands, raws[j]) == Some(c));
}

/// An entry of the plan is the first mention of its sentence.
proof fn lemma_canonical_plan_entry(cands: Seq<CanonicalReadingUnit>, raws: Seq<RawCanonicalAnnotation>, k: int)
    requires
        0 <= k < canonical_plan(cands, raws).len(),
    ensures
        first_mention(raws, canonical_plan(cands, raws)[k].0),
    decreases raws.len(),
{
    let d = raws.drop_last();
    let prev = canonical_plan(cands, d);
    lemma_canonical_plan_bounds(cands, d);
    if k < prev.len() {
        lemma_canonical_plan_entry(cands, d, k);
        let j = prev[k].0;
        lemma_first_mention_prefix(raws, raws.len() - 1, j);
        assert(d == raws.take(raws.len() - 1));
    }
}

pub proof fn lemma_first_mention_prefix(raws: Seq<RawCanonicalAnnotation>, n: int, j: int)
    requires
        0 <= j < n <= raws.len(),
    ensures
        first_mention(raws.take(n), j) == first_mention(raws, j),
{
    assert forall|k: int| 0 <= k < j implies raws.take(n)[k] == raws[k] by {}
}

/// Keeps the model annotations that name a known sentence with item ranges,
/// use known priority and directive values that fit each other and the
/// sentence kind, and do not highlight or fade sentences over 500 characters.
/// Only the first annotation of a sentence counts; where candidates share an
/// id the last one is used.
pub fn validate_canonical_annotations(
    candidates: &[CanonicalReadingUnit],
    raw_annotations: Vec<RawCanonicalAnnotation>,
    source: AnnotationSource,
) -> (r: Vec<CanonicalSentenceAnnotation>)
    ensures
        are_validated_annotations(r@, candidates@, raw_annotations@, source),
{
    let ghost raws = raw_annotations@;
    let mut seen: Vec<Vec<char>> = Vec::new();
    let mut out: Vec<CanonicalSentenceAnnotation> = Vec::new();
    let mut j: usize = 0;
    while j < raw_annotations.len()
        invariant
            j <= raws.len(),
            raws == raw_annotations@,
            views(seen@) == raws.take(j as int).map_values(|r: RawCanonicalAnnotation| r.sentence_id@),
            are_validated_annotations(out@, candidates@, raws.take(j as int), source),
        decreases raws.len() - j,
    {
        let raw = &raw_annotations[j];
        let ghost prev_plan = canonical_plan(candidates@, raws.take(j as int));
        assert(raws.take(j + 1).drop_last() =~= raws.take(j as int));
        assert(raws.take(j + 1)[j as int] == raws[j as int]);
        let id = chars_of(raw.sentence_id.as_str());
        let repeated = contains_word(&seen, id.as_slice());
        proof {
            lemma_first_mention_prefix(raws, j + 1, j as int);
            if repeated {
                let k = choose|k: int| 0 <= k < views(seen@).len() && views(seen@)[k] == id@;
                assert(raws.take(j as int)[k].sentence_id@ == id@);
                assert(!first_mention(raws, j as int));
            } else {
                assert forall|k: int| 0 <= k < j implies raws[k].sentence_id@ != raws[j as int].sentence_id@ by {
                    assert(views(seen@)[k] == raws.take(j as int)[k].sentence_id@);
                }
            }
            lemma_canonical_plan_bounds(candidates@, raws.take(j as int));
            lemma_last_with_id(candidates@, raws[j as int].sentence_id@);
        }
        let ghost before_seen = views(seen@);
        seen.push(id);
        assert(views(seen@) =~= before_seen.push(raws[j as int].sentence_id@));
        assert(raws.take(j + 1).map_values(|r: RawCanonicalAnnotation| r.sentence_id@) =~= raws.take(
            j as int,
        ).map_values(|r: RawCanonicalAnnotation| r.sentence_id@).push(raws[j as int].sentence_id@));
        if !repeated {
            let found = find_last_candidate(candidates, raw.sentence_id.as_str());
            if let Some(ci) = found {
                let candidate = &candidates[ci];
                let priority = parse_priority(raw.priority.as_str());
                let directive = parse_directive(raw.directive.as_str());
                if let (Some(p), Some(d)) = (priority, directive) {
                    let too_long = (matches!(d, ReaderDirective::Highlight) || matches!(
                        d,
                        ReaderDirective::SoftFade,
                    )) && chars_of(candidate.normalized_text.as_str()).len() > 500;
                    if candidate.item_ranges.len() > 0 && valid_directive_priority(d, p)
                        && candidate_kind_allows_directive(candidate.candidate_kind, d) && !too_long {
                        let label = label_or_default_exec(raw.reader_label.clone(), p);
                        let a = canonical_annotation_from_candidate(
                            candidate,
                            p,
                            d,
                            clamp_confidence(raw.confidence),
                            raw.rationale.clone(),
                            label,
                            source,
                        );
                        let ghost before = out@;
                        out.push(a);
                        proof {
                            let plan = canonical_plan(candidates@, raws.take(j + 1));
                            assert(canonical_target(candidates@, raws[j as int]) == Some(ci as int));
                            assert(first_mention(raws.take(j + 1), j as int));
                            assert(raws.take(j + 1)[j as int] == raws[j as int]);
                            assert(plan == prev_plan.push((j as int, ci as int)));
                            assert forall|k: int| 0 <= k < out@.len() implies is_validated_annotation(
                                #[trigger] out@[k],
                                candidates@[plan[k].1],
                                raws.take(j + 1)[plan[k].0],
                                source,
                            ) by {
                                if k < before.len() {
                                    assert(out@[k] == before[k]);
                                    assert(raws.take(j + 1)[prev_plan[k].0] == raws.take(j as int)[prev_plan[k].0]);
                                }
                            }
                        }
                        j = j + 1;
                        continue;
                    }
                }
            }
        }
        proof {
            let plan = canonical_plan(candidates@, raws.take(j + 1));
            assert(raws.take(j + 1)[j as int] == raws[j as int]);
            assert(!first_mention(raws.take(j + 1), j as int) || canonical_target(
                candidates@,
                raws[j as int],
            ) is None);
            assert(plan == prev_plan);
            assert forall|k: int| 0 <= k < out@.len() implies is_validated_annotation(
                #[trigger] out@[k],
                candidates@[plan[k].1],
                raws.take(j + 1)[plan[k].0],
                source,
            ) by {
                assert(raws.take(j + 1)[prev_plan[k].0] == raws.take(j as int)[prev_plan[k].0]);
            }
        }
        j = j + 1;
    }
    assert(raws.take(j as int) =~= raws);
    out
}

// ---------------------------------------------------------------------------
// Legacy reading anchors
// ---------------------------------------------------------------------------

/// Whether short text reads like a heading: at most 100 characters and 12
/// words, not ending in sentence punctuation.
pub open spec fn looks_like_heading(t: Seq<char>) -> bool {
    let e = trim_end(t);
    &&& t.len() <= 100
    &&& words(t).len() <= 12
    &&& !(e.len() > 0 && (e.last() == '.' || e.last() == '!' || e.last() == '?'))
}

pub fn is_heading(text: &str) -> (r: bool)
    ensures
        r == looks_like_heading(text@),
{
    let chars = chars_of(text);
    if chars.len() > 100 {
        return false;
    }
    let ws = split_words(chars.as_slice());
    if ws.len() > 12 {
        return false;
    }
    let (s, e) = trim_bounds(chars.as_slice());
    proof {
        crate::text::lemma_leading_ws_bound(chars@);
        crate::text::lemma_trailing_ws_bound(chars@);
    }
    let end = if e > 0 && s < e {
        e
    } else {
        let ghost t = chars@;
        proof {
            lemma_trim_end_empty(chars@, s as int, e as int);
        }
        return true;
    };
    proof {
        lemma_trim_end_last(chars@, s as int, e as int);
    }
    let last = chars[end - 1];
    !(last == '.' || last == '!' || last == '?')
}

/// When `trim(s)` is `s[a..b]` and not empty, `trim_end(s)` ends with `s[b - 1]`.
proof fn lemma_trim_end_last(s: Seq<char>, a: int, b: int)
    requires
        0 <= a < b <= s.len(),
        a == crate::text::leading_ws(s),
        b == s.len() - crate::text::trailing_ws(s.skip(a)),
    ensures
        trim_end(s).len() > 0,
        trim_end(s).last() == s[b - 1],
{
    crate::text::lemma_trailing_ws_bound(s.skip(a));
    crate::text::lemma_trailing_ws_bound(s);
    let k = crate::text::trailing_ws(s.skip(a));
    assert(s.skip(a)[s.len() - a - k - 1] == s[b - 1]);
    assert forall|i: int| s.len() - k <= i < s.len() implies crate::text::unicode_whitespace(#[trigger] s[i]) by {
        assert(s[i] == s.skip(a)[i - a]);
    }
    crate::text::lemma_trailing_ws_unique(s, k as int);
}

/// When `trim(s)` is empty, so is `trim_end(s)`.
proof fn lemma_trim_end_empty(s: Seq<char>, a: int, b: int)
    requires
        0 <= a <= b <= s.len(),
        !(b > 0 && a < b),
        a == crate::text::leading_ws(s),
        b == s.len() - crate::text::trailing_ws(s.skip(a)),
    ensures
        trim_end(s).len() == 0,
{
    crate::text::lemma_leading_ws_bound(s);
    crate::text::lemma_trailing_ws_bound(s.skip(a));
    if s.len() > 0 {
        assert forall|i: int| 0 <= i < s.len() implies crate::text::unicode_whitespace(#[trigger] s[i]) by {
            if i >= a {
                assert(s[i] == s.skip(a)[i - a]);
            }
        }
        crate::text::lemma_trailing_ws_unique(s, s.len() as int);
    }
}

/// A reading anchor as the model returns it, before validation.  The
/// confidence is in millionths.
pub struct RawReadingAnchor {
    pub sentence_ids: Vec<String>,
    pub priority: String,
    pub directive: String,
    pub confidence: Option<i64>,
    pub rationale: String,
    pub reader_label: String,
}

/// The texts of sentences.
pub open spec fn sentence_texts(s: Seq<SentenceCandidate>) -> Seq<Seq<char>> {
    s.map_values(|c: SentenceCandidate| c.text@)
}

/// `a` is the anchor over the non-empty run of sentences `s` with the given guidance.
pub open spec fn is_anchor_of(
    a: ReadingAnchor,
    s: Seq<SentenceCandidate>,
    priority: Priority,
    directive: ReaderDirective,
    confidence: u32,
    rationale: Seq<char>,
    reader_label: Seq<char>,
    source: AnnotationSource,
) -> bool {
    let first = s[0];
    let last = s.last();
    &&& a.anchor_id@ == "a-"@ + first.sentence_id@ + "-"@ + last.sentence_id@
    &&& a.sentence_ids@.map_values(|x: String| x@) == s.map_values(|c: SentenceCandidate| c.sentence_id@)
    &&& a.chunk_id@ == first.chunk_id@
    &&& a.page == first.page
    &&& a.text@ == join(sentence_texts(s), " "@)
    &&& a.char_start == first.char_start
    &&& a.char_end == last.char_end
    &&& a.source == source
    &&& a.priority == priority
    &&& a.directive == directive
    &&& a.confidence == confidence
    &&& a.rationale@ == rationale
    &&& a.reader_label@ == reader_label
}

/// The copies of the sentences that `refs` points to.
pub open spec fn derefs(refs: Seq<&SentenceCandidate>) -> Seq<SentenceCandidate> {
    refs.map_values(|r: &SentenceCandidate| *r)
}

/// The anchor over a run of sentences: its id names the first and last
/// sentence, its text joins the sentences with spaces, and its character
/// range runs from the start of the first to the end of the last.
pub fn anchor_from_sentences(
    sentences: &[&SentenceCandidate],
    priority: Priority,
    directive: ReaderDirective,
    confidence: u32,
    rationale: String,
    reader_label: String,
    source: AnnotationSource,
) -> (r: ReadingAnchor)
    requires
        sentences@.len() > 0,
    ensures
        is_anchor_of(
            r,
            derefs(sentences@),
            priority,
            directive,
            confidence,
            rationale@,
            reader_label@,
            source,
        ),
{
    let ghost s = derefs(sentences@);
    let first: &SentenceCandidate = sentences[0];
    let last: &SentenceCandidate = sentences[sentences.len() - 1];
    let mut id = chars_of("a-");
    extend_chars(&mut id, chars_of(first.sentence_id.as_str()).as_slice());
    id.push('-');
    extend_chars(&mut id, chars_of(last.sentence_id.as_str()).as_slice());
    assert(id@ =~= "a-"@ + first.sentence_id@ + "-"@ + last.sentence_id@) by {
        reveal_strlit("-");
    }
    let mut ids: Vec<String> = Vec::new();
    let mut texts: Vec<Vec<char>> = Vec::new();
    let mut i: usize = 0;
    while i < sentences.len()
        invariant
            i <= sentences@.len(),
            s == derefs(sentences@),
            ids@.map_values(|x: String| x@) == s.take(i as int).map_values(
                |c: SentenceCandidate| c.sentence_id@,
            ),
            views(texts@) == sentence_texts(s.take(i as int)),
        decreases sentences@.len() - i,
    {
        let sc: &SentenceCandidate = sentences[i];
        assert(*sc == s[i as int]);
        let ghost ids_before = ids@.map_values(|x: String| x@);
        let ghost texts_before = views(texts@);
        ids.push(sc.sentence_id.clone());
        texts.push(chars_of(sc.text.as_str()));
        assert(ids@.map_values(|x: String| x@) =~= ids_before.push(sc.sentence_id@));
        assert(views(texts@) =~= texts_before.push(sc.text@));
        assert(s.take(i + 1) =~= s.take(i as int).push(s[i as int]));
        i = i + 1;
        assert(ids@.map_values(|x: String| x@) =~= s.take(i as int).map_values(
            |c: SentenceCandidate| c.sentence_id@,
        ));
        assert(views(texts@) =~= sentence_texts(s.take(i as int)));
    }
    assert(s.take(i as int) =~= s);
    let sep = chars_of(" ");
    let text = join_chars(texts.as_slice(), sep.as_slice());
    ReadingAnchor {
        anchor_id: string_from_chars(id.as_slice()),
        sentence_ids: ids,
        chunk_id: first.chunk_id.clone(),
        page: first.page,
        text: string_from_chars(text.as_slice()),
        char_start: first.char_start,
        char_end: last.char_end,
        source,
        priority,
        directive,
        confidence,
        rationale,
        reader_label,
    }
}

/// Index of the last sentence candidate with id `id`.
pub open spec fn last_sentence_with_id(c: Seq<SentenceCandidate>, id: Seq<char>) -> Option<int>
    decreases c.len(),
{
    if c.len() == 0 {
        None
    } else if c.last().sentence_id@ == id {
        Some(c.len() - 1)
    } else {
        last_sentence_with_id(c.drop_last(), id)
    }
}

pub proof fn lemma_last_sentence_with_id(c: Seq<SentenceCandidate>, id: Seq<char>)
    ensures
        match last_sentence_with_id(c, id) {
            Some(i) => 0 <= i < c.len() && c[i].sentence_id@ == id && forall|k: int|
                i < k < c.len() ==> c[k].sentence_id@ != id,
            None => forall|k: int| 0 <= k < c.len() ==> c[k].sentence_id@ != id,
        },
    decreases c.len(),
{
    if c.len() > 0 {
        lemma_last_sentence_with_id(c.drop_last(), id);
        assert forall|k: int| 0 <= k < c.len() - 1 implies c.drop_last()[k] == c[k] by {}
    }
}

/// Position of the last sentence candidate with id `id`.
pub fn find_last_sentence(candidates: &[SentenceCandidate], id: &str) -> (r: Option<usize>)
    ensures
        match last_sentence_with_id(candidates@, id@) {
            Some(i) => r == Some(i as usize),
            None => r is None,
        },
        r matches Some(i) ==> i < candidates@.len(),
{
    let idc = chars_of(id);
    let mut i = candidates.len();
    while i > 0
        invariant
            i <= candidates@.len(),
            idc@ == id@,
            forall|k: int| i <= k < candidates@.len() ==> candidates@[k].sentence_id@ != id@,
        decreases i,
    {
        let c = chars_of(candidates[i - 1].sentence_id.as_str());
        if chars_eq(c.as_slice(), idc.as_slice()) {
            proof {
                lemma_last_sentence_with_id(candidates@, id@);
                match last_sentence_with_id(candidates@, id@) {
                    Some(m) => {
                        if m > i - 1 {
                            assert(candidates@[m].sentence_id@ != id@);
                        }
                        if m < i - 1 {
                            assert(candidates@[i - 1].sentence_id@ != id@);
                        }
                    },
                    None => {
                        assert(candidates@[i - 1].sentence_id@ != id@);
                    },
                }
            }
            return Some(i - 1);
        }
        i = i - 1;
    }
    proof {
        lemma_last_sentence_with_id(candidates@, id@);
        if let Some(m) = last_sentence_with_id(candidates@, id@) {
            assert(candidates@[m].sentence_id@ == id@);
        }
    }
    None
}

/// The candidate positions of the named sentences, when all are known.
pub open spec fn anchor_indices(c: Seq<SentenceCandidate>, ids: Seq<String>) -> Option<Seq<int>> {
    if forall|k: int| 0 <= k < ids.len() ==> last_sentence_with_id(c, (#[trigger] ids[k])@) is Some {
        Some(Seq::new(ids.len(), |k: int| last_sentence_with_id(c, ids[k]@).unwrap()))
    } else {
        None
    }
}

/// The run of sentences at the given positions.
pub open spec fn sentences_at(c: Seq<SentenceCandidate>, idx: Seq<int>) -> Seq<SentenceCandidate> {
    idx.map_values(|i: int| c[i])
}

/// Whether the sentences at `idx` form one coherent passage: consecutive
/// candidates of one chunk on one page, at most 500 characters long and at
/// least 30 unless the passage reads like a heading.
pub open spec fn coherent_run(c: Seq<SentenceCandidate>, idx: Seq<int>) -> bool {
    let s = sentences_at(c, idx);
    let text = join(sentence_texts(s), " "@);
    &&& forall|k: int| 0 <= k < s.len() ==> (#[trigger] s[k]).chunk_id@ == s[0].chunk_id@ && s[k].page == s[0].page
    &&& forall|k: int| 0 <= k < idx.len() - 1 ==> #[trigger] idx[k + 1] == idx[k] + 1
    &&& text.len() <= 500
    &&& (text.len() >= 30 || looks_like_heading(text))
}

/// The positions of the sentences that `raw` anchors when it is valid: one to
/// three known sentences forming a coherent passage, with a known priority
/// and directive.
pub open spec fn anchor_target(c: Seq<SentenceCandidate>, raw: RawReadingAnchor) -> Option<Seq<int>> {
    if raw.sentence_ids@.len() == 0 || raw.sentence_ids@.len() > 3 {
        None
    } else {
        match anchor_indices(c, raw.sentence_ids@) {
            None => None,
            Some(idx) => if coherent_run(c, idx) && parsed_priority(raw.priority@) is Some
                && parsed_directive(raw.directive@) is Some {
                Some(idx)
            } else {
                None
            },
        }
    }
}

/// The accepted model anchors: (position in `raws`, sentence positions).
pub open spec fn anchor_plan(c: Seq<SentenceCandidate>, raws: Seq<RawReadingAnchor>) -> Seq<(int, Seq<int>)>
    decreases raws.len(),
{
    if raws.len() == 0 {
        Seq::<(int, Seq<int>)>::empty()
    } else {
        let prev = anchor_plan(c, raws.drop_last());
        match anchor_target(c, raws.last()) {
            Some(idx) => prev.push((raws.len() - 1, idx)),
            None => prev,
        }
    }
}

/// `a` is the anchor that the accepted `raw` gives over `s`.
pub open spec fn is_validated_anchor(a: ReadingAnchor, s: Seq<SentenceCandidate>, raw: RawReadingAnchor) -> bool {
    let p = parsed_priority(raw.priority@).unwrap();
    is_anchor_of(
        a,
        s,
        p,
        parsed_directive(raw.directive@).unwrap(),
        clamped_confidence(raw.confidence),
        raw.rationale@,
        label_or_default(raw.reader_label@, p),
        AnnotationSource::Ai,
    )
}

/// Whether `r` holds the validated anchors of `raws`.
pub open spec fn are_validated_anchors(
    r: Seq<ReadingAnchor>,
    c: Seq<SentenceCandidate>,
    raws: Seq<RawReadingAnchor>,
) -> bool {
    let plan = anchor_plan(c, raws);
    &&& r.len() == plan.len()
    &&& forall|k: int|
        0 <= k < r.len() ==> is_validated_anchor(
            #[trigger] r[k],
            sentences_at(c, plan[k].1),
            raws[plan[k].0],
        )
}

/// Reading anchors are never chunk-sized: every validated anchor covers one
/// to three sentences of one chunk and page, and its text has at most 500
/// characters.
pub proof fn lemma_anchors_are_passages(r: Seq<ReadingAnchor>, c: Seq<SentenceCandidate>, raws: Seq<RawReadingAnchor>, k: int)
    requires
        are_validated_anchors(r, c, raws),
        0 <= k < r.len(),
    ensures
        1 <= r[k].sentence_ids@.len() <= 3,
        r[k].text@.len() <= 500,
        forall|t: int|
            0 <= t < anchor_plan(c, raws)[k].1.len() ==> (#[trigger] c[anchor_plan(c, raws)[k].1[t]]).chunk_id@
                == r[k].chunk_id@ && c[anchor_plan(c, raws)[k].1[t]].page == r[k].page,
{
    lemma_anchor_plan_bounds(c, raws);
    let (j, idx) = anchor_plan(c, raws)[k];
    let raw = raws[j];
    assert(anchor_target(c, raw) == Some(idx));
    let s = sentences_at(c, idx);
    assert(is_validated_anchor(r[k], s, raw));
    assert(idx.len() == raw.sentence_ids@.len());
    assert(r[k].sentence_ids@.map_values(|x: String| x@).len() == s.len());
    assert forall|t: int| 0 <= t < idx.len() implies (#[trigger] c[idx[t]]).chunk_id@ == r[k].chunk_id@ && c[idx[t]].page
        == r[k].page by {
        assert(s[t] == c[idx[t]]);
    }
}

pub proof fn lemma_anchor_plan_bounds(c: Seq<SentenceCandidate>, raws: Seq<RawReadingAnchor>)
    ensures
        forall|k: int|
            0 <= k < anchor_plan(c, raws).len() ==> {
                let e = #[trigger] anchor_plan(c, raws)[k];
                &&& 0 <= e.0 < raws.len()
                &&& anchor_target(c, raws[e.0]) == Some(e.1)
            },
    decreases raws.len(),
{
    if raws.len() > 0 {
        lemma_anchor_plan_bounds(c, raws.drop_last());
        let prev = anchor_plan(c, raws.drop_last());
        assert forall|k: int| 0 <= k < prev.len() implies raws.drop_last()[prev[k].0] == raws[prev[k].0] by {}
    }
}

/// The anchor for one model anchor, if it is valid.
fn validate_reading_anchor(candidates: &[SentenceCandidate], raw: &RawReadingAnchor) -> (r: Option<ReadingAnchor>)
    ensures
        match anchor_target(candidates@, *raw) {
            Some(idx) => r matches Some(a) && is_validated_anchor(a, sentences_at(candidates@, idx), *raw),
            None => r is None,
        },
{
    let n = raw.sentence_ids.len();
    if n == 0 || n > 3 {
        return None;
    }
    let ghost c = candidates@;
    let clen = candidates.len();
    assert(c.len() == clen);
    let mut idx: Vec<usize> = Vec::new();
    let mut k: usize = 0;
    while k < n
        invariant
            k <= n == raw.sentence_ids@.len(),
            idx@.len() == k,
            forall|m: int| 0 <= m < k ==> last_sentence_with_id(c, raw.sentence_ids@[m]@) == Some(
                #[trigger] idx@[m] as int,
            ) && idx@[m] < c.len(),
            c == candidates@,
            c.len() <= usize::MAX,
        decreases n - k,
    {
        let sid: &str = raw.sentence_ids[k].as_str();
        assert(sid@ == raw.sentence_ids@[k as int]@);
        let found = find_last_sentence(candidates, sid);
        proof {
            lemma_last_sentence_with_id(c, sid@);
        }
        match found {
            Some(i) => {
                proof {
                    lemma_last_sentence_with_id(c, raw.sentence_ids@[k as int]@);
                }
                let ghost before = idx@;
                assert(last_sentence_with_id(c, raw.sentence_ids@[k as int]@) == Some(i as int));
                idx.push(i);
                assert forall|m: int| 0 <= m < k + 1 implies last_sentence_with_id(
                    c,
                    raw.sentence_ids@[m]@,
                ) == Some(#[trigger] idx@[m] as int) && idx@[m] < c.len() by {
                    if m < k {
                        assert(idx@[m] == before[m]);
                    }
                }
            },
            None => {
                assert(anchor_indices(c, raw.sentence_ids@) is None);
                return None;
            },
        }
        k = k + 1;
    }
    let ghost gidx = idx@.map_values(|i: usize| i as int);
    assert(anchor_indices(c, raw.sentence_ids@) == Some(gidx)) by {
        assert forall|q: int| 0 <= q < raw.sentence_ids@.len() implies last_sentence_with_id(
            c,
            (#[trigger] raw.sentence_ids@[q])@,
        ) is Some by {
            assert(last_sentence_with_id(c, raw.sentence_ids@[q]@) == Some(idx@[q] as int));
        }
        assert(Seq::new(raw.sentence_ids@.len(), |k: int| last_sentence_with_id(c, raw.sentence_ids@[k]@).unwrap()) =~= gidx);
    }
    let mut sents: Vec<&SentenceCandidate> = Vec::new();
    let mut texts: Vec<Vec<char>> = Vec::new();
    let mut same_all = true;
    let mut consec_all = true;
    let first: &SentenceCandidate = &candidates[idx[0]];
    let first_chunk = chars_of(first.chunk_id.as_str());
    let mut m: usize = 0;
    while m < n
        invariant
            m <= n == idx@.len(),
            gidx == idx@.map_values(|i: usize| i as int),
            forall|q: int| 0 <= q < n ==> idx@[q] < c.len(),
            c == candidates@,
            *first == c[idx@[0] as int],
            first_chunk@ == first.chunk_id@,
            derefs(sents@) == sentences_at(c, gidx.take(m as int)),
            views(texts@) == sentence_texts(sentences_at(c, gidx.take(m as int))),
            same_all == (forall|q: int| 0 <= q < m ==> (#[trigger] sentences_at(c, gidx)[q]).chunk_id@ == first.chunk_id@
                && sentences_at(c, gidx)[q].page == first.page),
            consec_all == (forall|q: int| 0 <= q < m - 1 ==> #[trigger] gidx[q + 1] == gidx[q] + 1),
        decreases n - m,
    {
        let sc: &SentenceCandidate = &candidates[idx[m]];
        let same_chunk = chars_eq(chars_of(sc.chunk_id.as_str()).as_slice(), first_chunk.as_slice());
        let consecutive = m == 0 || idx[m] == idx[m - 1] + 1;
        proof {
            assert(sentences_at(c, gidx)[m as int] == *sc);
            if m > 0 {
                assert(gidx[m as int] == idx@[m as int] as int);
                assert(gidx[m - 1] == idx@[m - 1] as int);
            }
        }
        let ghost old_same = same_all;
        let ghost old_consec = consec_all;
        same_all = same_all && same_chunk && sc.page == first.page;
        consec_all = consec_all && consecutive;
        proof {
            if consec_all {
                assert forall|q: int| 0 <= q < m + 1 - 1 implies #[trigger] gidx[q + 1] == gidx[q] + 1 by {
                    if q < m - 1 {
                    } else {
                        assert(q == m - 1);
                    }
                }
            } else if old_consec {
                assert(m > 0);
                assert(!(gidx[(m - 1) + 1] == gidx[m - 1] + 1));
            }
            if !same_all && old_same {
                assert(!((sentences_at(c, gidx)[m as int]).chunk_id@ == first.chunk_id@
                    && sentences_at(c, gidx)[m as int].page == first.page));
            }
        }
        let ghost sents_before = derefs(sents@);
        let ghost texts_before = views(texts@);
        sents.push(sc);
        texts.push(chars_of(sc.text.as_str()));
        assert(derefs(sents@) =~= sents_before.push(*sc));
        assert(views(texts@) =~= texts_before.push(sc.text@));
        assert(gidx.take(m + 1) =~= gidx.take(m as int).push(gidx[m as int]));
        assert(sentences_at(c, gidx.take(m + 1)) =~= sentences_at(c, gidx.take(m as int)).push(*sc));
        m = m + 1;
        assert(derefs(sents@) =~= sentences_at(c, gidx.take(m as int)));
        assert(views(texts@) =~= sentence_texts(sentences_at(c, gidx.take(m as int))));
    }
    assert(gidx.take(m as int) =~= gidx);
    let sep = chars_of(" ");
    let text = join_chars(texts.as_slice(), sep.as_slice());
    let text_string = string_from_chars(text.as_slice());
    let len = text.len();
    let coherent = same_all && consec_all;
    if !coherent || len > 500 || (len < 30 && !is_heading(text_string.as_str())) {
        proof {
            let s = sentences_at(c, gidx);
            assert(s[0] == *first);
        }
        return None;
    }
    proof {
        let s = sentences_at(c, gidx);
        assert(s[0] == *first);
        assert(coherent_run(c, gidx));
    }
    let priority = parse_priority(raw.priority.as_str());
    let directive = parse_directive(raw.directive.as_str());
    match (priority, directive) {
        (Some(p), Some(d)) => {
            let label = label_or_default_exec(raw.reader_label.clone(), p);
            Some(
                anchor_from_sentences(
                    sents.as_slice(),
                    p,
                    d,
                    clamp_confidence(raw.confidence),
                    raw.rationale.clone(),
                    label,
                    AnnotationSource::Ai,
                ),
            )
        },
        _ => None,
    }
}

/// Keeps the model anchors that name one to three consecutive known sentences
/// of one chunk forming a coherent passage (at most 500 characters, and at
/// least 30 unless it reads like a heading) with known priority and directive.
pub fn validate_reading_anchors(
    candidates: &[SentenceCandidate],
    raw_anchors: Vec<RawReadingAnchor>,
) -> (r: Vec<ReadingAnchor>)
    ensures
        are_validated_anchors(r@, candidates@, raw_anchors@),
{
    let ghost raws = raw_anchors@;
    let mut out: Vec<ReadingAnchor> = Vec::new();
    let mut j: usize = 0;
    while j < raw_anchors.len()
        invariant
            j <= raws.len(),
            raws == raw_anchors@,
            are_validated_anchors(out@, candidates@, raws.take(j as int)),
        decreases raws.len() - j,
    {
        let ghost prev_plan = anchor_plan(candidates@, raws.take(j as int));
        assert(raws.take(j + 1).drop_last() =~= raws.take(j as int));
        assert(raws.take(j + 1).last() == raws[j as int]);
        proof {
            lemma_anchor_plan_bounds(candidates@, raws.take(j as int));
        }
        let ghost before = out@;
        match validate_reading_anchor(candidates, &raw_anchors[j]) {
            Some(a) => {
                out.push(a);
            },
            None => {},
        }
        proof {
            let plan = anchor_plan(candidates@, raws.take(j + 1));
            assert forall|k: int| 0 <= k < out@.len() implies is_validated_anchor(
                #[trigger] out@[k],
                sentences_at(candidates@, plan[k].1),
                raws.take(j + 1)[plan[k].0],
            ) by {
                if k < before.len() {
                    assert(out@[k] == before[k]);
                    assert(plan[k] == prev_plan[k]);
                    assert(raws.take(j + 1)[prev_plan[k].0] == raws.take(j as int)[prev_plan[k].0]);
                }
            }
        }
        j = j + 1;
    }
    assert(raws.take(j as int) =~= raws);
    out
}

// ---------------------------------------------------------------------------
// Chunk annotations and their fallbacks
// ---------------------------------------------------------------------------

/// A chunk annotation as the model returns it.  The confidence is in millionths.
pub struct RawChunkAnnotation {
    pub chunk_id: String,
    pub priority: String,
    pub directive: String,
    pub confidence: Option<i64>,
    pub rationale: String,
    pub reader_label: String,
}

/// `a` annotates the chunk `chunk_id` with the given guidance.
pub open spec fn is_chunk_annotation(
    a: ChunkAnnotation,
    chunk_id: Seq<char>,
    source: AnnotationSource,
    priority: Priority,
    directive: ReaderDirective,
    confidence: u32,
    rationale: Seq<char>,
    reader_label: Seq<char>,
) -> bool {
    &&& a.chunk_id@ == chunk_id
    &&& a.source == source
    &&& a.priority == priority
    &&& a.directive == directive
    &&& a.confidence == confidence
    &&& a.rationale@ == rationale
    &&& a.reader_label@ == reader_label
}

/// Chunks over 900 bytes are presumed to hold new material.
pub open spec fn fallback_priority_of(text: Seq<char>) -> Priority {
    if utf8_len(text) > 900 {
        Priority::Delta
    } else {
        Priority::Bridge
    }
}

pub fn fallback_priority(chunk: &TextChunk) -> (r: Priority)
    ensures
        r == fallback_priority_of(chunk.text@),
{
    let chars = chars_of(chunk.text.as_str());
    if capped_byte_len(chars.as_slice(), 900) > 900 {
        Priority::Delta
    } else {
        Priority::Bridge
    }
}

/// Rationale of an annotation that the model left out.
pub open spec fn fallback_rationale() -> Seq<char> {
    "Fallback classification used because the AI response omitted this chunk."@
}

/// The conservative annotation of a chunk the model left out: it never
/// styles the text (leave normal) and has confidence 0.45.
pub open spec fn is_fallback_annotation(a: ChunkAnnotation, chunk: TextChunk) -> bool {
    let p = fallback_priority_of(chunk.text@);
    is_chunk_annotation(
        a,
        chunk.id@,
        AnnotationSource::Fallback,
        p,
        ReaderDirective::LeaveNormal,
        450_000,
        fallback_rationale(),
        label_of(p),
    )
}

pub fn fallback_annotation(chunk: &TextChunk) -> (r: ChunkAnnotation)
    ensures
        is_fallback_annotation(r, *chunk),
{
    let priority = fallback_priority(chunk);
    ChunkAnnotation {
        chunk_id: chunk.id.clone(),
        source: AnnotationSource::Fallback,
        priority,
        directive: ReaderDirective::LeaveNormal,
        confidence: 450_000,
        rationale: "Fallback classification used because the AI response omitted this chunk.".to_owned(),
        reader_label: reader_label_for_priority(priority).to_owned(),
    }
}

/// The directive of a model chunk annotation; unknown values leave the text normal.
pub open spec fn normalized_directive(raw: RawChunkAnnotation) -> ReaderDirective {
    match parsed_directive(raw.directive@) {
        Some(d) => d,
        None => ReaderDirective::LeaveNormal,
    }
}

/// The priority of a model chunk annotation; an unknown value is inferred
/// from the directive (highlight: delta, soft fade: familiar) or else from
/// the chunk's length.
pub open spec fn normalized_priority(raw: RawChunkAnnotation, chunk: TextChunk) -> Priority {
    match parsed_priority(raw.priority@) {
        Some(p) => p,
        None => match normalized_directive(raw) {
            ReaderDirective::Highlight => Priority::Delta,
            ReaderDirective::SoftFade => Priority::Familiar,
            _ => fallback_priority_of(chunk.text@),
        },
    }
}

/// `a` is the normalized form of the model's annotation `raw` of `chunk`.
pub open spec fn is_normalized_annotation(a: ChunkAnnotation, chunk: TextChunk, raw: RawChunkAnnotation) -> bool {
    let p = normalized_priority(raw, chunk);
    is_chunk_annotation(
        a,
        chunk.id@,
        AnnotationSource::Ai,
        p,
        normalized_directive(raw),
        clamped_confidence(raw.confidence),
        raw.rationale@,
        label_or_default(raw.reader_label@, p),
    )
}

/// Turns a model chunk annotation into strict values, degrading unknown
/// values conservatively instead of failing.
pub fn normalize_annotation(chunk: &TextChunk, annotation: &RawChunkAnnotation) -> (r: ChunkAnnotation)
    ensures
        is_normalized_annotation(r, *chunk, *annotation),
{
    let directive = match parse_directive(annotation.directive.as_str()) {
        Some(d) => d,
        None => ReaderDirective::LeaveNormal,
    };
    let priority = match parse_priority(annotation.priority.as_str()) {
        Some(p) => p,
        None => match directive {
            ReaderDirective::Highlight => Priority::Delta,
            ReaderDirective::SoftFade => Priority::Familiar,
            _ => fallback_priority(chunk),
        },
    };
    let reader_label = label_or_default_exec(annotation.reader_label.clone(), priority);
    ChunkAnnotation {
        chunk_id: chunk.id.clone(),
        source: AnnotationSource::Ai,
        priority,
        directive,
        confidence: clamp_confidence(annotation.confidence),
        rationale: annotation.rationale.clone(),
        reader_label,
    }
}

/// Index of the last raw annotation of the chunk `id`.
pub open spec fn last_raw_for(raws: Seq<RawChunkAnnotation>, id: Seq<char>) -> Option<int>
    decreases raws.len(),
{
    if raws.len() == 0 {
        None
    } else if raws.last().chunk_id@ == id {
        Some(raws.len() - 1)
    } else {
        last_raw_for(raws.drop_last(), id)
    }
}

/// The annotation that a chunk gets: the normalized model annotation (the
/// last one for the chunk) when it has a non-blank rationale, else the fallback.
pub open spec fn is_chunk_outcome(a: ChunkAnnotation, chunk: TextChunk, raws: Seq<RawChunkAnnotation>) -> bool {
    match last_raw_for(raws, chunk.id@) {
        Some(j) => if trim(raws[j].rationale@).len() > 0 {
            is_normalized_annotation(a, chunk, raws[j])
        } else {
            is_fallback_annotation(a, chunk)
        },
        None => is_fallback_annotation(a, chunk),
    }
}

fn find_last_raw(raws: &Vec<RawChunkAnnotation>, id: &str) -> (r: Option<usize>)
    ensures
        match r {
            Some(i) => last_raw_for(raws@, id@) == Some(i as int) && i < raws@.len(),
            None => last_raw_for(raws@, id@) is None,
        },
{
    let idc = chars_of(id);
    assert(raws@.take(raws@.len() as int) =~= raws@);
    let mut i = raws.len();
    while i > 0
        invariant
            i <= raws@.len(),
            idc@ == id@,
            last_raw_for(raws@, id@) == last_raw_for(raws@.take(i as int), id@),
        decreases i,
    {
        assert(raws@.take(i as int).drop_last() =~= raws@.take(i - 1));
        assert(raws@.take(i as int).last() == raws@[i - 1]);
        let c = chars_of(raws[i - 1].chunk_id.as_str());
        if chars_eq(c.as_slice(), idc.as_slice()) {
            return Some(i - 1);
        }
        i = i - 1;
    }
    None
}

/// Gives every chunk exactly one annotation: the model's (normalized) one
/// when it has a rationale, otherwise a conservative fallback.
pub fn validate_annotations(chunks: &[TextChunk], annotations: Vec<RawChunkAnnotation>) -> (r: Vec<ChunkAnnotation>)
    ensures
        r@.len() == chunks@.len(),
        forall|i: int| 0 <= i < chunks@.len() ==> is_chunk_outcome(#[trigger] r@[i], chunks@[i], annotations@),
{
    let mut out: Vec<ChunkAnnotation> = Vec::new();
    let mut i: usize = 0;
    while i < chunks.len()
        invariant
            i <= chunks@.len(),
            out@.len() == i,
            forall|k: int| 0 <= k < i ==> is_chunk_outcome(#[trigger] out@[k], chunks@[k], annotations@),
        decreases chunks@.len() - i,
    {
        let chunk = &chunks[i];
        let cid: &str = chunk.id.as_str();
        assert(cid@ == chunks@[i as int].id@);
        let a = match find_last_raw(&annotations, cid) {
            Some(j) => {
                let n = normalize_annotation(chunk, &annotations[j]);
                let t = trim_chars(chars_of(n.rationale.as_str()).as_slice());
                if t.len() > 0 {
                    n
                } else {
                    fallback_annotation(chunk)
                }
            },
            None => fallback_annotation(chunk),
        };
        let ghost before = out@;
        out.push(a);
        assert forall|k: int| 0 <= k < i + 1 implies is_chunk_outcome(#[trigger] out@[k], chunks@[k], annotations@) by {
            if k < i {
                assert(out@[k] == before[k]);
            }
        }
        i = i + 1;
    }
    out
}

} // verus!
