//! The deterministic mock provider used when no model is configured: it
//! marks text that mentions mastered concepts or long baseline words as
//! familiar, long text as delta and the rest as bridge context.
use vstd::prelude::*;

use crate::keywords::{
    are_concept_tags, concept_labels, concept_labels_for, concept_source, concept_tags,
    concept_text, is_ranking, keyword_occurrences,
};
use crate::ai::{mastered_concepts, mastered_labels};
use crate::delta_policy::string_views;
use crate::annotation::{
    anchor_from_sentences, canonical_annotation_from_candidate, confidence_for_priority,
    confidence_of, derefs, directive_for_priority, directive_of, is_anchor_of, is_annotation_of,
    is_heading, label_of, looks_like_heading, reader_label_for_priority,
};
use crate::models::{
    AnnotationSource, CandidateKind, CanonicalReadingUnit, CanonicalSentenceAnnotation,
    ChunkAnnotation, ConceptTag, Priority, Quest, ReaderDirective, ReadingAnchor, SentenceCandidate, TextChunk,
    UserBaseline,
};
use crate::quest::{
    are_canonical_quests, build_quests_from_canonical_annotations, general_question, is_quest,
    lemma_first_five, lemma_marked_bounds, lemma_marked_increasing, marked, min, quest_id, quest_id_string,
};
use crate::text::{
    capped_byte_len, chars_of, contains_chars, contains_seq, decimal, decimal_chars,
    extend_chars, lowercase, split_words, string_from_chars, to_lowercase, utf8_len, views,
    words,
};

verus! {

/// What an analysis produces: quests, legacy chunk annotations, legacy
/// reading anchors and canonical sentence annotations.
#[derive(Clone, Debug)]
pub struct AiAnalysis {
    pub quests: Vec<Quest>,
    pub annotations: Vec<ChunkAnnotation>,
    pub reading_anchors: Vec<ReadingAnchor>,
    pub canonical_annotations: Vec<CanonicalSentenceAnnotation>,
}

/// The deterministic local provider.
pub struct MockProvider;

// ---------------------------------------------------------------------------
// Familiarity
// ---------------------------------------------------------------------------

/// The lower-cased labels of the mastered concepts.
pub open spec fn mastered_lower(concepts: Seq<ConceptTag>, baseline: UserBaseline) -> Seq<Seq<char>> {
    mastered_labels(concepts, baseline).map_values(|l: Seq<char>| lowercase(l))
}

/// The words of the lower-cased free-text baseline longer than five bytes.
pub open spec fn long_baseline_words(baseline: UserBaseline) -> Seq<Seq<char>> {
    words(lowercase(baseline.express_text@)).filter(|w: Seq<char>| utf8_len(w) > 5)
}

/// Whether the lower-cased text mentions a mastered concept label or a long
/// word of the free-text baseline.
pub open spec fn mock_familiar(text: Seq<char>, concepts: Seq<ConceptTag>, baseline: UserBaseline) -> bool {
    let t = lowercase(text);
    (exists|k: int| 0 <= k < mastered_lower(concepts, baseline).len() && contains_seq(t, #[trigger] mastered_lower(concepts, baseline)[k]))
        || (exists|k: int| 0 <= k < long_baseline_words(baseline).len() && contains_seq(t, #[trigger] long_baseline_words(baseline)[k]))
}

/// The lower-cased evidence the mock provider looks for.
struct Familiarity {
    labels: Vec<Vec<char>>,
    words: Vec<Vec<char>>,
}

fn familiarity(concepts: &[ConceptTag], baseline: &UserBaseline) -> (r: Familiarity)
    ensures
        views(r.labels@) == mastered_lower(concepts@, *baseline),
        views(r.words@) == long_baseline_words(*baseline),
{
    let mastered = mastered_concepts(concepts, baseline);
    let ghost ml = mastered_labels(concepts@, *baseline);
    assert(ml == mastered@.map_values(|c: &ConceptTag| *c).map_values(|c: ConceptTag| c.label@));
    let mut labels: Vec<Vec<char>> = Vec::new();
    let mut i: usize = 0;
    while i < mastered.len()
        invariant
            i <= mastered@.len(),
            ml == mastered@.map_values(|c: &ConceptTag| *c).map_values(|c: ConceptTag| c.label@),
            views(labels@) == ml.take(i as int).map_values(|l: Seq<char>| lowercase(l)),
        decreases mastered@.len() - i,
    {
        let lower = to_lowercase(mastered[i].label.as_str());
        let ghost before = views(labels@);
        labels.push(chars_of(lower.as_str()));
        assert(views(labels@) =~= before.push(lowercase(ml[i as int])));
        assert(ml.take(i + 1) =~= ml.take(i as int).push(ml[i as int]));
        i = i + 1;
    }
    assert(ml.take(i as int) =~= ml);
    let lower = to_lowercase(baseline.express_text.as_str());
    let all = split_words(chars_of(lower.as_str()).as_slice());
    let ghost f = |w: Seq<char>| utf8_len(w) > 5;
    let mut long: Vec<Vec<char>> = Vec::new();
    let mut k: usize = 0;
    while k < all.len()
        invariant
            k <= all@.len(),
            views(all@) == words(lowercase(baseline.express_text@)),
            f == (|w: Seq<char>| utf8_len(w) > 5),
            views(long@) == views(all@).take(k as int).filter(f),
        decreases all@.len() - k,
    {
        assert(views(all@).take(k + 1).drop_last() =~= views(all@).take(k as int));
        assert(views(all@).take(k + 1).last() == all@[k as int]@);
        reveal(Seq::filter);
        if capped_byte_len(all[k].as_slice(), 5) > 5 {
            let ghost before = views(long@);
            long.push(all[k].clone());
            assert(views(long@) =~= before.push(all@[k as int]@));
        }
        k = k + 1;
    }
    assert(views(all@).take(k as int) =~= views(all@));
    Familiarity { labels, words: long }
}

/// Whether `text` is familiar for the given evidence.
fn is_familiar(
    text: &str,
    evidence: &Familiarity,
    Ghost(concepts): Ghost<Seq<ConceptTag>>,
    Ghost(baseline): Ghost<UserBaseline>,
) -> (r: bool)
    requires
        views(evidence.labels@) == mastered_lower(concepts, baseline),
        views(evidence.words@) == long_baseline_words(baseline),
    ensures
        r == mock_familiar(text@, concepts, baseline),
{
    let lower = to_lowercase(text);
    let t = chars_of(lower.as_str());
    let mut i: usize = 0;
    while i < evidence.labels.len()
        invariant
            i <= evidence.labels@.len(),
            t@ == lowercase(text@),
            views(evidence.labels@) == mastered_lower(concepts, baseline),
            forall|k: int| 0 <= k < i ==> !contains_seq(t@, #[trigger] mastered_lower(concepts, baseline)[k]),
        decreases evidence.labels@.len() - i,
    {
        assert(views(evidence.labels@)[i as int] == evidence.labels@[i as int]@);
        if contains_chars(t.as_slice(), evidence.labels[i].as_slice()) {
            return true;
        }
        i = i + 1;
    }
    let mut j: usize = 0;
    while j < evidence.words.len()
        invariant
            j <= evidence.words@.len(),
            t@ == lowercase(text@),
            views(evidence.words@) == long_baseline_words(baseline),
            forall|k: int| 0 <= k < j ==> !contains_seq(t@, #[trigger] long_baseline_words(baseline)[k]),
        decreases evidence.words@.len() - j,
    {
        assert(views(evidence.words@)[j as int] == evidence.words@[j as int]@);
        if contains_chars(t.as_slice(), evidence.words[j].as_slice()) {
            return true;
        }
        j = j + 1;
    }
    false
}

// ---------------------------------------------------------------------------
// Canonical mock analysis
// ---------------------------------------------------------------------------

/// Whether the mock selects candidate `i`: a body sentence among the first
/// two body sentences of its page.
pub open spec fn mock_selects(c: Seq<CanonicalReadingUnit>, i: int) -> bool {
    &&& c[i].candidate_kind == CandidateKind::BodySentence
    &&& c.take(i).filter(
        |x: CanonicalReadingUnit| x.candidate_kind == CandidateKind::BodySentence && x.page == c[i].page,
    ).len() < 2
}

/// The positions of the selected candidates.
pub open spec fn mock_selection(c: Seq<CanonicalReadingUnit>) -> Seq<int> {
    marked(Seq::new(c.len(), |i: int| mock_selects(c, i)))
}

/// The mock priority of a sentence: familiar, else delta for 100 characters
/// or more, else bridge.
pub open spec fn mock_sentence_priority(text: Seq<char>, concepts: Seq<ConceptTag>, baseline: UserBaseline) -> Priority {
    if mock_familiar(text, concepts, baseline) {
        Priority::Familiar
    } else if text.len() >= 100 {
        Priority::Delta
    } else {
        Priority::Bridge
    }
}

/// The rationale of the mock's canonical annotations.
pub open spec fn mock_canonical_rationale() -> Seq<char> {
    "Deterministic canonical sentence selection for local development."@
}

/// The mock's canonical analysis: annotations of the selected sentences,
/// quests built from them, and no legacy guidance.
pub open spec fn is_mock_canonical_analysis(
    r: AiAnalysis,
    c: Seq<CanonicalReadingUnit>,
    concepts: Seq<ConceptTag>,
    baseline: UserBaseline,
) -> bool {
    let sel = mock_selection(c);
    &&& r.canonical_annotations@.len() == sel.len()
    &&& forall|k: int|
        0 <= k < sel.len() ==> {
            let cand = c[sel[k]];
            let p = mock_sentence_priority(cand.normalized_text@, concepts, baseline);
            is_annotation_of(
                #[trigger] r.canonical_annotations@[k],
                cand,
                p,
                directive_of(p),
                confidence_of(p),
                mock_canonical_rationale(),
                label_of(p),
                AnnotationSource::Mock,
            )
        }
    &&& are_canonical_quests(r.quests@, r.canonical_annotations@)
    &&& r.annotations@.len() == 0
    &&& r.reading_anchors@.len() == 0
}

/// A mock canonical annotation whose sentence mentions, case-insensitively,
/// the label of a concept that the reader marked as mastered is marked likely
/// familiar and soft-faded, however long the sentence is.
pub proof fn lemma_mock_mastered_mention_is_familiar(
    r: AiAnalysis,
    c: Seq<CanonicalReadingUnit>,
    concepts: Seq<ConceptTag>,
    baseline: UserBaseline,
    k: int,
    j: int,
)
    requires
        is_mock_canonical_analysis(r, c, concepts, baseline),
        0 <= k < r.canonical_annotations@.len(),
        0 <= j < concepts.len(),
        exists|m: int|
            0 <= m < baseline.mastered_concept_ids@.len() && (#[trigger] baseline.mastered_concept_ids@[m])@
                == concepts[j].id@,
        contains_seq(
            lowercase(r.canonical_annotations@[k].source_text@),
            lowercase(concepts[j].label@),
        ),
    ensures
        r.canonical_annotations@[k].priority == Priority::Familiar,
        r.canonical_annotations@[k].directive == ReaderDirective::SoftFade,
        r.canonical_annotations@[k].reader_label@ == "Likely familiar"@,
{
    let ids = string_views(baseline.mastered_concept_ids@);
    let m = choose|m: int|
        0 <= m < baseline.mastered_concept_ids@.len() && (#[trigger] baseline.mastered_concept_ids@[m])@
            == concepts[j].id@;
    assert(ids[m] == concepts[j].id@);
    assert(ids.contains(concepts[j].id@));
    let f = |x: ConceptTag| string_views(baseline.mastered_concept_ids@).contains(x.id@);
    assert(f(concepts[j]));
    concepts.lemma_filter_contains(f, j);
    let fl = concepts.filter(f);
    let q = choose|q: int| 0 <= q < fl.len() && fl[q] == concepts[j];
    let ml = mastered_lower(concepts, baseline);
    assert(ml[q] == lowercase(concepts[j].label@));
    let sel = mock_selection(c);
    let cand = c[sel[k]];
    let a = r.canonical_annotations@[k];
    assert(a.source_text@ == cand.normalized_text@);
    assert(contains_seq(lowercase(cand.normalized_text@), ml[q]));
    assert(mock_familiar(cand.normalized_text@, concepts, baseline));
}

/// A mock canonical annotation whose sentence contains, after lower-casing,
/// a word of the reader's lower-cased free-text baseline longer than five
/// bytes is marked likely familiar and soft-faded, however long the sentence is.
pub proof fn lemma_mock_baseline_word_mention_is_familiar(
    r: AiAnalysis,
    c: Seq<CanonicalReadingUnit>,
    concepts: Seq<ConceptTag>,
    baseline: UserBaseline,
    k: int,
    w: Seq<char>,
)
    requires
        is_mock_canonical_analysis(r, c, concepts, baseline),
        0 <= k < r.canonical_annotations@.len(),
        words(lowercase(baseline.express_text@)).contains(w),
        utf8_len(w) > 5,
        contains_seq(lowercase(r.canonical_annotations@[k].source_text@), w),
    ensures
        r.canonical_annotations@[k].priority == Priority::Familiar,
        r.canonical_annotations@[k].directive == ReaderDirective::SoftFade,
        r.canonical_annotations@[k].reader_label@ == "Likely familiar"@,
{
    let ws = words(lowercase(baseline.express_text@));
    let f = |x: Seq<char>| utf8_len(x) > 5;
    let i = choose|i: int| 0 <= i < ws.len() && ws[i] == w;
    assert(f(ws[i]));
    ws.lemma_filter_contains(f, i);
    let lw = long_baseline_words(baseline);
    assert(lw == ws.filter(f));
    let q = choose|q: int| 0 <= q < lw.len() && lw[q] == w;
    let sel = mock_selection(c);
    let cand = c[sel[k]];
    assert(r.canonical_annotations@[k].source_text@ == cand.normalized_text@);
    assert(contains_seq(lowercase(cand.normalized_text@), lw[q]));
    assert(mock_familiar(cand.normalized_text@, concepts, baseline));
}

/// Every mock canonical annotation is of a body sentence, and no page has
/// more than two of them.
pub proof fn lemma_mock_annotates_two_body_sentences_per_page(
    r: AiAnalysis,
    c: Seq<CanonicalReadingUnit>,
    concepts: Seq<ConceptTag>,
    baseline: UserBaseline,
    k1: int,
    k2: int,
    k3: int,
)
    requires
        is_mock_canonical_analysis(r, c, concepts, baseline),
        0 <= k1 < k2 < k3 < r.canonical_annotations@.len(),
    ensures
        r.canonical_annotations@[k1].candidate_kind == CandidateKind::BodySentence,
        !(r.canonical_annotations@[k1].page == r.canonical_annotations@[k2].page
            && r.canonical_annotations@[k2].page == r.canonical_annotations@[k3].page),
{
    let m = Seq::new(c.len(), |i: int| mock_selects(c, i));
    let sel = mock_selection(c);
    lemma_marked_bounds(m);
    lemma_marked_increasing(m);
    let a = r.canonical_annotations@;
    let (i1, i2, i3) = (sel[k1], sel[k2], sel[k3]);
    assert(a[k1].page == c[i1].page && a[k2].page == c[i2].page && a[k3].page == c[i3].page);
    assert(m[i1] && m[i2] && m[i3]);
    assert(i1 < i2 < i3);
    if a[k1].page == a[k2].page && a[k2].page == a[k3].page {
        let pg = c[i3].page;
        let f = |x: CanonicalReadingUnit| x.candidate_kind == CandidateKind::BodySentence && x.page == pg;
        reveal(Seq::filter);
        assert(c.take(i1 + 1).drop_last() =~= c.take(i1));
        assert(c.take(i1 + 1).filter(f).len() >= 1);
        lemma_filter_prefix_monotone(c, i1 + 1, i2, f);
        assert(c.take(i2 + 1).drop_last() =~= c.take(i2));
        assert(c.take(i2 + 1).filter(f).len() >= 2);
        lemma_filter_prefix_monotone(c, i2 + 1, i3, f);
        assert(c.take(i3).filter(f).len() >= 2);
        assert(!mock_selects(c, i3));
    }
}

/// A mock canonical annotation is delta only for a sentence of at least 100
/// characters, and bridge context only for a shorter one.
pub proof fn lemma_mock_priority_by_length(
    r: AiAnalysis,
    c: Seq<CanonicalReadingUnit>,
    concepts: Seq<ConceptTag>,
    baseline: UserBaseline,
    k: int,
)
    requires
        is_mock_canonical_analysis(r, c, concepts, baseline),
        0 <= k < r.canonical_annotations@.len(),
    ensures
        r.canonical_annotations@[k].priority == Priority::Delta ==> r.canonical_annotations@[k].source_text@.len() >= 100,
        r.canonical_annotations@[k].priority == Priority::Bridge ==> r.canonical_annotations@[k].source_text@.len() < 100,
{
    let sel = mock_selection(c);
    assert(r.canonical_annotations@[k].source_text@ == c[sel[k]].normalized_text@);
}

/// The number of body sentences on `page` among the first `i` candidates, counted up to 2.
fn body_on_page_before(c: &[CanonicalReadingUnit], i: usize, page: usize) -> (r: usize)
    requires
        i <= c@.len(),
    ensures
        r == if c@.take(i as int).filter(
            |x: CanonicalReadingUnit| x.candidate_kind == CandidateKind::BodySentence && x.page == page,
        ).len() < 2 {
            c@.take(i as int).filter(
                |x: CanonicalReadingUnit| x.candidate_kind == CandidateKind::BodySentence && x.page == page,
            ).len()
        } else {
            2
        },
{
    let ghost f = |x: CanonicalReadingUnit| x.candidate_kind == CandidateKind::BodySentence && x.page == page;
    let mut n: usize = 0;
    let mut k: usize = 0;
    while k < i
        invariant
            k <= i <= c@.len(),
            f == (|x: CanonicalReadingUnit| x.candidate_kind == CandidateKind::BodySentence && x.page == page),
            n == c@.take(k as int).filter(f).len(),
            n < 2,
        decreases i - k,
    {
        assert(c@.take(k + 1).drop_last() =~= c@.take(k as int));
        assert(c@.take(k + 1).last() == c@[k as int]);
        reveal(Seq::filter);
        if matches!(c[k].candidate_kind, CandidateKind::BodySentence) && c[k].page == page {
            n = n + 1;
            if n >= 2 {
                proof {
                    lemma_filter_prefix_monotone(c@, k + 1, i as int, f);
                }
                return 2;
            }
        }
        k = k + 1;
    }
    n
}

/// A longer prefix never has fewer elements satisfying a predicate.
pub proof fn lemma_filter_prefix_monotone<T>(s: Seq<T>, a: int, b: int, f: spec_fn(T) -> bool)
    requires
        0 <= a <= b <= s.len(),
    ensures
        s.take(a).filter(f).len() <= s.take(b).filter(f).len(),
    decreases b - a,
{
    if a < b {
        lemma_filter_prefix_monotone(s, a, b - 1, f);
        assert(s.take(b).drop_last() =~= s.take(b - 1));
        reveal(Seq::filter);
    }
}

/// The mock's priority for a sentence or chunk text.
fn mock_priority_for_sentence(
    text: &str,
    evidence: &Familiarity,
    Ghost(concepts): Ghost<Seq<ConceptTag>>,
    Ghost(baseline): Ghost<UserBaseline>,
) -> (r: Priority)
    requires
        views(evidence.labels@) == mastered_lower(concepts, baseline),
        views(evidence.words@) == long_baseline_words(baseline),
    ensures
        r == mock_sentence_priority(text@, concepts, baseline),
{
    if is_familiar(text, evidence, Ghost(concepts), Ghost(baseline)) {
        Priority::Familiar
    } else if chars_of(text).len() >= 100 {
        Priority::Delta
    } else {
        Priority::Bridge
    }
}

/// Deterministic canonical analysis: annotates the first two body sentences
/// of each page and builds quests from them.
pub fn mock_canonical_analysis(
    candidates: &[CanonicalReadingUnit],
    concepts: &[ConceptTag],
    baseline: &UserBaseline,
) -> (r: AiAnalysis)
    ensures
        is_mock_canonical_analysis(r, candidates@, concepts@, *baseline),
{
    let evidence = familiarity(concepts, baseline);
    let ghost c = candidates@;
    let ghost m = Seq::new(c.len(), |i: int| mock_selects(c, i));
    let mut selected: Vec<usize> = Vec::new();
    let mut i: usize = 0;
    while i < candidates.len()
        invariant
            i <= c.len(),
            c == candidates@,
            m == Seq::new(c.len(), |i: int| mock_selects(c, i)),
            selected@.map_values(|x: usize| x as int) == marked(m.take(i as int)),
        decreases c.len() - i,
    {
        assert(m.take(i + 1).drop_last() =~= m.take(i as int));
        assert(m.take(i + 1).last() == m[i as int]);
        let cand = &candidates[i];
        if matches!(cand.candidate_kind, CandidateKind::BodySentence) && body_on_page_before(
            candidates,
            i,
            cand.page,
        ) < 2 {
            let ghost before = selected@.map_values(|x: usize| x as int);
            selected.push(i);
            assert(selected@.map_values(|x: usize| x as int) =~= before.push(i as int));
        }
        i = i + 1;
    }
    assert(m.take(i as int) =~= m);
    proof {
        lemma_marked_bounds(m);
    }
    let ghost sel = mock_selection(c);
    let mut annotations: Vec<CanonicalSentenceAnnotation> = Vec::new();
    let mut k: usize = 0;
    while k < selected.len()
        invariant
            k <= selected@.len(),
            c == candidates@,
            sel == mock_selection(c),
            sel == selected@.map_values(|x: usize| x as int),
            forall|q: int| 0 <= q < sel.len() ==> 0 <= #[trigger] sel[q] < c.len(),
            views(evidence.labels@) == mastered_lower(concepts@, *baseline),
            views(evidence.words@) == long_baseline_words(*baseline),
            annotations@.len() == k,
            forall|q: int|
                0 <= q < k ==> {
                    let cand = c[sel[q]];
                    let p = mock_sentence_priority(cand.normalized_text@, concepts@, *baseline);
                    is_annotation_of(
                        #[trigger] annotations@[q],
                        cand,
                        p,
                        directive_of(p),
                        confidence_of(p),
                        mock_canonical_rationale(),
                        label_of(p),
                        AnnotationSource::Mock,
                    )
                },
        decreases selected@.len() - k,
    {
        assert(sel[k as int] == selected@[k as int] as int);
        let cand = &candidates[selected[k]];
        let priority = mock_priority_for_sentence(
            cand.normalized_text.as_str(),
            &evidence,
            Ghost(concepts@),
            Ghost(*baseline),
        );
        let a = canonical_annotation_from_candidate(
            cand,
            priority,
            directive_for_priority(priority),
            confidence_for_priority(priority),
            "Deterministic canonical sentence selection for local development.".to_owned(),
            reader_label_for_priority(priority).to_owned(),
            AnnotationSource::Mock,
        );
        let ghost before = annotations@;
        annotations.push(a);
        assert forall|q: int|
            0 <= q < k + 1 implies {
            let cand = c[sel[q]];
            let p = mock_sentence_priority(cand.normalized_text@, concepts@, *baseline);
            is_annotation_of(
                #[trigger] annotations@[q],
                cand,
                p,
                directive_of(p),
                confidence_of(p),
                mock_canonical_rationale(),
                label_of(p),
                AnnotationSource::Mock,
            )
        } by {
            if q < k {
                assert(annotations@[q] == before[q]);
            }
        }
        k = k + 1;
    }
    let quests = build_quests_from_canonical_annotations(annotations.as_slice());
    AiAnalysis {
        quests,
        annotations: Vec::new(),
        reading_anchors: Vec::new(),
        canonical_annotations: annotations,
    }
}

// ---------------------------------------------------------------------------
// Legacy mock analysis over chunks and sentence candidates
// ---------------------------------------------------------------------------

/// The mock priority of a chunk: familiar, else delta above 1,100 bytes,
/// else bridge.
pub open spec fn mock_chunk_priority(text: Seq<char>, concepts: Seq<ConceptTag>, baseline: UserBaseline) -> Priority {
    if mock_familiar(text, concepts, baseline) {
        Priority::Familiar
    } else if utf8_len(text) > 1100 {
        Priority::Delta
    } else {
        Priority::Bridge
    }
}

/// The mock's rationale for a priority.
pub open spec fn mock_rationale(p: Priority) -> Seq<char> {
    match p {
        Priority::Delta => "Likely contains dense or novel material relative to the stated baseline."@,
        Priority::Bridge => "Connects familiar context to the likely novel argument."@,
        Priority::Familiar => "Overlaps with concepts the reader marked as already known."@,
    }
}

fn mock_rationale_string(p: Priority) -> (r: String)
    ensures
        r@ == mock_rationale(p),
{
    match p {
        Priority::Delta => "Likely contains dense or novel material relative to the stated baseline.".to_owned(),
        Priority::Bridge => "Connects familiar context to the likely novel argument.".to_owned(),
        Priority::Familiar => "Overlaps with concepts the reader marked as already known.".to_owned(),
    }
}

/// Whether sentence `s` of chunk `chunk_id` can anchor guidance: at most 500
/// characters, and at least 30 unless it reads like a heading.
pub open spec fn anchorable(s: SentenceCandidate, chunk_id: Seq<char>) -> bool {
    &&& s.chunk_id@ == chunk_id
    &&& s.text@.len() <= 500
    &&& (s.text@.len() >= 30 || looks_like_heading(s.text@))
}

/// The first sentence candidate that can anchor guidance for chunk `chunk_id`.
pub open spec fn first_anchorable(c: Seq<SentenceCandidate>, chunk_id: Seq<char>) -> Option<int>
    decreases c.len(),
{
    if c.len() == 0 {
        None
    } else {
        match first_anchorable(c.drop_last(), chunk_id) {
            Some(i) => Some(i),
            None => if anchorable(c.last(), chunk_id) {
                Some(c.len() - 1)
            } else {
                None
            },
        }
    }
}

pub proof fn lemma_first_anchorable(c: Seq<SentenceCandidate>, chunk_id: Seq<char>)
    ensures
        match first_anchorable(c, chunk_id) {
            Some(i) => 0 <= i < c.len() && anchorable(c[i], chunk_id) && forall|k: int|
                0 <= k < i ==> !anchorable(c[k], chunk_id),
            None => forall|k: int| 0 <= k < c.len() ==> !anchorable(c[k], chunk_id),
        },
    decreases c.len(),
{
    if c.len() > 0 {
        lemma_first_anchorable(c.drop_last(), chunk_id);
        assert forall|k: int| 0 <= k < c.len() - 1 implies c.drop_last()[k] == c[k] by {}
    }
}

fn find_first_anchorable(c: &[SentenceCandidate], chunk_id: &String) -> (r: Option<usize>)
    ensures
        match r {
            Some(i) => first_anchorable(c@, chunk_id@) == Some(i as int) && i < c@.len(),
            None => first_anchorable(c@, chunk_id@) is None,
        },
{
    proof {
        lemma_first_anchorable(c@, chunk_id@);
    }
    let id = chars_of(chunk_id.as_str());
    let mut i: usize = 0;
    while i < c.len()
        invariant
            i <= c@.len(),
            id@ == chunk_id@,
            forall|k: int| 0 <= k < i ==> !anchorable(#[trigger] c@[k], chunk_id@),
        decreases c@.len() - i,
    {
        let s = &c[i];
        let same = crate::text::chars_eq(chars_of(s.chunk_id.as_str()).as_slice(), id.as_slice());
        let n = chars_of(s.text.as_str()).len();
        if same && n <= 500 && (n >= 30 || is_heading(s.text.as_str())) {
            proof {
                lemma_first_anchorable(c@, chunk_id@);
                match first_anchorable(c@, chunk_id@) {
                    Some(m) => {
                        if m > i {
                            assert(!anchorable(c@[i as int], chunk_id@));
                        }
                        if m < i {
                            assert(!anchorable(c@[m], chunk_id@));
                        }
                    },
                    None => {
                        assert(!anchorable(c@[i as int], chunk_id@));
                    },
                }
            }
            return Some(i);
        }
        i = i + 1;
    }
    proof {
        lemma_first_anchorable(c@, chunk_id@);
        if let Some(m) = first_anchorable(c@, chunk_id@) {
            assert(!anchorable(c@[m], chunk_id@));
        }
    }
    None
}

/// The positions of the chunks that get a reading anchor.
pub open spec fn anchored_chunks(chunks: Seq<TextChunk>, legacy: Seq<SentenceCandidate>) -> Seq<int> {
    marked(Seq::new(chunks.len(), |i: int| first_anchorable(legacy, chunks[i].id@) is Some))
}

/// The question about the `k`-th (from 0) highlighted section.
pub open spec fn section_question(k: int) -> Seq<char> {
    "What new claim or mechanism appears around highlighted section "@ + decimal((k + 1) as nat) + "?"@
}

/// The mock's legacy analysis: per chunk with an anchorable sentence, an
/// anchor over its first anchorable sentence with the chunk's mock priority;
/// quests about the first five delta anchors (or one general quest); no
/// chunk or canonical annotations.
pub open spec fn is_mock_legacy_analysis(
    r: AiAnalysis,
    chunks: Seq<TextChunk>,
    legacy: Seq<SentenceCandidate>,
    concepts: Seq<ConceptTag>,
    baseline: UserBaseline,
) -> bool {
    let ch = anchored_chunks(chunks, legacy);
    let anchors = r.reading_anchors@;
    let deltas = marked(anchors.map_values(|a: ReadingAnchor| a.priority == Priority::Delta));
    let sel = deltas.take(min(5, deltas.len() as int));
    &&& anchors.len() == ch.len()
    &&& forall|k: int|
        0 <= k < ch.len() ==> {
            let chunk = chunks[ch[k]];
            let p = mock_chunk_priority(chunk.text@, concepts, baseline);
            is_anchor_of(
                #[trigger] anchors[k],
                seq![legacy[first_anchorable(legacy, chunk.id@).unwrap()]],
                p,
                directive_of(p),
                confidence_of(p),
                mock_rationale(p),
                label_of(p),
                AnnotationSource::Mock,
            )
        }
    &&& if sel.len() == 0 {
        &&& r.quests@.len() == 1
        &&& is_quest(
            r.quests@[0],
            quest_id(0),
            general_question(),
            chunks.take(min(2, chunks.len() as int)).map_values(|c: TextChunk| c.id@),
        )
    } else {
        &&& r.quests@.len() == sel.len()
        &&& forall|k: int|
            0 <= k < sel.len() ==> is_quest(
                #[trigger] r.quests@[k],
                quest_id(k),
                section_question(k),
                seq![anchors[sel[k]].chunk_id@],
            )
    }
    &&& r.annotations@.len() == 0
    &&& r.canonical_annotations@.len() == 0
}

fn section_question_string(k: usize) -> (r: String)
    requires
        k < usize::MAX,
    ensures
        r@ == section_question(k as int),
{
    let mut q = chars_of("What new claim or mechanism appears around highlighted section ");
    extend_chars(&mut q, decimal_chars(k + 1).as_slice());
    extend_chars(&mut q, chars_of("?").as_slice());
    string_from_chars(q.as_slice())
}

fn mock_chunk_priority_exec(
    text: &str,
    evidence: &Familiarity,
    Ghost(concepts): Ghost<Seq<ConceptTag>>,
    Ghost(baseline): Ghost<UserBaseline>,
) -> (r: Priority)
    requires
        views(evidence.labels@) == mastered_lower(concepts, baseline),
        views(evidence.words@) == long_baseline_words(baseline),
    ensures
        r == mock_chunk_priority(text@, concepts, baseline),
{
    if is_familiar(text, evidence, Ghost(concepts), Ghost(baseline)) {
        Priority::Familiar
    } else if capped_byte_len(chars_of(text).as_slice(), 1100) > 1100 {
        Priority::Delta
    } else {
        Priority::Bridge
    }
}

fn mock_legacy_analysis(
    chunks: &[TextChunk],
    legacy: &[SentenceCandidate],
    concepts: &[ConceptTag],
    baseline: &UserBaseline,
) -> (r: AiAnalysis)
    ensures
        is_mock_legacy_analysis(r, chunks@, legacy@, concepts@, *baseline),
{
    let evidence = familiarity(concepts, baseline);
    let ghost m = Seq::new(chunks@.len(), |i: int| first_anchorable(legacy@, chunks@[i].id@) is Some);
    let ghost ch = anchored_chunks(chunks@, legacy@);
    let mut anchors: Vec<ReadingAnchor> = Vec::new();
    let mut positions: Vec<usize> = Vec::new();
    let mut i: usize = 0;
    while i < chunks.len()
        invariant
            i <= chunks@.len(),
            m == Seq::new(chunks@.len(), |i: int| first_anchorable(legacy@, chunks@[i].id@) is Some),
            positions@.map_values(|x: usize| x as int) == marked(m.take(i as int)),
            forall|q: int| 0 <= q < positions@.len() ==> #[trigger] positions@[q] < i,
            anchors@.len() == positions@.len(),
            views(evidence.labels@) == mastered_lower(concepts@, *baseline),
            views(evidence.words@) == long_baseline_words(*baseline),
            forall|k: int|
                0 <= k < anchors@.len() ==> {
                    let chunk = chunks@[positions@[k] as int];
                    let p = mock_chunk_priority(chunk.text@, concepts@, *baseline);
                    is_anchor_of(
                        #[trigger] anchors@[k],
                        seq![legacy@[first_anchorable(legacy@, chunk.id@).unwrap()]],
                        p,
                        directive_of(p),
                        confidence_of(p),
                        mock_rationale(p),
                        label_of(p),
                        AnnotationSource::Mock,
                    )
                },
        decreases chunks@.len() - i,
    {
        assert(m.take(i + 1).drop_last() =~= m.take(i as int));
        assert(m.take(i + 1).last() == m[i as int]);
        let chunk = &chunks[i];
        match find_first_anchorable(legacy, &chunk.id) {
            Some(si) => {
                let priority = mock_chunk_priority_exec(
                    chunk.text.as_str(),
                    &evidence,
                    Ghost(concepts@),
                    Ghost(*baseline),
                );
                let mut sents: Vec<&SentenceCandidate> = Vec::new();
                sents.push(&legacy[si]);
                assert(derefs(sents@) =~= seq![legacy@[si as int]]);
                let a = anchor_from_sentences(
                    sents.as_slice(),
                    priority,
                    directive_for_priority(priority),
                    confidence_for_priority(priority),
                    mock_rationale_string(priority),
                    reader_label_for_priority(priority).to_owned(),
                    AnnotationSource::Mock,
                );
                let ghost before = anchors@;
                let ghost pbefore = positions@;
                let ghost mbefore = positions@.map_values(|x: usize| x as int);
                anchors.push(a);
                positions.push(i);
                assert(positions@.map_values(|x: usize| x as int) =~= mbefore.push(i as int));
                assert forall|k: int|
                    0 <= k < anchors@.len() implies {
                    let chunk = chunks@[positions@[k] as int];
                    let p = mock_chunk_priority(chunk.text@, concepts@, *baseline);
                    is_anchor_of(
                        #[trigger] anchors@[k],
                        seq![legacy@[first_anchorable(legacy@, chunk.id@).unwrap()]],
                        p,
                        directive_of(p),
                        confidence_of(p),
                        mock_rationale(p),
                        label_of(p),
                        AnnotationSource::Mock,
                    )
                } by {
                    if k < before.len() {
                        assert(anchors@[k] == before[k]);
                        assert(positions@[k] == pbefore[k]);
                    }
                }
            },
            None => {},
        }
        i = i + 1;
    }
    assert(m.take(i as int) =~= m);
    assert(ch == positions@.map_values(|x: usize| x as int));
    // Quests about the first five delta anchors.
    let ghost dm = anchors@.map_values(|a: ReadingAnchor| a.priority == Priority::Delta);
    let mut selected: Vec<usize> = Vec::new();
    let mut j: usize = 0;
    while j < anchors.len() && selected.len() < 5
        invariant
            j <= anchors@.len(),
            dm == anchors@.map_values(|a: ReadingAnchor| a.priority == Priority::Delta),
            selected@.len() <= 5,
            selected@.map_values(|x: usize| x as int) == marked(dm.take(j as int)),
        decreases anchors@.len() - j,
    {
        assert(dm.take(j + 1).drop_last() =~= dm.take(j as int));
        assert(dm.take(j + 1).last() == dm[j as int]);
        if matches!(anchors[j].priority, Priority::Delta) {
            let ghost before = selected@.map_values(|x: usize| x as int);
            selected.push(j);
            assert(selected@.map_values(|x: usize| x as int) =~= before.push(j as int));
        }
        j = j + 1;
    }
    proof {
        lemma_first_five(dm, j as int, selected@.map_values(|x: usize| x as int));
        lemma_marked_bounds(dm);
    }
    let ghost sel = selected@.map_values(|x: usize| x as int);
    let mut quests: Vec<Quest> = Vec::new();
    if selected.len() == 0 {
        let mut ids: Vec<String> = Vec::new();
        let mut k: usize = 0;
        while k < chunks.len() && k < 2
            invariant
                k <= chunks@.len(),
                k <= 2,
                ids@.map_values(|s: String| s@) == chunks@.take(k as int).map_values(|c: TextChunk| c.id@),
            decreases 2 - k,
        {
            let ghost before = ids@.map_values(|s: String| s@);
            ids.push(chunks[k].id.clone());
            assert(ids@.map_values(|s: String| s@) =~= before.push(chunks@[k as int].id@));
            assert(chunks@.take(k + 1) =~= chunks@.take(k as int).push(chunks@[k as int]));
            k = k + 1;
        }
        quests.push(Quest {
            id: quest_id_string(0),
            question: "Which part of the author's argument changes what you already believed?".to_owned(),
            anchor_chunk_ids: ids,
        });
    } else {
        let mut k: usize = 0;
        while k < selected.len()
            invariant
                k <= selected@.len() <= 5,
                sel == selected@.map_values(|x: usize| x as int),
                forall|q: int| 0 <= q < sel.len() ==> 0 <= #[trigger] sel[q] < anchors@.len(),
                quests@.len() == k,
                forall|q: int|
                    0 <= q < k ==> is_quest(
                        #[trigger] quests@[q],
                        quest_id(q),
                        section_question(q),
                        seq![anchors@[sel[q]].chunk_id@],
                    ),
            decreases selected@.len() - k,
        {
            assert(sel[k as int] == selected@[k as int] as int);
            let mut ids: Vec<String> = Vec::new();
            ids.push(anchors[selected[k]].chunk_id.clone());
            assert(ids@.map_values(|s: String| s@) =~= seq![anchors@[sel[k as int]].chunk_id@]);
            let ghost before = quests@;
            quests.push(Quest { id: quest_id_string(k), question: section_question_string(k), anchor_chunk_ids: ids });
            assert forall|q: int|
                0 <= q < k + 1 implies is_quest(
                #[trigger] quests@[q],
                quest_id(q),
                section_question(q),
                seq![anchors@[sel[q]].chunk_id@],
            ) by {
                if q < k {
                    assert(quests@[q] == before[q]);
                }
            }
            k = k + 1;
        }
    }
    AiAnalysis { quests, annotations: Vec::new(), reading_anchors: anchors, canonical_annotations: Vec::new() }
}

impl MockProvider {
    /// Deterministic analysis: canonical sentences when there are any,
    /// otherwise chunks and legacy sentence candidates.
    pub fn analyze_delta(
        &self,
        chunks: &[TextChunk],
        canonical_candidates: &[CanonicalReadingUnit],
        legacy_sentence_candidates: &[SentenceCandidate],
        concepts: &[ConceptTag],
        baseline: &UserBaseline,
    ) -> (r: AiAnalysis)
        ensures
            canonical_candidates@.len() > 0 ==> is_mock_canonical_analysis(
                r,
                canonical_candidates@,
                concepts@,
                *baseline,
            ),
            canonical_candidates@.len() == 0 ==> is_mock_legacy_analysis(
                r,
                chunks@,
                legacy_sentence_candidates@,
                concepts@,
                *baseline,
            ),
    {
        if canonical_candidates.len() > 0 {
            mock_canonical_analysis(canonical_candidates, concepts, baseline)
        } else {
            mock_legacy_analysis(chunks, legacy_sentence_candidates, concepts, baseline)
        }
    }

    /// Concept tags for the first eight chunks: their most frequent keywords
    /// (at most twelve), or three fallback labels.
    pub fn generate_concepts(&self, chunks: &[TextChunk]) -> (r: Vec<ConceptTag>)
        ensures
            exists|ranking: Seq<Seq<char>>|
                is_ranking(ranking, keyword_occurrences(concept_text(chunks@)))
                    && are_concept_tags(r@, concept_labels(ranking)),
    {
        let text = concept_source(chunks);
        let labels = concept_labels_for(text.as_str());
        let ghost ranking = choose|ranking: Seq<Seq<char>>|
            is_ranking(ranking, keyword_occurrences(text@)) && labels@.map_values(|s: String| s@)
                == concept_labels(ranking);
        let r = concept_tags(labels);
        assert(is_ranking(ranking, keyword_occurrences(concept_text(chunks@))));
        r
    }
}

} // verus!
