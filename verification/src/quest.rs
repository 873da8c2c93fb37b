//! Pre-reading quests: up to five questions anchored on the first delta
//! passages, or one general question when there is none.
use vstd::prelude::*;

use crate::models::{
    CanonicalSentenceAnnotation, ChunkAnnotation, Priority, Quest, ReadingAnchor, TextChunk,
};
use crate::text::{chars_eq, chars_of, decimal, decimal_chars, extend_chars, string_from_chars};

verus! {

/// Identifier of the `k`-th (from 0) quest: `quest-1`, `quest-2`, ...
pub open spec fn quest_id(k: int) -> Seq<char> {
    "quest-"@ + decimal((k + 1) as nat)
}

/// The question asked when no delta passage is known.
pub open spec fn general_question() -> Seq<char> {
    "Which part of the author's argument changes what you already believed?"@
}

/// The question asked about a delta passage on `page`.
pub open spec fn page_question(page: nat) -> Seq<char> {
    "On page "@ + decimal(page) + ", what new claim, mechanism, or tradeoff is worth slowing down for?"@
}

/// Whether `q` is the quest with the given id, question and anchors.
pub open spec fn is_quest(q: Quest, id: Seq<char>, question: Seq<char>, anchors: Seq<Seq<char>>) -> bool {
    &&& q.id@ == id
    &&& q.question@ == question
    &&& q.anchor_chunk_ids@.map_values(|s: String| s@) == anchors
}

pub fn quest_id_string(k: usize) -> (r: String)
    requires
        k < usize::MAX,
    ensures
        r@ == quest_id(k as int),
{
    let mut id = chars_of("quest-");
    let n = decimal_chars(k + 1);
    extend_chars(&mut id, n.as_slice());
    string_from_chars(id.as_slice())
}

pub fn page_question_string(page: usize) -> (r: String)
    ensures
        r@ == page_question(page as nat),
{
    let mut q = chars_of("On page ");
    let n = decimal_chars(page);
    extend_chars(&mut q, n.as_slice());
    let tail = chars_of(", what new claim, mechanism, or tradeoff is worth slowing down for?");
    extend_chars(&mut q, tail.as_slice());
    string_from_chars(q.as_slice())
}

/// Positions of the marked elements, in order.
pub open spec fn marked(m: Seq<bool>) -> Seq<int>
    decreases m.len(),
{
    if m.len() == 0 {
        Seq::<int>::empty()
    } else if m.last() {
        marked(m.drop_last()).push(m.len() - 1)
    } else {
        marked(m.drop_last())
    }
}

pub proof fn lemma_marked_bounds(m: Seq<bool>)
    ensures
        forall|k: int| 0 <= k < marked(m).len() ==> 0 <= #[trigger] marked(m)[k] < m.len() && m[marked(m)[k]],
    decreases m.len(),
{
    if m.len() > 0 {
        lemma_marked_bounds(m.drop_last());
        let d = marked(m.drop_last());
        assert forall|k: int| 0 <= k < marked(m).len() implies 0 <= #[trigger] marked(m)[k] < m.len() && m[marked(m)[k]] by {
            if k < d.len() {
                assert(marked(m)[k] == d[k]);
                assert(m.drop_last()[d[k]] == m[d[k]]);
            }
        }
    }
}

/// The marked positions of a prefix are a prefix of the marked positions.
/// The marked positions come in increasing order.
pub proof fn lemma_marked_increasing(m: Seq<bool>)
    ensures
        forall|a: int, b: int| 0 <= a < b < marked(m).len() ==> #[trigger] marked(m)[a] < #[trigger] marked(m)[b],
    decreases m.len(),
{
    if m.len() > 0 {
        let d = marked(m.drop_last());
        lemma_marked_increasing(m.drop_last());
        lemma_marked_bounds(m.drop_last());
        assert forall|a: int, b: int| 0 <= a < b < marked(m).len() implies #[trigger] marked(m)[a] < #[trigger] marked(m)[b] by {
            assert(marked(m)[a] == d[a]);
            if b < d.len() {
                assert(marked(m)[b] == d[b]);
            }
        }
    }
}

pub proof fn lemma_marked_prefix(m: Seq<bool>, i: int)
    requires
        0 <= i <= m.len(),
    ensures
        marked(m.take(i)).len() <= marked(m).len(),
        marked(m.take(i)) == marked(m).take(marked(m.take(i)).len() as int),
        i == m.len() ==> marked(m.take(i)) == marked(m),
    decreases m.len() - i,
{
    if i == m.len() {
        assert(m.take(i) =~= m);
        assert(marked(m).take(marked(m).len() as int) =~= marked(m));
    } else {
        lemma_marked_prefix(m, i + 1);
        assert(m.take(i + 1).drop_last() =~= m.take(i));
        let d1 = marked(m.take(i + 1));
        let d0 = marked(m.take(i));
        if m[i] {
            assert(m.take(i + 1).last() == m[i]);
            assert(d1 == d0.push(i));
            assert(d1[d0.len() as int] == i);
            assert(marked(m).take(d1.len() as int)[d0.len() as int] == i);
            assert(d0 =~= marked(m).take(d0.len() as int));
        } else {
            assert(m.take(i + 1).last() == m[i]);
            assert(d1 == d0);
        }
    }
}

/// The first (at most) five marked positions, found by scanning `m` until
/// five are found.
pub proof fn lemma_first_five(m: Seq<bool>, i: int, found: Seq<int>)
    requires
        0 <= i <= m.len(),
        found == marked(m.take(i)),
        found.len() <= 5,
        i < m.len() ==> found.len() == 5,
    ensures
        found == marked(m).take(min(5, marked(m).len() as int)),
{
    lemma_marked_prefix(m, i);
}

/// Whether each annotation is a delta.
pub open spec fn delta_marks(a: Seq<CanonicalSentenceAnnotation>) -> Seq<bool> {
    a.map_values(|x: CanonicalSentenceAnnotation| x.priority == Priority::Delta)
}

/// Positions of the delta annotations, in order.
pub open spec fn delta_positions(a: Seq<CanonicalSentenceAnnotation>) -> Seq<int> {
    marked(delta_marks(a))
}

/// The smaller of `a` and `b`.
pub open spec fn min(a: int, b: int) -> int {
    if a < b {
        a
    } else {
        b
    }
}

/// The quests for canonical sentence annotations: one per delta annotation
/// among the first five, asking about its page; or, without delta, one
/// general quest anchored on the first two annotated sentences.
pub open spec fn are_canonical_quests(r: Seq<Quest>, a: Seq<CanonicalSentenceAnnotation>) -> bool {
    let sel = delta_positions(a).take(min(5, delta_positions(a).len() as int));
    if sel.len() == 0 {
        &&& r.len() == 1
        &&& is_quest(
            r[0],
            quest_id(0),
            general_question(),
            a.take(min(2, a.len() as int)).map_values(|x: CanonicalSentenceAnnotation| x.sentence_id@),
        )
    } else {
        &&& r.len() == sel.len()
        &&& forall|k: int|
            0 <= k < r.len() ==> is_quest(
                #[trigger] r[k],
                quest_id(k),
                page_question(a[sel[k]].page as nat),
                seq![a[sel[k]].sentence_id@],
            )
    }
}

/// The general quest anchored on the given ids.
fn general_quest(ids: Vec<String>) -> (r: Quest)
    ensures
        is_quest(r, quest_id(0), general_question(), ids@.map_values(|s: String| s@)),
{
    let id = quest_id_string(0);
    Quest {
        id,
        question: "Which part of the author's argument changes what you already believed?".to_owned(),
        anchor_chunk_ids: ids,
    }
}

/// A quest about the delta passage `anchor` on `page`.
fn page_quest(k: usize, page: usize, anchor: &String) -> (r: Quest)
    requires
        k < usize::MAX,
    ensures
        is_quest(r, quest_id(k as int), page_question(page as nat), seq![anchor@]),
{
    let mut ids: Vec<String> = Vec::new();
    ids.push(anchor.clone());
    assert(ids@.map_values(|s: String| s@) =~= seq![anchor@]);
    Quest { id: quest_id_string(k), question: page_question_string(page), anchor_chunk_ids: ids }
}

/// Builds quests from canonical sentence annotations.
pub fn build_quests_from_canonical_annotations(annotations: &[CanonicalSentenceAnnotation]) -> (r: Vec<Quest>)
    ensures
        are_canonical_quests(r@, annotations@),
{
    let ghost a = annotations@;
    let mut selected: Vec<usize> = Vec::new();
    let mut i: usize = 0;
    while i < annotations.len() && selected.len() < 5
        invariant
            i <= a.len(),
            a == annotations@,
            selected@.len() <= 5,
            selected@.map_values(|x: usize| x as int) == marked(delta_marks(a).take(i as int)),
        decreases a.len() - i,
    {
        assert(delta_marks(a).take(i + 1).drop_last() =~= delta_marks(a).take(i as int));
        assert(delta_marks(a).take(i + 1).last() == (a[i as int].priority == Priority::Delta));
        if matches!(annotations[i].priority, Priority::Delta) {
            let ghost before = selected@.map_values(|x: usize| x as int);
            selected.push(i);
            assert(selected@.map_values(|x: usize| x as int) =~= before.push(i as int));
        }
        i = i + 1;
    }
    let ghost sel = delta_positions(a).take(min(5, delta_positions(a).len() as int));
    proof {
        lemma_first_five(delta_marks(a), i as int, selected@.map_values(|x: usize| x as int));
        lemma_marked_bounds(delta_marks(a));
    }
    if selected.len() == 0 {
        let mut ids: Vec<String> = Vec::new();
        let mut k: usize = 0;
        while k < annotations.len() && k < 2
            invariant
                k <= a.len(),
                k <= 2,
                a == annotations@,
                ids@.map_values(|s: String| s@) == a.take(k as int).map_values(
                    |x: CanonicalSentenceAnnotation| x.sentence_id@,
                ),
            decreases 2 - k,
        {
            let ghost before = ids@.map_values(|s: String| s@);
            ids.push(annotations[k].sentence_id.clone());
            assert(ids@.map_values(|s: String| s@) =~= before.push(a[k as int].sentence_id@));
            assert(a.take(k + 1) =~= a.take(k as int).push(a[k as int]));
            k = k + 1;
            assert(ids@.map_values(|s: String| s@) =~= a.take(k as int).map_values(
                |x: CanonicalSentenceAnnotation| x.sentence_id@,
            ));
        }
        let mut r: Vec<Quest> = Vec::new();
        r.push(general_quest(ids));
        return r;
    }
    let mut r: Vec<Quest> = Vec::new();
    let mut k: usize = 0;
    while k < selected.len()
        invariant
            k <= selected@.len() <= 5,
            a == annotations@,
            sel == selected@.map_values(|x: usize| x as int),
            forall|q: int| 0 <= q < sel.len() ==> 0 <= #[trigger] sel[q] < a.len(),
            r@.len() == k,
            forall|q: int|
                0 <= q < k ==> is_quest(
                    #[trigger] r@[q],
                    quest_id(q),
                    page_question(a[sel[q]].page as nat),
                    seq![a[sel[q]].sentence_id@],
                ),
        decreases selected@.len() - k,
    {
        assert(sel[k as int] == selected@[k as int] as int);
        let ann = &annotations[selected[k]];
        let q = page_quest(k, ann.page, &ann.sentence_id);
        let ghost before = r@;
        r.push(q);
        assert forall|q: int|
            0 <= q < k + 1 implies is_quest(
            #[trigger] r@[q],
            quest_id(q),
            page_question(a[sel[q]].page as nat),
            seq![a[sel[q]].sentence_id@],
        ) by {
            if q < k {
                assert(r@[q] == before[q]);
            }
        }
        k = k + 1;
    }
    r
}

// ---------------------------------------------------------------------------
// Quests over chunks
// ---------------------------------------------------------------------------

/// Index of the last chunk with id `id`.
pub open spec fn last_chunk_with_id(c: Seq<TextChunk>, id: Seq<char>) -> Option<int>
    decreases c.len(),
{
    if c.len() == 0 {
        None
    } else if c.last().id@ == id {
        Some(c.len() - 1)
    } else {
        last_chunk_with_id(c.drop_last(), id)
    }
}

pub proof fn lemma_last_chunk_with_id(c: Seq<TextChunk>, id: Seq<char>)
    ensures
        last_chunk_with_id(c, id) matches Some(i) ==> 0 <= i < c.len(),
    decreases c.len(),
{
    if c.len() > 0 {
        lemma_last_chunk_with_id(c.drop_last(), id);
    }
}

fn find_last_chunk(chunks: &[TextChunk], id: &str) -> (r: Option<usize>)
    ensures
        match r {
            Some(i) => last_chunk_with_id(chunks@, id@) == Some(i as int) && i < chunks@.len(),
            None => last_chunk_with_id(chunks@, id@) is None,
        },
{
    let idc = chars_of(id);
    assert(chunks@.take(chunks@.len() as int) =~= chunks@);
    let mut i = chunks.len();
    while i > 0
        invariant
            i <= chunks@.len(),
            idc@ == id@,
            last_chunk_with_id(chunks@, id@) == last_chunk_with_id(chunks@.take(i as int), id@),
        decreases i,
    {
        assert(chunks@.take(i as int).drop_last() =~= chunks@.take(i - 1));
        assert(chunks@.take(i as int).last() == chunks@[i - 1]);
        let c = chars_of(chunks[i - 1].id.as_str());
        if chars_eq(c.as_slice(), idc.as_slice()) {
            return Some(i - 1);
        }
        i = i - 1;
    }
    None
}

/// The (chunk id, priority) of each annotation.
pub open spec fn annotation_keys(a: Seq<ChunkAnnotation>) -> Seq<(Seq<char>, Priority)> {
    a.map_values(|x: ChunkAnnotation| (x.chunk_id@, x.priority))
}

/// The (chunk id, priority) of each reading anchor.
pub open spec fn anchor_keys(a: Seq<ReadingAnchor>) -> Seq<(Seq<char>, Priority)> {
    a.map_values(|x: ReadingAnchor| (x.chunk_id@, x.priority))
}

/// Whether each key is a delta for a known chunk.
pub open spec fn known_delta_marks(chunks: Seq<TextChunk>, keys: Seq<(Seq<char>, Priority)>) -> Seq<bool> {
    keys.map_values(
        |k: (Seq<char>, Priority)| k.1 == Priority::Delta && last_chunk_with_id(chunks, k.0) is Some,
    )
}

/// The quests for delta guidance on chunks: one per delta among the first
/// five whose chunk is known, asking about the chunk's page; or, without
/// such a delta, one general quest anchored on the first two chunks.
pub open spec fn are_chunk_quests(r: Seq<Quest>, chunks: Seq<TextChunk>, keys: Seq<(Seq<char>, Priority)>) -> bool {
    let all = marked(known_delta_marks(chunks, keys));
    let sel = all.take(min(5, all.len() as int));
    if sel.len() == 0 {
        &&& r.len() == 1
        &&& is_quest(
            r[0],
            quest_id(0),
            general_question(),
            chunks.take(min(2, chunks.len() as int)).map_values(|c: TextChunk| c.id@),
        )
    } else {
        &&& r.len() == sel.len()
        &&& forall|k: int|
            0 <= k < r.len() ==> {
                let c = chunks[last_chunk_with_id(chunks, keys[sel[k]].0).unwrap()];
                is_quest(#[trigger] r[k], quest_id(k), page_question(c.page as nat), seq![c.id@])
            }
    }
}

fn chunk_quests(chunks: &[TextChunk], keys: &Vec<(String, Priority)>) -> (r: Vec<Quest>)
    ensures
        are_chunk_quests(
            r@,
            chunks@,
            keys@.map_values(|k: (String, Priority)| (k.0@, k.1)),
        ),
{
    let ghost kv = keys@.map_values(|k: (String, Priority)| (k.0@, k.1));
    let ghost m = known_delta_marks(chunks@, kv);
    let mut selected: Vec<usize> = Vec::new();
    let mut found: Vec<usize> = Vec::new();
    let mut i: usize = 0;
    while i < keys.len() && selected.len() < 5
        invariant
            i <= keys@.len(),
            kv == keys@.map_values(|k: (String, Priority)| (k.0@, k.1)),
            m == known_delta_marks(chunks@, kv),
            selected@.len() <= 5,
            found@.len() == selected@.len(),
            selected@.map_values(|x: usize| x as int) == marked(m.take(i as int)),
            forall|q: int|
                0 <= q < selected@.len() ==> last_chunk_with_id(chunks@, kv[selected@[q] as int].0)
                    == Some(#[trigger] found@[q] as int) && found@[q] < chunks@.len(),
        decreases keys@.len() - i,
    {
        assert(m.take(i + 1).drop_last() =~= m.take(i as int));
        assert(m.take(i + 1).last() == m[i as int]);
        let key = &keys[i];
        let kid: &str = key.0.as_str();
        assert(kid@ == kv[i as int].0);
        let hit = if matches!(key.1, Priority::Delta) {
            find_last_chunk(chunks, kid)
        } else {
            None
        };
        match hit {
            Some(ci) => {
                let ghost before = selected@.map_values(|x: usize| x as int);
                let ghost fbefore = found@;
                let ghost sbefore = selected@;
                selected.push(i);
                found.push(ci);
                assert(selected@.map_values(|x: usize| x as int) =~= before.push(i as int));
                assert forall|q: int|
                    0 <= q < selected@.len() implies last_chunk_with_id(chunks@, kv[selected@[q] as int].0)
                    == Some(#[trigger] found@[q] as int) && found@[q] < chunks@.len() by {
                    if q < sbefore.len() {
                        assert(found@[q] == fbefore[q]);
                        assert(selected@[q] == sbefore[q]);
                    }
                }
            },
            None => {
                proof {
                    if key.1 == Priority::Delta {
                        assert(last_chunk_with_id(chunks@, kv[i as int].0) is None);
                    }
                }
            },
        }
        i = i + 1;
    }
    proof {
        lemma_first_five(m, i as int, selected@.map_values(|x: usize| x as int));
    }
    if selected.len() == 0 {
        let mut ids: Vec<String> = Vec::new();
        let mut k: usize = 0;
        while k < chunks.len() && k < 2
            invariant
                k <= chunks@.len(),
                k <= 2,
                ids@.map_values(|s: String| s@) == chunks@.take(k as int).map_values(|c: TextChunk| c.id@),
            decreases 2 - k,
        {
            let ghost before = ids@.map_values(|s: String| s@);
            ids.push(chunks[k].id.clone());
            assert(ids@.map_values(|s: String| s@) =~= before.push(chunks@[k as int].id@));
            assert(chunks@.take(k + 1) =~= chunks@.take(k as int).push(chunks@[k as int]));
            k = k + 1;
        }
        let mut r: Vec<Quest> = Vec::new();
        r.push(general_quest(ids));
        return r;
    }
    let ghost sel = selected@.map_values(|x: usize| x as int);
    let mut r: Vec<Quest> = Vec::new();
    let mut k: usize = 0;
    while k < found.len()
        invariant
            k <= found@.len() == selected@.len() <= 5,
            sel == selected@.map_values(|x: usize| x as int),
            forall|q: int|
                0 <= q < selected@.len() ==> last_chunk_with_id(chunks@, kv[selected@[q] as int].0)
                    == Some(#[trigger] found@[q] as int) && found@[q] < chunks@.len(),
            r@.len() == k,
            forall|q: int|
                0 <= q < k ==> {
                    let c = chunks@[last_chunk_with_id(chunks@, kv[sel[q]].0).unwrap()];
                    is_quest(#[trigger] r@[q], quest_id(q), page_question(c.page as nat), seq![c.id@])
                },
        decreases found@.len() - k,
    {
        let c = &chunks[found[k]];
        assert(sel[k as int] == selected@[k as int] as int);
        let q = page_quest(k, c.page, &c.id);
        let ghost before = r@;
        r.push(q);
        assert forall|q: int|
            0 <= q < k + 1 implies {
            let c = chunks@[last_chunk_with_id(chunks@, kv[sel[q]].0).unwrap()];
            is_quest(#[trigger] r@[q], quest_id(q), page_question(c.page as nat), seq![c.id@])
        } by {
            if q < k {
                assert(r@[q] == before[q]);
            } else {
                assert(found@[q] == found@[k as int]);
            }
        }
        k = k + 1;
    }
    r
}

/// Builds quests from chunk annotations: about the pages of the first five
/// delta chunks, or one general quest.
pub fn build_quests_from_annotations(chunks: &[TextChunk], annotations: &[ChunkAnnotation]) -> (r: Vec<Quest>)
    ensures
        are_chunk_quests(r@, chunks@, annotation_keys(annotations@)),
{
    let mut keys: Vec<(String, Priority)> = Vec::new();
    let mut i: usize = 0;
    while i < annotations.len()
        invariant
            i <= annotations@.len(),
            keys@.map_values(|k: (String, Priority)| (k.0@, k.1)) == annotation_keys(annotations@.take(i as int)),
        decreases annotations@.len() - i,
    {
        let ghost before = keys@.map_values(|k: (String, Priority)| (k.0@, k.1));
        keys.push((annotations[i].chunk_id.clone(), annotations[i].priority));
        assert(keys@.map_values(|k: (String, Priority)| (k.0@, k.1)) =~= before.push((annotations@[i as int].chunk_id@, annotations@[i as int].priority)));
        assert(annotations@.take(i + 1) =~= annotations@.take(i as int).push(annotations@[i as int]));
        i = i + 1;
    }
    assert(annotations@.take(i as int) =~= annotations@);
    chunk_quests(chunks, &keys)
}

/// Builds quests from reading anchors, as from the chunk annotations they imply.
pub fn build_quests_from_anchors(chunks: &[TextChunk], anchors: &[ReadingAnchor]) -> (r: Vec<Quest>)
    ensures
        are_chunk_quests(r@, chunks@, anchor_keys(anchors@)),
{
    let mut keys: Vec<(String, Priority)> = Vec::new();
    let mut i: usize = 0;
    while i < anchors.len()
        invariant
            i <= anchors@.len(),
            keys@.map_values(|k: (String, Priority)| (k.0@, k.1)) == anchor_keys(anchors@.take(i as int)),
        decreases anchors@.len() - i,
    {
        let ghost before = keys@.map_values(|k: (String, Priority)| (k.0@, k.1));
        keys.push((anchors[i].chunk_id.clone(), anchors[i].priority));
        assert(keys@.map_values(|k: (String, Priority)| (k.0@, k.1)) =~= before.push((anchors@[i as int].chunk_id@, anchors@[i as int].priority)));
        assert(anchors@.take(i + 1) =~= anchors@.take(i as int).push(anchors@[i as int]));
        i = i + 1;
    }
    assert(anchors@.take(i as int) =~= anchors@);
    chunk_quests(chunks, &keys)
}

/// Rebuilds the quests after the canonical annotations changed.
pub fn rebuild_canonical_quests(annotations: &[CanonicalSentenceAnnotation]) -> (r: Vec<Quest>)
    ensures
        are_canonical_quests(r@, annotations@),
{
    build_quests_from_canonical_annotations(annotations)
}

} // verus!
