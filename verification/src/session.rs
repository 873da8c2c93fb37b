//! Uploaded documents and what the reader has done with them, kept for six
//! hours after upload.  Document identifiers are the 128-bit values of
//! their UUIDs; times are milliseconds since the Unix epoch.
use std::collections::HashMap;

use vstd::prelude::*;

use crate::delta_policy::DeltaEligibilityDiagnostics;
use crate::models::{
    CanonicalReadingUnit, CanonicalSentenceAnnotation, CanonicalTextModel, ChunkAnnotation,
    ConceptTag, Quest, ReadingAnchor, SentenceCandidate, TextChunk, UserBaseline,
};

verus! {

broadcast use vstd::std_specs::hash::group_hash_axioms;

/// How long a session is kept after its upload (six hours).
pub const SESSION_TTL_MS: i64 = 21_600_000;

/// An uploaded document with its extracted text and analysis state.
#[derive(Clone, Debug)]
pub struct DocumentSession {
    pub id: u128,
    pub filename: String,
    pub uploaded_at_ms: i64,
    pub page_count: usize,
    pub pdf_bytes: Vec<u8>,
    pub chunks: Vec<TextChunk>,
    pub sentence_candidates: Vec<SentenceCandidate>,
    pub canonical_text_model: Option<CanonicalTextModel>,
    pub canonical_sentence_candidates: Vec<CanonicalReadingUnit>,
    pub concepts: Vec<ConceptTag>,
    pub baseline: Option<UserBaseline>,
    pub quests: Vec<Quest>,
    pub annotations: Vec<ChunkAnnotation>,
    pub reading_anchors: Vec<ReadingAnchor>,
    pub canonical_sentence_annotations: Vec<CanonicalSentenceAnnotation>,
    pub delta_eligibility_diagnostics: DeltaEligibilityDiagnostics,
}

/// The sessions of the running service, by document.
pub struct SessionStore {
    sessions: HashMap<u128, DocumentSession>,
    ids: Vec<u128>,
}

/// Whether a session uploaded at `uploaded` is still kept at `now`.
pub open spec fn is_live(uploaded: i64, now: i64) -> bool {
    uploaded >= now - SESSION_TTL_MS
}

/// The sessions of `m` that are still kept at `now`.
pub open spec fn live_sessions(m: Map<u128, DocumentSession>, now: i64) -> Map<u128, DocumentSession> {
    m.restrict(m.dom().filter(|k: u128| is_live(m[k].uploaded_at_ms, now)))
}

impl View for SessionStore {
    type V = Map<u128, DocumentSession>;

    closed spec fn view(&self) -> Map<u128, DocumentSession> {
        self.sessions@
    }
}

impl SessionStore {
    /// The store's bookkeeping: the list of identifiers holds each stored
    /// document once.
    pub closed spec fn wf(&self) -> bool {
        &&& self.ids@.no_duplicates()
        &&& forall|k: u128| self.ids@.contains(k) <==> self.sessions@.dom().contains(k)
    }

    pub fn new() -> (r: SessionStore)
        ensures
            r.wf(),
            r@ == Map::<u128, DocumentSession>::empty(),
    {
        let r = SessionStore { sessions: HashMap::new(), ids: Vec::new() };
        assert(r.sessions@ =~= Map::<u128, DocumentSession>::empty());
        r
    }

    /// Drops the sessions uploaded more than six hours before `now_ms`.
    pub fn purge_expired(&mut self, now_ms: i64)
        requires
            old(self).wf(),
        ensures
            final(self).wf(),
            final(self)@ == live_sessions(old(self)@, now_ms),
    {
        let ghost start = self.sessions@;
        let cutoff: i128 = now_ms as i128 - SESSION_TTL_MS as i128;
        let mut kept: Vec<u128> = Vec::new();
        let mut i: usize = 0;
        while i < self.ids.len()
            invariant
                i <= self.ids@.len(),
                self.ids@.no_duplicates(),
                forall|k: u128| self.ids@.contains(k) <==> start.dom().contains(k),
                cutoff == now_ms - SESSION_TTL_MS,
                kept@.no_duplicates(),
                forall|k: u128| kept@.contains(k) <==> (exists|j: int| 0 <= j < i && self.ids@[j] == k && is_live(start[k].uploaded_at_ms, now_ms)),
                forall|k: u128| #[trigger] self.sessions@.dom().contains(k) <==> (start.dom().contains(k) && !(exists|j: int| 0 <= j < i && self.ids@[j] == k && !is_live(start[k].uploaded_at_ms, now_ms))),
                forall|k: u128| #[trigger] self.sessions@.dom().contains(k) ==> self.sessions@[k] == start[k],
            decreases self.ids@.len() - i,
        {
            let id = self.ids[i];
            proof {
                assert(self.ids@.contains(id));
                assert(forall|j: int| 0 <= j < i ==> self.ids@[j] != id);
            }
            proof {
                assert(self.sessions@.dom().contains(id));
            }
            let live = match self.sessions.get(&id) {
                Some(s) => s.uploaded_at_ms as i128 >= cutoff,
                None => true,
            };
            assert(live == is_live(start[id].uploaded_at_ms, now_ms));
            let ghost old_kept = kept@;
            if live {
                kept.push(id);
                proof {
                    assert(!old_kept.contains(id));
                    assert forall|a: int, b: int| 0 <= a < b < kept@.len() implies kept@[a] != kept@[b] by {
                        if b == kept@.len() - 1 {
                            assert(old_kept.contains(kept@[a]));
                        }
                    }
                    assert forall|k: u128| kept@.contains(k) <==> (exists|j: int| 0 <= j < i + 1 && self.ids@[j] == k && is_live(start[k].uploaded_at_ms, now_ms)) by {
                        if kept@.contains(k) && k != id {
                            let t = choose|t: int| 0 <= t < kept@.len() && kept@[t] == k;
                            assert(old_kept[t] == k);
                            assert(old_kept.contains(k));
                        }
                        if kept@.contains(k) && k == id {
                            assert(self.ids@[i as int] == k);
                        }
                        if exists|j: int| 0 <= j < i + 1 && self.ids@[j] == k && is_live(start[k].uploaded_at_ms, now_ms) {
                            let j = choose|j: int| 0 <= j < i + 1 && self.ids@[j] == k && is_live(start[k].uploaded_at_ms, now_ms);
                            if j < i {
                                assert(old_kept.contains(k));
                                let t = choose|t: int| 0 <= t < old_kept.len() && old_kept[t] == k;
                                assert(kept@[t] == k);
                            } else {
                                assert(kept@[kept@.len() - 1] == k);
                            }
                        }
                    }
                }
            } else {
                self.sessions.remove(&id);
            }
            i = i + 1;
        }
        self.ids = kept;
        proof {
            assert(self.sessions@ =~= live_sessions(start, now_ms));
        }
    }

    /// Stores a new session after dropping expired ones.
    pub fn insert(&mut self, session: DocumentSession, now_ms: i64)
        requires
            old(self).wf(),
        ensures
            final(self).wf(),
            final(self)@ == live_sessions(old(self)@, now_ms).insert(session.id, session),
    {
        self.purge_expired(now_ms);
        let id = session.id;
        let present = self.sessions.contains_key(&id);
        assert(present == self.sessions@.dom().contains(id));
        let ghost old_ids = self.ids@;
        let ghost old_map = self.sessions@;
        assert(forall|k: u128| old_ids.contains(k) <==> old_map.dom().contains(k));
        self.sessions.insert(id, session);
        assert(self.sessions@ == old_map.insert(id, session));
        if !present {
            self.ids.push(id);
            proof {
                assert(!old_ids.contains(id));
                assert forall|a: int, b: int| 0 <= a < b < self.ids@.len() implies self.ids@[a] != self.ids@[b] by {
                    if b == self.ids@.len() - 1 {
                        assert(old_ids.contains(self.ids@[a]));
                    }
                }
                assert forall|k: u128| self.ids@.contains(k) <==> self.sessions@.dom().contains(k) by {
                    if self.ids@.contains(k) && k != id {
                        let t = choose|t: int| 0 <= t < self.ids@.len() && self.ids@[t] == k;
                        assert(old_ids[t] == k);
                        assert(old_ids.contains(k));
                        assert(old_map.dom().contains(k));
                    }
                    if self.sessions@.dom().contains(k) && k != id {
                        assert(old_map.dom().contains(k));
                        assert(old_ids.contains(k));
                        let t = choose|t: int| 0 <= t < old_ids.len() && old_ids[t] == k;
                        assert(self.ids@[t] == k);
                    }
                    if k == id {
                        assert(self.ids@[self.ids@.len() - 1] == k);
                    }
                }
            }
        }
    }

    /// The session of document `id`, if it is still kept at `now_ms`.
    pub fn get(&mut self, id: u128, now_ms: i64) -> (r: Option<&DocumentSession>)
        requires
            old(self).wf(),
        ensures
            final(self).wf(),
            final(self)@ == live_sessions(old(self)@, now_ms),
            match r {
                Some(s) => final(self)@.contains_key(id) && *s == final(self)@[id],
                None => !final(self)@.contains_key(id),
            },
    {
        self.purge_expired(now_ms);
        self.sessions.get(&id)
    }

    /// Records the reader's baseline for document `id`; false when the
    /// document is not (or no longer) kept.
    pub fn set_baseline(&mut self, id: u128, baseline: UserBaseline, now_ms: i64) -> (r: bool)
        requires
            old(self).wf(),
        ensures
            final(self).wf(),
            r == live_sessions(old(self)@, now_ms).contains_key(id),
            r ==> final(self)@ == live_sessions(old(self)@, now_ms).insert(
                id,
                DocumentSession { baseline: Some(baseline), ..live_sessions(old(self)@, now_ms)[id] },
            ),
            !r ==> final(self)@ == live_sessions(old(self)@, now_ms),
    {
        self.purge_expired(now_ms);
        let ghost live = self.sessions@;
        match self.sessions.remove(&id) {
            Some(mut session) => {
                session.baseline = Some(baseline);
                self.sessions.insert(id, session);
                assert(self.sessions@.dom() =~= live.dom());
                true
            },
            None => false,
        }
    }

    /// Records an analysis of document `id`; false when the document is
    /// not (or no longer) kept.
    pub fn record_analysis(
        &mut self,
        id: u128,
        quests: Vec<Quest>,
        annotations: Vec<ChunkAnnotation>,
        reading_anchors: Vec<ReadingAnchor>,
        canonical_sentence_annotations: Vec<CanonicalSentenceAnnotation>,
        delta_eligibility_diagnostics: DeltaEligibilityDiagnostics,
        now_ms: i64,
    ) -> (r: bool)
        requires
            old(self).wf(),
        ensures
            final(self).wf(),
            r == live_sessions(old(self)@, now_ms).contains_key(id),
            r ==> final(self)@ == live_sessions(old(self)@, now_ms).insert(
                id,
                DocumentSession {
                    quests,
                    annotations,
                    reading_anchors,
                    canonical_sentence_annotations,
                    delta_eligibility_diagnostics,
                    ..live_sessions(old(self)@, now_ms)[id]
                },
            ),
            !r ==> final(self)@ == live_sessions(old(self)@, now_ms),
    {
        self.purge_expired(now_ms);
        let ghost live = self.sessions@;
        match self.sessions.remove(&id) {
            Some(mut session) => {
                session.quests = quests;
                session.annotations = annotations;
                session.reading_anchors = reading_anchors;
                session.canonical_sentence_annotations = canonical_sentence_annotations;
                session.delta_eligibility_diagnostics = delta_eligibility_diagnostics;
                self.sessions.insert(id, session);
                assert(self.sessions@.dom() =~= live.dom());
                true
            },
            None => false,
        }
    }
}

/// A kept session was uploaded at most six hours ago; every session within
/// six hours of its upload is kept.
pub proof fn lemma_live_sessions(m: Map<u128, DocumentSession>, now: i64, k: u128)
    ensures
        live_sessions(m, now).contains_key(k) <==> (m.contains_key(k) && m[k].uploaded_at_ms >= now - SESSION_TTL_MS),
        live_sessions(m, now).contains_key(k) ==> live_sessions(m, now)[k] == m[k],
{
}

/// Dropping expired sessions twice at the same time drops nothing more.
pub proof fn lemma_purge_idempotent(m: Map<u128, DocumentSession>, now: i64)
    ensures
        live_sessions(live_sessions(m, now), now) == live_sessions(m, now),
{
    assert(live_sessions(live_sessions(m, now), now) =~= live_sessions(m, now));
}

/// A baseline that was set is what a later read of the session gives, as
/// long as the session is still kept then.
pub proof fn lemma_baseline_read_back(
    m: Map<u128, DocumentSession>,
    id: u128,
    b: UserBaseline,
    set_at: i64,
    read_at: i64,
)
    requires
        live_sessions(m, set_at).contains_key(id),
        is_live(m[id].uploaded_at_ms, read_at),
    ensures
        ({
            let live = live_sessions(m, set_at);
            let after = live.insert(id, DocumentSession { baseline: Some(b), ..live[id] });
            &&& live_sessions(after, read_at).contains_key(id)
            &&& live_sessions(after, read_at)[id].baseline == Some(b)
        }),
{
}

} // verus!
