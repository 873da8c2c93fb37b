//! The delta eligibility eligibility filter: a highlighted "delta" sentence that overlaps
//! familiar baseline evidence is only kept when it carries a novelty cue.
use vstd::prelude::*;

use crate::text::{
    capped_byte_len, chars_of, contains_chars, contains_seq, contains_word, distinct,
    distinct_words, is_alphanumeric, join, join_chars, lowercase, split_words, to_lowercase,
    unicode_alphanumeric, utf8_len, views, words, };

verus! {

/// What the reader's baseline holds: known concepts, familiar claims and interests.
#[derive(Clone, Copy, Debug)]
pub struct BaselineEvidence<'a> {
    pub known_concepts: &'a [String],
    pub familiar_claims: &'a [String],
    pub interests: &'a [String],
}

impl<'a> Default for BaselineEvidence<'a> {
    fn default() -> (r: Self)
        ensures
            r.known_concepts@.len() == 0,
            r.familiar_claims@.len() == 0,
            r.interests@.len() == 0,
    {
        BaselineEvidence { known_concepts: &[], familiar_claims: &[], interests: &[] }
    }
}

/// The eligibility filter's decision about one sentence, with the evidence it used.
#[derive(Clone, Debug)]
pub struct DeltaEligibilityDecision {
    pub checked: bool,
    pub eligible: bool,
    pub demoted_by_familiar_claim: bool,
    pub kept_due_to_novelty_cue: bool,
    pub interest_overlap_without_novelty: bool,
    pub familiar_claim_overlap: bool,
    pub matched_known_concepts: Vec<String>,
    pub matched_familiar_claims: Vec<String>,
    pub matched_interests: Vec<String>,
    pub novelty_cues: Vec<String>,
    pub familiar_cues: Vec<String>,
}

impl Default for DeltaEligibilityDecision {
    fn default() -> (r: Self)
        ensures
            !r.checked && !r.eligible && !r.demoted_by_familiar_claim && !r.kept_due_to_novelty_cue
                && !r.interest_overlap_without_novelty && !r.familiar_claim_overlap,
            r.matched_known_concepts@.len() == 0 && r.matched_familiar_claims@.len() == 0
                && r.matched_interests@.len() == 0 && r.novelty_cues@.len() == 0
                && r.familiar_cues@.len() == 0,
    {
        DeltaEligibilityDecision {
            checked: false,
            eligible: false,
            demoted_by_familiar_claim: false,
            kept_due_to_novelty_cue: false,
            interest_overlap_without_novelty: false,
            familiar_claim_overlap: false,
            matched_known_concepts: Vec::new(),
            matched_familiar_claims: Vec::new(),
            matched_interests: Vec::new(),
            novelty_cues: Vec::new(),
            familiar_cues: Vec::new(),
        }
    }
}

/// Counts of eligibility filter decisions over a set of sentences.
#[derive(Clone, Debug)]
pub struct DeltaEligibilityDiagnostics {
    pub delta_eligibility_checked: usize,
    pub delta_demoted_by_familiar_claim: usize,
    pub delta_kept_due_to_novelty_cue: usize,
    pub interest_overlap_without_novelty: usize,
    pub familiar_claim_overlap_count: usize,
}

impl Default for DeltaEligibilityDiagnostics {
    fn default() -> (r: Self)
        ensures
            r.delta_eligibility_checked == 0 && r.delta_demoted_by_familiar_claim == 0
                && r.delta_kept_due_to_novelty_cue == 0 && r.interest_overlap_without_novelty == 0
                && r.familiar_claim_overlap_count == 0,
    {
        DeltaEligibilityDiagnostics {
            delta_eligibility_checked: 0,
            delta_demoted_by_familiar_claim: 0,
            delta_kept_due_to_novelty_cue: 0,
            interest_overlap_without_novelty: 0,
            familiar_claim_overlap_count: 0,
        }
    }
}

/// 1 for `true`, 0 for `false`.
pub open spec fn count_of(b: bool) -> int {
    if b {
        1
    } else {
        0
    }
}

/// Every counter of `d` is below the machine limit, so one more decision can be recorded.
pub open spec fn can_record(d: DeltaEligibilityDiagnostics) -> bool {
    &&& d.delta_eligibility_checked < usize::MAX
    &&& d.delta_demoted_by_familiar_claim < usize::MAX
    &&& d.delta_kept_due_to_novelty_cue < usize::MAX
    &&& d.interest_overlap_without_novelty < usize::MAX
    &&& d.familiar_claim_overlap_count < usize::MAX
}

/// The counters of diagnostics: checked, demoted, kept for a novelty cue,
/// interest without novelty, familiar overlap.
pub open spec fn diagnostics_counts(d: DeltaEligibilityDiagnostics) -> (nat, nat, nat, nat, nat) {
    (
        d.delta_eligibility_checked as nat,
        d.delta_demoted_by_familiar_claim as nat,
        d.delta_kept_due_to_novelty_cue as nat,
        d.interest_overlap_without_novelty as nat,
        d.familiar_claim_overlap_count as nat,
    )
}

/// What recording one decision adds to each counter.
pub open spec fn decision_counts(d: DeltaEligibilityDecision) -> (nat, nat, nat, nat, nat) {
    (
        count_of(d.checked) as nat,
        count_of(d.demoted_by_familiar_claim) as nat,
        count_of(d.kept_due_to_novelty_cue) as nat,
        count_of(d.interest_overlap_without_novelty) as nat,
        count_of(d.checked && d.familiar_claim_overlap) as nat,
    )
}

pub open spec fn plus_counts(a: (nat, nat, nat, nat, nat), b: (nat, nat, nat, nat, nat)) -> (nat, nat, nat, nat, nat) {
    (a.0 + b.0, a.1 + b.1, a.2 + b.2, a.3 + b.3, a.4 + b.4)
}

/// The counters after recording `ds` in order, starting from the default.
pub open spec fn recorded_counts(ds: Seq<DeltaEligibilityDecision>) -> (nat, nat, nat, nat, nat)
    decreases ds.len(),
{
    if ds.len() == 0 {
        (0, 0, 0, 0, 0)
    } else {
        plus_counts(recorded_counts(ds.drop_last()), decision_counts(ds.last()))
    }
}

/// The flags of one decision fit together: a checked sentence with familiar
/// overlap is either demoted or kept for a novelty cue, never both, and only
/// checked sentences are demoted, kept, or counted for interest.
pub open spec fn is_coherent_decision(d: DeltaEligibilityDecision) -> bool {
    &&& !(d.demoted_by_familiar_claim && d.kept_due_to_novelty_cue)
    &&& (d.demoted_by_familiar_claim || d.kept_due_to_novelty_cue) == (d.checked && d.familiar_claim_overlap)
    &&& d.interest_overlap_without_novelty ==> d.checked
}

/// Every decision of the eligibility filter is coherent.
pub proof fn lemma_decisions_are_coherent(
    d: DeltaEligibilityDecision,
    text: Seq<char>,
    is_delta_highlight: bool,
    known: Seq<Seq<char>>,
    familiar: Seq<Seq<char>>,
    interests: Seq<Seq<char>>,
)
    requires
        is_decision(d, text, is_delta_highlight, known, familiar, interests),
    ensures
        is_coherent_decision(d),
{
}

/// Over coherent decisions, the demoted and the kept sentences are exactly
/// those counted with familiar overlap, and no counter exceeds the checked
/// sentences.
pub proof fn lemma_recorded_counts_balance(ds: Seq<DeltaEligibilityDecision>)
    requires
        forall|i: int| 0 <= i < ds.len() ==> is_coherent_decision(#[trigger] ds[i]),
    ensures
        recorded_counts(ds).1 + recorded_counts(ds).2 == recorded_counts(ds).4,
        recorded_counts(ds).4 <= recorded_counts(ds).0,
        recorded_counts(ds).3 <= recorded_counts(ds).0,
    decreases ds.len(),
{
    if ds.len() > 0 {
        assert forall|i: int| 0 <= i < ds.drop_last().len() implies is_coherent_decision(#[trigger] ds.drop_last()[i]) by {
            assert(ds.drop_last()[i] == ds[i]);
        }
        lemma_recorded_counts_balance(ds.drop_last());
        assert(is_coherent_decision(ds[ds.len() - 1]));
    }
}

proof fn lemma_recorded_counts_remove(ds: Seq<DeltaEligibilityDecision>, i: int)
    requires
        0 <= i < ds.len(),
    ensures
        recorded_counts(ds) == plus_counts(recorded_counts(ds.remove(i)), decision_counts(ds[i])),
    decreases ds.len(),
{
    if i == ds.len() - 1 {
        assert(ds.remove(i) =~= ds.drop_last());
    } else {
        lemma_recorded_counts_remove(ds.drop_last(), i);
        assert(ds.remove(i).drop_last() =~= ds.drop_last().remove(i));
        assert(ds.remove(i).last() == ds.last());
        assert(ds.drop_last()[i] == ds[i]);
    }
}

/// The counters do not depend on the order in which decisions are recorded.
pub proof fn lemma_recorded_counts_order_free(ds1: Seq<DeltaEligibilityDecision>, ds2: Seq<DeltaEligibilityDecision>)
    requires
        ds1.to_multiset() == ds2.to_multiset(),
    ensures
        recorded_counts(ds1) == recorded_counts(ds2),
    decreases ds1.len(),
{
    broadcast use vstd::seq_lib::group_seq_properties, vstd::multiset::group_multiset_axioms;

    if ds1.len() == 0 {
        assert(ds2.to_multiset().len() == 0);
        assert(ds2.len() == 0);
    } else {
        let d = ds1.drop_last();
        let x = ds1.last();
        assert(ds1 =~= d.push(x));
        assert(ds1.to_multiset() =~= d.to_multiset().insert(x));
        assert(ds2.to_multiset().count(x) > 0);
        assert(ds2.contains(x));
        let i = choose|i: int| 0 <= i < ds2.len() && ds2[i] == x;
        let r = ds2.remove(i);
        assert(r.to_multiset() == ds2.to_multiset().remove(x));
        assert(d.to_multiset().insert(x).remove(x) =~= d.to_multiset());
        lemma_recorded_counts_order_free(d, r);
        lemma_recorded_counts_remove(ds2, i);
    }
}

impl DeltaEligibilityDiagnostics {
    /// Counts one decision: every flag that is set adds one to its counter;
    /// familiar overlap is counted only for checked sentences.
    pub fn record(&mut self, decision: &DeltaEligibilityDecision)
        requires
            can_record(*old(self)),
        ensures
            final(self).delta_eligibility_checked == old(self).delta_eligibility_checked + count_of(
                decision.checked,
            ),
            final(self).delta_demoted_by_familiar_claim == old(self).delta_demoted_by_familiar_claim
                + count_of(decision.demoted_by_familiar_claim),
            final(self).delta_kept_due_to_novelty_cue == old(self).delta_kept_due_to_novelty_cue
                + count_of(decision.kept_due_to_novelty_cue),
            final(self).interest_overlap_without_novelty == old(self).interest_overlap_without_novelty
                + count_of(decision.interest_overlap_without_novelty),
            final(self).familiar_claim_overlap_count == old(self).familiar_claim_overlap_count
                + count_of(decision.checked && decision.familiar_claim_overlap),
            diagnostics_counts(*final(self)) == plus_counts(diagnostics_counts(*old(self)), decision_counts(*decision)),
    {
        if decision.checked {
            self.delta_eligibility_checked = self.delta_eligibility_checked + 1;
        }
        if decision.demoted_by_familiar_claim {
            self.delta_demoted_by_familiar_claim = self.delta_demoted_by_familiar_claim + 1;
        }
        if decision.kept_due_to_novelty_cue {
            self.delta_kept_due_to_novelty_cue = self.delta_kept_due_to_novelty_cue + 1;
        }
        if decision.interest_overlap_without_novelty {
            self.interest_overlap_without_novelty = self.interest_overlap_without_novelty + 1;
        }
        if decision.checked && decision.familiar_claim_overlap {
            self.familiar_claim_overlap_count = self.familiar_claim_overlap_count + 1;
        }
    }
}

// ---------------------------------------------------------------------------
// Normalisation and phrase matching
// ---------------------------------------------------------------------------

/// Characters that normalisation keeps; all others become spaces.
pub open spec fn keeps_char(c: char) -> bool {
    unicode_alphanumeric(c) || c == '%' || c == '<' || c == '>'
}

/// Lower-cased text with every other character than letters, digits, `%`,
/// `<` and `>` turned into a space, and words separated by one space.
pub open spec fn normalized(v: Seq<char>) -> Seq<char> {
    join(
        words(lowercase(v).map_values(|c: char| if keeps_char(c) { c } else { ' ' })),
        seq![' '],
    )
}

/// The words of `v` longer than two bytes.
pub open spec fn token_list(v: Seq<char>) -> Seq<Seq<char>> {
    words(v).filter(|t: Seq<char>| utf8_len(t) > 2)
}

/// Whether `phrase` matches `text` with a score of at least 0.55: the
/// normalized phrase occurs in the normalized text (score 1), or at least 55%
/// of the distinct tokens of the phrase are tokens of the text.  An empty
/// normalized phrase scores 0.
pub open spec fn phrase_matches(text: Seq<char>, phrase: Seq<char>) -> bool {
    let nt = normalized(text);
    let np = normalized(phrase);
    if np.len() == 0 {
        false
    } else if contains_seq(nt, np) {
        true
    } else {
        let pt = distinct(token_list(np));
        let tt = token_list(nt);
        pt.len() > 0 && 20 * pt.filter(|t: Seq<char>| tt.contains(t)).len() >= 11 * pt.len()
    }
}

/// The phrases (in order) that match `text`.
pub open spec fn matched(text: Seq<char>, phrases: Seq<Seq<char>>) -> Seq<Seq<char>> {
    phrases.filter(|p: Seq<char>| phrase_matches(text, p))
}

/// The lower-cased, normalized characters of `text`.
pub fn normalize(text: &str) -> (r: Vec<char>)
    ensures
        r@ == normalized(text@),
{
    let lower = to_lowercase(text);
    let chars = chars_of(lower.as_str());
    let mut mapped: Vec<char> = Vec::new();
    let mut i: usize = 0;
    while i < chars.len()
        invariant
            i <= chars@.len(),
            chars@ == lowercase(text@),
            mapped@ == chars@.take(i as int).map_values(
                |c: char| if keeps_char(c) { c } else { ' ' },
            ),
        decreases chars@.len() - i,
    {
        let c = chars[i];
        if is_alphanumeric(c) || c == '%' || c == '<' || c == '>' {
            mapped.push(c);
        } else {
            mapped.push(' ');
        }
        i = i + 1;
        assert(mapped@ =~= chars@.take(i as int).map_values(
            |c: char| if keeps_char(c) { c } else { ' ' },
        ));
    }
    assert(chars@.take(i as int) =~= chars@);
    let ws = split_words(mapped.as_slice());
    let mut sep: Vec<char> = Vec::new();
    sep.push(' ');
    assert(sep@ =~= seq![' ']);
    join_chars(ws.as_slice(), sep.as_slice())
}

/// The words of `v` longer than two bytes.
pub fn tokens(v: &[char]) -> (r: Vec<Vec<char>>)
    ensures
        views(r@) == token_list(v@),
{
    let ws = split_words(v);
    let mut r: Vec<Vec<char>> = Vec::new();
    let mut i: usize = 0;
    let ghost f = |t: Seq<char>| utf8_len(t) > 2;
    while i < ws.len()
        invariant
            i <= ws@.len(),
            views(ws@) == words(v@),
            f == (|t: Seq<char>| utf8_len(t) > 2),
            views(r@) == views(ws@).take(i as int).filter(f),
        decreases ws@.len() - i,
    {
        assert(views(ws@).take(i + 1).drop_last() =~= views(ws@).take(i as int));
        assert(views(ws@).take(i + 1).last() == ws@[i as int]@);
        reveal(Seq::filter);
        if capped_byte_len(ws[i].as_slice(), 2) > 2 {
            let ghost before = views(r@);
            r.push(ws[i].clone());
            assert(views(r@) =~= before.push(ws@[i as int]@));
        }
        i = i + 1;
    }
    assert(views(ws@).take(i as int) =~= views(ws@));
    r
}

/// Whether `phrase` matches the text whose normalized characters are `nt`
/// and whose tokens are `tt`.
fn phrase_matches_normalized(
    nt: &[char],
    tt: &Vec<Vec<char>>,
    phrase: &str,
    Ghost(text): Ghost<Seq<char>>,
) -> (r: bool)
    requires
        nt@ == normalized(text),
        views(tt@) == token_list(normalized(text)),
    ensures
        r == phrase_matches(text, phrase@),
{
    let np = normalize(phrase);
    if np.len() == 0 {
        return false;
    }
    if contains_chars(nt, np.as_slice()) {
        return true;
    }
    let all = tokens(np.as_slice());
    let pt = distinct_words(&all);
    if pt.len() == 0 {
        return false;
    }
    let ghost ptv = views(pt@);
    let ghost ttv = views(tt@);
    let ghost f = |t: Seq<char>| ttv.contains(t);
    let mut hits: usize = 0;
    let mut i: usize = 0;
    while i < pt.len()
        invariant
            i <= pt@.len(),
            ptv == views(pt@),
            ttv == views(tt@),
            f == (|t: Seq<char>| ttv.contains(t)),
            hits == ptv.take(i as int).filter(f).len(),
            hits <= i,
        decreases pt@.len() - i,
    {
        assert(ptv.take(i + 1).drop_last() =~= ptv.take(i as int));
        assert(ptv.take(i + 1).last() == pt@[i as int]@);
        reveal(Seq::filter);
        if contains_word(tt, pt[i].as_slice()) {
            hits = hits + 1;
        }
        i = i + 1;
    }
    assert(ptv.take(i as int) =~= ptv);
    (hits as u128) * 20 >= (pt.len() as u128) * 11
}

/// The phrases that match `text` with a score of at least 0.55.
pub fn matched_phrases(text: &str, phrases: &[String]) -> (r: Vec<String>)
    ensures
        r@.map_values(|s: String| s@) == matched(text@, phrases@.map_values(|s: String| s@)),
{
    let nt = normalize(text);
    let tt = tokens(nt.as_slice());
    let ghost pv = phrases@.map_values(|s: String| s@);
    let ghost f = |p: Seq<char>| phrase_matches(text@, p);
    let mut r: Vec<String> = Vec::new();
    let mut i: usize = 0;
    while i < phrases.len()
        invariant
            i <= phrases@.len(),
            nt@ == normalized(text@),
            views(tt@) == token_list(normalized(text@)),
            pv == phrases@.map_values(|s: String| s@),
            f == (|p: Seq<char>| phrase_matches(text@, p)),
            r@.map_values(|s: String| s@) == pv.take(i as int).filter(f),
        decreases phrases@.len() - i,
    {
        assert(pv.take(i + 1).drop_last() =~= pv.take(i as int));
        assert(pv.take(i + 1).last() == phrases@[i as int]@);
        reveal(Seq::filter);
        if phrase_matches_normalized(nt.as_slice(), &tt, phrases[i].as_str(), Ghost(text@)) {
            let ghost before = r@.map_values(|s: String| s@);
            r.push(phrases[i].clone());
            assert(r@.map_values(|s: String| s@) =~= before.push(phrases@[i as int]@));
        }
        i = i + 1;
    }
    assert(pv.take(i as int) =~= pv);
    r
}

// ---------------------------------------------------------------------------
// Cues
// ---------------------------------------------------------------------------

/// Phrases that signal new evidence.
pub open spec fn novelty_cues() -> Seq<Seq<char>> {
    seq![
        "we found"@,
        "evaluation shows"@,
        "reduced"@,
        "increased"@,
        "failed when"@,
        "only when"@,
        "regressed"@,
        "new"@,
        "previously unknown"@,
        "changed from"@,
        "unlike"@,
        "limitation"@,
        "tradeoff"@,
    ]
}

/// Phrases that signal already-known material.
pub open spec fn familiar_cues() -> Seq<Seq<char>> {
    seq![
        "previously validated"@,
        "already validated"@,
        "known configuration"@,
        "standard practice"@,
        "not new evidence"@,
        "already deployed"@,
        "baseline already includes"@,
    ]
}

fn novelty_cue_list() -> (r: Vec<&'static str>)
    ensures
        r@.map_values(|s: &str| s@) == novelty_cues(),
{
    let mut r: Vec<&'static str> = Vec::new();
    r.push("we found");
    r.push("evaluation shows");
    r.push("reduced");
    r.push("increased");
    r.push("failed when");
    r.push("only when");
    r.push("regressed");
    r.push("new");
    r.push("previously unknown");
    r.push("changed from");
    r.push("unlike");
    r.push("limitation");
    r.push("tradeoff");
    assert(r@.map_values(|s: &str| s@) =~= novelty_cues());
    r
}

fn familiar_cue_list() -> (r: Vec<&'static str>)
    ensures
        r@.map_values(|s: &str| s@) == familiar_cues(),
{
    let mut r: Vec<&'static str> = Vec::new();
    r.push("previously validated");
    r.push("already validated");
    r.push("known configuration");
    r.push("standard practice");
    r.push("not new evidence");
    r.push("already deployed");
    r.push("baseline already includes");
    assert(r@.map_values(|s: &str| s@) =~= familiar_cues());
    r
}

/// `s` with a space before and after.
pub open spec fn padded(s: Seq<char>) -> Seq<char> {
    seq![' '] + s + seq![' ']
}

/// The cues that occur as whole words in the normalized `text`.
pub open spec fn detected_cues(text: Seq<char>, cues: Seq<Seq<char>>) -> Seq<Seq<char>> {
    cues.filter(|c: Seq<char>| contains_seq(padded(normalized(text)), padded(c)))
}

/// `padded(v)` as a new vector.
fn padded_chars(v: &[char]) -> (r: Vec<char>)
    ensures
        r@ == padded(v@),
{
    let mut r: Vec<char> = Vec::new();
    r.push(' ');
    crate::text::extend_chars(&mut r, v);
    r.push(' ');
    assert(r@ =~= padded(v@));
    r
}

/// The cues of `cues` that occur as whole words in the normalized `text`.
fn detect_cues(text: &str, cues: &Vec<&'static str>) -> (r: Vec<String>)
    ensures
        r@.map_values(|s: String| s@) == detected_cues(text@, cues@.map_values(|s: &str| s@)),
{
    let nt = normalize(text);
    let pt = padded_chars(nt.as_slice());
    let ghost cv = cues@.map_values(|s: &str| s@);
    let ghost f = |c: Seq<char>| contains_seq(padded(normalized(text@)), padded(c));
    let mut r: Vec<String> = Vec::new();
    let mut i: usize = 0;
    while i < cues.len()
        invariant
            i <= cues@.len(),
            pt@ == padded(normalized(text@)),
            cv == cues@.map_values(|s: &str| s@),
            f == (|c: Seq<char>| contains_seq(padded(normalized(text@)), padded(c))),
            r@.map_values(|s: String| s@) == cv.take(i as int).filter(f),
        decreases cues@.len() - i,
    {
        assert(cv.take(i + 1).drop_last() =~= cv.take(i as int));
        assert(cv.take(i + 1).last() == cues@[i as int]@);
        reveal(Seq::filter);
        let cue: &str = cues[i];
        let cc = chars_of(cue);
        let pc = padded_chars(cc.as_slice());
        if contains_chars(pt.as_slice(), pc.as_slice()) {
            let ghost before = r@.map_values(|s: String| s@);
            r.push(cue.to_owned());
            assert(r@.map_values(|s: String| s@) =~= before.push(cue@));
        }
        i = i + 1;
    }
    assert(cv.take(i as int) =~= cv);
    r
}

/// The novelty cues of `text`; the cue "new" does not count when the text
/// says "not new" or "no new".
pub open spec fn novelty_cues_of(text: Seq<char>) -> Seq<Seq<char>> {
    let found = detected_cues(text, novelty_cues());
    if contains_seq(normalized(text), "not new"@) || contains_seq(normalized(text), "no new"@) {
        found.filter(|c: Seq<char>| c != "new"@)
    } else {
        found
    }
}

/// Whether `c` is an ASCII digit.
pub open spec fn is_ascii_digit(c: char) -> bool {
    '0' <= c && c <= '9'
}

/// Whether `text` states a numeric comparison: its normalized form has a
/// digit and a percentage, "percent", "versus", "compared", "than",
/// "from ... to", `<` or `>`.
pub open spec fn has_numeric_comparison(text: Seq<char>) -> bool {
    let n = normalized(text);
    (exists|i: int| 0 <= i < n.len() && is_ascii_digit(#[trigger] n[i])) && (contains_seq(n, "%"@)
        || contains_seq(n, " percent"@) || contains_seq(n, " versus "@) || contains_seq(
        n,
        " compared "@,
    ) || contains_seq(n, " than "@) || (contains_seq(n, " from "@) && contains_seq(n, " to "@))
        || contains_seq(n, "<"@) || contains_seq(n, ">"@))
}

fn contains_lit(v: &[char], lit: &str) -> (r: bool)
    ensures
        r == contains_seq(v@, lit@),
{
    let l = chars_of(lit);
    contains_chars(v, l.as_slice())
}

fn numeric_comparison(text: &str) -> (r: bool)
    ensures
        r == has_numeric_comparison(text@),
{
    let n = normalize(text);
    let mut has_digit = false;
    let mut i: usize = 0;
    while i < n.len()
        invariant
            i <= n@.len(),
            has_digit == exists|k: int| 0 <= k < i && is_ascii_digit(#[trigger] n@[k]),
        decreases n@.len() - i,
    {
        let c = n[i];
        if '0' <= c && c <= '9' {
            has_digit = true;
        }
        i = i + 1;
    }
    has_digit && (contains_lit(n.as_slice(), "%") || contains_lit(n.as_slice(), " percent")
        || contains_lit(n.as_slice(), " versus ") || contains_lit(n.as_slice(), " compared ")
        || contains_lit(n.as_slice(), " than ") || (contains_lit(n.as_slice(), " from ")
        && contains_lit(n.as_slice(), " to ")) || contains_lit(n.as_slice(), "<") || contains_lit(
        n.as_slice(),
        ">",
    ))
}

// ---------------------------------------------------------------------------
// The decision
// ---------------------------------------------------------------------------

/// The strings held by a vector of strings.
pub open spec fn string_views(v: Seq<String>) -> Seq<Seq<char>> {
    v.map_values(|s: String| s@)
}

/// The eligibility filter's decision for `text`.  A sentence is checked when it is a delta
/// highlight; it overlaps familiar evidence when a familiar claim matches or a
/// familiar cue occurs; it has novelty when a novelty cue occurs or it states
/// a numeric comparison.  A checked sentence with familiar overlap is demoted
/// unless it has novelty, and kept because of its novelty otherwise.
pub open spec fn is_decision(
    d: DeltaEligibilityDecision,
    text: Seq<char>,
    is_delta_highlight: bool,
    known: Seq<Seq<char>>,
    familiar: Seq<Seq<char>>,
    interests: Seq<Seq<char>>,
) -> bool {
    let has_novelty = novelty_cues_of(text).len() > 0 || has_numeric_comparison(text);
    let overlap = matched(text, familiar).len() > 0 || detected_cues(text, familiar_cues()).len()
        > 0;
    &&& string_views(d.matched_known_concepts@) == matched(text, known)
    &&& string_views(d.matched_familiar_claims@) == matched(text, familiar)
    &&& string_views(d.matched_interests@) == matched(text, interests)
    &&& string_views(d.novelty_cues@) == novelty_cues_of(text)
    &&& string_views(d.familiar_cues@) == detected_cues(text, familiar_cues())
    &&& d.checked == is_delta_highlight
    &&& d.familiar_claim_overlap == overlap
    &&& d.eligible == (!is_delta_highlight || !overlap || has_novelty)
    &&& d.demoted_by_familiar_claim == (is_delta_highlight && overlap && !has_novelty)
    &&& d.kept_due_to_novelty_cue == (is_delta_highlight && overlap && has_novelty)
    &&& d.interest_overlap_without_novelty == (is_delta_highlight && matched(text, interests).len()
        > 0 && !has_novelty)
}

/// Decides whether a (possibly) highlighted delta sentence stays eligible
/// given the reader's baseline evidence.
pub fn evaluate_delta_eligibility(
    text: &str,
    is_delta_highlight: bool,
    baseline: BaselineEvidence<'_>,
) -> (r: DeltaEligibilityDecision)
    ensures
        is_decision(
            r,
            text@,
            is_delta_highlight,
            string_views(baseline.known_concepts@),
            string_views(baseline.familiar_claims@),
            string_views(baseline.interests@),
        ),
        r.eligible == !r.demoted_by_familiar_claim,
        !(r.demoted_by_familiar_claim && r.kept_due_to_novelty_cue),
{
    let matched_known_concepts = matched_phrases(text, baseline.known_concepts);
    let matched_familiar_claims = matched_phrases(text, baseline.familiar_claims);
    let matched_interests = matched_phrases(text, baseline.interests);
    let ncues = novelty_cue_list();
    let fcues = familiar_cue_list();
    let found = detect_cues(text, &ncues);
    let familiar_cues = detect_cues(text, &fcues);
    let normalized_text = normalize(text);
    let mut novelty_cues: Vec<String> = Vec::new();
    if contains_lit(normalized_text.as_slice(), "not new") || contains_lit(
        normalized_text.as_slice(),
        "no new",
    ) {
        let ghost fv = string_views(found@);
        let ghost f = |c: Seq<char>| c != "new"@;
        let mut i: usize = 0;
        while i < found.len()
            invariant
                i <= found@.len(),
                fv == string_views(found@),
                f == (|c: Seq<char>| c != "new"@),
                string_views(novelty_cues@) == fv.take(i as int).filter(f),
            decreases found@.len() - i,
        {
            assert(fv.take(i + 1).drop_last() =~= fv.take(i as int));
            assert(fv.take(i + 1).last() == found@[i as int]@);
            reveal(Seq::filter);
            let fc = chars_of(found[i].as_str());
            let is_new = crate::text::chars_eq_str(fc.as_slice(), "new");
            if !is_new {
                let ghost before = string_views(novelty_cues@);
                novelty_cues.push(found[i].clone());
                assert(string_views(novelty_cues@) =~= before.push(found@[i as int]@));
            }
            i = i + 1;
        }
        assert(fv.take(i as int) =~= fv);
    } else {
        novelty_cues = found;
    }
    let has_novelty = novelty_cues.len() > 0 || numeric_comparison(text);
    let familiar_claim_overlap = matched_familiar_claims.len() > 0 || familiar_cues.len() > 0;
    DeltaEligibilityDecision {
        checked: is_delta_highlight,
        eligible: !is_delta_highlight || !familiar_claim_overlap || has_novelty,
        demoted_by_familiar_claim: is_delta_highlight && familiar_claim_overlap && !has_novelty,
        kept_due_to_novelty_cue: is_delta_highlight && familiar_claim_overlap && has_novelty,
        interest_overlap_without_novelty: is_delta_highlight && matched_interests.len() > 0
            && !has_novelty,
        familiar_claim_overlap,
        matched_known_concepts,
        matched_familiar_claims,
        matched_interests,
        novelty_cues,
        familiar_cues,
    }
}

/// A checked delta highlight that overlaps familiar evidence is kept for its
/// novelty, not demoted, when its normalized text holds an ASCII digit and a
/// comparison: a percent sign, " percent", " versus ", " compared ",
/// " than ", both " from " and " to ", "<" or ">".
pub proof fn lemma_numeric_comparison_is_kept(
    d: DeltaEligibilityDecision,
    text: Seq<char>,
    known: Seq<Seq<char>>,
    familiar: Seq<Seq<char>>,
    interests: Seq<Seq<char>>,
    i: int,
)
    requires
        is_decision(d, text, true, known, familiar, interests),
        d.familiar_claim_overlap,
        0 <= i < normalized(text).len(),
        '0' <= normalized(text)[i] <= '9',
        contains_seq(normalized(text), "%"@) || contains_seq(normalized(text), " percent"@)
            || contains_seq(normalized(text), " versus "@) || contains_seq(normalized(text), " compared "@)
            || contains_seq(normalized(text), " than "@) || (contains_seq(normalized(text), " from "@)
            && contains_seq(normalized(text), " to "@)) || contains_seq(normalized(text), "<"@)
            || contains_seq(normalized(text), ">"@),
    ensures
        d.eligible,
        d.kept_due_to_novelty_cue,
        !d.demoted_by_familiar_claim,
{
    assert(is_ascii_digit(normalized(text)[i]));
    assert(has_numeric_comparison(text));
}

/// A checked delta highlight that overlaps familiar evidence is demoted, and
/// no longer eligible, when it has no novelty cue and its normalized text
/// holds no ASCII digit.
pub proof fn lemma_familiar_overlap_without_novelty_is_demoted(
    d: DeltaEligibilityDecision,
    text: Seq<char>,
    known: Seq<Seq<char>>,
    familiar: Seq<Seq<char>>,
    interests: Seq<Seq<char>>,
)
    requires
        is_decision(d, text, true, known, familiar, interests),
        d.familiar_claim_overlap,
        d.novelty_cues@.len() == 0,
        forall|i: int| 0 <= i < normalized(text).len() ==> !('0' <= #[trigger] normalized(text)[i] <= '9'),
    ensures
        d.demoted_by_familiar_claim,
        !d.eligible,
        !d.kept_due_to_novelty_cue,
{
    assert(string_views(d.novelty_cues@).len() == d.novelty_cues@.len());
}

} // verus!
