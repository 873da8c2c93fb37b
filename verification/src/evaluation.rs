//! Product-fit evaluation of the deterministic annotator against gold
//! labels: phrase overlap scores between a sentence and a reader's baseline,
//! the prediction for each body sentence, and the checks and counts that the
//! evaluation report is built from.
//!
//! Scores are fractions `hits / total` of phrase tokens; the thresholds 0.55
//! and 0.6 are compared exactly as 11/20 and 3/5.
use vstd::prelude::*;

use crate::delta_policy::{evaluate_delta_eligibility, is_decision, string_views, BaselineEvidence, DeltaEligibilityDecision};
use crate::models::{CandidateKind, CanonicalReadingUnit, Priority, ReaderDirective};
use crate::text::{
    chars_eq_str, chars_of, contains_chars, contains_seq, contains_word, distinct, distinct_words,
    is_alphanumeric, join, join_chars, lowercase, split_words, to_lowercase,
    unicode_alphanumeric, utf8_len, views, words, capped_byte_len,
};

verus! {

/// The reader a fixture is evaluated for.
#[derive(Clone, Debug)]
pub struct ProductBaseline {
    pub reader_profile: String,
    pub known_concepts: Vec<String>,
    pub familiar_claims: Vec<String>,
    pub interests: Vec<String>,
    pub explicit_not_interested_topics: Vec<String>,
}

/// A phrase score: the fraction `hits / total`, with `total > 0`.
#[derive(Clone, Copy, Debug, PartialEq, Eq, Structural)]
pub struct Score {
    pub hits: usize,
    pub total: usize,
}

/// Whether score `s` is at least `num / den`.
pub open spec fn at_least(s: (nat, nat), num: int, den: int) -> bool {
    s.0 * den >= num * s.1
}

/// Whether score `a` is below score `b`.
pub open spec fn below(a: (nat, nat), b: (nat, nat)) -> bool {
    a.0 * b.1 < b.0 * a.1
}

pub open spec fn score_of(s: Score) -> (nat, nat) {
    (s.hits as nat, s.total as nat)
}

// ---------------------------------------------------------------------------
// Phrase scores
// ---------------------------------------------------------------------------

/// Lower-cased text with every character that is not a letter or digit
/// turned into a space, and words separated by one space.
pub open spec fn eval_normalized(v: Seq<char>) -> Seq<char> {
    join(
        words(lowercase(v).map_values(|c: char| if unicode_alphanumeric(c) { c } else { ' ' })),
        seq![' '],
    )
}

/// Words that never count as phrase tokens.
pub open spec fn eval_stop_words() -> Seq<Seq<char>> {
    seq![
        "a"@, "an"@, "and"@, "as"@, "at"@, "by"@, "for"@, "from"@, "in"@, "of"@, "on"@, "the"@,
        "to"@, "with"@,
    ]
}

/// Whether a word counts as a phrase token: longer than one byte and not a
/// stop word.
pub open spec fn is_eval_token(t: Seq<char>) -> bool {
    utf8_len(t) > 1 && !eval_stop_words().contains(t)
}

/// The distinct tokens of normalized text, in order of first occurrence.
pub open spec fn eval_tokens(v: Seq<char>) -> Seq<Seq<char>> {
    distinct(words(v).filter(|t: Seq<char>| is_eval_token(t)))
}

/// How well `phrase` matches `text`: 1 when the normalized phrase occurs in
/// the normalized text, else the share of the phrase's distinct tokens that
/// are tokens of the text; 0 for a phrase without words or tokens.
pub open spec fn phrase_score_of(text: Seq<char>, phrase: Seq<char>) -> (nat, nat) {
    let nt = eval_normalized(text);
    let np = eval_normalized(phrase);
    if np.len() == 0 {
        (0, 1)
    } else if contains_seq(nt, np) {
        (1, 1)
    } else {
        let pt = eval_tokens(np);
        let tt = eval_tokens(nt);
        if pt.len() == 0 {
            (0, 1)
        } else {
            (pt.filter(|t: Seq<char>| tt.contains(t)).len(), pt.len())
        }
    }
}

/// The best score of `phrases` against `text`, starting from 0.
pub open spec fn max_score_of(text: Seq<char>, phrases: Seq<Seq<char>>) -> (nat, nat)
    decreases phrases.len(),
{
    if phrases.len() == 0 {
        (0, 1)
    } else {
        let best = max_score_of(text, phrases.drop_last());
        let s = phrase_score_of(text, phrases.last());
        if below(best, s) {
            s
        } else {
            best
        }
    }
}

/// The phrases (in order) whose score against `text` is at least 0.55.
pub open spec fn eval_matched(text: Seq<char>, phrases: Seq<Seq<char>>) -> Seq<Seq<char>> {
    phrases.filter(|p: Seq<char>| at_least(phrase_score_of(text, p), 11, 20))
}

fn stop_word_list() -> (r: Vec<&'static str>)
    ensures
        r@.map_values(|s: &str| s@) == eval_stop_words(),
{
    let mut r: Vec<&'static str> = Vec::new();
    r.push("a");
    r.push("an");
    r.push("and");
    r.push("as");
    r.push("at");
    r.push("by");
    r.push("for");
    r.push("from");
    r.push("in");
    r.push("of");
    r.push("on");
    r.push("the");
    r.push("to");
    r.push("with");
    assert(r@.map_values(|s: &str| s@) =~= eval_stop_words());
    r
}

/// The normalized characters of `text`.
pub fn eval_normalize(text: &str) -> (r: Vec<char>)
    ensures
        r@ == eval_normalized(text@),
{
    let lower = to_lowercase(text);
    let chars = chars_of(lower.as_str());
    let mut mapped: Vec<char> = Vec::new();
    let mut i: usize = 0;
    while i < chars.len()
        invariant
            i <= chars@.len(),
            chars@ == lowercase(text@),
            mapped@ == chars@.take(i as int).map_values(
                |c: char| if unicode_alphanumeric(c) { c } else { ' ' },
            ),
        decreases chars@.len() - i,
    {
        let c = chars[i];
        if is_alphanumeric(c) {
            mapped.push(c);
        } else {
            mapped.push(' ');
        }
        i = i + 1;
        assert(mapped@ =~= chars@.take(i as int).map_values(
            |c: char| if unicode_alphanumeric(c) { c } else { ' ' },
        ));
    }
    assert(chars@.take(i as int) =~= chars@);
    let ws = split_words(mapped.as_slice());
    let mut sep: Vec<char> = Vec::new();
    sep.push(' ');
    assert(sep@ =~= seq![' ']);
    join_chars(ws.as_slice(), sep.as_slice())
}

/// The distinct phrase tokens of normalized text.
pub fn eval_token_set(v: &[char]) -> (r: Vec<Vec<char>>)
    ensures
        views(r@) == eval_tokens(v@),
{
    let ws = split_words(v);
    let stops = stop_word_list();
    let mut kept: Vec<Vec<char>> = Vec::new();
    let mut i: usize = 0;
    let ghost f = |t: Seq<char>| is_eval_token(t);
    while i < ws.len()
        invariant
            i <= ws@.len(),
            views(ws@) == words(v@),
            stops@.map_values(|s: &str| s@) == eval_stop_words(),
            f == (|t: Seq<char>| is_eval_token(t)),
            views(kept@) == views(ws@).take(i as int).filter(f),
        decreases ws@.len() - i,
    {
        assert(views(ws@).take(i + 1).drop_last() =~= views(ws@).take(i as int));
        assert(views(ws@).take(i + 1).last() == ws@[i as int]@);
        reveal(Seq::filter);
        let w = &ws[i];
        let mut is_stop = false;
        let mut q: usize = 0;
        while q < stops.len()
            invariant
                q <= stops@.len(),
                stops@.map_values(|s: &str| s@) == eval_stop_words(),
                is_stop == exists|m: int| 0 <= m < q && eval_stop_words()[m] == w@,
            decreases stops@.len() - q,
        {
            assert(stops@[q as int]@ == eval_stop_words()[q as int]);
            if chars_eq_str(w.as_slice(), stops[q]) {
                is_stop = true;
            }
            q = q + 1;
        }
        proof {
            if is_stop {
                let m = choose|m: int| 0 <= m < q && eval_stop_words()[m] == w@;
                assert(eval_stop_words().contains(w@));
            } else {
                assert forall|m: int| 0 <= m < eval_stop_words().len() implies eval_stop_words()[m] != w@ by {}
            }
        }
        if capped_byte_len(w.as_slice(), 1) > 1 && !is_stop {
            let ghost before = views(kept@);
            kept.push(w.clone());
            assert(views(kept@) =~= before.push(ws@[i as int]@));
        }
        i = i + 1;
    }
    assert(views(ws@).take(i as int) =~= views(ws@));
    distinct_words(&kept)
}

/// The score of `phrase` against the text whose normalized characters are
/// `nt` and whose tokens are `tt`.
fn score_normalized(nt: &[char], tt: &Vec<Vec<char>>, phrase: &str, Ghost(text): Ghost<Seq<char>>) -> (r: Score)
    requires
        nt@ == eval_normalized(text),
        views(tt@) == eval_tokens(eval_normalized(text)),
    ensures
        score_of(r) == phrase_score_of(text, phrase@),
        r.hits <= r.total,
        r.total > 0,
{
    let np = eval_normalize(phrase);
    if np.len() == 0 {
        return Score { hits: 0, total: 1 };
    }
    if contains_chars(nt, np.as_slice()) {
        return Score { hits: 1, total: 1 };
    }
    let pt = eval_token_set(np.as_slice());
    if pt.len() == 0 {
        return Score { hits: 0, total: 1 };
    }
    let ghost ptv = views(pt@);
    let ghost ttv = views(tt@);
    let ghost f = |t: Seq<char>| ttv.contains(t);
    let mut hits: usize = 0;
    let mut i: usize = 0;
    while i < pt.len()
        invariant
            i <= pt@.len(),
            ptv == views(pt@),
            ttv == views(tt@),
            f == (|t: Seq<char>| ttv.contains(t)),
            hits == ptv.take(i as int).filter(f).len(),
            hits <= i,
        decreases pt@.len() - i,
    {
        assert(ptv.take(i + 1).drop_last() =~= ptv.take(i as int));
        assert(ptv.take(i + 1).last() == pt@[i as int]@);
        reveal(Seq::filter);
        if contains_word(tt, pt[i].as_slice()) {
            hits = hits + 1;
        }
        i = i + 1;
    }
    assert(ptv.take(i as int) =~= ptv);
    Score { hits, total: pt.len() }
}

/// How well `phrase` matches `text`.
pub fn phrase_score(text: &str, phrase: &str) -> (r: Score)
    ensures
        score_of(r) == phrase_score_of(text@, phrase@),
{
    let nt = eval_normalize(text);
    let tt = eval_token_set(nt.as_slice());
    score_normalized(nt.as_slice(), &tt, phrase, Ghost(text@))
}

/// Whether `a < b` as fractions.
fn score_below(a: Score, b: Score) -> (r: bool)
    ensures
        r == below(score_of(a), score_of(b)),
{
    let x = a.hits as u128;
    let y = b.total as u128;
    let z = b.hits as u128;
    let w = a.total as u128;
    proof {
        lemma_product_fits(x, y);
        lemma_product_fits(z, w);
    }
    x * y < z * w
}

proof fn lemma_product_fits(x: u128, y: u128)
    requires
        x <= 0xffff_ffff_ffff_ffff,
        y <= 0xffff_ffff_ffff_ffff,
    ensures
        x * y <= 0xffff_ffff_ffff_fffe_0000_0000_0000_0001,
{
    assert(x * y <= 0xffff_ffff_ffff_ffff * 0xffff_ffff_ffff_ffff) by (nonlinear_arith)
        requires
            x <= 0xffff_ffff_ffff_ffff,
            y <= 0xffff_ffff_ffff_ffff,
    ;
}

/// Whether `s >= num / den`.
fn score_at_least(s: Score, num: u128, den: u128) -> (r: bool)
    requires
        num <= 100,
        den <= 100,
    ensures
        r == at_least(score_of(s), num as int, den as int),
{
    let x = s.hits as u128;
    let y = s.total as u128;
    proof {
        lemma_product_fits(x, den);
        lemma_product_fits(num, y);
    }
    x * den >= num * y
}

/// The best score of `phrases` against `text` (0 when there are none).
pub fn maximum_phrase_score(text: &str, phrases: &[String]) -> (r: Score)
    ensures
        score_of(r) == max_score_of(text@, string_views(phrases@)),
        r.hits <= r.total,
        r.total > 0,
{
    let nt = eval_normalize(text);
    let tt = eval_token_set(nt.as_slice());
    let ghost pv = string_views(phrases@);
    let mut best = Score { hits: 0, total: 1 };
    let mut i: usize = 0;
    while i < phrases.len()
        invariant
            i <= phrases@.len(),
            nt@ == eval_normalized(text@),
            views(tt@) == eval_tokens(eval_normalized(text@)),
            pv == string_views(phrases@),
            score_of(best) == max_score_of(text@, pv.take(i as int)),
            best.hits <= best.total,
            best.total > 0,
        decreases phrases@.len() - i,
    {
        assert(pv.take(i + 1).drop_last() =~= pv.take(i as int));
        assert(pv.take(i + 1).last() == phrases@[i as int]@);
        let s = score_normalized(nt.as_slice(), &tt, phrases[i].as_str(), Ghost(text@));
        if score_below(best, s) {
            best = s;
        }
        i = i + 1;
    }
    assert(pv.take(i as int) =~= pv);
    best
}

/// The phrases whose score against `text` is at least 0.55.
pub fn matched_phrases(text: &str, phrases: &[String]) -> (r: Vec<String>)
    ensures
        string_views(r@) == eval_matched(text@, string_views(phrases@)),
{
    let nt = eval_normalize(text);
    let tt = eval_token_set(nt.as_slice());
    let ghost pv = string_views(phrases@);
    let ghost f = |p: Seq<char>| at_least(phrase_score_of(text@, p), 11, 20);
    let mut r: Vec<String> = Vec::new();
    let mut i: usize = 0;
    while i < phrases.len()
        invariant
            i <= phrases@.len(),
            nt@ == eval_normalized(text@),
            views(tt@) == eval_tokens(eval_normalized(text@)),
            pv == string_views(phrases@),
            f == (|p: Seq<char>| at_least(phrase_score_of(text@, p), 11, 20)),
            string_views(r@) == pv.take(i as int).filter(f),
        decreases phrases@.len() - i,
    {
        assert(pv.take(i + 1).drop_last() =~= pv.take(i as int));
        assert(pv.take(i + 1).last() == phrases@[i as int]@);
        reveal(Seq::filter);
        let s = score_normalized(nt.as_slice(), &tt, phrases[i].as_str(), Ghost(text@));
        if score_at_least(s, 11, 20) {
            let ghost before = string_views(r@);
            r.push(phrases[i].clone());
            assert(string_views(r@) =~= before.push(phrases@[i as int]@));
        }
        i = i + 1;
    }
    assert(pv.take(i as int) =~= pv);
    r
}

// ---------------------------------------------------------------------------
// Predictions
// ---------------------------------------------------------------------------

/// The baseline phrases that a sentence matches.
#[derive(Clone, Debug)]
pub struct BaselineOverlapSignals {
    pub matched_known_concepts: Vec<String>,
    pub matched_familiar_claims: Vec<String>,
    pub matched_interests: Vec<String>,
}

/// What the deterministic annotator predicts for a sentence.
#[derive(Clone, Debug)]
pub struct FixturePrediction {
    pub priority: Priority,
    pub directive: ReaderDirective,
    pub confidence: Option<Score>,
    pub signals: BaselineOverlapSignals,
    pub gate_decision: DeltaEligibilityDecision,
}

/// The role given to a sentence before the delta eligibility eligibility filter, with its
/// confidence: topics the reader is not interested in first, then interests
/// (with known concepts a bridge), familiar claims, known concepts, and a
/// default that depends on whether the reader is a beginner.
pub open spec fn predicted_role(text: Seq<char>, b: ProductBaseline) -> (Priority, ReaderDirective, (nat, nat)) {
    let excluded = max_score_of(text, string_views(b.explicit_not_interested_topics@));
    let familiar_claim = max_score_of(text, string_views(b.familiar_claims@));
    let known = max_score_of(text, string_views(b.known_concepts@));
    let interest = max_score_of(text, string_views(b.interests@));
    if at_least(excluded, 3, 5) {
        (Priority::Familiar, ReaderDirective::LeaveNormal, excluded)
    } else if at_least(interest, 11, 20) && at_least(known, 11, 20) {
        (Priority::Bridge, ReaderDirective::Callout, if below(known, interest) { known } else { interest })
    } else if at_least(interest, 11, 20) {
        (Priority::Delta, ReaderDirective::Highlight, interest)
    } else if at_least(familiar_claim, 3, 5) {
        (Priority::Familiar, ReaderDirective::SoftFade, familiar_claim)
    } else if at_least(known, 3, 5) {
        (Priority::Familiar, ReaderDirective::LeaveNormal, known)
    } else if contains_seq(lowercase(b.reader_profile@), "beginner"@) {
        (Priority::Bridge, ReaderDirective::Callout, (1, 2))
    } else {
        (Priority::Bridge, ReaderDirective::LeaveNormal, (1, 2))
    }
}

/// Whether `r` is the prediction for `text`: the role above, demoted to
/// familiar and left normal when the eligibility filter demotes a delta highlight.
pub open spec fn is_prediction(r: FixturePrediction, text: Seq<char>, b: ProductBaseline) -> bool {
    let (p, d, c) = predicted_role(text, b);
    &&& is_decision(
        r.gate_decision,
        text,
        p == Priority::Delta && d == ReaderDirective::Highlight,
        string_views(b.known_concepts@),
        string_views(b.familiar_claims@),
        string_views(b.interests@),
    )
    &&& if r.gate_decision.demoted_by_familiar_claim {
        r.priority == Priority::Familiar && r.directive == ReaderDirective::LeaveNormal
    } else {
        r.priority == p && r.directive == d
    }
    &&& r.confidence matches Some(s) && score_of(s) == c
    &&& string_views(r.signals.matched_known_concepts@) == eval_matched(text, string_views(b.known_concepts@))
    &&& string_views(r.signals.matched_familiar_claims@) == eval_matched(text, string_views(b.familiar_claims@))
    &&& string_views(r.signals.matched_interests@) == eval_matched(text, string_views(b.interests@))
}

/// A phrase score has a positive denominator.
pub proof fn lemma_phrase_score_positive(text: Seq<char>, phrase: Seq<char>)
    ensures
        phrase_score_of(text, phrase).1 > 0,
{
}

/// The best score of a list of phrases has a positive denominator and is no
/// lower than the score of any phrase of the list.
pub proof fn lemma_max_score_dominates(text: Seq<char>, phrases: Seq<Seq<char>>)
    ensures
        max_score_of(text, phrases).1 > 0,
        forall|i: int|
            0 <= i < phrases.len() ==> !below(max_score_of(text, phrases), #[trigger] phrase_score_of(text, phrases[i])),
    decreases phrases.len(),
{
    if phrases.len() > 0 {
        let rest = phrases.drop_last();
        lemma_max_score_dominates(text, rest);
        let best = max_score_of(text, rest);
        let s = phrase_score_of(text, phrases.last());
        lemma_phrase_score_positive(text, phrases.last());
        let m = max_score_of(text, phrases);
        assert forall|i: int| 0 <= i < phrases.len() implies !below(m, #[trigger] phrase_score_of(text, phrases[i])) by {
            let si = phrase_score_of(text, phrases[i]);
            lemma_phrase_score_positive(text, phrases[i]);
            if i < phrases.len() - 1 {
                assert(rest[i] == phrases[i]);
                assert(!below(best, si));
                if below(best, s) {
                    let (b0, b1) = (best.0 as int, best.1 as int);
                    let (s0, s1) = (s.0 as int, s.1 as int);
                    let (t0, t1) = (si.0 as int, si.1 as int);
                    assert(s0 * t1 >= t0 * s1) by (nonlinear_arith)
                        requires
                            b0 * s1 < s0 * b1,
                            b0 * t1 >= t0 * b1,
                            b1 > 0,
                            s1 > 0,
                            t1 > 0,
                            b0 >= 0,
                            s0 >= 0,
                            t0 >= 0,
                    ;
                }
            } else {
                assert(phrases[i] == phrases.last());
            }
        }
    }
}

/// A score that is no lower than a score of at least `num / den` is at least
/// `num / den` too.
pub proof fn lemma_at_least_upward(a: (nat, nat), b: (nat, nat), num: int, den: int)
    requires
        at_least(b, num, den),
        !below(a, b),
        a.1 > 0,
        b.1 > 0,
        den > 0,
        num >= 0,
    ensures
        at_least(a, num, den),
{
    let (a0, a1) = (a.0 as int, a.1 as int);
    let (b0, b1) = (b.0 as int, b.1 as int);
    assert(a0 * den >= num * a1) by (nonlinear_arith)
        requires
            b0 * den >= num * b1,
            a0 * b1 >= b0 * a1,
            a1 > 0,
            b1 > 0,
            den > 0,
            num >= 0,
            a0 >= 0,
            b0 >= 0,
    ;
}

/// Topics the reader is explicitly not interested in decide first: when one
/// of them scores at least 3/5 against the text, the prediction is familiar
/// and left normal, with a confidence of at least 3/5, the sentence is not
/// checked as a delta highlight, whatever its interests, known concepts or
/// familiar claims score.
pub proof fn lemma_not_interested_topic_wins(r: FixturePrediction, text: Seq<char>, b: ProductBaseline, i: int)
    requires
        is_prediction(r, text, b),
        0 <= i < b.explicit_not_interested_topics@.len(),
        at_least(phrase_score_of(text, b.explicit_not_interested_topics@[i]@), 3, 5),
    ensures
        r.priority == Priority::Familiar,
        r.directive == ReaderDirective::LeaveNormal,
        r.confidence matches Some(s) && at_least(score_of(s), 3, 5),
        !r.gate_decision.checked,
        !r.gate_decision.demoted_by_familiar_claim,
{
    let topics = string_views(b.explicit_not_interested_topics@);
    lemma_max_score_dominates(text, topics);
    assert(topics[i] == b.explicit_not_interested_topics@[i]@);
    lemma_phrase_score_positive(text, topics[i]);
    let excluded = max_score_of(text, topics);
    assert(!below(excluded, phrase_score_of(text, topics[i])));
    lemma_at_least_upward(excluded, phrase_score_of(text, topics[i]), 3, 5);
}

/// The best score of a list of phrases is 0 or the score of one of them.
pub proof fn lemma_max_score_attained(text: Seq<char>, phrases: Seq<Seq<char>>)
    ensures
        max_score_of(text, phrases) == (0nat, 1nat) || exists|i: int|
            0 <= i < phrases.len() && max_score_of(text, phrases) == #[trigger] phrase_score_of(text, phrases[i]),
    decreases phrases.len(),
{
    if phrases.len() > 0 {
        let rest = phrases.drop_last();
        lemma_max_score_attained(text, rest);
        if max_score_of(text, phrases) != (0nat, 1nat) {
            if max_score_of(text, phrases) == phrase_score_of(text, phrases.last()) {
                assert(phrases[phrases.len() - 1] == phrases.last());
            } else {
                let i = choose|i: int| 0 <= i < rest.len() && max_score_of(text, rest) == #[trigger] phrase_score_of(text, rest[i]);
                assert(rest[i] == phrases[i]);
            }
        }
    }
}

/// A sentence is predicted delta, and highlighted, only when one of the
/// reader's interests scores at least 11/20 against it and none of the
/// topics the reader is not interested in scores 3/5 or more.
pub proof fn lemma_delta_prediction_needs_interest(r: FixturePrediction, text: Seq<char>, b: ProductBaseline)
    requires
        is_prediction(r, text, b),
        r.priority == Priority::Delta,
    ensures
        r.directive == ReaderDirective::Highlight,
        !r.gate_decision.demoted_by_familiar_claim,
        exists|i: int|
            0 <= i < b.interests@.len() && at_least(#[trigger] phrase_score_of(text, b.interests@[i]@), 11, 20),
        forall|i: int|
            0 <= i < b.explicit_not_interested_topics@.len() ==> !at_least(
                #[trigger] phrase_score_of(text, b.explicit_not_interested_topics@[i]@),
                3,
                5,
            ),
{
    let interests = string_views(b.interests@);
    let interest = max_score_of(text, interests);
    lemma_max_score_attained(text, interests);
    let i = choose|i: int| 0 <= i < interests.len() && interest == #[trigger] phrase_score_of(text, interests[i]);
    assert(interests[i] == b.interests@[i]@);
    assert(at_least(phrase_score_of(text, b.interests@[i]@), 11, 20));
    assert forall|i: int|
        0 <= i < b.explicit_not_interested_topics@.len() implies !at_least(
            #[trigger] phrase_score_of(text, b.explicit_not_interested_topics@[i]@),
            3,
            5,
        ) by {
        if at_least(phrase_score_of(text, b.explicit_not_interested_topics@[i]@), 3, 5) {
            lemma_not_interested_topic_wins(r, text, b, i);
        }
    }
}

/// The deterministic prediction for one sentence against the baseline.
pub fn predict_candidate(text: &str, baseline: &ProductBaseline) -> (r: FixturePrediction)
    ensures
        is_prediction(r, text@, *baseline),
{
    let excluded = maximum_phrase_score(text, baseline.explicit_not_interested_topics.as_slice());
    let familiar_claim = maximum_phrase_score(text, baseline.familiar_claims.as_slice());
    let known = maximum_phrase_score(text, baseline.known_concepts.as_slice());
    let interest = maximum_phrase_score(text, baseline.interests.as_slice());
    let signals = BaselineOverlapSignals {
        matched_known_concepts: matched_phrases(text, baseline.known_concepts.as_slice()),
        matched_familiar_claims: matched_phrases(text, baseline.familiar_claims.as_slice()),
        matched_interests: matched_phrases(text, baseline.interests.as_slice()),
    };
    let (priority, directive, confidence) = if score_at_least(excluded, 3, 5) {
        (Priority::Familiar, ReaderDirective::LeaveNormal, excluded)
    } else if score_at_least(interest, 11, 20) && score_at_least(known, 11, 20) {
        (Priority::Bridge, ReaderDirective::Callout, if score_below(known, interest) {
            known
        } else {
            interest
        })
    } else if score_at_least(interest, 11, 20) {
        (Priority::Delta, ReaderDirective::Highlight, interest)
    } else if score_at_least(familiar_claim, 3, 5) {
        (Priority::Familiar, ReaderDirective::SoftFade, familiar_claim)
    } else if score_at_least(known, 3, 5) {
        (Priority::Familiar, ReaderDirective::LeaveNormal, known)
    } else {
        let profile = to_lowercase(baseline.reader_profile.as_str());
        if contains_chars(chars_of(profile.as_str()).as_slice(), chars_of("beginner").as_slice()) {
            (Priority::Bridge, ReaderDirective::Callout, Score { hits: 1, total: 2 })
        } else {
            (Priority::Bridge, ReaderDirective::LeaveNormal, Score { hits: 1, total: 2 })
        }
    };
    let is_delta_highlight = priority == Priority::Delta && directive == ReaderDirective::Highlight;
    let gate_decision = evaluate_delta_eligibility(
        text,
        is_delta_highlight,
        BaselineEvidence {
            known_concepts: baseline.known_concepts.as_slice(),
            familiar_claims: baseline.familiar_claims.as_slice(),
            interests: baseline.interests.as_slice(),
        },
    );
    let demoted = gate_decision.demoted_by_familiar_claim;
    FixturePrediction {
        priority: if demoted {
            Priority::Familiar
        } else {
            priority
        },
        directive: if demoted {
            ReaderDirective::LeaveNormal
        } else {
            directive
        },
        confidence: Some(confidence),
        signals,
        gate_decision,
    }
}

/// A human label for one sentence.
#[derive(Clone, Debug)]
pub struct GoldLabel {
    pub sentence_id: String,
    pub expected_priority: Priority,
    pub expected_directive: ReaderDirective,
    pub reason: String,
}

/// The likely cause of a disagreement between a gold label and a
/// prediction.
pub open spec fn error_cause(label: GoldLabel, p: FixturePrediction) -> Seq<char> {
    if contains_seq(lowercase(label.reason@), "ambiguous"@) {
        "ambiguous_gold_label"@
    } else if p.signals.matched_familiar_claims@.len() > 0 {
        "familiar_claim_overlap"@
    } else if p.signals.matched_known_concepts@.len() > 0 {
        "known_concept_overlap"@
    } else if label.expected_priority == Priority::Bridge && p.priority == Priority::Delta {
        "bridge_misclassified_as_delta"@
    } else if label.expected_directive == ReaderDirective::LeaveNormal {
        "low_value_technical_sentence"@
    } else {
        "unknown"@
    }
}

pub fn likely_error_cause(label: &GoldLabel, prediction: &FixturePrediction) -> (r: &'static str)
    ensures
        r@ == error_cause(*label, *prediction),
{
    let reason = to_lowercase(label.reason.as_str());
    if contains_chars(chars_of(reason.as_str()).as_slice(), chars_of("ambiguous").as_slice()) {
        "ambiguous_gold_label"
    } else if prediction.signals.matched_familiar_claims.len() > 0 {
        "familiar_claim_overlap"
    } else if prediction.signals.matched_known_concepts.len() > 0 {
        "known_concept_overlap"
    } else if label.expected_priority == Priority::Bridge && prediction.priority == Priority::Delta {
        "bridge_misclassified_as_delta"
    } else if label.expected_directive == ReaderDirective::LeaveNormal {
        "low_value_technical_sentence"
    } else {
        "unknown"
    }
}

// ---------------------------------------------------------------------------
// Gold labels
// ---------------------------------------------------------------------------

/// Why a set of gold labels is refused.
#[derive(Debug)]
pub enum GoldError {
    /// A label names no candidate.
    UnknownSentence(String),
    /// A label targets a candidate that is not a body sentence.
    NotBodySentence(String, CandidateKind),
    /// Two labels name the same sentence.
    RepeatedSentence(String),
    /// A body sentence has no label.
    OmittedBodySentence(String),
}

/// What is wrong with one label, found in this order.
#[derive(Clone, Copy, Debug, PartialEq, Eq, Structural)]
pub enum LabelFault {
    Unknown,
    NotBody,
    Repeated,
}

/// The fault of label `l`, if any: its sentence is unknown, not a body
/// sentence, or labelled before.
pub open spec fn label_fault(gold: Seq<GoldLabel>, cands: Seq<CanonicalReadingUnit>, l: int) -> Option<LabelFault> {
    let id = gold[l].sentence_id@;
    match crate::annotation::last_with_id(cands, id) {
        None => Some(LabelFault::Unknown),
        Some(c) => if cands[c].candidate_kind != CandidateKind::BodySentence {
            Some(LabelFault::NotBody)
        } else if exists|m: int| 0 <= m < l && gold[m].sentence_id@ == id {
            Some(LabelFault::Repeated)
        } else {
            None
        },
    }
}

/// The first faulty label among the first `n`, with its fault.
pub open spec fn first_label_fault(gold: Seq<GoldLabel>, cands: Seq<CanonicalReadingUnit>, n: int) -> Option<(int, LabelFault)>
    decreases n,
{
    if n <= 0 {
        None
    } else {
        match first_label_fault(gold, cands, n - 1) {
            Some(f) => Some(f),
            None => match label_fault(gold, cands, n - 1) {
                Some(f) => Some((n - 1, f)),
                None => None,
            },
        }
    }
}

/// Whether some label names `id`.
pub open spec fn labelled(gold: Seq<GoldLabel>, id: Seq<char>) -> bool {
    exists|m: int| 0 <= m < gold.len() && gold[m].sentence_id@ == id
}

/// The first of the first `n` candidates that is a body sentence without a
/// label.
pub open spec fn first_omitted(gold: Seq<GoldLabel>, cands: Seq<CanonicalReadingUnit>, n: int) -> Option<int>
    decreases n,
{
    if n <= 0 {
        None
    } else {
        match first_omitted(gold, cands, n - 1) {
            Some(c) => Some(c),
            None => if cands[n - 1].candidate_kind == CandidateKind::BodySentence && !labelled(
                gold,
                cands[n - 1].sentence_id@,
            ) {
                Some(n - 1)
            } else {
                None
            },
        }
    }
}

/// Whether `id` is the id of label `l`, held in a string.
fn label_id_seen(gold: &[GoldLabel], l: usize) -> (r: bool)
    requires
        l < gold@.len(),
    ensures
        r == exists|m: int| 0 <= m < l && gold@[m].sentence_id@ == gold@[l as int].sentence_id@,
{
    let id = chars_of(gold[l].sentence_id.as_str());
    let mut m: usize = 0;
    while m < l
        invariant
            m <= l < gold@.len(),
            id@ == gold@[l as int].sentence_id@,
            forall|k: int| 0 <= k < m ==> gold@[k].sentence_id@ != gold@[l as int].sentence_id@,
        decreases l - m,
    {
        if crate::text::chars_eq(chars_of(gold[m].sentence_id.as_str()).as_slice(), id.as_slice()) {
            return true;
        }
        m = m + 1;
    }
    false
}

/// Checks that the gold labels name known body sentences, each once, and
/// that every body sentence has a label.
pub fn validate_gold(gold: &[GoldLabel], candidates: &[CanonicalReadingUnit]) -> (r: Result<(), GoldError>)
    ensures
        match first_label_fault(gold@, candidates@, gold@.len() as int) {
            Some((l, LabelFault::Unknown)) => r matches Err(GoldError::UnknownSentence(id)) && id@
                == gold@[l].sentence_id@,
            Some((l, LabelFault::NotBody)) => r matches Err(GoldError::NotBodySentence(id, k)) && id@
                == gold@[l].sentence_id@ && k == candidates@[crate::annotation::last_with_id(
                candidates@,
                gold@[l].sentence_id@,
            )->0].candidate_kind,
            Some((l, LabelFault::Repeated)) => r matches Err(GoldError::RepeatedSentence(id)) && id@
                == gold@[l].sentence_id@,
            None => match first_omitted(gold@, candidates@, candidates@.len() as int) {
                Some(c) => r matches Err(GoldError::OmittedBodySentence(id)) && id@
                    == candidates@[c].sentence_id@,
                None => r is Ok,
            },
        },
{
    let mut l: usize = 0;
    while l < gold.len()
        invariant
            l <= gold@.len(),
            first_label_fault(gold@, candidates@, l as int) is None,
        decreases gold@.len() - l,
    {
        let n_candidates = candidates.len();
        let label_id = gold[l].sentence_id.as_str();
        assert(label_id@ == gold@[l as int].sentence_id@);
        let found = crate::annotation::find_last_candidate(candidates, label_id);
        let ghost fault = label_fault(gold@, candidates@, l as int);
        match found {
            None => {
                assert(first_label_fault(gold@, candidates@, l + 1) == Some((l as int, LabelFault::Unknown)));
                proof {
                    lemma_first_fault_stays(gold@, candidates@, l + 1);
                }
                return Err(GoldError::UnknownSentence(gold[l].sentence_id.clone()));
            },
            Some(c) => {
                proof {
                    crate::annotation::lemma_last_with_id(candidates@, gold@[l as int].sentence_id@);
                    match crate::annotation::last_with_id(candidates@, label_id@) {
                        Some(i) => {
                            assert(0 <= i < candidates@.len());
                            assert(i as usize == c);
                            assert(i == c as int);
                        },
                        None => {
                            assert(false);
                        },
                    }
                }
                assert(crate::annotation::last_with_id(candidates@, gold@[l as int].sentence_id@) == Some(c as int));
                if candidates[c].candidate_kind != CandidateKind::BodySentence {
                    assert(first_label_fault(gold@, candidates@, l + 1) == Some((l as int, LabelFault::NotBody)));
                    proof {
                        lemma_first_fault_stays(gold@, candidates@, l + 1);
                    }
                    return Err(GoldError::NotBodySentence(gold[l].sentence_id.clone(), candidates[c].candidate_kind));
                }
                if label_id_seen(gold, l) {
                    assert(first_label_fault(gold@, candidates@, l + 1) == Some((l as int, LabelFault::Repeated)));
                    proof {
                        lemma_first_fault_stays(gold@, candidates@, l + 1);
                    }
                    return Err(GoldError::RepeatedSentence(gold[l].sentence_id.clone()));
                }
            },
        }
        l = l + 1;
    }
    let mut c: usize = 0;
    while c < candidates.len()
        invariant
            c <= candidates@.len(),
            l == gold@.len(),
            first_label_fault(gold@, candidates@, gold@.len() as int) is None,
            first_omitted(gold@, candidates@, c as int) is None,
        decreases candidates@.len() - c,
    {
        if candidates[c].candidate_kind == CandidateKind::BodySentence {
            let id = chars_of(candidates[c].sentence_id.as_str());
            let mut m: usize = 0;
            let mut hit = false;
            while m < gold.len() && !hit
                invariant
                    m <= gold@.len(),
                    c < candidates@.len(),
                    id@ == candidates@[c as int].sentence_id@,
                    hit ==> labelled(gold@, candidates@[c as int].sentence_id@),
                    !hit ==> forall|k: int| 0 <= k < m ==> gold@[k].sentence_id@ != candidates@[c as int].sentence_id@,
                decreases gold@.len() - m,
            {
                if crate::text::chars_eq(chars_of(gold[m].sentence_id.as_str()).as_slice(), id.as_slice()) {
                    hit = true;
                }
                m = m + 1;
            }
            if !hit {
                assert(first_omitted(gold@, candidates@, c + 1) == Some(c as int));
                proof {
                    lemma_first_omitted_stays(gold@, candidates@, c + 1);
                }
                return Err(GoldError::OmittedBodySentence(candidates[c].sentence_id.clone()));
            }
        }
        c = c + 1;
    }
    Ok(())
}

proof fn lemma_first_fault_stays(gold: Seq<GoldLabel>, cands: Seq<CanonicalReadingUnit>, n: int)
    requires
        0 <= n <= gold.len(),
        first_label_fault(gold, cands, n) is Some,
    ensures
        first_label_fault(gold, cands, gold.len() as int) == first_label_fault(gold, cands, n),
    decreases gold.len() - n,
{
    if n < gold.len() {
        assert(first_label_fault(gold, cands, n + 1) == first_label_fault(gold, cands, n));
        lemma_first_fault_stays(gold, cands, n + 1);
    }
}

proof fn lemma_first_omitted_stays(gold: Seq<GoldLabel>, cands: Seq<CanonicalReadingUnit>, n: int)
    requires
        0 <= n <= cands.len(),
        first_omitted(gold, cands, n) is Some,
    ensures
        first_omitted(gold, cands, cands.len() as int) == first_omitted(gold, cands, n),
    decreases cands.len() - n,
{
    if n < cands.len() {
        assert(first_omitted(gold, cands, n + 1) == first_omitted(gold, cands, n));
        lemma_first_omitted_stays(gold, cands, n + 1);
    }
}

// ---------------------------------------------------------------------------
// Fixture analysis and its counts
// ---------------------------------------------------------------------------

/// Positions of the body-sentence candidates.
pub open spec fn body_positions(cands: Seq<CanonicalReadingUnit>) -> Seq<int> {
    crate::provider::positions(cands.map_values(|c: CanonicalReadingUnit| crate::provider::is_body(c)))
}

/// The prediction for every body sentence, with its sentence id, in
/// document order.
pub fn analyze_fixture(candidates: &[CanonicalReadingUnit], baseline: &ProductBaseline) -> (r: Vec<(String, FixturePrediction)>)
    ensures
        r@.len() == body_positions(candidates@).len(),
        forall|t: int|
            0 <= t < r@.len() ==> (#[trigger] r@[t]).0@ == candidates@[body_positions(candidates@)[t]].sentence_id@
                && is_prediction(r@[t].1, candidates@[body_positions(candidates@)[t]].normalized_text@, *baseline),
{
    let targets = crate::provider::canonical_targets(candidates);
    let ghost pos = body_positions(candidates@);
    assert(targets@.map_values(|x: usize| x as int) == pos);
    let mut r: Vec<(String, FixturePrediction)> = Vec::new();
    let mut t: usize = 0;
    while t < targets.len()
        invariant
            t <= targets@.len(),
            pos == body_positions(candidates@),
            targets@.map_values(|x: usize| x as int) == pos,
            forall|k: int| 0 <= k < targets@.len() ==> #[trigger] targets@[k] < candidates@.len(),
            r@.len() == t,
            forall|q: int|
                0 <= q < t ==> (#[trigger] r@[q]).0@ == candidates@[pos[q]].sentence_id@ && is_prediction(
                    r@[q].1,
                    candidates@[pos[q]].normalized_text@,
                    *baseline,
                ),
        decreases targets@.len() - t,
    {
        let c = &candidates[targets[t]];
        assert(pos[t as int] == targets@[t as int] as int);
        let prediction = predict_candidate(c.normalized_text.as_str(), baseline);
        r.push((c.sentence_id.clone(), prediction));
        t = t + 1;
    }
    r
}

/// Position of the last prediction for sentence `id` (later predictions for
/// the same sentence replace earlier ones).
pub open spec fn last_prediction(preds: Seq<(String, FixturePrediction)>, id: Seq<char>) -> Option<int>
    decreases preds.len(),
{
    if preds.len() == 0 {
        None
    } else if preds.last().0@ == id {
        Some(preds.len() - 1)
    } else {
        last_prediction(preds.drop_last(), id)
    }
}

proof fn lemma_last_prediction(preds: Seq<(String, FixturePrediction)>, id: Seq<char>)
    ensures
        match last_prediction(preds, id) {
            Some(i) => 0 <= i < preds.len() && preds[i].0@ == id && forall|k: int|
                i < k < preds.len() ==> preds[k].0@ != id,
            None => forall|k: int| 0 <= k < preds.len() ==> preds[k].0@ != id,
        },
    decreases preds.len(),
{
    if preds.len() > 0 {
        lemma_last_prediction(preds.drop_last(), id);
        assert forall|k: int| 0 <= k < preds.len() - 1 implies preds.drop_last()[k] == preds[k] by {}
    }
}

fn find_last_prediction(preds: &Vec<(String, FixturePrediction)>, id: &str) -> (r: Option<usize>)
    ensures
        match last_prediction(preds@, id@) {
            Some(i) => r == Some(i as usize),
            None => r is None,
        },
        r matches Some(i) ==> i < preds@.len(),
{
    proof {
        lemma_last_prediction(preds@, id@);
    }
    let idc = chars_of(id);
    let mut i = preds.len();
    while i > 0
        invariant
            i <= preds@.len(),
            idc@ == id@,
            forall|k: int| i <= k < preds@.len() ==> preds@[k].0@ != id@,
        decreases i,
    {
        if crate::text::chars_eq(chars_of(preds[i - 1].0.as_str()).as_slice(), idc.as_slice()) {
            proof {
                lemma_last_prediction(preds@, id@);
                match last_prediction(preds@, id@) {
                    Some(m) => {
                        if m > i - 1 {
                            assert(preds@[m].0@ != id@);
                        }
                        if m < i - 1 {
                            assert(preds@[i - 1].0@ != id@);
                        }
                    },
                    None => {
                        assert(preds@[i - 1].0@ != id@);
                    },
                }
            }
            return Some(i - 1);
        }
        i = i - 1;
    }
    None
}

/// The gold labels that have a prediction, each with that prediction, in
/// label order.
pub open spec fn labeled(gold: Seq<GoldLabel>, preds: Seq<(String, FixturePrediction)>) -> Seq<(GoldLabel, FixturePrediction)>
    decreases gold.len(),
{
    if gold.len() == 0 {
        Seq::empty()
    } else {
        let prev = labeled(gold.drop_last(), preds);
        match last_prediction(preds, gold.last().sentence_id@) {
            Some(i) => prev.push((gold.last(), preds[i].1)),
            None => prev,
        }
    }
}

/// How many pairs satisfy `f`.
pub open spec fn count_pairs(pairs: Seq<(GoldLabel, FixturePrediction)>, f: spec_fn(GoldLabel, FixturePrediction) -> bool) -> nat
    decreases pairs.len(),
{
    if pairs.len() == 0 {
        0
    } else {
        count_pairs(pairs.drop_last(), f) + if f(pairs.last().0, pairs.last().1) {
            1nat
        } else {
            0nat
        }
    }
}

/// How many predictions, one per sentence (the last for each), satisfy `f`.
pub open spec fn count_predictions(preds: Seq<(String, FixturePrediction)>, n: int, f: spec_fn(FixturePrediction) -> bool) -> nat
    decreases n,
{
    if n <= 0 {
        0
    } else {
        count_predictions(preds, n - 1, f) + if f(preds[n - 1].1) && last_prediction(
            preds,
            preds[n - 1].0@,
        ) == Some(n - 1) {
            1nat
        } else {
            0nat
        }
    }
}

/// The counts that the evaluation metrics are computed from.
#[derive(Clone, Debug)]
pub struct EvaluationCounts {
    pub scored: usize,
    pub expected_delta: usize,
    pub predicted_delta: usize,
    pub true_delta: usize,
    pub false_positive_delta_count: usize,
    pub false_negative_delta_count: usize,
    pub expected_familiar: usize,
    pub suppressed_familiar: usize,
    pub known_as_delta: usize,
    pub familiar_highlight_count: usize,
    pub predicted_bridge: usize,
    pub true_bridge: usize,
    pub over_annotated: usize,
    pub visible: usize,
    pub highlights: usize,
    pub callouts: usize,
    pub soft_fades: usize,
}

pub open spec fn expects_delta(l: GoldLabel, p: FixturePrediction) -> bool {
    l.expected_priority == Priority::Delta
}

pub open spec fn predicts_delta(l: GoldLabel, p: FixturePrediction) -> bool {
    p.priority == Priority::Delta
}

pub open spec fn is_true_delta(l: GoldLabel, p: FixturePrediction) -> bool {
    l.expected_priority == Priority::Delta && p.priority == Priority::Delta
}

pub open spec fn is_false_positive_delta(l: GoldLabel, p: FixturePrediction) -> bool {
    l.expected_priority != Priority::Delta && p.priority == Priority::Delta
}

pub open spec fn is_false_negative_delta(l: GoldLabel, p: FixturePrediction) -> bool {
    l.expected_priority == Priority::Delta && p.priority != Priority::Delta
}

pub open spec fn expects_familiar(l: GoldLabel, p: FixturePrediction) -> bool {
    l.expected_priority == Priority::Familiar
}

pub open spec fn suppresses_familiar(l: GoldLabel, p: FixturePrediction) -> bool {
    l.expected_priority == Priority::Familiar && (p.directive == ReaderDirective::SoftFade
        || p.directive == ReaderDirective::LeaveNormal)
}

pub open spec fn is_known_as_delta(l: GoldLabel, p: FixturePrediction) -> bool {
    l.expected_priority == Priority::Familiar && p.priority == Priority::Delta
}

pub open spec fn is_familiar_highlight(l: GoldLabel, p: FixturePrediction) -> bool {
    l.expected_priority == Priority::Familiar && p.directive == ReaderDirective::Highlight
}

pub open spec fn predicts_bridge(l: GoldLabel, p: FixturePrediction) -> bool {
    p.priority == Priority::Bridge
}

pub open spec fn is_true_bridge(l: GoldLabel, p: FixturePrediction) -> bool {
    l.expected_priority == Priority::Bridge && p.priority == Priority::Bridge
}

pub open spec fn is_over_annotated(l: GoldLabel, p: FixturePrediction) -> bool {
    l.expected_directive == ReaderDirective::LeaveNormal && p.directive != ReaderDirective::LeaveNormal
}

/// Whether `c` holds the counts of the labeled predictions and of the
/// predictions' directives.
pub open spec fn are_counts(c: EvaluationCounts, gold: Seq<GoldLabel>, preds: Seq<(String, FixturePrediction)>) -> bool {
    let n = preds.len() as int;
    &&& are_label_counts(c, labeled(gold, preds))
    &&& c.visible == count_predictions(preds, n, |p: FixturePrediction| p.directive != ReaderDirective::LeaveNormal)
    &&& c.highlights == count_predictions(preds, n, |p: FixturePrediction| p.directive == ReaderDirective::Highlight)
    &&& c.callouts == count_predictions(preds, n, |p: FixturePrediction| p.directive == ReaderDirective::Callout)
    &&& c.soft_fades == count_predictions(preds, n, |p: FixturePrediction| p.directive == ReaderDirective::SoftFade)
}

/// Whether `c` holds the counts of the labeled predictions `pairs`.
pub open spec fn are_label_counts(c: EvaluationCounts, pairs: Seq<(GoldLabel, FixturePrediction)>) -> bool {
    &&& c.scored == pairs.len()
    &&& c.expected_delta == count_pairs(pairs, |l: GoldLabel, p: FixturePrediction| expects_delta(l, p))
    &&& c.predicted_delta == count_pairs(pairs, |l: GoldLabel, p: FixturePrediction| predicts_delta(l, p))
    &&& c.true_delta == count_pairs(pairs, |l: GoldLabel, p: FixturePrediction| is_true_delta(l, p))
    &&& c.false_positive_delta_count == count_pairs(pairs, |l: GoldLabel, p: FixturePrediction| is_false_positive_delta(l, p))
    &&& c.false_negative_delta_count == count_pairs(pairs, |l: GoldLabel, p: FixturePrediction| is_false_negative_delta(l, p))
    &&& c.expected_familiar == count_pairs(pairs, |l: GoldLabel, p: FixturePrediction| expects_familiar(l, p))
    &&& c.suppressed_familiar == count_pairs(pairs, |l: GoldLabel, p: FixturePrediction| suppresses_familiar(l, p))
    &&& c.known_as_delta == count_pairs(pairs, |l: GoldLabel, p: FixturePrediction| is_known_as_delta(l, p))
    &&& c.familiar_highlight_count == count_pairs(pairs, |l: GoldLabel, p: FixturePrediction| is_familiar_highlight(l, p))
    &&& c.predicted_bridge == count_pairs(pairs, |l: GoldLabel, p: FixturePrediction| predicts_bridge(l, p))
    &&& c.true_bridge == count_pairs(pairs, |l: GoldLabel, p: FixturePrediction| is_true_bridge(l, p))
    &&& c.over_annotated == count_pairs(pairs, |l: GoldLabel, p: FixturePrediction| is_over_annotated(l, p))
}

/// When `all` holds of exactly the pairs of which one of two exclusive
/// predicates holds, its count is the sum of their counts.
pub proof fn lemma_count_pairs_split(
    pairs: Seq<(GoldLabel, FixturePrediction)>,
    all: spec_fn(GoldLabel, FixturePrediction) -> bool,
    a: spec_fn(GoldLabel, FixturePrediction) -> bool,
    b: spec_fn(GoldLabel, FixturePrediction) -> bool,
)
    requires
        forall|l: GoldLabel, p: FixturePrediction| #[trigger] all(l, p) == (a(l, p) || b(l, p)),
        forall|l: GoldLabel, p: FixturePrediction| !(#[trigger] a(l, p) && b(l, p)),
    ensures
        count_pairs(pairs, all) == count_pairs(pairs, a) + count_pairs(pairs, b),
    decreases pairs.len(),
{
    if pairs.len() > 0 {
        lemma_count_pairs_split(pairs.drop_last(), all, a, b);
        let (l, p) = pairs.last();
        assert(all(l, p) == (a(l, p) || b(l, p)));
        assert(!(a(l, p) && b(l, p)));
    }
}

/// Every labeled sentence that is expected to be familiar is counted once:
/// as suppressed when its prediction is soft-faded or left normal, as a
/// familiar highlight when it is highlighted, or among those given a
/// callout.
pub proof fn lemma_familiar_counts_partition(
    c: EvaluationCounts,
    gold: Seq<GoldLabel>,
    preds: Seq<(String, FixturePrediction)>,
)
    requires
        are_counts(c, gold, preds),
    ensures
        c.expected_familiar == c.suppressed_familiar + c.familiar_highlight_count + count_pairs(
            labeled(gold, preds),
            |l: GoldLabel, p: FixturePrediction|
                l.expected_priority == Priority::Familiar && p.directive == ReaderDirective::Callout,
        ),
{
    let pairs = labeled(gold, preds);
    let callout = |l: GoldLabel, p: FixturePrediction|
        l.expected_priority == Priority::Familiar && p.directive == ReaderDirective::Callout;
    let shown = |l: GoldLabel, p: FixturePrediction| is_familiar_highlight(l, p) || callout(l, p);
    lemma_count_pairs_split(
        pairs,
        |l: GoldLabel, p: FixturePrediction| expects_familiar(l, p),
        |l: GoldLabel, p: FixturePrediction| suppresses_familiar(l, p),
        shown,
    );
    lemma_count_pairs_split(
        pairs,
        shown,
        |l: GoldLabel, p: FixturePrediction| is_familiar_highlight(l, p),
        callout,
    );
}

/// The labeled sentences expected to be delta are the true deltas and the
/// false negatives; those predicted delta are the true deltas and the false
/// positives.
pub proof fn lemma_delta_counts_partition(
    c: EvaluationCounts,
    gold: Seq<GoldLabel>,
    preds: Seq<(String, FixturePrediction)>,
)
    requires
        are_counts(c, gold, preds),
    ensures
        c.expected_delta == c.true_delta + c.false_negative_delta_count,
        c.predicted_delta == c.true_delta + c.false_positive_delta_count,
        c.true_delta <= c.expected_delta <= c.scored,
        c.true_delta <= c.predicted_delta <= c.scored,
{
    let pairs = labeled(gold, preds);
    let everything = |l: GoldLabel, p: FixturePrediction| true;
    lemma_count_pairs_split(
        pairs,
        |l: GoldLabel, p: FixturePrediction| expects_delta(l, p),
        |l: GoldLabel, p: FixturePrediction| is_true_delta(l, p),
        |l: GoldLabel, p: FixturePrediction| is_false_negative_delta(l, p),
    );
    lemma_count_pairs_split(
        pairs,
        |l: GoldLabel, p: FixturePrediction| predicts_delta(l, p),
        |l: GoldLabel, p: FixturePrediction| is_true_delta(l, p),
        |l: GoldLabel, p: FixturePrediction| is_false_positive_delta(l, p),
    );
    lemma_count_pairs_split(
        pairs,
        everything,
        |l: GoldLabel, p: FixturePrediction| expects_delta(l, p),
        |l: GoldLabel, p: FixturePrediction| !expects_delta(l, p),
    );
    lemma_count_pairs_split(
        pairs,
        everything,
        |l: GoldLabel, p: FixturePrediction| predicts_delta(l, p),
        |l: GoldLabel, p: FixturePrediction| !predicts_delta(l, p),
    );
    lemma_count_pairs_all(pairs);
}

/// Counting pairs with a predicate that always holds counts every pair.
pub proof fn lemma_count_pairs_all(pairs: Seq<(GoldLabel, FixturePrediction)>)
    ensures
        count_pairs(pairs, |l: GoldLabel, p: FixturePrediction| true) == pairs.len(),
    decreases pairs.len(),
{
    if pairs.len() > 0 {
        lemma_count_pairs_all(pairs.drop_last());
    }
}

fn bump(n: usize, b: bool, bound: usize) -> (r: usize)
    requires
        n < bound,
    ensures
        r == n + if b { 1int } else { 0int },
{
    if b {
        n + 1
    } else {
        n
    }
}

/// Counts the labeled predictions by expected and predicted role, and the
/// predictions by directive.
pub fn evaluation_counts(gold: &[GoldLabel], predictions: &Vec<(String, FixturePrediction)>) -> (r: EvaluationCounts)
    ensures
        are_counts(r, gold@, predictions@),
{
    let ghost preds = predictions@;
    let mut c = EvaluationCounts {
        scored: 0,
        expected_delta: 0,
        predicted_delta: 0,
        true_delta: 0,
        false_positive_delta_count: 0,
        false_negative_delta_count: 0,
        expected_familiar: 0,
        suppressed_familiar: 0,
        known_as_delta: 0,
        familiar_highlight_count: 0,
        predicted_bridge: 0,
        true_bridge: 0,
        over_annotated: 0,
        visible: 0,
        highlights: 0,
        callouts: 0,
        soft_fades: 0,
    };
    let mut l: usize = 0;
    while l < gold.len()
        invariant
            l <= gold@.len(),
            preds == predictions@,
            c.scored <= l,
            are_label_counts(c, labeled(gold@.take(l as int), preds)),
            c.expected_delta <= c.scored && c.predicted_delta <= c.scored && c.true_delta <= c.scored
                && c.false_positive_delta_count <= c.scored && c.false_negative_delta_count <= c.scored
                && c.expected_familiar <= c.scored && c.suppressed_familiar <= c.scored
                && c.known_as_delta <= c.scored && c.familiar_highlight_count <= c.scored
                && c.predicted_bridge <= c.scored && c.true_bridge <= c.scored && c.over_annotated
                <= c.scored,
            c.visible == 0 && c.highlights == 0 && c.callouts == 0 && c.soft_fades == 0,
        decreases gold@.len() - l,
    {
        assert(gold@.take(l + 1).drop_last() =~= gold@.take(l as int));
        assert(gold@.take(l + 1).last() == gold@[l as int]);
        let label = &gold[l];
        let label_id = label.sentence_id.as_str();
        match find_last_prediction(predictions, label_id) {
            Some(i) => {
                let np = predictions.len();
                proof {
                    lemma_last_prediction(preds, label_id@);
                    assert(predictions@.len() == np);
                    match last_prediction(preds, label_id@) {
                        Some(m) => {
                            assert(0 <= m < preds.len());
                            assert(m as usize == i);
                            assert(m == i as int);
                        },
                        None => {},
                    }
                    let prev = labeled(gold@.take(l as int), preds);
                    assert(label_id@ == gold@[l as int].sentence_id@);
                    assert(labeled(gold@.take(l + 1), preds) == prev.push((gold@[l as int], preds[i as int].1)));
                    assert(prev.push((gold@[l as int], preds[i as int].1)).drop_last() =~= prev);
                }
                let p = &predictions[i].1;
                let ep = label.expected_priority;
                let ed = label.expected_directive;
                let pp = p.priority;
                let pd = p.directive;
                c.expected_delta = bump(c.expected_delta, ep == Priority::Delta, usize::MAX);
                c.predicted_delta = bump(c.predicted_delta, pp == Priority::Delta, usize::MAX);
                c.true_delta = bump(c.true_delta, ep == Priority::Delta && pp == Priority::Delta, usize::MAX);
                c.false_positive_delta_count = bump(c.false_positive_delta_count, ep != Priority::Delta && pp == Priority::Delta, usize::MAX);
                c.false_negative_delta_count = bump(c.false_negative_delta_count, ep == Priority::Delta && pp != Priority::Delta, usize::MAX);
                c.expected_familiar = bump(c.expected_familiar, ep == Priority::Familiar, usize::MAX);
                c.suppressed_familiar = bump(c.suppressed_familiar, ep == Priority::Familiar && (pd == ReaderDirective::SoftFade || pd == ReaderDirective::LeaveNormal), usize::MAX);
                c.known_as_delta = bump(c.known_as_delta, ep == Priority::Familiar && pp == Priority::Delta, usize::MAX);
                c.familiar_highlight_count = bump(c.familiar_highlight_count, ep == Priority::Familiar && pd == ReaderDirective::Highlight, usize::MAX);
                c.predicted_bridge = bump(c.predicted_bridge, pp == Priority::Bridge, usize::MAX);
                c.true_bridge = bump(c.true_bridge, ep == Priority::Bridge && pp == Priority::Bridge, usize::MAX);
                c.over_annotated = bump(c.over_annotated, ed == ReaderDirective::LeaveNormal && pd != ReaderDirective::LeaveNormal, usize::MAX);
                c.scored = c.scored + 1;
            },
            None => {
                proof {
                    assert(label_id@ == gold@[l as int].sentence_id@);
                    assert(labeled(gold@.take(l + 1), preds) == labeled(gold@.take(l as int), preds));
                }
            },
        }
        l = l + 1;
    }
    assert(gold@.take(l as int) =~= gold@);
    let mut t: usize = 0;
    while t < predictions.len()
        invariant
            t <= predictions@.len(),
            preds == predictions@,
            are_label_counts(c, labeled(gold@, preds)),
            c.visible == count_predictions(preds, t as int, |p: FixturePrediction| p.directive != ReaderDirective::LeaveNormal),
            c.highlights == count_predictions(preds, t as int, |p: FixturePrediction| p.directive == ReaderDirective::Highlight),
            c.callouts == count_predictions(preds, t as int, |p: FixturePrediction| p.directive == ReaderDirective::Callout),
            c.soft_fades == count_predictions(preds, t as int, |p: FixturePrediction| p.directive == ReaderDirective::SoftFade),
            c.visible <= t && c.highlights <= t && c.callouts <= t && c.soft_fades <= t,
        decreases predictions@.len() - t,
    {
        let last = match find_last_prediction(predictions, predictions[t].0.as_str()) {
            Some(i) => i == t,
            None => false,
        };
        proof {
            lemma_last_prediction(preds, preds[t as int].0@);
        }
        let d = predictions[t].1.directive;
        c.visible = bump(c.visible, last && d != ReaderDirective::LeaveNormal, usize::MAX);
        c.highlights = bump(c.highlights, last && d == ReaderDirective::Highlight, usize::MAX);
        c.callouts = bump(c.callouts, last && d == ReaderDirective::Callout, usize::MAX);
        c.soft_fades = bump(c.soft_fades, last && d == ReaderDirective::SoftFade, usize::MAX);
        t = t + 1;
    }
    c
}

// ---------------------------------------------------------------------------
// Error report groups
// ---------------------------------------------------------------------------

pub open spec fn priority_label(p: Priority) -> Seq<char> {
    match p {
        Priority::Delta => "delta"@,
        Priority::Bridge => "bridge"@,
        Priority::Familiar => "familiar"@,
    }
}

pub open spec fn directive_label(d: ReaderDirective) -> Seq<char> {
    match d {
        ReaderDirective::Highlight => "highlight"@,
        ReaderDirective::SoftFade => "soft_fade"@,
        ReaderDirective::Callout => "callout"@,
        ReaderDirective::LeaveNormal => "leave_normal"@,
    }
}

pub open spec fn kind_label(k: CandidateKind) -> Seq<char> {
    match k {
        CandidateKind::BodySentence => "body_sentence"@,
        CandidateKind::Heading => "heading"@,
        CandidateKind::Metadata => "metadata"@,
        CandidateKind::Reference => "reference"@,
        CandidateKind::FormulaOrTable => "formula_or_table"@,
        CandidateKind::ShortFragment => "short_fragment"@,
        CandidateKind::Unknown => "unknown"@,
    }
}

pub fn priority_name(priority: Priority) -> (r: &'static str)
    ensures
        r@ == priority_label(priority),
{
    match priority {
        Priority::Delta => "delta",
        Priority::Bridge => "bridge",
        Priority::Familiar => "familiar",
    }
}

pub fn directive_name(directive: ReaderDirective) -> (r: &'static str)
    ensures
        r@ == directive_label(directive),
{
    match directive {
        ReaderDirective::Highlight => "highlight",
        ReaderDirective::SoftFade => "soft_fade",
        ReaderDirective::Callout => "callout",
        ReaderDirective::LeaveNormal => "leave_normal",
    }
}

pub fn candidate_kind_name(kind: CandidateKind) -> (r: &'static str)
    ensures
        r@ == kind_label(kind),
{
    match kind {
        CandidateKind::BodySentence => "body_sentence",
        CandidateKind::Heading => "heading",
        CandidateKind::Metadata => "metadata",
        CandidateKind::Reference => "reference",
        CandidateKind::FormulaOrTable => "formula_or_table",
        CandidateKind::ShortFragment => "short_fragment",
        CandidateKind::Unknown => "unknown",
    }
}

/// The error report sections that a labeled prediction belongs to.
#[derive(Clone, Debug)]
pub struct ErrorGroups {
    pub false_positive_delta: bool,
    pub false_negative_delta: bool,
    pub familiar_highlight: bool,
    pub bridge_confusion: bool,
    pub over_annotation: bool,
    pub delta_gate_affected: bool,
}

/// Sorts a labeled prediction into the error report sections: deltas
/// predicted but not expected and expected but not predicted, familiar
/// sentences highlighted, disagreements that involve a bridge, guidance
/// where none was expected, and sentences that the eligibility filter demoted or kept.
pub fn error_groups(label: &GoldLabel, prediction: &FixturePrediction) -> (r: ErrorGroups)
    ensures
        r.false_positive_delta == (prediction.priority == Priority::Delta && label.expected_priority
            != Priority::Delta),
        r.false_negative_delta == (label.expected_priority == Priority::Delta && prediction.priority
            != Priority::Delta),
        r.familiar_highlight == (label.expected_priority == Priority::Familiar && prediction.directive
            == ReaderDirective::Highlight),
        r.bridge_confusion == ((label.expected_priority == Priority::Bridge || prediction.priority
            == Priority::Bridge) && label.expected_priority != prediction.priority),
        r.over_annotation == (label.expected_directive == ReaderDirective::LeaveNormal
            && prediction.directive != ReaderDirective::LeaveNormal),
        r.delta_gate_affected == (prediction.gate_decision.demoted_by_familiar_claim
            || prediction.gate_decision.kept_due_to_novelty_cue),
{
    let ep = label.expected_priority;
    let pp = prediction.priority;
    ErrorGroups {
        false_positive_delta: pp == Priority::Delta && ep != Priority::Delta,
        false_negative_delta: ep == Priority::Delta && pp != Priority::Delta,
        familiar_highlight: ep == Priority::Familiar && prediction.directive == ReaderDirective::Highlight,
        bridge_confusion: (ep == Priority::Bridge || pp == Priority::Bridge) && ep != pp,
        over_annotation: label.expected_directive == ReaderDirective::LeaveNormal
            && prediction.directive != ReaderDirective::LeaveNormal,
        delta_gate_affected: prediction.gate_decision.demoted_by_familiar_claim
            || prediction.gate_decision.kept_due_to_novelty_cue,
    }
}


// ---------------------------------------------------------------------------
// Pairing labels, candidates and predictions for the report
// ---------------------------------------------------------------------------

/// Whether the prediction differs from the label in priority or directive.
pub fn mismatched(label: &GoldLabel, prediction: &FixturePrediction) -> (r: bool)
    ensures
        r == (label.expected_priority != prediction.priority || label.expected_directive
            != prediction.directive),
{
    label.expected_priority != prediction.priority || label.expected_directive != prediction.directive
}

/// The positions of the labels that have a prediction, each with the
/// position of that prediction, in label order.
pub open spec fn labeled_at(gold: Seq<GoldLabel>, preds: Seq<(String, FixturePrediction)>) -> Seq<(int, int)>
    decreases gold.len(),
{
    if gold.len() == 0 {
        Seq::empty()
    } else {
        let prev = labeled_at(gold.drop_last(), preds);
        match last_prediction(preds, gold.last().sentence_id@) {
            Some(i) => prev.push((gold.len() - 1, i)),
            None => prev,
        }
    }
}

pub open spec fn pair_views(r: Seq<(usize, usize)>) -> Seq<(int, int)> {
    r.map_values(|p: (usize, usize)| (p.0 as int, p.1 as int))
}

/// Each label that has a prediction, with that prediction, as positions.
pub fn labeled_pairs(gold: &[GoldLabel], predictions: &Vec<(String, FixturePrediction)>) -> (r: Vec<(usize, usize)>)
    ensures
        pair_views(r@) == labeled_at(gold@, predictions@),
{
    let mut r: Vec<(usize, usize)> = Vec::new();
    let mut l: usize = 0;
    while l < gold.len()
        invariant
            l <= gold@.len(),
            pair_views(r@) == labeled_at(gold@.take(l as int), predictions@),
        decreases gold@.len() - l,
    {
        let ghost next = gold@.take(l + 1);
        assert(next.drop_last() =~= gold@.take(l as int));
        assert(next.last() == gold@[l as int]);
        let ghost before = r@;
        let id_str = gold[l].sentence_id.as_str();
        assert(id_str@ == gold@[l as int].sentence_id@);
        let found = find_last_prediction(predictions, id_str);
        let _n = predictions.len();
        match found {
            Some(i) => {
                proof {
                    lemma_last_prediction(predictions@, gold@[l as int].sentence_id@);
                    let np = predictions@.len();
                    match last_prediction(predictions@, gold@[l as int].sentence_id@) {
                        Some(x) => {
                            assert(0 <= x < np);
                            assert(x == i as int);
                        },
                        None => {},
                    }
                }
                r.push((l, i));
                assert(pair_views(r@) =~= pair_views(before).push((l as int, i as int)));
            },
            None => {},
        }
        l = l + 1;
        assert(pair_views(r@) =~= labeled_at(gold@.take(l as int), predictions@));
    }
    assert(gold@.take(l as int) =~= gold@);
    r
}

/// Position of the last reading unit with sentence id `id`.
pub open spec fn last_unit(c: Seq<CanonicalReadingUnit>, id: Seq<char>) -> Option<int>
    decreases c.len(),
{
    if c.len() == 0 {
        None
    } else if c.last().sentence_id@ == id {
        Some(c.len() - 1)
    } else {
        last_unit(c.drop_last(), id)
    }
}

proof fn lemma_last_unit(c: Seq<CanonicalReadingUnit>, id: Seq<char>)
    ensures
        match last_unit(c, id) {
            Some(i) => 0 <= i < c.len() && c[i].sentence_id@ == id && forall|k: int|
                i < k < c.len() ==> c[k].sentence_id@ != id,
            None => forall|k: int| 0 <= k < c.len() ==> c[k].sentence_id@ != id,
        },
    decreases c.len(),
{
    if c.len() > 0 {
        lemma_last_unit(c.drop_last(), id);
        assert forall|k: int| 0 <= k < c.len() - 1 implies c.drop_last()[k] == c[k] by {}
    }
}

fn find_last_unit(c: &[CanonicalReadingUnit], id: &str) -> (r: Option<usize>)
    ensures
        match last_unit(c@, id@) {
            Some(i) => r == Some(i as usize),
            None => r is None,
        },
        r matches Some(i) ==> i < c@.len(),
{
    proof {
        lemma_last_unit(c@, id@);
    }
    let idc = chars_of(id);
    let mut i = c.len();
    while i > 0
        invariant
            i <= c@.len(),
            idc@ == id@,
            forall|k: int| i <= k < c@.len() ==> c@[k].sentence_id@ != id@,
        decreases i,
    {
        if crate::text::chars_eq(chars_of(c[i - 1].sentence_id.as_str()).as_slice(), idc.as_slice()) {
            proof {
                lemma_last_unit(c@, id@);
                match last_unit(c@, id@) {
                    Some(m) => {
                        if m > i - 1 {
                            assert(c@[m].sentence_id@ != id@);
                        }
                        if m < i - 1 {
                            assert(c@[i - 1].sentence_id@ != id@);
                        }
                    },
                    None => {
                        assert(c@[i - 1].sentence_id@ != id@);
                    },
                }
            }
            return Some(i - 1);
        }
        i = i - 1;
    }
    None
}

/// The positions of the labels whose sentence is a reading unit and has a
/// prediction, each with the positions of that unit and prediction, in
/// label order.
pub open spec fn detailed_at(
    gold: Seq<GoldLabel>,
    cands: Seq<CanonicalReadingUnit>,
    preds: Seq<(String, FixturePrediction)>,
) -> Seq<(int, int, int)>
    decreases gold.len(),
{
    if gold.len() == 0 {
        Seq::empty()
    } else {
        let prev = detailed_at(gold.drop_last(), cands, preds);
        let id = gold.last().sentence_id@;
        match (last_unit(cands, id), last_prediction(preds, id)) {
            (Some(c), Some(p)) => prev.push((gold.len() - 1, c, p)),
            _ => prev,
        }
    }
}

pub open spec fn triple_views(r: Seq<(usize, usize, usize)>) -> Seq<(int, int, int)> {
    r.map_values(|t: (usize, usize, usize)| (t.0 as int, t.1 as int, t.2 as int))
}

/// Each label whose sentence is a reading unit with a prediction, with
/// that unit and prediction, as positions: the entries of the error report.
pub fn detailed_labels(
    gold: &[GoldLabel],
    candidates: &[CanonicalReadingUnit],
    predictions: &Vec<(String, FixturePrediction)>,
) -> (r: Vec<(usize, usize, usize)>)
    ensures
        triple_views(r@) == detailed_at(gold@, candidates@, predictions@),
{
    let mut r: Vec<(usize, usize, usize)> = Vec::new();
    let mut l: usize = 0;
    while l < gold.len()
        invariant
            l <= gold@.len(),
            triple_views(r@) == detailed_at(gold@.take(l as int), candidates@, predictions@),
        decreases gold@.len() - l,
    {
        let ghost next = gold@.take(l + 1);
        let ghost id = gold@[l as int].sentence_id@;
        assert(next.drop_last() =~= gold@.take(l as int));
        assert(next.last() == gold@[l as int]);
        let ghost before = r@;
        let id_str = gold[l].sentence_id.as_str();
        assert(id_str@ == id);
        let unit = find_last_unit(candidates, id_str);
        let pred = find_last_prediction(predictions, id_str);
        let _n = predictions.len();
        let _m = candidates.len();
        proof {
            lemma_last_unit(candidates@, id);
            lemma_last_prediction(predictions@, id);
            let nc = candidates@.len();
            let np = predictions@.len();
            match last_unit(candidates@, id) {
                Some(x) => {
                    assert(0 <= x < nc);
                    assert(unit == Some(x as usize));
                },
                None => {},
            }
            match last_prediction(predictions@, id) {
                Some(x) => {
                    assert(0 <= x < np);
                    assert(pred == Some(x as usize));
                },
                None => {},
            }
        }
        assert(detailed_at(next, candidates@, predictions@) == match (last_unit(candidates@, id), last_prediction(predictions@, id)) {
            (Some(c), Some(p)) => detailed_at(gold@.take(l as int), candidates@, predictions@).push((l as int, c, p)),
            _ => detailed_at(gold@.take(l as int), candidates@, predictions@),
        });
        match (unit, pred) {
            (Some(c), Some(p)) => {
                r.push((l, c, p));
                assert(triple_views(r@) =~= triple_views(before).push((l as int, c as int, p as int)));
            },
            _ => {},
        }
        l = l + 1;
        assert(triple_views(r@) =~= detailed_at(gold@.take(l as int), candidates@, predictions@));
    }
    assert(gold@.take(l as int) =~= gold@);
    r
}

/// The counters of the eligibility filter over the first `n` predictions,
/// one per sentence (the last for each): checked, demoted, kept for a
/// novelty cue, interest without novelty, and checked with familiar overlap.
pub open spec fn decision_tally(preds: Seq<(String, FixturePrediction)>, n: int) -> (nat, nat, nat, nat, nat)
    decreases n,
{
    if n <= 0 {
        (0, 0, 0, 0, 0)
    } else {
        let p = decision_tally(preds, n - 1);
        let x = preds[n - 1].1.gate_decision;
        if last_prediction(preds, preds[n - 1].0@) == Some(n - 1) {
            (
                p.0 + if x.checked { 1nat } else { 0nat },
                p.1 + if x.demoted_by_familiar_claim { 1nat } else { 0nat },
                p.2 + if x.kept_due_to_novelty_cue { 1nat } else { 0nat },
                p.3 + if x.interest_overlap_without_novelty { 1nat } else { 0nat },
                p.4 + if x.checked && x.familiar_claim_overlap { 1nat } else { 0nat },
            )
        } else {
            p
        }
    }
}

/// The eligibility filter's counters over the predictions, one per
/// sentence (the last for each).
pub fn gate_diagnostics(predictions: &Vec<(String, FixturePrediction)>) -> (r: crate::delta_policy::DeltaEligibilityDiagnostics)
    ensures
        (
            r.delta_eligibility_checked as nat,
            r.delta_demoted_by_familiar_claim as nat,
            r.delta_kept_due_to_novelty_cue as nat,
            r.interest_overlap_without_novelty as nat,
            r.familiar_claim_overlap_count as nat,
        ) == decision_tally(predictions@, predictions@.len() as int),
{
    let mut d = crate::delta_policy::DeltaEligibilityDiagnostics::default();
    let mut i: usize = 0;
    let n = predictions.len();
    while i < n
        invariant
            i <= n == predictions@.len(),
            (
                d.delta_eligibility_checked as nat,
                d.delta_demoted_by_familiar_claim as nat,
                d.delta_kept_due_to_novelty_cue as nat,
                d.interest_overlap_without_novelty as nat,
                d.familiar_claim_overlap_count as nat,
            ) == decision_tally(predictions@, i as int),
            d.delta_eligibility_checked <= i && d.delta_demoted_by_familiar_claim <= i
                && d.delta_kept_due_to_novelty_cue <= i && d.interest_overlap_without_novelty <= i
                && d.familiar_claim_overlap_count <= i,
        decreases n - i,
    {
        let last = find_last_prediction(predictions, predictions[i].0.as_str());
        proof {
            lemma_last_prediction(predictions@, predictions@[i as int].0@);
            match last_prediction(predictions@, predictions@[i as int].0@) {
                Some(x) => {
                    assert(0 <= x < n);
                    assert(last == Some(x as usize));
                },
                None => {},
            }
        }
        if last == Some(i) {
            d.record(&predictions[i].1.gate_decision);
        }
        i = i + 1;
    }
    d
}

} // verus!
