//! Product fixtures for manual annotation: fixture names, the candidate
//! sheet exported for annotators, and the checks on their gold labels.
use vstd::prelude::*;

use crate::evaluation::ProductBaseline;
use crate::keywords::{lemma_seq_lt_total, lemma_seq_lt_transitive, seq_lt, chars_lt};
use crate::models::{CandidateKind, CanonicalReadingUnit};
use crate::text::{chars_eq, chars_eq_str, chars_of, extend_chars, string_from_chars, trim, trim_chars};

verus! {

/// Where product fixtures live.
pub const PRODUCT_FIXTURE_ROOT: &'static str = "resource/product-fixtures";

/// Why a fixture request is refused.
#[derive(Debug)]
pub enum FixtureError {
    /// The name has characters other than ASCII letters, digits, `-` and
    /// `_`, or is empty.
    InvalidName,
    /// The baseline's reader profile is blank.
    EmptyReaderProfile,
}

/// Whether `c` may appear in a fixture name.
pub open spec fn is_name_char(c: char) -> bool {
    (48 <= (c as u32) <= 57) || (65 <= (c as u32) <= 90) || (97 <= (c as u32) <= 122) || c == '-'
        || c == '_'
}

/// Whether `name` is a fixture name: not empty, not starting with a dot,
/// and made of ASCII letters, digits, `-` and `_` only, so that it names a
/// directory directly under the fixture root.
pub open spec fn is_fixture_name(name: Seq<char>) -> bool {
    &&& name.len() > 0
    &&& name[0] != '.'
    &&& forall|i: int| 0 <= i < name.len() ==> is_name_char(#[trigger] name[i])
}

/// The directory of the fixture `name`.
pub open spec fn fixture_path(name: Seq<char>) -> Seq<char> {
    "resource/product-fixtures/"@ + name
}

pub fn fixture_dir(name: &str) -> (r: Result<String, FixtureError>)
    ensures
        is_fixture_name(name@) ==> (r matches Ok(p) && p@ == fixture_path(name@)),
        !is_fixture_name(name@) ==> (r matches Err(FixtureError::InvalidName)),
{
    let c = chars_of(name);
    if c.len() == 0 || c[0] == '.' {
        return Err(FixtureError::InvalidName);
    }
    let mut i: usize = 0;
    while i < c.len()
        invariant
            i <= c@.len(),
            c@ == name@,
            forall|k: int| 0 <= k < i ==> is_name_char(#[trigger] c@[k]),
        decreases c@.len() - i,
    {
        let u = c[i] as u32;
        if !((u >= 48 && u <= 57) || (u >= 65 && u <= 90) || (u >= 97 && u <= 122) || c[i] == '-'
            || c[i] == '_') {
            assert(!is_name_char(c@[i as int]));
            return Err(FixtureError::InvalidName);
        }
        i = i + 1;
    }
    let mut path = chars_of("resource/product-fixtures/");
    extend_chars(&mut path, c.as_slice());
    Ok(string_from_chars(path.as_slice()))
}

/// Checks that the baseline describes a reader.
pub fn validate_baseline(baseline: &ProductBaseline) -> (r: Result<(), FixtureError>)
    ensures
        trim(baseline.reader_profile@).len() == 0 ==> (r matches Err(FixtureError::EmptyReaderProfile)),
        trim(baseline.reader_profile@).len() > 0 ==> r is Ok,
{
    let t = trim_chars(chars_of(baseline.reader_profile.as_str()).as_slice());
    if t.len() == 0 {
        Err(FixtureError::EmptyReaderProfile)
    } else {
        Ok(())
    }
}

// ---------------------------------------------------------------------------
// Candidate sheet
// ---------------------------------------------------------------------------

/// A reading unit as annotators see it.
#[derive(Clone, Debug)]
pub struct CandidateExport {
    pub sentence_id: String,
    pub page: usize,
    pub candidate_kind: CandidateKind,
    pub text: String,
    pub normalized_text: String,
    pub length: usize,
    pub item_ranges_present: bool,
    pub tags: Vec<String>,
}

/// The tags that help annotators: very short text, a digit, several text
/// items.
pub open spec fn export_tags(u: CanonicalReadingUnit) -> Seq<Seq<char>> {
    let t = u.normalized_text@;
    let a = if t.len() < 30 {
        seq!["very_short"@]
    } else {
        Seq::empty()
    };
    let b = if exists|i: int| 0 <= i < t.len() && crate::provider::is_digit(#[trigger] t[i]) {
        seq!["contains_numeric_result"@]
    } else {
        Seq::empty()
    };
    let c = if u.item_ranges@.len() > 1 {
        seq!["multi_item_range"@]
    } else {
        Seq::empty()
    };
    a + b + c
}

pub fn export_candidate(unit: &CanonicalReadingUnit) -> (r: CandidateExport)
    ensures
        r.sentence_id@ == unit.sentence_id@,
        r.page == unit.page,
        r.candidate_kind == unit.candidate_kind,
        r.text@ == unit.text@,
        r.normalized_text@ == unit.normalized_text@,
        r.length == unit.normalized_text@.len(),
        r.item_ranges_present == (unit.item_ranges@.len() > 0),
        r.tags@.map_values(|s: String| s@) == export_tags(*unit),
{
    let t = chars_of(unit.normalized_text.as_str());
    let mut tags: Vec<String> = Vec::new();
    if t.len() < 30 {
        tags.push(string_from_chars(chars_of("very_short").as_slice()));
    }
    let mut digit = false;
    let mut i: usize = 0;
    while i < t.len() && !digit
        invariant
            i <= t@.len(),
            digit ==> exists|k: int| 0 <= k < t@.len() && crate::provider::is_digit(#[trigger] t@[k]),
            !digit ==> forall|k: int| 0 <= k < i ==> !crate::provider::is_digit(#[trigger] t@[k]),
        decreases t@.len() - i,
    {
        if t[i] as u32 >= 48 && t[i] as u32 <= 57 {
            assert(crate::provider::is_digit(t@[i as int]));
            digit = true;
        }
        i = i + 1;
    }
    if digit {
        tags.push(string_from_chars(chars_of("contains_numeric_result").as_slice()));
    }
    if unit.item_ranges.len() > 1 {
        tags.push(string_from_chars(chars_of("multi_item_range").as_slice()));
    }
    assert(tags@.map_values(|s: String| s@) =~= export_tags(*unit));
    CandidateExport {
        sentence_id: unit.sentence_id.clone(),
        page: unit.page,
        candidate_kind: unit.candidate_kind,
        text: unit.text.clone(),
        normalized_text: unit.normalized_text.clone(),
        length: t.len(),
        item_ranges_present: unit.item_ranges.len() > 0,
        tags,
    }
}

// ---------------------------------------------------------------------------
// Manual gold labels
// ---------------------------------------------------------------------------

/// A gold label written by an annotator; its fields are free text until
/// checked.
#[derive(Clone, Debug)]
pub struct ManualGoldLabel {
    pub sentence_id: String,
    pub text: String,
    pub expected_priority: String,
    pub expected_directive: String,
    pub reason: String,
    pub label_type: Option<String>,
    pub difficulty: Option<String>,
    pub tags: Vec<String>,
    pub annotator: Option<String>,
    pub review_status: Option<String>,
    pub allow_non_body: bool,
}

/// A problem with one gold label.
#[derive(Debug)]
pub enum LabelIssue {
    DuplicateSentence(String),
    UnknownSentence(String),
    InvalidPriority(String),
    InvalidDirective(String),
    EmptyReason(String),
    /// An optional field (`label_type`, `difficulty` or `review_status`)
    /// holds a value outside its list.
    InvalidValue { sentence_id: String, field: &'static str, value: String },
    /// The label targets a candidate that is not a body sentence without
    /// saying so.
    NonBody { sentence_id: String, kind: CandidateKind },
}

#[derive(Clone, Copy, Debug, PartialEq, Eq, Structural)]
pub enum IssueKind {
    DuplicateSentence,
    UnknownSentence,
    InvalidPriority,
    InvalidDirective,
    EmptyReason,
    InvalidValue,
    NonBody,
}

/// An issue as plain values: its kind, sentence id, field, value and
/// candidate kind (the last three where the kind has them).
pub open spec fn issue_view(i: LabelIssue) -> (IssueKind, Seq<char>, Seq<char>, Seq<char>, Option<CandidateKind>) {
    match i {
        LabelIssue::DuplicateSentence(id) => (IssueKind::DuplicateSentence, id@, Seq::empty(), Seq::empty(), None),
        LabelIssue::UnknownSentence(id) => (IssueKind::UnknownSentence, id@, Seq::empty(), Seq::empty(), None),
        LabelIssue::InvalidPriority(id) => (IssueKind::InvalidPriority, id@, Seq::empty(), Seq::empty(), None),
        LabelIssue::InvalidDirective(id) => (IssueKind::InvalidDirective, id@, Seq::empty(), Seq::empty(), None),
        LabelIssue::EmptyReason(id) => (IssueKind::EmptyReason, id@, Seq::empty(), Seq::empty(), None),
        LabelIssue::InvalidValue { sentence_id, field, value } => (IssueKind::InvalidValue, sentence_id@, field@, value@, None),
        LabelIssue::NonBody { sentence_id, kind } => (IssueKind::NonBody, sentence_id@, Seq::empty(), Seq::empty(), Some(kind)),
    }
}

pub open spec fn issue_views(v: Seq<LabelIssue>) -> Seq<(IssueKind, Seq<char>, Seq<char>, Seq<char>, Option<CandidateKind>)> {
    v.map_values(|i: LabelIssue| issue_view(i))
}

pub open spec fn plain_issue(k: IssueKind, id: Seq<char>) -> (IssueKind, Seq<char>, Seq<char>, Seq<char>, Option<CandidateKind>) {
    (k, id, Seq::empty(), Seq::empty(), None)
}

/// Position of the last exported candidate with sentence id `id`.
pub open spec fn last_export(c: Seq<CandidateExport>, id: Seq<char>) -> Option<int>
    decreases c.len(),
{
    if c.len() == 0 {
        None
    } else if c.last().sentence_id@ == id {
        Some(c.len() - 1)
    } else {
        last_export(c.drop_last(), id)
    }
}

pub(crate) proof fn lemma_last_export(c: Seq<CandidateExport>, id: Seq<char>)
    ensures
        match last_export(c, id) {
            Some(i) => 0 <= i < c.len() && c[i].sentence_id@ == id && forall|k: int|
                i < k < c.len() ==> c[k].sentence_id@ != id,
            None => forall|k: int| 0 <= k < c.len() ==> c[k].sentence_id@ != id,
        },
    decreases c.len(),
{
    if c.len() > 0 {
        lemma_last_export(c.drop_last(), id);
        assert forall|k: int| 0 <= k < c.len() - 1 implies c.drop_last()[k] == c[k] by {}
    }
}

pub(crate) fn find_last_export(c: &[CandidateExport], id: &str) -> (r: Option<usize>)
    ensures
        match last_export(c@, id@) {
            Some(i) => r == Some(i as usize),
            None => r is None,
        },
        r matches Some(i) ==> i < c@.len(),
{
    proof {
        lemma_last_export(c@, id@);
    }
    let idc = chars_of(id);
    let mut i = c.len();
    while i > 0
        invariant
            i <= c@.len(),
            idc@ == id@,
            forall|k: int| i <= k < c@.len() ==> c@[k].sentence_id@ != id@,
        decreases i,
    {
        if chars_eq(chars_of(c[i - 1].sentence_id.as_str()).as_slice(), idc.as_slice()) {
            proof {
                lemma_last_export(c@, id@);
                match last_export(c@, id@) {
                    Some(m) => {
                        if m > i - 1 {
                            assert(c@[m].sentence_id@ != id@);
                        }
                        if m < i - 1 {
                            assert(c@[i - 1].sentence_id@ != id@);
                        }
                    },
                    None => {
                        assert(c@[i - 1].sentence_id@ != id@);
                    },
                }
            }
            return Some(i - 1);
        }
        i = i - 1;
    }
    None
}

/// The issue of an optional field whose value is not empty and not in
/// `allowed`.
pub open spec fn optional_issue(id: Seq<char>, field: Seq<char>, value: Option<String>, allowed: Seq<Seq<char>>) -> Seq<(IssueKind, Seq<char>, Seq<char>, Seq<char>, Option<CandidateKind>)> {
    match value {
        Some(v) => if v@.len() > 0 && !allowed.contains(v@) {
            seq![(IssueKind::InvalidValue, id, field, v@, None)]
        } else {
            Seq::empty()
        },
        None => Seq::empty(),
    }
}

pub open spec fn label_types() -> Seq<Seq<char>> {
    seq!["standard"@, "trap"@, "control"@]
}

pub open spec fn difficulties() -> Seq<Seq<char>> {
    seq!["easy"@, "medium"@, "hard"@, "adversarial"@]
}

pub open spec fn review_statuses() -> Seq<Seq<char>> {
    seq!["draft"@, "reviewed"@, "approved"@, "rejected"@]
}

/// The issues of label `l`, in the order they are found.
pub open spec fn issues_of_label(cands: Seq<CandidateExport>, labels: Seq<ManualGoldLabel>, l: int) -> Seq<(IssueKind, Seq<char>, Seq<char>, Seq<char>, Option<CandidateKind>)> {
    let lab = labels[l];
    let id = lab.sentence_id@;
    let dup = if exists|m: int| 0 <= m < l && labels[m].sentence_id@ == id {
        seq![plain_issue(IssueKind::DuplicateSentence, id)]
    } else {
        Seq::empty()
    };
    match last_export(cands, id) {
        None => dup + seq![plain_issue(IssueKind::UnknownSentence, id)],
        Some(c) => {
            let p = lab.expected_priority@;
            let d = lab.expected_directive@;
            let prio = if p == "delta"@ || p == "bridge"@ || p == "familiar"@ {
                Seq::empty()
            } else {
                seq![plain_issue(IssueKind::InvalidPriority, id)]
            };
            let dir = if d == "highlight"@ || d == "callout"@ || d == "soft_fade"@ || d == "leave_normal"@ {
                Seq::empty()
            } else {
                seq![plain_issue(IssueKind::InvalidDirective, id)]
            };
            let reason = if trim(lab.reason@).len() == 0 {
                seq![plain_issue(IssueKind::EmptyReason, id)]
            } else {
                Seq::empty()
            };
            let non_body = if cands[c].candidate_kind != CandidateKind::BodySentence && !lab.allow_non_body {
                seq![(IssueKind::NonBody, id, Seq::empty(), Seq::empty(), Some(cands[c].candidate_kind))]
            } else {
                Seq::empty()
            };
            dup + prio + dir + reason + optional_issue(id, "label_type"@, lab.label_type, label_types())
                + optional_issue(id, "difficulty"@, lab.difficulty, difficulties()) + optional_issue(
                id,
                "review_status"@,
                lab.review_status,
                review_statuses(),
            ) + non_body
        },
    }
}

/// The issues of the first `n` labels.
pub open spec fn label_issues_of(cands: Seq<CandidateExport>, labels: Seq<ManualGoldLabel>, n: int) -> Seq<(IssueKind, Seq<char>, Seq<char>, Seq<char>, Option<CandidateKind>)>
    decreases n,
{
    if n <= 0 {
        Seq::empty()
    } else {
        label_issues_of(cands, labels, n - 1) + issues_of_label(cands, labels, n - 1)
    }
}

/// Adds an issue for an optional field whose value is not empty and not in
/// `allowed`.
fn validate_optional(
    issues: &mut Vec<LabelIssue>,
    sentence_id: &str,
    field: &'static str,
    value: &Option<String>,
    allowed: &Vec<&'static str>,
)
    ensures
        issue_views(final(issues)@) == issue_views(old(issues)@) + optional_issue(
            sentence_id@,
            field@,
            *value,
            allowed@.map_values(|s: &str| s@),
        ),
{
    let ghost before = issue_views(issues@);
    match value {
        Some(v) => {
            let vc = chars_of(v.as_str());
            if vc.len() == 0 {
                assert(issue_views(issues@) =~= before + Seq::empty());
                return;
            }
            let ghost av = allowed@.map_values(|s: &str| s@);
            let mut k: usize = 0;
            while k < allowed.len()
                invariant
                    k <= allowed@.len(),
                    av == allowed@.map_values(|s: &str| s@),
                    vc@ == v@,
                    vc@.len() > 0,
                    *value == Some(*v),
                    issue_views(issues@) == before,
                    forall|m: int| 0 <= m < k ==> av[m] != v@,
                decreases allowed@.len() - k,
            {
                if chars_eq_str(vc.as_slice(), allowed[k]) {
                    assert(av[k as int] == v@);
                    assert(av.contains(v@));
                    assert(issue_views(issues@) =~= before + Seq::empty());
                    return;
                }
                k = k + 1;
            }
            assert(!av.contains(v@));
            issues.push(
                LabelIssue::InvalidValue {
                    sentence_id: string_from_chars(chars_of(sentence_id).as_slice()),
                    field,
                    value: v.clone(),
                },
            );
            assert(issue_views(issues@) =~= before.push(issue_view(issues@.last())));
        },
        None => {
            assert(issue_views(issues@) =~= before + Seq::empty());
        },
    }
}

fn list_of(a: &'static str, b: &'static str, c: &'static str, d: Option<&'static str>) -> (r: Vec<&'static str>)
    ensures
        r@.map_values(|s: &str| s@) == match d {
            Some(x) => seq![a@, b@, c@, x@],
            None => seq![a@, b@, c@],
        },
{
    let mut r: Vec<&'static str> = Vec::new();
    r.push(a);
    r.push(b);
    r.push(c);
    match d {
        Some(x) => {
            r.push(x);
        },
        None => {},
    }
    assert(r@.map_values(|s: &str| s@) =~= match d {
        Some(x) => seq![a@, b@, c@, x@],
        None => seq![a@, b@, c@],
    });
    r
}

/// Whether `v` is one of `lits`.
fn is_one_of(v: &[char], lits: &Vec<&'static str>) -> (r: bool)
    ensures
        r == lits@.map_values(|s: &str| s@).contains(v@),
{
    let ghost lv = lits@.map_values(|s: &str| s@);
    let mut k: usize = 0;
    while k < lits.len()
        invariant
            k <= lits@.len(),
            lv == lits@.map_values(|s: &str| s@),
            forall|m: int| 0 <= m < k ==> lv[m] != v@,
        decreases lits@.len() - k,
    {
        if chars_eq_str(v, lits[k]) {
            assert(lv[k as int] == v@);
            return true;
        }
        k = k + 1;
    }
    false
}

/// The kinds of product fixture.
pub open spec fn fixture_types() -> Seq<Seq<char>> {
    seq!["smoke"@, "realistic"@, "adversarial"@]
}

/// Whether `t` is a kind of product fixture: smoke, realistic or adversarial.
pub fn valid_fixture_type(t: &str) -> (r: bool)
    ensures
        r == fixture_types().contains(t@),
{
    let lits = list_of("smoke", "realistic", "adversarial", None);
    let r = is_one_of(chars_of(t).as_slice(), &lits);
    assert(lits@.map_values(|s: &str| s@) =~= fixture_types());
    r
}

/// The issues of label `l`, in the order they are found.
fn label_issues_at(candidates: &[CandidateExport], labels: &[ManualGoldLabel], l: usize) -> (r: Vec<LabelIssue>)
    requires
        l < labels@.len(),
    ensures
        issue_views(r@) == issues_of_label(candidates@, labels@, l as int),
{
    let lab = &labels[l];
    let id = lab.sentence_id.as_str();
    let ghost idv = labels@[l as int].sentence_id@;
    assert(id@ == idv);
    let idc = chars_of(id);
    let mut issues: Vec<LabelIssue> = Vec::new();
    let mut dup = false;
    let mut m: usize = 0;
    while m < l && !dup
        invariant
            m <= l < labels@.len(),
            idc@ == idv,
            idv == labels@[l as int].sentence_id@,
            dup ==> exists|q: int| 0 <= q < l && labels@[q].sentence_id@ == idv,
            !dup ==> forall|q: int| 0 <= q < m ==> labels@[q].sentence_id@ != idv,
        decreases l - m,
    {
        if chars_eq(chars_of(labels[m].sentence_id.as_str()).as_slice(), idc.as_slice()) {
            dup = true;
        }
        m = m + 1;
    }
    let ghost dup_part = if exists|q: int| 0 <= q < l && labels@[q].sentence_id@ == idv {
        seq![plain_issue(IssueKind::DuplicateSentence, idv)]
    } else {
        Seq::empty()
    };
    if dup {
        issues.push(LabelIssue::DuplicateSentence(lab.sentence_id.clone()));
    }
    assert(issue_views(issues@) =~= dup_part);
    let found = find_last_export(candidates, id);
    let c = match found {
        None => {
            let ghost before = issue_views(issues@);
            issues.push(LabelIssue::UnknownSentence(lab.sentence_id.clone()));
            assert(issue_views(issues@) =~= before.push(plain_issue(IssueKind::UnknownSentence, idv)));
            return issues;
        },
        Some(c) => c,
    };
    let nc = candidates.len();
    proof {
        lemma_last_export(candidates@, idv);
        match last_export(candidates@, idv) {
            Some(i) => {
                assert(0 <= i < candidates@.len() == nc);
                assert(i == c as int);
            },
            None => {},
        }
    }
    let ghost after_dup = issue_views(issues@);
    let priorities = list_of("delta", "bridge", "familiar", None);
    let p = chars_of(lab.expected_priority.as_str());
    if !is_one_of(p.as_slice(), &priorities) {
        issues.push(LabelIssue::InvalidPriority(lab.sentence_id.clone()));
    }
    let ghost prio_part = if lab.expected_priority@ == "delta"@ || lab.expected_priority@ == "bridge"@
        || lab.expected_priority@ == "familiar"@ {
        Seq::empty()
    } else {
        seq![plain_issue(IssueKind::InvalidPriority, idv)]
    };
    assert(seq!["delta"@, "bridge"@, "familiar"@].contains(p@) == (p@ == "delta"@ || p@ == "bridge"@ || p@ == "familiar"@)) by {
        if p@ == "bridge"@ {
            assert(seq!["delta"@, "bridge"@, "familiar"@][1] == p@);
        }
        if p@ == "familiar"@ {
            assert(seq!["delta"@, "bridge"@, "familiar"@][2] == p@);
        }
        if p@ == "delta"@ {
            assert(seq!["delta"@, "bridge"@, "familiar"@][0] == p@);
        }
    }
    assert(issue_views(issues@) =~= after_dup + prio_part);
    let ghost after_prio = issue_views(issues@);
    let directives = list_of("highlight", "callout", "soft_fade", Some("leave_normal"));
    let d = chars_of(lab.expected_directive.as_str());
    if !is_one_of(d.as_slice(), &directives) {
        issues.push(LabelIssue::InvalidDirective(lab.sentence_id.clone()));
    }
    let ghost dir_part = if lab.expected_directive@ == "highlight"@ || lab.expected_directive@
        == "callout"@ || lab.expected_directive@ == "soft_fade"@ || lab.expected_directive@
        == "leave_normal"@ {
        Seq::empty()
    } else {
        seq![plain_issue(IssueKind::InvalidDirective, idv)]
    };
    assert(seq!["highlight"@, "callout"@, "soft_fade"@, "leave_normal"@].contains(d@) == (d@
        == "highlight"@ || d@ == "callout"@ || d@ == "soft_fade"@ || d@ == "leave_normal"@)) by {
        let q = seq!["highlight"@, "callout"@, "soft_fade"@, "leave_normal"@];
        if d@ == "highlight"@ {
            assert(q[0] == d@);
        }
        if d@ == "callout"@ {
            assert(q[1] == d@);
        }
        if d@ == "soft_fade"@ {
            assert(q[2] == d@);
        }
        if d@ == "leave_normal"@ {
            assert(q[3] == d@);
        }
    }
    assert(issue_views(issues@) =~= after_prio + dir_part);
    let ghost after_dir = issue_views(issues@);
    let reason = trim_chars(chars_of(lab.reason.as_str()).as_slice());
    if reason.len() == 0 {
        issues.push(LabelIssue::EmptyReason(lab.sentence_id.clone()));
    }
    let ghost reason_part = if trim(lab.reason@).len() == 0 {
        seq![plain_issue(IssueKind::EmptyReason, idv)]
    } else {
        Seq::empty()
    };
    assert(issue_views(issues@) =~= after_dir + reason_part);
    let types = list_of("standard", "trap", "control", None);
    validate_optional(&mut issues, id, "label_type", &lab.label_type, &types);
    let difficulties_list = list_of("easy", "medium", "hard", Some("adversarial"));
    validate_optional(&mut issues, id, "difficulty", &lab.difficulty, &difficulties_list);
    let statuses = list_of("draft", "reviewed", "approved", Some("rejected"));
    validate_optional(&mut issues, id, "review_status", &lab.review_status, &statuses);
    proof {
        reveal_strlit("label_type");
        reveal_strlit("difficulty");
        reveal_strlit("review_status");
    }
    let ghost after_opt = issue_views(issues@);
    let kind = candidates[c].candidate_kind;
    if kind != CandidateKind::BodySentence && !lab.allow_non_body {
        issues.push(LabelIssue::NonBody { sentence_id: lab.sentence_id.clone(), kind });
    }
    let ghost non_body = if kind != CandidateKind::BodySentence && !lab.allow_non_body {
        seq![(IssueKind::NonBody, idv, Seq::<char>::empty(), Seq::<char>::empty(), Some(kind))]
    } else {
        Seq::empty()
    };
    assert(issue_views(issues@) =~= after_opt + non_body);
    assert(issue_views(issues@) =~= issues_of_label(candidates@, labels@, l as int));
    issues
}

/// The issues of all gold labels, label by label: repeated or unknown
/// sentences, invalid priorities, directives and optional fields, empty
/// reasons, and targets that are not body sentences without
/// `allow_non_body`.
pub fn label_issues(candidates: &[CandidateExport], labels: &[ManualGoldLabel]) -> (r: Vec<LabelIssue>)
    ensures
        issue_views(r@) == label_issues_of(candidates@, labels@, labels@.len() as int),
{
    let mut issues: Vec<LabelIssue> = Vec::new();
    let mut l: usize = 0;
    assert(issue_views(issues@) =~= label_issues_of(candidates@, labels@, 0));
    while l < labels.len()
        invariant
            l <= labels@.len(),
            issue_views(issues@) == label_issues_of(candidates@, labels@, l as int),
        decreases labels@.len() - l,
    {
        let mut mine = label_issues_at(candidates, labels, l);
        let ghost before = issues@;
        let ghost added = mine@;
        issues.append(&mut mine);
        assert(issue_views(issues@) =~= issue_views(before) + issue_views(added));
        l = l + 1;
    }
    issues
}

// ---------------------------------------------------------------------------
// Value counts for the label review
// ---------------------------------------------------------------------------

/// Whether `r` lists each distinct non-empty value of `values` once, in
/// ascending order, with how often it occurs.
pub open spec fn is_value_count(r: Seq<(Seq<char>, nat)>, values: Seq<Seq<char>>) -> bool {
    let v = values.filter(|x: Seq<char>| x.len() > 0);
    &&& forall|x: Seq<char>| (exists|k: int| 0 <= k < r.len() && r[k].0 == x) <==> v.contains(x)
    &&& forall|a: int, b: int| 0 <= a < b < r.len() ==> seq_lt(r[a].0, r[b].0)
    &&& forall|k: int| 0 <= k < r.len() ==> (#[trigger] r[k]).1 == crate::keywords::occurrences(v, r[k].0)
}

pub open spec fn count_views(r: Seq<(String, usize)>) -> Seq<(Seq<char>, nat)> {
    r.map_values(|p: (String, usize)| (p.0@, p.1 as nat))
}

/// Counts the non-empty values, in ascending order of value.
pub fn count_values(values: &[String]) -> (r: Vec<(String, usize)>)
    ensures
        is_value_count(count_views(r@), crate::delta_policy::string_views(values@)),
{
    let ghost all = crate::delta_policy::string_views(values@);
    let ghost f = |x: Seq<char>| x.len() > 0;
    let mut kept: Vec<Vec<char>> = Vec::new();
    let mut i: usize = 0;
    while i < values.len()
        invariant
            i <= values@.len(),
            all == crate::delta_policy::string_views(values@),
            f == (|x: Seq<char>| x.len() > 0),
            crate::text::views(kept@) == all.take(i as int).filter(f),
        decreases values@.len() - i,
    {
        assert(all.take(i + 1).drop_last() =~= all.take(i as int));
        assert(all.take(i + 1).last() == values@[i as int]@);
        reveal(Seq::filter);
        let c = chars_of(values[i].as_str());
        if c.len() > 0 {
            let ghost before = crate::text::views(kept@);
            kept.push(c);
            assert(crate::text::views(kept@) =~= before.push(values@[i as int]@));
        }
        i = i + 1;
    }
    assert(all.take(i as int) =~= all);
    let ghost v = crate::text::views(kept@);
    let (words, counts) = crate::keywords::count_keywords(&kept);
    let mut order: Vec<usize> = Vec::new();
    let mut j: usize = 0;
    while j < words.len()
        invariant
            j <= words@.len() == counts@.len(),
            v == crate::text::views(kept@),
            forall|m1: int, m2: int| 0 <= m1 < m2 < words@.len() ==> words@[m1]@ != words@[m2]@,
            forall|t: int| 0 <= t < order@.len() ==> #[trigger] order@[t] < j,
            forall|m: int| 0 <= m < j ==> #[trigger] lists_index(order@, m),
            forall|a: int, b: int| 0 <= a < b < order@.len() ==> seq_lt(
                words@[order@[a] as int]@,
                words@[order@[b] as int]@,
            ),
        decreases words@.len() - j,
    {
        let mut p: usize = 0;
        while p < order.len() && !chars_lt(words[j].as_slice(), words[order[p]].as_slice())
            invariant
                p <= order@.len(),
                j < words@.len(),
                forall|t: int| 0 <= t < order@.len() ==> #[trigger] order@[t] < j,
                forall|t: int| 0 <= t < p ==> !seq_lt(words@[j as int]@, #[trigger] words@[order@[t] as int]@),
            decreases order@.len() - p,
        {
            p = p + 1;
        }
        let ghost old_order = order@;
        let ghost nw = words@[j as int]@;
        proof {
            assert forall|t: int| 0 <= t < p implies seq_lt(#[trigger] words@[old_order[t] as int]@, nw) by {
                let m = old_order[t] as int;
                assert(words@[m]@ != nw);
                lemma_seq_lt_total(nw, words@[m]@);
            }
        }
        order.insert(p, j);
        proof {
            assert forall|a: int, b: int| 0 <= a < b < order@.len() implies seq_lt(
                words@[order@[a] as int]@,
                words@[order@[b] as int]@,
            ) by {
                if a < (p as int) && b < (p as int) {
                    assert(order@[a] == old_order[a] && order@[b] == old_order[b]);
                } else if a < (p as int) && b == (p as int) {
                    assert(order@[a] == old_order[a]);
                } else if a < (p as int) {
                    assert(order@[a] == old_order[a] && order@[b] == old_order[b - 1]);
                    let x = words@[old_order[a] as int]@;
                    let y = words@[old_order[b - 1] as int]@;
                    lemma_seq_lt_transitive(x, nw, words@[old_order[p as int] as int]@);
                    if (p as int) <= b - 2 {
                        lemma_seq_lt_transitive(x, words@[old_order[p as int] as int]@, y);
                    }
                } else if a == (p as int) {
                    assert(order@[b] == old_order[b - 1]);
                    let y = words@[old_order[b - 1] as int]@;
                    if (p as int) < b - 1 {
                        lemma_seq_lt_transitive(nw, words@[old_order[p as int] as int]@, y);
                    }
                } else {
                    assert(order@[a] == old_order[a - 1] && order@[b] == old_order[b - 1]);
                }
            }
            assert forall|m: int| 0 <= m < j + 1 implies #[trigger] lists_index(order@, m) by {
                if m == j {
                    assert(order@[p as int] == m);
                } else {
                    assert(lists_index(old_order, m));
                    let t = choose|t: int| 0 <= t < old_order.len() && old_order[t] == m;
                    if t < p {
                        assert(order@[t] == m);
                    } else {
                        assert(order@[t + 1] == m);
                    }
                }
            }
        }
        j = j + 1;
    }
    let mut r: Vec<(String, usize)> = Vec::new();
    let mut t: usize = 0;
    while t < order.len()
        invariant
            t <= order@.len(),
            words@.len() == counts@.len(),
            forall|q: int| 0 <= q < order@.len() ==> #[trigger] order@[q] < words@.len(),
            r@.len() == t,
            forall|q: int| 0 <= q < t ==> (#[trigger] r@[q]).0@ == words@[order@[q] as int]@ && r@[q].1 == counts@[order@[q] as int],
        decreases order@.len() - t,
    {
        r.push((string_from_chars(words[order[t]].as_slice()), counts[order[t]]));
        t = t + 1;
    }
    proof {
        let rv = count_views(r@);
        assert(all.filter(f) == v);
        assert forall|x: Seq<char>| (exists|k: int| 0 <= k < rv.len() && rv[k].0 == x) <==> v.contains(x) by {
            if exists|k: int| 0 <= k < rv.len() && rv[k].0 == x {
                let k = choose|k: int| 0 <= k < rv.len() && rv[k].0 == x;
                assert(r@[k].0@ == x);
                let m = order@[k] as int;
                assert(v.contains(words@[m]@));
            }
            if v.contains(x) {
                let q = choose|q: int| 0 <= q < v.len() && v[q] == x;
                assert(kept@[q]@ == v[q]);
                assert(crate::keywords::lists_word(words@, kept@[q]@));
                let m = choose|m: int| 0 <= m < words@.len() && words@[m]@ == kept@[q]@;
                assert(lists_index(order@, m));
                let tt = choose|tt: int| 0 <= tt < order@.len() && order@[tt] == m;
                assert(rv[tt].0 == x);
            }
        }
        assert forall|a: int, b: int| 0 <= a < b < rv.len() implies seq_lt(rv[a].0, rv[b].0) by {
            assert(rv[a].0 == words@[order@[a] as int]@);
            assert(rv[b].0 == words@[order@[b] as int]@);
        }
        assert forall|k: int| 0 <= k < rv.len() implies (#[trigger] rv[k]).1 == crate::keywords::occurrences(v, rv[k].0) by {
            assert(rv[k].0 == words@[order@[k] as int]@);
        }
    }
    r
}

/// Whether index `m` appears in `order`.
pub open spec fn lists_index(order: Seq<usize>, m: int) -> bool {
    exists|t: int| 0 <= t < order.len() && order[t] == m
}

/// `key=count` entries separated by `, `.
pub open spec fn counts_text(counts: Seq<(Seq<char>, nat)>) -> Seq<char> {
    crate::text::join(
        counts.map_values(|p: (Seq<char>, nat)| p.0 + "="@ + crate::text::decimal(p.1)),
        ", "@,
    )
}

pub fn format_counts(counts: &[(String, usize)]) -> (r: String)
    ensures
        r@ == counts_text(count_views(counts@)),
{
    let ghost cv = count_views(counts@);
    let ghost g = |p: (Seq<char>, nat)| p.0 + "="@ + crate::text::decimal(p.1);
    let mut parts: Vec<Vec<char>> = Vec::new();
    let mut i: usize = 0;
    while i < counts.len()
        invariant
            i <= counts@.len(),
            cv == count_views(counts@),
            g == (|p: (Seq<char>, nat)| p.0 + "="@ + crate::text::decimal(p.1)),
            crate::text::views(parts@) == cv.take(i as int).map_values(g),
        decreases counts@.len() - i,
    {
        let mut e = chars_of(counts[i].0.as_str());
        let eq = chars_of("=");
        extend_chars(&mut e, eq.as_slice());
        let n = crate::text::decimal_chars(counts[i].1);
        extend_chars(&mut e, n.as_slice());
        let ghost before = crate::text::views(parts@);
        parts.push(e);
        assert(crate::text::views(parts@) =~= before.push(g(cv[i as int])));
        assert(cv.take(i + 1) =~= cv.take(i as int).push(cv[i as int]));
        i = i + 1;
        assert(crate::text::views(parts@) =~= cv.take(i as int).map_values(g));
    }
    assert(cv.take(i as int) =~= cv);
    let sep = chars_of(", ");
    let joined = crate::text::join_chars(parts.as_slice(), sep.as_slice());
    string_from_chars(joined.as_slice())
}

// ---------------------------------------------------------------------------
// Label review
// ---------------------------------------------------------------------------

/// How often `p` occurs in `pages`.
pub open spec fn page_occurrences(pages: Seq<usize>, p: usize) -> nat
    decreases pages.len(),
{
    if pages.len() == 0 {
        0
    } else {
        page_occurrences(pages.drop_last(), p) + if pages.last() == p {
            1nat
        } else {
            0nat
        }
    }
}

/// Whether `r` lists each distinct page of `pages` once, in ascending order,
/// with how often it occurs.
pub open spec fn is_page_count(r: Seq<(usize, usize)>, pages: Seq<usize>) -> bool {
    &&& forall|p: usize| (exists|k: int| 0 <= k < r.len() && r[k].0 == p) <==> pages.contains(p)
    &&& forall|a: int, b: int| 0 <= a < b < r.len() ==> r[a].0 < r[b].0
    &&& forall|k: int| 0 <= k < r.len() ==> (#[trigger] r[k]).1 == page_occurrences(pages, r[k].0)
}

/// Counts the pages, in ascending order of page.
pub fn count_pages(pages: &[usize]) -> (r: Vec<(usize, usize)>)
    ensures
        is_page_count(r@, pages@),
{
    let mut r: Vec<(usize, usize)> = Vec::new();
    let mut i: usize = 0;
    while i < pages.len()
        invariant
            i <= pages@.len(),
            is_page_count(r@, pages@.take(i as int)),
            forall|k: int| 0 <= k < r@.len() ==> (#[trigger] r@[k]).1 <= i,
        decreases pages@.len() - i,
    {
        let p = pages[i];
        let ghost prev = pages@.take(i as int);
        let ghost next = pages@.take(i + 1);
        assert(next.drop_last() =~= prev);
        assert(next.last() == p);
        assert(next =~= prev.push(p));
        let mut k: usize = 0;
        while k < r.len() && r[k].0 < p
            invariant
                k <= r@.len(),
                forall|q: int| 0 <= q < k ==> (#[trigger] r@[q]).0 < p,
            decreases r@.len() - k,
        {
            k = k + 1;
        }
        let ghost old_r = r@;
        if k < r.len() && r[k].0 == p {
            let c = r[k].1;
            r.set(k, (p, c + 1));
            proof {
                assert forall|q: int| 0 <= q < r@.len() implies (#[trigger] r@[q]).1 == page_occurrences(next, r@[q].0) by {
                    assert(old_r[q].1 == page_occurrences(prev, old_r[q].0));
                }
                assert forall|x: usize| (exists|q: int| 0 <= q < r@.len() && r@[q].0 == x) <==> next.contains(x) by {
                    if next.contains(x) && x != p {
                        let t = choose|t: int| 0 <= t < next.len() && next[t] == x;
                        assert(prev[t] == x);
                        assert(prev.contains(x));
                        let q = choose|q: int| 0 <= q < old_r.len() && old_r[q].0 == x;
                        assert(r@[q].0 == x);
                    }
                    if next.contains(x) && x == p {
                        assert(r@[k as int].0 == x);
                    }
                    if exists|q: int| 0 <= q < r@.len() && r@[q].0 == x {
                        let q = choose|q: int| 0 <= q < r@.len() && r@[q].0 == x;
                        assert(old_r[q].0 == x);
                        assert(prev.contains(x));
                        let t = choose|t: int| 0 <= t < prev.len() && prev[t] == x;
                        assert(next[t] == x);
                    }
                }
            }
        } else {
            r.insert(k, (p, 1));
            proof {
                assert(!prev.contains(p)) by {
                    if prev.contains(p) {
                        let q = choose|q: int| 0 <= q < old_r.len() && old_r[q].0 == p;
                        if q < k {
                        } else if q == k {
                        } else {
                            assert(old_r[k as int].0 < old_r[q].0);
                        }
                    }
                }
                lemma_page_occurrences_absent(prev, p);
                assert forall|q: int| 0 <= q < r@.len() implies (#[trigger] r@[q]).1 == page_occurrences(next, r@[q].0) by {
                    if q < k {
                        assert(r@[q] == old_r[q]);
                        assert(old_r[q].1 == page_occurrences(prev, old_r[q].0));
                    } else if q > k {
                        assert(r@[q] == old_r[q - 1]);
                        assert(old_r[q - 1].1 == page_occurrences(prev, old_r[q - 1].0));
                    }
                }
                assert forall|a: int, b: int| 0 <= a < b < r@.len() implies r@[a].0 < r@[b].0 by {
                    if b < k {
                        assert(r@[a] == old_r[a] && r@[b] == old_r[b]);
                    } else if b == k {
                        assert(r@[a] == old_r[a]);
                    } else if a < k {
                        assert(r@[a] == old_r[a] && r@[b] == old_r[b - 1]);
                        assert(old_r[k as int].0 > p);
                    } else if a == k {
                        assert(r@[b] == old_r[b - 1]);
                        assert(old_r[k as int].0 > p);
                    } else {
                        assert(r@[a] == old_r[a - 1] && r@[b] == old_r[b - 1]);
                    }
                }
                assert forall|x: usize| (exists|q: int| 0 <= q < r@.len() && r@[q].0 == x) <==> next.contains(x) by {
                    if next.contains(x) && x != p {
                        let t = choose|t: int| 0 <= t < next.len() && next[t] == x;
                        assert(prev[t] == x);
                        assert(prev.contains(x));
                        let q = choose|q: int| 0 <= q < old_r.len() && old_r[q].0 == x;
                        if q < k {
                            assert(r@[q].0 == x);
                        } else {
                            assert(r@[q + 1].0 == x);
                        }
                    }
                    if next.contains(x) && x == p {
                        assert(r@[k as int].0 == x);
                    }
                    if exists|q: int| 0 <= q < r@.len() && r@[q].0 == x {
                        let q = choose|q: int| 0 <= q < r@.len() && r@[q].0 == x;
                        if q == k {
                            assert(next[i as int] == x);
                        } else {
                            let q2 = if q < k { q } else { q - 1 };
                            assert(old_r[q2].0 == x);
                            assert(prev.contains(x));
                            let t = choose|t: int| 0 <= t < prev.len() && prev[t] == x;
                            assert(next[t] == x);
                        }
                    }
                }
            }
        }
        i = i + 1;
    }
    assert(pages@.take(i as int) =~= pages@);
    r
}

pub(crate) proof fn lemma_page_occurrences_absent(s: Seq<usize>, p: usize)
    requires
        !s.contains(p),
    ensures
        page_occurrences(s, p) == 0,
    decreases s.len(),
{
    if s.len() > 0 {
        assert(!s.drop_last().contains(p)) by {
            if s.drop_last().contains(p) {
                let t = choose|t: int| 0 <= t < s.drop_last().len() && s.drop_last()[t] == p;
                assert(s[t] == p);
            }
        }
        assert(s[s.len() - 1] == s.last());
        lemma_page_occurrences_absent(s.drop_last(), p);
    }
}

/// Something in the labels that deserves a second look.
#[derive(Debug)]
pub enum ReviewFinding {
    /// A validation issue.
    Issue(LabelIssue),
    /// A delta label without a reason.
    DeltaWithoutReason(String),
    /// A delta label on a sentence of fewer than 30 characters (its length).
    VeryShortDelta(String, usize),
    /// A delta label on metadata, a reference, or a formula or table.
    NonBodyDelta(String, CandidateKind),
    /// A page with more than five highlights (the page and the count).
    CrowdedPage(usize, usize),
    /// A body sentence without a label.
    MissingBody(String),
}

#[derive(Clone, Copy, Debug, PartialEq, Eq, Structural)]
pub enum FindingKind {
    Issue,
    DeltaWithoutReason,
    VeryShortDelta,
    NonBodyDelta,
    CrowdedPage,
    MissingBody,
}

/// A finding as plain values: its kind, sentence id, number (length, or
/// page and count) and candidate kind, where the kind has them; an issue
/// finding is read through `issue_view`.
pub open spec fn finding_view(f: ReviewFinding) -> (FindingKind, Seq<char>, nat, nat, Option<CandidateKind>) {
    match f {
        ReviewFinding::Issue(_) => (FindingKind::Issue, Seq::empty(), 0, 0, None),
        ReviewFinding::DeltaWithoutReason(id) => (FindingKind::DeltaWithoutReason, id@, 0, 0, None),
        ReviewFinding::VeryShortDelta(id, n) => (FindingKind::VeryShortDelta, id@, n as nat, 0, None),
        ReviewFinding::NonBodyDelta(id, k) => (FindingKind::NonBodyDelta, id@, 0, 0, Some(k)),
        ReviewFinding::CrowdedPage(p, n) => (FindingKind::CrowdedPage, Seq::empty(), p as nat, n as nat, None),
        ReviewFinding::MissingBody(id) => (FindingKind::MissingBody, id@, 0, 0, None),
    }
}

/// The findings of one label, in order: a delta without a reason, a very
/// short delta, a delta on a sentence that cannot be one.
pub open spec fn label_findings(cands: Seq<CandidateExport>, lab: ManualGoldLabel) -> Seq<(FindingKind, Seq<char>, nat, nat, Option<CandidateKind>)> {
    let id = lab.sentence_id@;
    let delta = lab.expected_priority@ == "delta"@;
    let a = if delta && trim(lab.reason@).len() == 0 {
        seq![(FindingKind::DeltaWithoutReason, id, 0nat, 0nat, None)]
    } else {
        Seq::empty()
    };
    match last_export(cands, id) {
        None => a,
        Some(c) => {
            let k = cands[c].candidate_kind;
            let b = if delta && cands[c].length < 30 {
                seq![(FindingKind::VeryShortDelta, id, cands[c].length as nat, 0nat, None)]
            } else {
                Seq::empty()
            };
            let d = if delta && (k == CandidateKind::Metadata || k == CandidateKind::Reference || k
                == CandidateKind::FormulaOrTable) {
                seq![(FindingKind::NonBodyDelta, id, 0nat, 0nat, Some(k))]
            } else {
                Seq::empty()
            };
            a + b + d
        },
    }
}

/// The findings of the first `n` labels.
pub open spec fn all_label_findings(cands: Seq<CandidateExport>, labels: Seq<ManualGoldLabel>, n: int) -> Seq<(FindingKind, Seq<char>, nat, nat, Option<CandidateKind>)>
    decreases n,
{
    if n <= 0 {
        Seq::empty()
    } else {
        all_label_findings(cands, labels, n - 1) + label_findings(cands, labels[n - 1])
    }
}

/// The pages of the candidates of the first `n` highlight labels.
pub open spec fn highlight_pages(cands: Seq<CandidateExport>, labels: Seq<ManualGoldLabel>, n: int) -> Seq<usize>
    decreases n,
{
    if n <= 0 {
        Seq::empty()
    } else {
        let prev = highlight_pages(cands, labels, n - 1);
        let lab = labels[n - 1];
        match last_export(cands, lab.sentence_id@) {
            Some(c) => if lab.expected_directive@ == "highlight"@ {
                prev.push(cands[c].page)
            } else {
                prev
            },
            None => prev,
        }
    }
}

pub open spec fn finding_views(v: Seq<ReviewFinding>) -> Seq<(FindingKind, Seq<char>, nat, nat, Option<CandidateKind>)> {
    v.map_values(|f: ReviewFinding| finding_view(f))
}

/// The findings of every label, in label order.
pub fn review_label_findings(candidates: &[CandidateExport], labels: &[ManualGoldLabel]) -> (r: Vec<ReviewFinding>)
    ensures
        finding_views(r@) == all_label_findings(candidates@, labels@, labels@.len() as int),
{
    let mut r: Vec<ReviewFinding> = Vec::new();
    let mut l: usize = 0;
    assert(finding_views(r@) =~= all_label_findings(candidates@, labels@, 0));
    while l < labels.len()
        invariant
            l <= labels@.len(),
            finding_views(r@) == all_label_findings(candidates@, labels@, l as int),
        decreases labels@.len() - l,
    {
        let lab = &labels[l];
        let ghost before = finding_views(r@);
        let p = chars_of(lab.expected_priority.as_str());
        let delta = chars_eq_str(p.as_slice(), "delta");
        let reason = trim_chars(chars_of(lab.reason.as_str()).as_slice());
        if delta && reason.len() == 0 {
            r.push(ReviewFinding::DeltaWithoutReason(lab.sentence_id.clone()));
        }
        let ghost after_a = finding_views(r@);
        let id = lab.sentence_id.as_str();
        match find_last_export(candidates, id) {
            Some(c) => {
                let nc = candidates.len();
                proof {
                    lemma_last_export(candidates@, id@);
                    match last_export(candidates@, id@) {
                        Some(i) => {
                            assert(0 <= i < candidates@.len() == nc);
                            assert(i == c as int);
                        },
                        None => {},
                    }
                }
                let cand = &candidates[c];
                if delta && cand.length < 30 {
                    r.push(ReviewFinding::VeryShortDelta(lab.sentence_id.clone(), cand.length));
                }
                let ghost after_b = finding_views(r@);
                let k = cand.candidate_kind;
                if delta && (k == CandidateKind::Metadata || k == CandidateKind::Reference || k
                    == CandidateKind::FormulaOrTable) {
                    r.push(ReviewFinding::NonBodyDelta(lab.sentence_id.clone(), k));
                }
                assert(finding_views(r@) =~= before + label_findings(candidates@, labels@[l as int]));
            },
            None => {
                assert(finding_views(r@) =~= before + label_findings(candidates@, labels@[l as int]));
            },
        }
        l = l + 1;
    }
    r
}

/// The pages of the candidates of the highlight labels, in label order.
pub fn highlight_label_pages(candidates: &[CandidateExport], labels: &[ManualGoldLabel]) -> (r: Vec<usize>)
    ensures
        r@ == highlight_pages(candidates@, labels@, labels@.len() as int),
{
    let mut r: Vec<usize> = Vec::new();
    let mut l: usize = 0;
    while l < labels.len()
        invariant
            l <= labels@.len(),
            r@ == highlight_pages(candidates@, labels@, l as int),
        decreases labels@.len() - l,
    {
        let lab = &labels[l];
        let id = lab.sentence_id.as_str();
        match find_last_export(candidates, id) {
            Some(c) => {
                let nc = candidates.len();
                proof {
                    lemma_last_export(candidates@, id@);
                    match last_export(candidates@, id@) {
                        Some(i) => {
                            assert(0 <= i < candidates@.len() == nc);
                            assert(i == c as int);
                        },
                        None => {},
                    }
                }
                let d = chars_of(lab.expected_directive.as_str());
                if chars_eq_str(d.as_slice(), "highlight") {
                    r.push(candidates[c].page);
                }
            },
            None => {},
        }
        l = l + 1;
    }
    r
}

/// The body candidates without a label, in candidate order.
pub open spec fn missing_body(cands: Seq<CandidateExport>, labels: Seq<ManualGoldLabel>) -> Seq<Seq<char>> {
    cands.filter(
        |c: CandidateExport|
            c.candidate_kind == CandidateKind::BodySentence && !(exists|m: int|
                0 <= m < labels.len() && labels[m].sentence_id@ == c.sentence_id@),
    ).map_values(|c: CandidateExport| c.sentence_id@)
}

pub fn missing_body_candidates(candidates: &[CandidateExport], labels: &[ManualGoldLabel]) -> (r: Vec<String>)
    ensures
        r@.map_values(|s: String| s@) == missing_body(candidates@, labels@),
{
    let ghost f = |c: CandidateExport|
        c.candidate_kind == CandidateKind::BodySentence && !(exists|m: int|
            0 <= m < labels@.len() && labels@[m].sentence_id@ == c.sentence_id@);
    let ghost g = |c: CandidateExport| c.sentence_id@;
    let mut r: Vec<String> = Vec::new();
    let mut i: usize = 0;
    while i < candidates.len()
        invariant
            i <= candidates@.len(),
            f == (|c: CandidateExport|
                c.candidate_kind == CandidateKind::BodySentence && !(exists|m: int|
                    0 <= m < labels@.len() && labels@[m].sentence_id@ == c.sentence_id@)),
            g == (|c: CandidateExport| c.sentence_id@),
            r@.map_values(|s: String| s@) == candidates@.take(i as int).filter(f).map_values(g),
        decreases candidates@.len() - i,
    {
        assert(candidates@.take(i + 1).drop_last() =~= candidates@.take(i as int));
        assert(candidates@.take(i + 1).last() == candidates@[i as int]);
        reveal(Seq::filter);
        let cand = &candidates[i];
        if cand.candidate_kind == CandidateKind::BodySentence {
            let id = chars_of(cand.sentence_id.as_str());
            let mut hit = false;
            let mut m: usize = 0;
            while m < labels.len() && !hit
                invariant
                    m <= labels@.len(),
                    i < candidates@.len(),
                    id@ == candidates@[i as int].sentence_id@,
                    hit ==> exists|q: int| 0 <= q < labels@.len() && labels@[q].sentence_id@ == candidates@[i as int].sentence_id@,
                    !hit ==> forall|q: int| 0 <= q < m ==> labels@[q].sentence_id@ != candidates@[i as int].sentence_id@,
                decreases labels@.len() - m,
            {
                if chars_eq(chars_of(labels[m].sentence_id.as_str()).as_slice(), id.as_slice()) {
                    hit = true;
                }
                m = m + 1;
            }
            let ghost prev = candidates@.take(i as int).filter(f);
            if !hit {
                let ghost before = r@.map_values(|s: String| s@);
                r.push(cand.sentence_id.clone());
                assert(candidates@.take(i + 1).filter(f) == prev.push(candidates@[i as int]));
                assert(prev.push(candidates@[i as int]).map_values(g) =~= prev.map_values(g).push(g(candidates@[i as int])));
                assert(r@.map_values(|s: String| s@) =~= before.push(candidates@[i as int].sentence_id@));
            } else {
                assert(candidates@.take(i + 1).filter(f) == prev);
            }
        } else {
            assert(candidates@.take(i + 1).filter(f) == candidates@.take(i as int).filter(f));
        }
        i = i + 1;
    }
    assert(candidates@.take(i as int) =~= candidates@);
    r
}

/// The counts at the head of the label review.
#[derive(Clone, Debug)]
pub struct ReviewCounts {
    pub body_count: usize,
    pub labeled_body: usize,
    pub trap_count: usize,
    pub draft_count: usize,
    pub reviewed_count: usize,
}

/// Whether a label marks a trap, by its type or a tag.
pub open spec fn is_trap(l: ManualGoldLabel) -> bool {
    (l.label_type matches Some(t) && t@ == "trap"@) || exists|k: int| 0 <= k < l.tags@.len() && l.tags@[k]@ == "trap"@
}

/// Whether a label is still a draft: no review status, an empty one, or
/// `draft`.
pub open spec fn is_draft(l: ManualGoldLabel) -> bool {
    match l.review_status {
        None => true,
        Some(s) => s@ == ""@ || s@ == "draft"@,
    }
}

/// Whether a label targets a body sentence (the last candidate with its id).
pub open spec fn labels_body(cands: Seq<CandidateExport>, l: ManualGoldLabel) -> bool {
    match last_export(cands, l.sentence_id@) {
        Some(c) => cands[c].candidate_kind == CandidateKind::BodySentence,
        None => false,
    }
}

pub fn review_counts(candidates: &[CandidateExport], labels: &[ManualGoldLabel]) -> (r: ReviewCounts)
    ensures
        r.body_count == candidates@.filter(|c: CandidateExport| c.candidate_kind == CandidateKind::BodySentence).len(),
        r.labeled_body == labels@.filter(|l: ManualGoldLabel| labels_body(candidates@, l)).len(),
        r.trap_count == labels@.filter(|l: ManualGoldLabel| is_trap(l)).len(),
        r.draft_count == labels@.filter(|l: ManualGoldLabel| is_draft(l)).len(),
        r.reviewed_count == labels@.len() - r.draft_count,
{
    let ghost fb = |c: CandidateExport| c.candidate_kind == CandidateKind::BodySentence;
    let mut body_count: usize = 0;
    let mut i: usize = 0;
    while i < candidates.len()
        invariant
            i <= candidates@.len(),
            fb == (|c: CandidateExport| c.candidate_kind == CandidateKind::BodySentence),
            body_count == candidates@.take(i as int).filter(fb).len(),
            body_count <= i,
        decreases candidates@.len() - i,
    {
        assert(candidates@.take(i + 1).drop_last() =~= candidates@.take(i as int));
        assert(candidates@.take(i + 1).last() == candidates@[i as int]);
        reveal(Seq::filter);
        if candidates[i].candidate_kind == CandidateKind::BodySentence {
            body_count = body_count + 1;
        }
        i = i + 1;
    }
    assert(candidates@.take(i as int) =~= candidates@);
    let ghost flb = |l: ManualGoldLabel| labels_body(candidates@, l);
    let ghost ft = |l: ManualGoldLabel| is_trap(l);
    let ghost fd = |l: ManualGoldLabel| is_draft(l);
    let mut labeled_body: usize = 0;
    let mut trap_count: usize = 0;
    let mut draft_count: usize = 0;
    let mut l: usize = 0;
    while l < labels.len()
        invariant
            l <= labels@.len(),
            flb == (|l: ManualGoldLabel| labels_body(candidates@, l)),
            ft == (|l: ManualGoldLabel| is_trap(l)),
            fd == (|l: ManualGoldLabel| is_draft(l)),
            labeled_body == labels@.take(l as int).filter(flb).len(),
            trap_count == labels@.take(l as int).filter(ft).len(),
            draft_count == labels@.take(l as int).filter(fd).len(),
            labeled_body <= l && trap_count <= l && draft_count <= l,
        decreases labels@.len() - l,
    {
        assert(labels@.take(l + 1).drop_last() =~= labels@.take(l as int));
        assert(labels@.take(l + 1).last() == labels@[l as int]);
        reveal(Seq::filter);
        let lab = &labels[l];
        let id = lab.sentence_id.as_str();
        let body = match find_last_export(candidates, id) {
            Some(c) => {
                let nc = candidates.len();
                proof {
                    lemma_last_export(candidates@, id@);
                    match last_export(candidates@, id@) {
                        Some(i) => {
                            assert(0 <= i < candidates@.len() == nc);
                            assert(i == c as int);
                        },
                        None => {},
                    }
                }
                candidates[c].candidate_kind == CandidateKind::BodySentence
            },
            None => false,
        };
        if body {
            labeled_body = labeled_body + 1;
        }
        let mut trap = match &lab.label_type {
            Some(t) => chars_eq_str(chars_of(t.as_str()).as_slice(), "trap"),
            None => false,
        };
        let mut k: usize = 0;
        while k < lab.tags.len() && !trap
            invariant
                k <= lab.tags@.len(),
                trap ==> is_trap(*lab),
                !trap ==> !(lab.label_type matches Some(t) && t@ == "trap"@),
                !trap ==> forall|q: int| 0 <= q < k ==> lab.tags@[q]@ != "trap"@,
            decreases lab.tags@.len() - k,
        {
            if chars_eq_str(chars_of(lab.tags[k].as_str()).as_slice(), "trap") {
                trap = true;
            }
            k = k + 1;
        }
        if trap {
            trap_count = trap_count + 1;
        }
        let draft = match &lab.review_status {
            None => true,
            Some(st) => {
                let sc = chars_of(st.as_str());
                proof {
                    reveal_strlit("");
                    if sc@.len() == 0 {
                        assert(sc@ =~= ""@);
                    }
                }
                sc.len() == 0 || chars_eq_str(sc.as_slice(), "draft")
            },
        };
        if draft {
            draft_count = draft_count + 1;
        }
        l = l + 1;
    }
    assert(labels@.take(l as int) =~= labels@);
    ReviewCounts {
        body_count,
        labeled_body,
        trap_count,
        draft_count,
        reviewed_count: labels.len() - draft_count,
    }
}

/// Whether `l` is the blank gold label template for candidate `c`.
pub open spec fn is_template_label(l: ManualGoldLabel, c: CandidateExport) -> bool {
    &&& l.sentence_id@ == c.sentence_id@
    &&& l.text@ == c.text@
    &&& l.expected_priority@.len() == 0
    &&& l.expected_directive@.len() == 0
    &&& l.reason@.len() == 0
    &&& l.label_type matches Some(t) && t@.len() == 0
    &&& l.difficulty matches Some(t) && t@.len() == 0
    &&& l.tags@.len() == 0
    &&& l.annotator matches Some(t) && t@.len() == 0
    &&& l.review_status matches Some(t) && t@.len() == 0
    &&& !l.allow_non_body
}

/// A blank gold label for every body sentence of the candidate sheet, in
/// order, for annotators to fill in.
pub fn gold_template(candidates: &[CandidateExport]) -> (r: Vec<ManualGoldLabel>)
    ensures
        r@.len() == candidates@.filter(|c: CandidateExport| c.candidate_kind == CandidateKind::BodySentence).len(),
        forall|k: int|
            0 <= k < r@.len() ==> is_template_label(
                #[trigger] r@[k],
                candidates@.filter(|c: CandidateExport| c.candidate_kind == CandidateKind::BodySentence)[k],
            ),
{
    let ghost f = |c: CandidateExport| c.candidate_kind == CandidateKind::BodySentence;
    let mut r: Vec<ManualGoldLabel> = Vec::new();
    let mut i: usize = 0;
    while i < candidates.len()
        invariant
            i <= candidates@.len(),
            f == (|c: CandidateExport| c.candidate_kind == CandidateKind::BodySentence),
            r@.len() == candidates@.take(i as int).filter(f).len(),
            forall|k: int| 0 <= k < r@.len() ==> is_template_label(#[trigger] r@[k], candidates@.take(i as int).filter(f)[k]),
        decreases candidates@.len() - i,
    {
        assert(candidates@.take(i + 1).drop_last() =~= candidates@.take(i as int));
        assert(candidates@.take(i + 1).last() == candidates@[i as int]);
        reveal(Seq::filter);
        let c = &candidates[i];
        if c.candidate_kind == CandidateKind::BodySentence {
            r.push(
                ManualGoldLabel {
                    sentence_id: c.sentence_id.clone(),
                    text: c.text.clone(),
                    expected_priority: String::new(),
                    expected_directive: String::new(),
                    reason: String::new(),
                    label_type: Some(String::new()),
                    difficulty: Some(String::new()),
                    tags: Vec::new(),
                    annotator: Some(String::new()),
                    review_status: Some(String::new()),
                    allow_non_body: false,
                },
            );
        }
        i = i + 1;
    }
    assert(candidates@.take(i as int) =~= candidates@);
    r
}

} // verus!
