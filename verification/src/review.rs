//! The lines of the label review report: one message per suspicious label,
//! sorted and without repeats, and the pages that the labels fall on.
use vstd::prelude::*;

use crate::delta_policy::string_views;
use crate::fixture::{
    all_label_findings, count_pages, count_values, count_views, find_last_export, highlight_label_pages,
    highlight_pages, is_page_count, is_value_count, issue_view, issue_views, label_issues, label_issues_of,
    last_export, lemma_last_export, lemma_page_occurrences_absent, missing_body, missing_body_candidates,
    page_occurrences, review_label_findings, finding_view, finding_views, CandidateExport, FindingKind,
    IssueKind, LabelIssue, ManualGoldLabel, ReviewFinding,
};
use crate::keywords::seq_lt;
use crate::models::CandidateKind;
use crate::text::{chars_of, decimal, decimal_chars, extend_chars, string_from_chars};

verus! {

/// Pages with more highlights than this are reported.
pub const HIGHLIGHTS_PER_PAGE_LIMIT: usize = 5;

/// The name of a candidate kind as `{:?}` prints it.
pub open spec fn kind_debug_name(k: CandidateKind) -> Seq<char> {
    match k {
        CandidateKind::BodySentence => "BodySentence"@,
        CandidateKind::Heading => "Heading"@,
        CandidateKind::Metadata => "Metadata"@,
        CandidateKind::Reference => "Reference"@,
        CandidateKind::FormulaOrTable => "FormulaOrTable"@,
        CandidateKind::ShortFragment => "ShortFragment"@,
        CandidateKind::Unknown => "Unknown"@,
    }
}

pub fn debug_kind_name(k: CandidateKind) -> (r: &'static str)
    ensures
        r@ == kind_debug_name(k),
{
    match k {
        CandidateKind::BodySentence => "BodySentence",
        CandidateKind::Heading => "Heading",
        CandidateKind::Metadata => "Metadata",
        CandidateKind::Reference => "Reference",
        CandidateKind::FormulaOrTable => "FormulaOrTable",
        CandidateKind::ShortFragment => "ShortFragment",
        CandidateKind::Unknown => "Unknown",
    }
}

/// The message for a validation issue, given as plain values.
pub open spec fn issue_text(v: (IssueKind, Seq<char>, Seq<char>, Seq<char>, Option<CandidateKind>)) -> Seq<char> {
    match v.0 {
        IssueKind::DuplicateSentence => "duplicate sentence_id "@ + v.1,
        IssueKind::UnknownSentence => "unknown sentence_id "@ + v.1,
        IssueKind::InvalidPriority => v.1 + " has invalid expected_priority"@,
        IssueKind::InvalidDirective => v.1 + " has invalid expected_directive"@,
        IssueKind::EmptyReason => v.1 + " has an empty reason"@,
        IssueKind::InvalidValue => v.1 + " has invalid "@ + v.2 + " '"@ + v.3 + "'"@,
        IssueKind::NonBody => v.1 + " targets "@ + match v.4 {
            Some(k) => kind_debug_name(k),
            None => Seq::empty(),
        } + "; set allow_non_body=true only when intentional"@,
    }
}

/// The message for a page with `count` highlights.
pub open spec fn crowded_text(page: nat, count: nat) -> Seq<char> {
    "page "@ + decimal(page) + " has "@ + decimal(count) + " highlights"@
}

/// The message for a body sentence without a label.
pub open spec fn missing_text(id: Seq<char>) -> Seq<char> {
    "missing body candidate "@ + id
}

/// The message for a finding, given as plain values (an issue finding has
/// its own message, [`issue_text`]).
pub open spec fn finding_text(v: (FindingKind, Seq<char>, nat, nat, Option<CandidateKind>)) -> Seq<char> {
    match v.0 {
        FindingKind::Issue => Seq::empty(),
        FindingKind::DeltaWithoutReason => v.1 + " is a delta with an empty reason"@,
        FindingKind::VeryShortDelta => v.1 + " is a very short delta ("@ + decimal(v.2) + " chars)"@,
        FindingKind::NonBodyDelta => v.1 + " labels "@ + match v.4 {
            Some(k) => kind_debug_name(k),
            None => Seq::empty(),
        } + " as delta"@,
        FindingKind::CrowdedPage => crowded_text(v.2, v.3),
        FindingKind::MissingBody => missing_text(v.1),
    }
}

fn text_of(parts: &[&str]) -> (r: Vec<char>)
    ensures
        r@ == parts@.fold_left(Seq::<char>::empty(), |acc: Seq<char>, s: &str| acc + s@),
{
    let mut r: Vec<char> = Vec::new();
    let mut i: usize = 0;
    while i < parts.len()
        invariant
            i <= parts@.len(),
            r@ == parts@.take(i as int).fold_left(Seq::<char>::empty(), |acc: Seq<char>, s: &str| acc + s@),
        decreases parts@.len() - i,
    {
        let c = chars_of(parts[i]);
        extend_chars(&mut r, c.as_slice());
        assert(parts@.take(i + 1).drop_last() =~= parts@.take(i as int));
        i = i + 1;
    }
    assert(parts@.take(i as int) =~= parts@);
    r
}

/// The message of a validation issue.
pub fn issue_message(issue: &LabelIssue) -> (r: String)
    ensures
        r@ == issue_text(issue_view(*issue)),
{
    let r = match issue {
        LabelIssue::DuplicateSentence(id) => text_of(&["duplicate sentence_id ", id.as_str()]),
        LabelIssue::UnknownSentence(id) => text_of(&["unknown sentence_id ", id.as_str()]),
        LabelIssue::InvalidPriority(id) => text_of(&[id.as_str(), " has invalid expected_priority"]),
        LabelIssue::InvalidDirective(id) => text_of(&[id.as_str(), " has invalid expected_directive"]),
        LabelIssue::EmptyReason(id) => text_of(&[id.as_str(), " has an empty reason"]),
        LabelIssue::InvalidValue { sentence_id, field, value } => text_of(
            &[sentence_id.as_str(), " has invalid ", *field, " '", value.as_str(), "'"],
        ),
        LabelIssue::NonBody { sentence_id, kind } => text_of(
            &[
                sentence_id.as_str(),
                " targets ",
                debug_kind_name(*kind),
                "; set allow_non_body=true only when intentional",
            ],
        ),
    };
    proof {
        reveal_with_fuel(Seq::fold_left, 7);
    }
    string_from_chars(r.as_slice())
}

fn crowded_message(page: usize, count: usize) -> (r: String)
    ensures
        r@ == crowded_text(page as nat, count as nat),
{
    let mut r = chars_of("page ");
    extend_chars(&mut r, decimal_chars(page).as_slice());
    extend_chars(&mut r, chars_of(" has ").as_slice());
    extend_chars(&mut r, decimal_chars(count).as_slice());
    extend_chars(&mut r, chars_of(" highlights").as_slice());
    string_from_chars(r.as_slice())
}

/// The message of a finding.
pub fn finding_message(f: &ReviewFinding) -> (r: String)
    ensures
        *f matches ReviewFinding::Issue(i) ==> r@ == issue_text(issue_view(i)),
        !(f is Issue) ==> r@ == finding_text(finding_view(*f)),
{
    match f {
        ReviewFinding::Issue(i) => issue_message(i),
        ReviewFinding::DeltaWithoutReason(id) => {
            let r = text_of(&[id.as_str(), " is a delta with an empty reason"]);
            proof {
                reveal_with_fuel(Seq::fold_left, 3);
            }
            string_from_chars(r.as_slice())
        },
        ReviewFinding::VeryShortDelta(id, n) => {
            let mut r = chars_of(id.as_str());
            extend_chars(&mut r, chars_of(" is a very short delta (").as_slice());
            extend_chars(&mut r, decimal_chars(*n).as_slice());
            extend_chars(&mut r, chars_of(" chars)").as_slice());
            string_from_chars(r.as_slice())
        },
        ReviewFinding::NonBodyDelta(id, k) => {
            let r = text_of(&[id.as_str(), " labels ", debug_kind_name(*k), " as delta"]);
            proof {
                reveal_with_fuel(Seq::fold_left, 5);
            }
            string_from_chars(r.as_slice())
        },
        ReviewFinding::CrowdedPage(p, n) => crowded_message(*p, *n),
        ReviewFinding::MissingBody(id) => {
            let r = text_of(&["missing body candidate ", id.as_str()]);
            proof {
                reveal_with_fuel(Seq::fold_left, 3);
            }
            string_from_chars(r.as_slice())
        },
    }
}


// ---------------------------------------------------------------------------
// Sorting and collecting the messages
// ---------------------------------------------------------------------------

proof fn lemma_filter_member(s: Seq<Seq<char>>, x: Seq<char>)
    requires
        s.filter(|y: Seq<char>| y.len() > 0).contains(x),
    ensures
        s.contains(x),
        x.len() > 0,
    decreases s.len(),
{
    reveal(Seq::filter);
    let f = |y: Seq<char>| y.len() > 0;
    if s.len() > 0 {
        let sub = s.drop_last().filter(f);
        if sub.contains(x) {
            lemma_filter_member(s.drop_last(), x);
            let t = choose|t: int| 0 <= t < s.drop_last().len() && s.drop_last()[t] == x;
            assert(s[t] == x);
        } else {
            let out = s.filter(f);
            let t = choose|t: int| 0 <= t < out.len() && out[t] == x;
            if f(s.last()) {
                assert(out == sub.push(s.last()));
                if t < sub.len() {
                    assert(sub[t] == x);
                }
                assert(s[s.len() - 1] == x);
            } else {
                assert(out == sub);
            }
        }
    }
}

/// The distinct non-empty values, in ascending order.
pub fn sorted_unique(values: &[String]) -> (r: Vec<String>)
    ensures
        forall|x: Seq<char>| string_views(r@).contains(x) <==> (string_views(values@).contains(x) && x.len() > 0),
        forall|a: int, b: int| 0 <= a < b < r@.len() ==> seq_lt(r@[a]@, r@[b]@),
{
    let counted = count_values(values);
    let mut r: Vec<String> = Vec::new();
    let mut k: usize = 0;
    while k < counted.len()
        invariant
            k <= counted@.len(),
            r@.len() == k,
            forall|q: int| 0 <= q < k ==> (#[trigger] r@[q])@ == counted@[q].0@,
        decreases counted@.len() - k,
    {
        r.push(counted[k].0.clone());
        k = k + 1;
    }
    proof {
        let cv = count_views(counted@);
        let sv = string_views(values@);
        let f = |y: Seq<char>| y.len() > 0;
        assert(is_value_count(cv, sv));
        assert forall|x: Seq<char>| string_views(r@).contains(x) <==> (sv.contains(x) && x.len() > 0) by {
            if string_views(r@).contains(x) {
                let q = choose|q: int| 0 <= q < r@.len() && string_views(r@)[q] == x;
                assert(cv[q].0 == x);
                assert(sv.filter(f).contains(x));
                lemma_filter_member(sv, x);
            }
            if sv.contains(x) && x.len() > 0 {
                let t = choose|t: int| 0 <= t < sv.len() && sv[t] == x;
                sv.lemma_filter_contains(f, t);
                let q = choose|q: int| 0 <= q < cv.len() && cv[q].0 == x;
                assert(string_views(r@)[q] == x);
            }
        }
        assert forall|a: int, b: int| 0 <= a < b < r@.len() implies seq_lt(r@[a]@, r@[b]@) by {
            assert(cv[a].0 == r@[a]@ && cv[b].0 == r@[b]@);
        }
    }
    r
}

/// The message for each page count above the limit, in order.
pub open spec fn crowded_seq(s: Seq<(usize, usize)>) -> Seq<Seq<char>>
    decreases s.len(),
{
    if s.len() == 0 {
        Seq::empty()
    } else if s.last().1 > HIGHLIGHTS_PER_PAGE_LIMIT {
        crowded_seq(s.drop_last()).push(crowded_text(s.last().0 as nat, s.last().1 as nat))
    } else {
        crowded_seq(s.drop_last())
    }
}

/// Whether `x` is the message of a page with more highlights than the limit.
pub open spec fn crowded_has(pages: Seq<usize>, x: Seq<char>) -> bool {
    exists|p: usize|
        page_occurrences(pages, p) > HIGHLIGHTS_PER_PAGE_LIMIT && x == crowded_text(
            p as nat,
            #[trigger] page_occurrences(pages, p),
        )
}

/// Every message of the label review: the validation issues, the findings
/// of each label, the pages with too many highlights and the body sentences
/// without a label.
pub open spec fn suspicious_texts(c: Seq<CandidateExport>, l: Seq<ManualGoldLabel>) -> Set<Seq<char>> {
    let n = l.len() as int;
    Set::new(
        |x: Seq<char>|
            label_issues_of(c, l, n).map_values(
                |v: (IssueKind, Seq<char>, Seq<char>, Seq<char>, Option<CandidateKind>)| issue_text(v),
            ).contains(x) || all_label_findings(c, l, n).map_values(
                |v: (FindingKind, Seq<char>, nat, nat, Option<CandidateKind>)| finding_text(v),
            ).contains(x) || crowded_has(highlight_pages(c, l, n), x) || missing_body(c, l).map_values(
                |id: Seq<char>| missing_text(id),
            ).contains(x),
    )
}

pub(crate) proof fn lemma_concat_contains<T>(a: Seq<T>, b: Seq<T>, x: T)
    ensures
        (a + b).contains(x) <==> (a.contains(x) || b.contains(x)),
{
    if (a + b).contains(x) {
        let t = choose|t: int| 0 <= t < (a + b).len() && (a + b)[t] == x;
        if t < a.len() {
            assert(a[t] == x);
        } else {
            assert(b[t - a.len()] == x);
        }
    }
    if a.contains(x) {
        let t = choose|t: int| 0 <= t < a.len() && a[t] == x;
        assert((a + b)[t] == x);
    }
    if b.contains(x) {
        let t = choose|t: int| 0 <= t < b.len() && b[t] == x;
        assert((a + b)[a.len() + t] == x);
    }
}

proof fn lemma_crowded_seq(s: Seq<(usize, usize)>, x: Seq<char>)
    ensures
        crowded_seq(s).contains(x) <==> exists|k: int|
            0 <= k < s.len() && (#[trigger] s[k]).1 > HIGHLIGHTS_PER_PAGE_LIMIT && x == crowded_text(
                s[k].0 as nat,
                s[k].1 as nat,
            ),
    decreases s.len(),
{
    if s.len() > 0 {
        let d = s.drop_last();
        lemma_crowded_seq(d, x);
        if crowded_seq(s).contains(x) {
            let t = choose|t: int| 0 <= t < crowded_seq(s).len() && crowded_seq(s)[t] == x;
            if t < crowded_seq(d).len() {
                assert(crowded_seq(d)[t] == x);
                let k = choose|k: int|
                    0 <= k < d.len() && (#[trigger] d[k]).1 > HIGHLIGHTS_PER_PAGE_LIMIT && x == crowded_text(
                        d[k].0 as nat,
                        d[k].1 as nat,
                    );
                assert(s[k] == d[k]);
            } else {
                assert(s[s.len() - 1] == s.last());
            }
        }
        if exists|k: int|
            0 <= k < s.len() && (#[trigger] s[k]).1 > HIGHLIGHTS_PER_PAGE_LIMIT && x == crowded_text(
                s[k].0 as nat,
                s[k].1 as nat,
            ) {
            let k = choose|k: int|
                0 <= k < s.len() && (#[trigger] s[k]).1 > HIGHLIGHTS_PER_PAGE_LIMIT && x == crowded_text(
                    s[k].0 as nat,
                    s[k].1 as nat,
                );
            if k < d.len() {
                assert(d[k] == s[k]);
                let t = choose|t: int| 0 <= t < crowded_seq(d).len() && crowded_seq(d)[t] == x;
                assert(crowded_seq(s)[t] == x);
            } else {
                assert(crowded_seq(s)[crowded_seq(s).len() - 1] == x);
            }
        }
    }
}

proof fn lemma_crowded_pages(pc: Seq<(usize, usize)>, pages: Seq<usize>, x: Seq<char>)
    requires
        is_page_count(pc, pages),
    ensures
        crowded_seq(pc).contains(x) <==> crowded_has(pages, x),
{
    lemma_crowded_seq(pc, x);
    if crowded_seq(pc).contains(x) {
        let k = choose|k: int|
            0 <= k < pc.len() && (#[trigger] pc[k]).1 > HIGHLIGHTS_PER_PAGE_LIMIT && x == crowded_text(
                pc[k].0 as nat,
                pc[k].1 as nat,
            );
        assert(pc[k].1 == page_occurrences(pages, pc[k].0));
    }
    if crowded_has(pages, x) {
        let p = choose|p: usize|
            page_occurrences(pages, p) > HIGHLIGHTS_PER_PAGE_LIMIT && x == crowded_text(
                p as nat,
                #[trigger] page_occurrences(pages, p),
            );
        if !pages.contains(p) {
            lemma_page_occurrences_absent(pages, p);
        }
        let k = choose|k: int| 0 <= k < pc.len() && pc[k].0 == p;
        assert(pc[k].1 == page_occurrences(pages, pc[k].0));
    }
}

proof fn lemma_no_issue_findings(c: Seq<CandidateExport>, l: Seq<ManualGoldLabel>, n: int)
    ensures
        forall|k: int|
            0 <= k < all_label_findings(c, l, n).len() ==> (#[trigger] all_label_findings(c, l, n)[k]).0
                != FindingKind::Issue,
    decreases n,
{
    if n > 0 {
        lemma_no_issue_findings(c, l, n - 1);
        let prev = all_label_findings(c, l, n - 1);
        let add = crate::fixture::label_findings(c, l[n - 1]);
        assert(all_label_findings(c, l, n) == prev + add);
        assert forall|k: int| 0 <= k < (prev + add).len() implies (#[trigger] (prev + add)[k]).0
            != FindingKind::Issue by {
            if k < prev.len() {
                assert((prev + add)[k] == prev[k]);
            } else {
                assert((prev + add)[k] == add[k - prev.len()]);
            }
        }
    }
}

proof fn lemma_texts_nonempty()
    ensures
        forall|v: (IssueKind, Seq<char>, Seq<char>, Seq<char>, Option<CandidateKind>)| #[trigger] issue_text(v).len() > 0,
        forall|v: (FindingKind, Seq<char>, nat, nat, Option<CandidateKind>)|
            v.0 != FindingKind::Issue ==> #[trigger] finding_text(v).len() > 0,
        forall|p: nat, n: nat| #[trigger] crowded_text(p, n).len() > 0,
        forall|id: Seq<char>| #[trigger] missing_text(id).len() > 0,
{
    reveal_strlit("duplicate sentence_id ");
    reveal_strlit("unknown sentence_id ");
    reveal_strlit(" has invalid expected_priority");
    reveal_strlit(" has invalid expected_directive");
    reveal_strlit(" has an empty reason");
    reveal_strlit("'");
    reveal_strlit("; set allow_non_body=true only when intentional");
    reveal_strlit(" is a delta with an empty reason");
    reveal_strlit(" chars)");
    reveal_strlit(" as delta");
    reveal_strlit(" highlights");
    reveal_strlit("missing body candidate ");
}

/// The messages of the label review, sorted and without repeats.
pub fn suspicious_labels(candidates: &[CandidateExport], labels: &[ManualGoldLabel]) -> (r: Vec<String>)
    ensures
        forall|x: Seq<char>| string_views(r@).contains(x) <==> suspicious_texts(candidates@, labels@).contains(x),
        forall|a: int, b: int| 0 <= a < b < r@.len() ==> seq_lt(r@[a]@, r@[b]@),
{
    let ghost n = labels@.len() as int;
    let ghost iv = label_issues_of(candidates@, labels@, n);
    let ghost fv = all_label_findings(candidates@, labels@, n);
    let ghost it = |v: (IssueKind, Seq<char>, Seq<char>, Seq<char>, Option<CandidateKind>)| issue_text(v);
    let ghost ft = |v: (FindingKind, Seq<char>, nat, nat, Option<CandidateKind>)| finding_text(v);
    let ghost mt = |id: Seq<char>| missing_text(id);

    let issues = label_issues(candidates, labels);
    let mut msgs: Vec<String> = Vec::new();
    let mut i: usize = 0;
    while i < issues.len()
        invariant
            i <= issues@.len(),
            issue_views(issues@) == iv,
            it == (|v: (IssueKind, Seq<char>, Seq<char>, Seq<char>, Option<CandidateKind>)| issue_text(v)),
            string_views(msgs@) == iv.take(i as int).map_values(it),
        decreases issues@.len() - i,
    {
        let m = issue_message(&issues[i]);
        assert(iv[i as int] == issue_view(issues@[i as int]));
        let ghost before = string_views(msgs@);
        let ghost text = m@;
        msgs.push(m);
        assert(string_views(msgs@) =~= before.push(text));
        assert(iv.take(i + 1).map_values(it) =~= iv.take(i as int).map_values(it).push(it(iv[i as int])));
        i = i + 1;
        assert(string_views(msgs@) =~= iv.take(i as int).map_values(it));
    }
    assert(iv.take(i as int) =~= iv);
    let ghost a = string_views(msgs@);

    let findings = review_label_findings(candidates, labels);
    proof {
        lemma_no_issue_findings(candidates@, labels@, n);
    }
    let mut j: usize = 0;
    while j < findings.len()
        invariant
            j <= findings@.len(),
            finding_views(findings@) == fv,
            forall|k: int| 0 <= k < fv.len() ==> (#[trigger] fv[k]).0 != FindingKind::Issue,
            ft == (|v: (FindingKind, Seq<char>, nat, nat, Option<CandidateKind>)| finding_text(v)),
            string_views(msgs@) == a + fv.take(j as int).map_values(ft),
        decreases findings@.len() - j,
    {
        assert(fv[j as int] == finding_view(findings@[j as int]));
        let m = finding_message(&findings[j]);
        let ghost before = string_views(msgs@);
        let ghost text = m@;
        msgs.push(m);
        assert(string_views(msgs@) =~= before.push(text));
        assert(fv.take(j + 1).map_values(ft) =~= fv.take(j as int).map_values(ft).push(ft(fv[j as int])));
        j = j + 1;
        assert(string_views(msgs@) =~= a + fv.take(j as int).map_values(ft));
    }
    assert(fv.take(j as int) =~= fv);
    let ghost b = string_views(msgs@);

    let hp = highlight_label_pages(candidates, labels);
    let pc = count_pages(hp.as_slice());
    let mut k: usize = 0;
    while k < pc.len()
        invariant
            k <= pc@.len(),
            string_views(msgs@) == b + crowded_seq(pc@.take(k as int)),
        decreases pc@.len() - k,
    {
        assert(pc@.take(k + 1).drop_last() =~= pc@.take(k as int));
        assert(pc@.take(k + 1).last() == pc@[k as int]);
        let (page, count) = pc[k];
        let ghost before = string_views(msgs@);
        if count > HIGHLIGHTS_PER_PAGE_LIMIT {
            let m = crowded_message(page, count);
            let ghost text = m@;
            msgs.push(m);
            assert(string_views(msgs@) =~= before.push(text));
        }
        k = k + 1;
        assert(string_views(msgs@) =~= b + crowded_seq(pc@.take(k as int)));
    }
    assert(pc@.take(k as int) =~= pc@);
    let ghost c3 = string_views(msgs@);

    let missing = missing_body_candidates(candidates, labels);
    let ghost mb = missing_body(candidates@, labels@);
    assert(string_views(missing@) =~= mb);
    let mut q: usize = 0;
    while q < missing.len()
        invariant
            q <= missing@.len(),
            string_views(missing@) == mb,
            mt == (|id: Seq<char>| missing_text(id)),
            string_views(msgs@) == c3 + mb.take(q as int).map_values(mt),
        decreases missing@.len() - q,
    {
        let mut m = chars_of("missing body candidate ");
        extend_chars(&mut m, chars_of(missing[q].as_str()).as_slice());
        assert(mb[q as int] == missing@[q as int]@);
        let ghost before = string_views(msgs@);
        let s = string_from_chars(m.as_slice());
        let ghost text = s@;
        msgs.push(s);
        assert(string_views(msgs@) =~= before.push(text));
        assert(mb.take(q + 1).map_values(mt) =~= mb.take(q as int).map_values(mt).push(mt(mb[q as int])));
        q = q + 1;
        assert(string_views(msgs@) =~= c3 + mb.take(q as int).map_values(mt));
    }
    assert(mb.take(q as int) =~= mb);
    let ghost all = string_views(msgs@);
    proof {
        lemma_texts_nonempty();
        let am = iv.map_values(it);
        let bm = fv.map_values(ft);
        let cm = crowded_seq(pc@);
        let dm = mb.map_values(mt);
        assert(all == am + bm + cm + dm);
        assert forall|x: Seq<char>| all.contains(x) <==> suspicious_texts(candidates@, labels@).contains(x) by {
            lemma_concat_contains(am + bm + cm, dm, x);
            lemma_concat_contains(am + bm, cm, x);
            lemma_concat_contains(am, bm, x);
            lemma_crowded_pages(pc@, hp@, x);
        }
        assert forall|x: Seq<char>| all.contains(x) implies x.len() > 0 by {
            lemma_concat_contains(am + bm + cm, dm, x);
            lemma_concat_contains(am + bm, cm, x);
            lemma_concat_contains(am, bm, x);
            lemma_crowded_seq(pc@, x);
            if am.contains(x) {
                let t = choose|t: int| 0 <= t < am.len() && am[t] == x;
                assert(x == issue_text(iv[t]));
            }
            if bm.contains(x) {
                let t = choose|t: int| 0 <= t < bm.len() && bm[t] == x;
                assert(x == finding_text(fv[t]));
            }
            if dm.contains(x) {
                let t = choose|t: int| 0 <= t < dm.len() && dm[t] == x;
                assert(x == missing_text(mb[t]));
            }
        }
    }
    sorted_unique(msgs.as_slice())
}

// ---------------------------------------------------------------------------
// Pages and counts of the labels
// ---------------------------------------------------------------------------

/// The page, as decimal text, of the candidate of each label that has one,
/// in label order.
pub open spec fn labeled_pages(c: Seq<CandidateExport>, l: Seq<ManualGoldLabel>) -> Seq<Seq<char>>
    decreases l.len(),
{
    if l.len() == 0 {
        Seq::empty()
    } else {
        let prev = labeled_pages(c, l.drop_last());
        match last_export(c, l.last().sentence_id@) {
            Some(i) => prev.push(decimal(c[i].page as nat)),
            None => prev,
        }
    }
}

/// The page of each label's candidate, as decimal text, in label order.
pub fn labeled_page_names(candidates: &[CandidateExport], labels: &[ManualGoldLabel]) -> (r: Vec<String>)
    ensures
        string_views(r@) == labeled_pages(candidates@, labels@),
{
    let mut r: Vec<String> = Vec::new();
    let mut i: usize = 0;
    while i < labels.len()
        invariant
            i <= labels@.len(),
            string_views(r@) == labeled_pages(candidates@, labels@.take(i as int)),
        decreases labels@.len() - i,
    {
        assert(labels@.take(i + 1).drop_last() =~= labels@.take(i as int));
        assert(labels@.take(i + 1).last() == labels@[i as int]);
        let ghost id = labels@[i as int].sentence_id@;
        match find_last_export(candidates, labels[i].sentence_id.as_str()) {
            Some(c) => {
                let d = decimal_chars(candidates[c].page);
                let ghost before = string_views(r@);
                let s = string_from_chars(d.as_slice());
                let ghost text = s@;
                r.push(s);
                assert(string_views(r@) =~= before.push(text));
                proof {
                    lemma_last_export(candidates@, id);
                    let nc = candidates@.len();
                    match last_export(candidates@, id) {
                        Some(x) => {
                            assert(0 <= x < nc);
                            assert(x == c as int);
                        },
                        None => {},
                    }
                }
            },
            None => {
                assert(last_export(candidates@, id) is None);
            },
        }
        i = i + 1;
        assert(string_views(r@) =~= labeled_pages(candidates@, labels@.take(i as int)));
    }
    assert(labels@.take(i as int) =~= labels@);
    r
}

/// How many of the values equal `key`.
pub fn count_equal(values: &[String], key: &str) -> (r: usize)
    ensures
        r == crate::keywords::occurrences(string_views(values@), key@),
{
    let k = chars_of(key);
    let mut r: usize = 0;
    let mut i: usize = 0;
    while i < values.len()
        invariant
            i <= values@.len(),
            k@ == key@,
            r <= i,
            r == crate::keywords::occurrences(string_views(values@).take(i as int), key@),
        decreases values@.len() - i,
    {
        assert(string_views(values@).take(i + 1).drop_last() =~= string_views(values@).take(i as int));
        if crate::text::chars_eq(chars_of(values[i].as_str()).as_slice(), k.as_slice()) {
            r = r + 1;
        }
        i = i + 1;
    }
    assert(string_views(values@).take(i as int) =~= string_views(values@));
    r
}


// ---------------------------------------------------------------------------
// The candidate sheet, page by page
// ---------------------------------------------------------------------------

/// The positions of the pages equal to `p`, in order.
pub open spec fn positions_on(pages: Seq<usize>, p: usize) -> Seq<int>
    decreases pages.len(),
{
    if pages.len() == 0 {
        Seq::empty()
    } else if pages.last() == p {
        positions_on(pages.drop_last(), p).push(pages.len() - 1)
    } else {
        positions_on(pages.drop_last(), p)
    }
}

/// The page of each exported candidate.
pub open spec fn export_pages(c: Seq<CandidateExport>) -> Seq<usize> {
    Seq::new(c.len(), |i: int| c[i].page)
}

/// Whether `r` lists each distinct page once, in ascending order, with the
/// positions of its candidates in order.
pub open spec fn is_page_grouping(r: Seq<(usize, Seq<int>)>, pages: Seq<usize>) -> bool {
    &&& forall|p: usize| (exists|k: int| 0 <= k < r.len() && r[k].0 == p) <==> pages.contains(p)
    &&& forall|a: int, b: int| 0 <= a < b < r.len() ==> r[a].0 < r[b].0
    &&& forall|k: int| 0 <= k < r.len() ==> (#[trigger] r[k]).1 == positions_on(pages, r[k].0)
}

pub open spec fn group_views(r: Seq<(usize, Vec<usize>)>) -> Seq<(usize, Seq<int>)> {
    r.map_values(|g: (usize, Vec<usize>)| (g.0, g.1@.map_values(|i: usize| i as int)))
}

/// The positions of the pages equal to `p`.
fn positions_of_page(pages: &[usize], p: usize) -> (r: Vec<usize>)
    ensures
        r@.map_values(|i: usize| i as int) == positions_on(pages@, p),
{
    let mut r: Vec<usize> = Vec::new();
    let mut i: usize = 0;
    while i < pages.len()
        invariant
            i <= pages@.len(),
            r@.map_values(|x: usize| x as int) == positions_on(pages@.take(i as int), p),
        decreases pages@.len() - i,
    {
        assert(pages@.take(i + 1).drop_last() =~= pages@.take(i as int));
        let ghost before = r@;
        if pages[i] == p {
            r.push(i);
            assert(r@ =~= before.push(i));
            assert(r@.map_values(|x: usize| x as int) =~= before.map_values(|x: usize| x as int).push(i as int));
        }
        i = i + 1;
    }
    assert(pages@.take(i as int) =~= pages@);
    r
}

/// The exported candidates grouped by page: each page once, in ascending
/// order, with the positions of its candidates in sheet order.
pub fn candidates_by_page(candidates: &[CandidateExport]) -> (r: Vec<(usize, Vec<usize>)>)
    ensures
        is_page_grouping(group_views(r@), export_pages(candidates@)),
{
    let mut pages: Vec<usize> = Vec::new();
    let mut i: usize = 0;
    while i < candidates.len()
        invariant
            i <= candidates@.len(),
            pages@ == export_pages(candidates@).take(i as int),
        decreases candidates@.len() - i,
    {
        pages.push(candidates[i].page);
        i = i + 1;
        assert(pages@ =~= export_pages(candidates@).take(i as int));
    }
    assert(pages@ =~= export_pages(candidates@));
    let keys = count_pages(pages.as_slice());
    let mut r: Vec<(usize, Vec<usize>)> = Vec::new();
    let mut k: usize = 0;
    while k < keys.len()
        invariant
            k <= keys@.len(),
            r@.len() == k,
            forall|q: int| 0 <= q < k ==> (#[trigger] group_views(r@)[q]) == (keys@[q].0, positions_on(pages@, keys@[q].0)),
        decreases keys@.len() - k,
    {
        let key = keys[k].0;
        let group = positions_of_page(pages.as_slice(), key);
        let ghost before = r@;
        r.push((key, group));
        proof {
            assert forall|q: int| 0 <= q < k + 1 implies (#[trigger] group_views(r@)[q]) == (keys@[q].0, positions_on(pages@, keys@[q].0)) by {
                if q < k {
                    assert(r@[q] == before[q]);
                    assert(group_views(before)[q] == (keys@[q].0, positions_on(pages@, keys@[q].0)));
                }
            }
        }
        k = k + 1;
    }
    proof {
        let g = group_views(r@);
        assert forall|p: usize| (exists|q: int| 0 <= q < g.len() && g[q].0 == p) <==> pages@.contains(p) by {
            if exists|q: int| 0 <= q < g.len() && g[q].0 == p {
                let q = choose|q: int| 0 <= q < g.len() && g[q].0 == p;
                assert(keys@[q].0 == p);
            }
            if pages@.contains(p) {
                let q = choose|q: int| 0 <= q < keys@.len() && keys@[q].0 == p;
                assert(g[q].0 == p);
            }
        }
        assert forall|a: int, b: int| 0 <= a < b < g.len() implies g[a].0 < g[b].0 by {
            assert(g[a].0 == keys@[a].0 && g[b].0 == keys@[b].0);
        }
    }
    r
}

} // verus!
