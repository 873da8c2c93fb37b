//! Canonical reading units: the sentences of each canonical page, mapped
//! back to the PDF.js text items they cover, and their classification into
//! body sentences, headings, metadata, references and the like.
use sha2::{Digest, Sha256};
use vstd::prelude::*;

use crate::models::{
    CandidateKind, CanonicalItemRange, CanonicalReadingUnit, CanonicalTextItem, CanonicalTextModel,
    CanonicalTextPage, TextQuoteSelector, CANONICAL_TEXT_SCHEMA_VERSION,
};
use crate::pdf::{are_trimmed_ranges, covers_text, is_terminal, lemma_with_trimmed_range, lemma_with_trimmed_range_covers, trimmed_range_exec, with_trimmed_range};
use crate::provider::{all_digits, is_digit};
use crate::text::{
    decimal, decimal_chars, extend_chars, is_digit_char, lemma_decimal_digits, lemma_decimal_injective,
    chars_eq, chars_eq_str, chars_of, contains_chars, contains_seq, is_alphabetic, is_uppercase,
    is_whitespace, lowercase, unicode_alphabetic, unicode_uppercase, split_at_marks, split_by, split_words,
    starts_with, starts_with_chars, string_from_chars, sub_chars, to_lowercase, trim, trim_bounds,
    trim_chars, trim_start, leading_ws, unicode_whitespace, utf16_len, utf8_len, views, words,
};

verus! {

/// UTF-16 code units of page context kept on each side of a quote.
pub const QUOTE_CONTEXT_LENGTH: usize = 32;

// ---------------------------------------------------------------------------
// Sentence spans of a page
// ---------------------------------------------------------------------------

/// Characters that may close a sentence after its final punctuation.
pub open spec fn is_closer(c: char) -> bool {
    c == '\'' || c == '"' || c == '\u{2019}' || c == '\u{201d}' || c == ')' || c == ']'
}

fn closes_sentence(c: char) -> (r: bool)
    ensures
        r == is_closer(c),
{
    c == '\'' || c == '"' || c == '\u{2019}' || c == '\u{201d}' || c == ')' || c == ']'
}

/// How many closing characters start at position `i`.
pub open spec fn closer_run(s: Seq<char>, i: int) -> nat
    decreases s.len() - i,
{
    if 0 <= i < s.len() && is_closer(s[i]) {
        1 + closer_run(s, i + 1)
    } else {
        0
    }
}

/// The trimmed sentence ranges found from position `index` on, where the
/// current sentence started at `start`, after those in `ranges`.
pub open spec fn span_scan(s: Seq<char>, start: int, index: int, ranges: Seq<(int, int)>) -> Seq<(int, int)>
    decreases s.len() - index,
{
    if index < 0 || index >= s.len() {
        with_trimmed_range(ranges, s, start, s.len() as int)
    } else {
        let e = index + 1 + closer_run(s, index + 1);
        if is_terminal(s[index]) && e <= s.len() && (e == s.len() || unicode_whitespace(s[e])) {
            span_scan(s, e, e, with_trimmed_range(ranges, s, start, e))
        } else {
            span_scan(s, start, index + 1, ranges)
        }
    }
}

/// The character ranges of the sentences of a page's normalized text.
pub open spec fn canonical_sentence_ranges(s: Seq<char>) -> Seq<(int, int)> {
    span_scan(s, 0, 0, Seq::<(int, int)>::empty())
}

proof fn lemma_span_scan_ranges(s: Seq<char>, start: int, index: int, ranges: Seq<(int, int)>)
    requires
        0 <= start <= index <= s.len(),
        are_trimmed_ranges(ranges, s, start),
    ensures
        are_trimmed_ranges(span_scan(s, start, index, ranges), s, s.len() as int),
    decreases s.len() - index,
{
    if index >= s.len() {
        lemma_with_trimmed_range(ranges, s, start, s.len() as int);
    } else {
        let e = index + 1 + closer_run(s, index + 1);
        if is_terminal(s[index]) && e <= s.len() && (e == s.len() || unicode_whitespace(s[e])) {
            lemma_with_trimmed_range(ranges, s, start, e);
            lemma_span_scan_ranges(s, e, e, with_trimmed_range(ranges, s, start, e));
        } else {
            lemma_span_scan_ranges(s, start, index + 1, ranges);
        }
    }
}

/// The sentences of a canonical page are trimmed, non-empty, disjoint
/// ranges in text order.
pub proof fn lemma_canonical_sentence_ranges_are_trimmed(s: Seq<char>)
    ensures
        are_trimmed_ranges(canonical_sentence_ranges(s), s, s.len() as int),
{
    lemma_span_scan_ranges(s, 0, 0, Seq::<(int, int)>::empty());
}

proof fn lemma_span_scan_covers(s: Seq<char>, start: int, index: int, ranges: Seq<(int, int)>)
    requires
        0 <= start <= index <= s.len(),
        covers_text(ranges, s, start),
    ensures
        covers_text(span_scan(s, start, index, ranges), s, s.len() as int),
    decreases s.len() - index,
{
    if index >= s.len() {
        lemma_with_trimmed_range_covers(ranges, s, start, s.len() as int);
    } else {
        let e = index + 1 + closer_run(s, index + 1);
        if is_terminal(s[index]) && e <= s.len() && (e == s.len() || unicode_whitespace(s[e])) {
            lemma_with_trimmed_range_covers(ranges, s, start, e);
            lemma_span_scan_covers(s, e, e, with_trimmed_range(ranges, s, start, e));
        } else {
            lemma_span_scan_covers(s, start, index + 1, ranges);
        }
    }
}

/// Every character of a canonical page other than white space belongs to
/// one of its sentences.
pub proof fn lemma_canonical_sentences_cover_text(s: Seq<char>)
    ensures
        covers_text(canonical_sentence_ranges(s), s, s.len() as int),
{
    lemma_span_scan_covers(s, 0, 0, Seq::<(int, int)>::empty());
}

/// A sentence of a page, in UTF-8 byte offsets and UTF-16 (normalized)
/// offsets of the page text.
#[derive(Clone, Copy, Debug)]
pub struct SentenceSpan {
    pub byte_start: usize,
    pub byte_end: usize,
    pub norm_start: usize,
    pub norm_end: usize,
}

/// Whether `span` is the character range `range` of `s` in byte and UTF-16
/// offsets.
pub open spec fn is_span_of(span: SentenceSpan, s: Seq<char>, range: (int, int)) -> bool {
    &&& span.byte_start == utf8_len(s.take(range.0))
    &&& span.byte_end == utf8_len(s.take(range.1))
    &&& span.norm_start == utf16_len(s.take(range.0))
    &&& span.norm_end == utf16_len(s.take(range.1))
}

pub open spec fn are_spans_of(spans: Seq<SentenceSpan>, s: Seq<char>, ranges: Seq<(int, int)>) -> bool {
    &&& spans.len() == ranges.len()
    &&& forall|k: int| 0 <= k < spans.len() ==> is_span_of(#[trigger] spans[k], s, ranges[k])
}

/// Offsets before each character and at the end: `r[k]` is the UTF-8 length
/// (`utf16` false) or UTF-16 length (`utf16` true) of the first `k`
/// characters.
fn prefix_lengths(v: &[char], utf16: bool) -> (r: Vec<usize>)
    requires
        4 * v@.len() <= usize::MAX,
    ensures
        r@.len() == v@.len() + 1,
        forall|k: int|
            0 <= k <= v@.len() ==> #[trigger] r@[k] == if utf16 {
                utf16_len(v@.take(k))
            } else {
                utf8_len(v@.take(k))
            },
{
    let mut r: Vec<usize> = Vec::new();
    r.push(0);
    assert(v@.take(0) =~= Seq::<char>::empty());
    let mut n: usize = 0;
    let mut i: usize = 0;
    while i < v.len()
        invariant
            i <= v@.len(),
            4 * v@.len() <= usize::MAX,
            r@.len() == i + 1,
            n == r@[i as int],
            n <= 4 * i,
            forall|k: int|
                0 <= k <= i ==> #[trigger] r@[k] == if utf16 {
                    utf16_len(v@.take(k))
                } else {
                    utf8_len(v@.take(k))
                },
        decreases v@.len() - i,
    {
        assert(v@.take(i + 1).drop_last() =~= v@.take(i as int));
        let u = v[i] as u32;
        let w: usize = if utf16 {
            if u < 0x10000 {
                1
            } else {
                2
            }
        } else {
            if u < 0x80 {
                1
            } else if u < 0x800 {
                2
            } else if u < 0x10000 {
                3
            } else {
                4
            }
        };
        n = n + w;
        r.push(n);
        i = i + 1;
    }
    r
}

/// Ranges with integer bounds.
pub open spec fn int_ranges(r: Seq<(usize, usize)>) -> Seq<(int, int)> {
    r.map_values(|p: (usize, usize)| (p.0 as int, p.1 as int))
}

/// The character ranges of the sentences of `chars`: the text is cut after
/// each `.`, `!` or `?` (with any closing quotes or brackets) that white
/// space or the end follows, each piece is trimmed, and empty pieces are
/// dropped.
pub fn sentence_char_ranges(chars: &[char]) -> (r: Vec<(usize, usize)>)
    ensures
        int_ranges(r@) == canonical_sentence_ranges(chars@),
        forall|k: int| 0 <= k < r@.len() ==> (#[trigger] r@[k]).0 <= r@[k].1 <= chars@.len(),
{
    let ghost s = chars@;
    let mut ranges: Vec<(usize, usize)> = Vec::new();
    let mut start: usize = 0;
    let mut index: usize = 0;
    assert(int_ranges(ranges@) =~= Seq::<(int, int)>::empty());
    while index < chars.len()
        invariant
            s == chars@,
            start <= index <= s.len(),
            span_scan(s, start as int, index as int, int_ranges(ranges@)) == canonical_sentence_ranges(s),
            forall|k: int| 0 <= k < ranges@.len() ==> (#[trigger] ranges@[k]).0 <= ranges@[k].1 <= s.len(),
        decreases s.len() - index,
    {
        let c = chars[index];
        if c == '.' || c == '!' || c == '?' {
            let mut end: usize = index + 1;
            while end < chars.len() && closes_sentence(chars[end])
                invariant
                    s == chars@,
                    index + 1 <= end <= s.len(),
                    closer_run(s, index + 1) == (end - (index + 1)) + closer_run(s, end as int),
                decreases s.len() - end,
            {
                end = end + 1;
            }
            if end == chars.len() || is_whitespace(chars[end]) {
                push_range(chars, start, end, &mut ranges);
                start = end;
                index = end;
                continue;
            }
        }
        index = index + 1;
    }
    push_range(chars, start, chars.len(), &mut ranges);
    ranges
}

/// Adds the trimmed range of `chars[start..end]` when it is not empty.
fn push_range(chars: &[char], start: usize, end: usize, ranges: &mut Vec<(usize, usize)>)
    requires
        start <= end <= chars@.len(),
        forall|k: int| 0 <= k < old(ranges)@.len() ==> (#[trigger] old(ranges)@[k]).0 <= old(ranges)@[k].1 <= chars@.len(),
    ensures
        int_ranges(final(ranges)@) == with_trimmed_range(int_ranges(old(ranges)@), chars@, start as int, end as int),
        forall|k: int| 0 <= k < final(ranges)@.len() ==> (#[trigger] final(ranges)@[k]).0 <= final(ranges)@[k].1 <= chars@.len(),
{
    match trimmed_range_exec(chars, start, end) {
        Some((a, b)) => {
            let ghost before = ranges@;
            ranges.push((a, b));
            assert(int_ranges(ranges@) =~= int_ranges(before).push((a as int, b as int)));
        },
        None => {
        },
    }
}

/// The sentences of a page's normalized text as byte and UTF-16 offsets.
pub fn sentence_spans(text: &str) -> (r: Vec<SentenceSpan>)
    requires
        4 * text@.len() <= usize::MAX,
    ensures
        are_spans_of(r@, text@, canonical_sentence_ranges(text@)),
{
    let chars = chars_of(text);
    let bytes = prefix_lengths(chars.as_slice(), false);
    let units = prefix_lengths(chars.as_slice(), true);
    let ranges = sentence_char_ranges(chars.as_slice());
    let mut spans: Vec<SentenceSpan> = Vec::new();
    let mut k: usize = 0;
    while k < ranges.len()
        invariant
            k <= ranges@.len(),
            chars@ == text@,
            bytes@.len() == chars@.len() + 1,
            units@.len() == chars@.len() + 1,
            forall|j: int| 0 <= j <= chars@.len() ==> #[trigger] bytes@[j] == utf8_len(chars@.take(j)),
            forall|j: int| 0 <= j <= chars@.len() ==> #[trigger] units@[j] == utf16_len(chars@.take(j)),
            forall|j: int| 0 <= j < ranges@.len() ==> (#[trigger] ranges@[j]).0 <= ranges@[j].1 <= chars@.len(),
            int_ranges(ranges@) == canonical_sentence_ranges(chars@),
            spans@.len() == k,
            forall|j: int| 0 <= j < k ==> is_span_of(#[trigger] spans@[j], chars@, int_ranges(ranges@)[j]),
        decreases ranges@.len() - k,
    {
        let (a, b) = ranges[k];
        spans.push(
            SentenceSpan {
                byte_start: bytes[a],
                byte_end: bytes[b],
                norm_start: units[a],
                norm_end: units[b],
            },
        );
        k = k + 1;
    }
    spans
}

// ---------------------------------------------------------------------------
// Classification predicates
// ---------------------------------------------------------------------------

/// The lower-cased text as characters.
fn lower_chars(text: &[char]) -> (r: Vec<char>)
    ensures
        r@ == lowercase(text@),
{
    let s = string_from_chars(text);
    let l = to_lowercase(s.as_str());
    chars_of(l.as_str())
}

/// Whether a unit opens the reference section.
pub open spec fn reference_section_start(t: Seq<char>) -> bool {
    let l = lowercase(t);
    l == "references"@ || l == "references."@ || starts_with(l, "references ["@) || starts_with(
        l,
        "references 1."@,
    )
}

/// Whether a unit is the heading of the reference section.
pub open spec fn reference_heading(t: Seq<char>) -> bool {
    let l = lowercase(t);
    l == "references"@ || l == "references."@
}

pub fn starts_reference_section(text: &str) -> (r: bool)
    ensures
        r == reference_section_start(text@),
{
    let l = lower_chars(chars_of(text).as_slice());
    chars_eq_str(l.as_slice(), "references") || chars_eq_str(l.as_slice(), "references.")
        || starts_with_chars(l.as_slice(), chars_of("references [").as_slice())
        || starts_with_chars(l.as_slice(), chars_of("references 1.").as_slice())
}

pub fn is_reference_heading(text: &str) -> (r: bool)
    ensures
        r == reference_heading(text@),
{
    let l = lower_chars(chars_of(text).as_slice());
    chars_eq_str(l.as_slice(), "references") || chars_eq_str(l.as_slice(), "references.")
}

/// How many ASCII digits `s` starts with.
pub open spec fn leading_digits(s: Seq<char>) -> nat
    decreases s.len(),
{
    if s.len() > 0 && is_digit(s[0]) {
        1 + leading_digits(s.drop_first())
    } else {
        0
    }
}

/// Whether `p` is the position of the first `.` of `t`.
pub open spec fn is_first_dot(t: Seq<char>, p: int) -> bool {
    &&& 0 <= p < t.len()
    &&& t[p] == '.'
    &&& forall|k: int| 0 <= k < p ==> t[k] != '.'
}

/// Whether `t` has one of the quotation marks that reference titles use.
pub open spec fn has_quote_mark(t: Seq<char>) -> bool {
    t.contains('"') || t.contains('\u{201c}') || t.contains('\u{201d}')
}

/// Whether a unit reads like a bibliography entry: `[n]` at its start, or a
/// number, a dot and white space with a quoted title somewhere.
pub open spec fn reference_entry(text: Seq<char>) -> bool {
    let t = trim_start(text);
    if t.len() > 0 && t[0] == '[' {
        let rest = t.drop_first();
        let n = leading_digits(rest);
        n > 0 && n < rest.len() && rest[n as int] == ']'
    } else if exists|p: int| is_first_dot(t, p) {
        let p = choose|p: int| is_first_dot(t, p);
        let number = t.take(p);
        let rest = t.skip(p + 1);
        &&& number.len() > 0
        &&& all_digits(number)
        &&& rest.len() > 0
        &&& unicode_whitespace(rest[0])
        &&& has_quote_mark(t)
    } else {
        false
    }
}

proof fn lemma_first_dot_unique(t: Seq<char>, p: int, q: int)
    requires
        is_first_dot(t, p),
        is_first_dot(t, q),
    ensures
        p == q,
{
}

#[verifier::rlimit(40)]
pub fn is_reference_entry(text: &str) -> (r: bool)
    ensures
        r == reference_entry(text@),
{
    let all = chars_of(text);
    let (s, _) = trim_bounds(all.as_slice());
    let t = sub_chars(all.as_slice(), s, all.len());
    assert(t@ =~= trim_start(text@));
    if t.len() > 0 && t[0] == '[' {
        let ghost rest = t@.drop_first();
        assert(rest.skip(0) =~= rest);
        let mut n: usize = 1;
        while n < t.len() && t[n] as u32 >= 48 && t[n] as u32 <= 57
            invariant
                1 <= n <= t@.len(),
                rest == t@.drop_first(),
                leading_digits(rest) == (n - 1) + leading_digits(rest.skip(n - 1)),
            decreases t@.len() - n,
        {
            proof {
                assert(rest.skip(n - 1).drop_first() =~= rest.skip(n as int));
            }
            n = n + 1;
        }
        proof {
            if n < t.len() {
                assert(rest.skip(n - 1)[0] == t@[n as int]);
            }
        }
        return n > 1 && n < t.len() && t[n] == ']';
    }
    let mut p: usize = 0;
    while p < t.len() && t[p] != '.'
        invariant
            p <= t@.len(),
            forall|k: int| 0 <= k < p ==> t@[k] != '.',
        decreases t@.len() - p,
    {
        p = p + 1;
    }
    if p == t.len() {
        assert forall|q: int| !is_first_dot(t@, q) by {
            if is_first_dot(t@, q) {
                assert(t@[q] != '.');
            }
        }
        return false;
    }
    assert(is_first_dot(t@, p as int));
    proof {
        let c = choose|q: int| is_first_dot(t@, q);
        lemma_first_dot_unique(t@, p as int, c);
    }
    if p == 0 {
        return false;
    }
    let mut k: usize = 0;
    while k < p && t[k] as u32 >= 48 && t[k] as u32 <= 57
        invariant
            k <= p < t@.len(),
            forall|j: int| 0 <= j < k ==> is_digit(#[trigger] t@[j]),
        decreases p - k,
    {
        k = k + 1;
    }
    if k < p {
        assert(!is_digit(t@.take(p as int)[k as int]));
        return false;
    }
    assert(all_digits(t@.take(p as int)));
    if p + 1 >= t.len() || !is_whitespace(t[p + 1]) {
        return false;
    }
    let mut quoted = false;
    let mut j: usize = 0;
    while j < t.len() && !quoted
        invariant
            j <= t@.len(),
            quoted ==> has_quote_mark(t@),
            !quoted ==> forall|m: int| 0 <= m < j ==> t@[m] != '"' && t@[m] != '\u{201c}' && t@[m] != '\u{201d}',
        decreases t@.len() - j,
    {
        let c = t[j];
        if c == '"' || c == '\u{201c}' || c == '\u{201d}' {
            assert(t@.contains(c));
            quoted = true;
        }
        j = j + 1;
    }
    quoted
}

/// Section titles that are headings whatever their numbering.
pub open spec fn section_titles() -> Seq<Seq<char>> {
    seq![
        "abstract"@, "introduction"@, "transactions"@, "timestamp server"@, "proof-of-work"@,
        "network"@, "incentive"@, "reclaiming disk space"@, "simplified payment verification"@,
        "combining and splitting value"@, "privacy"@, "calculations"@, "conclusion"@,
    ]
}

/// `t` without its trailing dots.
pub open spec fn strip_dots(t: Seq<char>) -> Seq<char>
    decreases t.len(),
{
    if t.len() > 0 && t.last() == '.' {
        strip_dots(t.drop_last())
    } else {
        t
    }
}

/// `t` without its trailing dots and colons.
pub open spec fn strip_dots_colons(t: Seq<char>) -> Seq<char>
    decreases t.len(),
{
    if t.len() > 0 && (t.last() == '.' || t.last() == ':') {
        strip_dots_colons(t.drop_last())
    } else {
        t
    }
}

/// A section number such as `1.` or `4.2.`: digit groups separated by
/// single dots, ending with a dot.
pub open spec fn section_number(w: Seq<char>) -> bool {
    let core = strip_dots(w);
    &&& w.len() > 0
    &&& w.last() == '.'
    &&& forall|k: int| 0 <= k < dot_parts(core).len() ==> #[trigger] dot_parts(core)[k].len() > 0 && all_digits(dot_parts(core)[k])
}

/// The pieces of `s` between its dots.
pub open spec fn dot_parts(s: Seq<char>) -> Seq<Seq<char>> {
    split_by(s, |c: char| c == '.')
}

/// Whether a unit is a section heading: a known section title, or a short
/// text that starts with a section number.
pub open spec fn canonical_heading(text: Seq<char>) -> bool {
    let t = trim(text);
    let lower = lowercase(strip_dots_colons(t));
    ||| section_titles().contains(lower)
    ||| (words(t).len() > 0 && section_number(words(t)[0]) && utf16_len(t) <= 100)
}

fn section_title_list() -> (r: Vec<&'static str>)
    ensures
        r@.map_values(|s: &str| s@) == section_titles(),
{
    let mut r: Vec<&'static str> = Vec::new();
    r.push("abstract");
    r.push("introduction");
    r.push("transactions");
    r.push("timestamp server");
    r.push("proof-of-work");
    r.push("network");
    r.push("incentive");
    r.push("reclaiming disk space");
    r.push("simplified payment verification");
    r.push("combining and splitting value");
    r.push("privacy");
    r.push("calculations");
    r.push("conclusion");
    assert(r@.map_values(|s: &str| s@) =~= section_titles());
    r
}

/// The length of `v` without its trailing dots (and colons when `colon`).
fn stripped_len(v: &[char], colon: bool) -> (r: usize)
    ensures
        r <= v@.len(),
        colon ==> v@.take(r as int) == strip_dots_colons(v@),
        !colon ==> v@.take(r as int) == strip_dots(v@),
{
    let mut n: usize = v.len();
    assert(v@.take(n as int) =~= v@);
    while n > 0 && (v[n - 1] == '.' || (colon && v[n - 1] == ':'))
        invariant
            n <= v@.len(),
            colon ==> strip_dots_colons(v@.take(n as int)) == strip_dots_colons(v@),
            !colon ==> strip_dots(v@.take(n as int)) == strip_dots(v@),
        decreases n,
    {
        assert(v@.take(n as int).drop_last() =~= v@.take(n - 1));
        n = n - 1;
    }
    n
}

pub fn is_heading(text: &str) -> (r: bool)
    requires
        4 * text@.len() <= usize::MAX,
    ensures
        r == canonical_heading(text@),
{
    let t = trim_chars(chars_of(text).as_slice());
    let n = stripped_len(t.as_slice(), true);
    let label = sub_chars(t.as_slice(), 0, n);
    let lower = lower_chars(label.as_slice());
    let titles = section_title_list();
    let mut k: usize = 0;
    while k < titles.len()
        invariant
            k <= titles@.len(),
            titles@.map_values(|s: &str| s@) == section_titles(),
            forall|m: int| 0 <= m < k ==> section_titles()[m] != lower@,
            lower@ == lowercase(strip_dots_colons(trim(text@))),
        decreases titles@.len() - k,
    {
        assert(titles@[k as int]@ == section_titles()[k as int]);
        if chars_eq_str(lower.as_slice(), titles[k]) {
            assert(section_titles().contains(lower@));
            return true;
        }
        k = k + 1;
    }
    assert(!section_titles().contains(lower@));
    let ws = split_words(t.as_slice());
    if ws.len() == 0 {
        return false;
    }
    let w = &ws[0];
    assert(w@ == words(t@)[0]);
    if !(w.len() > 0 && w[w.len() - 1] == '.') {
        return false;
    }
    let cn = stripped_len(w.as_slice(), false);
    let core = sub_chars(w.as_slice(), 0, cn);
    let mut marks: Vec<bool> = Vec::new();
    let mut i: usize = 0;
    while i < core.len()
        invariant
            i <= core@.len(),
            marks@ == core@.take(i as int).map_values(|c: char| c == '.'),
        decreases core@.len() - i,
    {
        marks.push(core[i] == '.');
        i = i + 1;
        assert(marks@ =~= core@.take(i as int).map_values(|c: char| c == '.'));
    }
    assert(core@.take(i as int) =~= core@);
    let parts = split_at_marks(core.as_slice(), marks.as_slice());
    let mut q: usize = 0;
    while q < parts.len()
        invariant
            q <= parts@.len(),
            views(parts@) == dot_parts(core@),
            forall|m: int| 0 <= m < q ==> #[trigger] parts@[m]@.len() > 0 && all_digits(parts@[m]@),
            t@ == trim(text@),
            !section_titles().contains(lowercase(strip_dots_colons(trim(text@)))),
            words(t@).len() > 0,
            core@ == strip_dots(words(t@)[0]),
            words(t@)[0].len() > 0,
            words(t@)[0].last() == '.',
        decreases parts@.len() - q,
    {
        let part = &parts[q];
        if part.len() == 0 {
            assert(dot_parts(core@)[q as int].len() == 0);
            return false;
        }
        let mut d: usize = 0;
        while d < part.len() && part[d] as u32 >= 48 && part[d] as u32 <= 57
            invariant
                d <= part@.len(),
                forall|j: int| 0 <= j < d ==> is_digit(#[trigger] part@[j]),
            decreases part@.len() - d,
        {
            d = d + 1;
        }
        if d < part.len() {
            assert(!is_digit(dot_parts(core@)[q as int][d as int]));
            return false;
        }
        q = q + 1;
    }
    assert forall|m: int| 0 <= m < dot_parts(core@).len() implies #[trigger] dot_parts(core@)[m].len()
        > 0 && all_digits(dot_parts(core@)[m]) by {
        assert(parts@[m]@ == dot_parts(core@)[m]);
    }
    proof {
        crate::text::lemma_trim_idempotent_len(text@);
    }
    let units = crate::text::utf16_count(t.as_slice());
    units <= 100
}

/// Whether `w` has an alphabetic character.
pub open spec fn has_alphabetic(w: Seq<char>) -> bool {
    exists|i: int| 0 <= i < w.len() && unicode_alphabetic(#[trigger] w[i])
}

/// Whether the first alphabetic character of `w` is upper case.
pub open spec fn capitalized(w: Seq<char>) -> bool {
    exists|i: int|
        0 <= i < w.len() && unicode_alphabetic(#[trigger] w[i]) && unicode_uppercase(w[i]) && forall|
            k: int,
        | 0 <= k < i ==> !unicode_alphabetic(w[k])
}

/// Whether `t` ends with sentence punctuation.
pub open spec fn ends_sentence(t: Seq<char>) -> bool {
    t.len() > 0 && (t.last() == '.' || t.last() == '!' || t.last() == '?')
}

/// Whether a unit near the top of page one is title-page metadata: contact
/// details or a link, or a short line of mostly capitalized words without
/// sentence punctuation (title, authors).
pub open spec fn page_one_metadata(u: CanonicalReadingUnit) -> bool {
    let t = trim(u.normalized_text@);
    let lower = lowercase(t);
    let ws = words(t).filter(|w: Seq<char>| has_alphabetic(w));
    if u.page != 1 || u.norm_start > 500 {
        false
    } else if t.contains('@') || contains_seq(lower, "http://"@) || contains_seq(lower, "https://"@)
        || contains_seq(lower, "www."@) {
        true
    } else if ws.len() < 2 || ws.len() > 14 || ends_sentence(t) {
        false
    } else {
        ws.filter(|w: Seq<char>| capitalized(w)).len() * 5 >= ws.len() * 3
    }
}

/// Whether the first alphabetic character of `w` is upper case, and whether
/// `w` has one at all.
fn word_case(w: &[char]) -> (r: (bool, bool))
    ensures
        r.0 == has_alphabetic(w@),
        r.1 == capitalized(w@),
{
    let mut i: usize = 0;
    while i < w.len() && !is_alphabetic(w[i])
        invariant
            i <= w@.len(),
            forall|k: int| 0 <= k < i ==> !unicode_alphabetic(#[trigger] w@[k]),
        decreases w@.len() - i,
    {
        i = i + 1;
    }
    if i == w.len() {
        assert(!has_alphabetic(w@));
        assert(!capitalized(w@));
        return (false, false);
    }
    let up = is_uppercase(w[i]);
    proof {
        if capitalized(w@) {
            let j = choose|j: int|
                0 <= j < w@.len() && unicode_alphabetic(#[trigger] w@[j]) && unicode_uppercase(w@[j])
                    && forall|k: int| 0 <= k < j ==> !unicode_alphabetic(w@[k]);
            if j < i {
            } else if j > i {
                assert(!unicode_alphabetic(w@[i as int]));
            }
        }
    }
    (true, up)
}

pub fn is_page_one_metadata(unit: &CanonicalReadingUnit) -> (r: bool)
    ensures
        r == page_one_metadata(*unit),
{
    if unit.page != 1 || unit.norm_start > 500 {
        return false;
    }
    let t = trim_chars(chars_of(unit.normalized_text.as_str()).as_slice());
    let lower = lower_chars(t.as_slice());
    let mut at = false;
    let mut i: usize = 0;
    while i < t.len() && !at
        invariant
            i <= t@.len(),
            at ==> t@.contains('@'),
            !at ==> forall|k: int| 0 <= k < i ==> t@[k] != '@',
        decreases t@.len() - i,
    {
        if t[i] == '@' {
            assert(t@.contains(t@[i as int]));
            at = true;
        }
        i = i + 1;
    }
    if at || contains_chars(lower.as_slice(), chars_of("http://").as_slice()) || contains_chars(
        lower.as_slice(),
        chars_of("https://").as_slice(),
    ) || contains_chars(lower.as_slice(), chars_of("www.").as_slice()) {
        return true;
    }
    let all = split_words(t.as_slice());
    let ghost fa = |w: Seq<char>| has_alphabetic(w);
    let ghost fc = |w: Seq<char>| capitalized(w);
    let mut n_words: usize = 0;
    let mut n_caps: usize = 0;
    let mut k: usize = 0;
    while k < all.len()
        invariant
            k <= all@.len(),
            fa == (|w: Seq<char>| has_alphabetic(w)),
            fc == (|w: Seq<char>| capitalized(w)),
            n_words == views(all@).take(k as int).filter(fa).len(),
            n_caps == views(all@).take(k as int).filter(fa).filter(fc).len(),
            n_words <= k,
            n_caps <= n_words,
        decreases all@.len() - k,
    {
        let ghost prev = views(all@).take(k as int);
        assert(views(all@).take(k + 1) =~= prev.push(all@[k as int]@));
        reveal(Seq::filter);
        let (alpha, cap) = word_case(all[k].as_slice());
        assert(prev.push(all@[k as int]@).drop_last() =~= prev);
        if alpha {
            assert(prev.push(all@[k as int]@).filter(fa) =~= prev.filter(fa).push(all@[k as int]@));
            assert(prev.filter(fa).push(all@[k as int]@).drop_last() =~= prev.filter(fa));
            n_words = n_words + 1;
            if cap {
                n_caps = n_caps + 1;
            }
        } else {
            assert(prev.push(all@[k as int]@).filter(fa) =~= prev.filter(fa));
        }
        k = k + 1;
    }
    assert(views(all@).take(k as int) =~= views(all@));
    let ends = t.len() > 0 && (t[t.len() - 1] == '.' || t[t.len() - 1] == '!' || t[t.len() - 1]
        == '?');
    if n_words < 2 || n_words > 14 || ends {
        return false;
    }
    n_caps * 5 >= n_words * 3
}

/// Characters that count as mathematical symbols.
pub open spec fn is_math_symbol(c: char) -> bool {
    c == '=' || c == '+' || c == '\u{2212}' || c == '\u{d7}' || c == '\u{f7}' || c == '\u{2211}'
        || c == '\u{221a}' || c == '<' || c == '>' || c == '|' || c == '{' || c == '}'
}

/// How many characters of `s` satisfy `p`.
pub open spec fn count_where(s: Seq<char>, p: spec_fn(char) -> bool) -> nat
    decreases s.len(),
{
    if s.len() == 0 {
        0
    } else {
        count_where(s.drop_last(), p) + if p(s.last()) {
            1nat
        } else {
            0nat
        }
    }
}

/// Whether a unit is a table caption, or a formula: at least two math
/// symbols, and math symbols and digits making at least a quarter of its
/// visible characters.
pub open spec fn formula_or_table(text: Seq<char>) -> bool {
    let lower = lowercase(text);
    let total = count_where(text, |c: char| !unicode_whitespace(c));
    let math = count_where(text, |c: char| !unicode_whitespace(c) && is_math_symbol(c));
    let digits = count_where(text, |c: char| !unicode_whitespace(c) && is_digit(c));
    if starts_with(lower, "table "@) || starts_with(lower, "table:"@) {
        true
    } else if total == 0 {
        false
    } else {
        math >= 2 && (math + digits) * 4 >= total
    }
}

pub fn is_formula_or_table(text: &str) -> (r: bool)
    ensures
        r == formula_or_table(text@),
{
    let chars = chars_of(text);
    let lower = lower_chars(chars.as_slice());
    if starts_with_chars(lower.as_slice(), chars_of("table ").as_slice()) || starts_with_chars(
        lower.as_slice(),
        chars_of("table:").as_slice(),
    ) {
        return true;
    }
    let ghost pt = |c: char| !unicode_whitespace(c);
    let ghost pm = |c: char| !unicode_whitespace(c) && is_math_symbol(c);
    let ghost pd = |c: char| !unicode_whitespace(c) && is_digit(c);
    let mut total: usize = 0;
    let mut math: usize = 0;
    let mut digits: usize = 0;
    let mut i: usize = 0;
    while i < chars.len()
        invariant
            i <= chars@.len(),
            chars@ == text@,
            pt == (|c: char| !unicode_whitespace(c)),
            pm == (|c: char| !unicode_whitespace(c) && is_math_symbol(c)),
            pd == (|c: char| !unicode_whitespace(c) && is_digit(c)),
            total == count_where(chars@.take(i as int), pt),
            math == count_where(chars@.take(i as int), pm),
            digits == count_where(chars@.take(i as int), pd),
            total <= i,
            math <= i,
            digits <= i,
        decreases chars@.len() - i,
    {
        assert(chars@.take(i + 1).drop_last() =~= chars@.take(i as int));
        let c = chars[i];
        if !is_whitespace(c) {
            total = total + 1;
            if c == '=' || c == '+' || c == '\u{2212}' || c == '\u{d7}' || c == '\u{f7}' || c
                == '\u{2211}' || c == '\u{221a}' || c == '<' || c == '>' || c == '|' || c == '{'
                || c == '}' {
                math = math + 1;
            }
            if c as u32 >= 48 && c as u32 <= 57 {
                digits = digits + 1;
            }
        }
        i = i + 1;
    }
    assert(chars@.take(i as int) =~= chars@);
    if total == 0 {
        return false;
    }
    math >= 2 && ((math as u128) + (digits as u128)) * 4 >= total as u128
}

// ---------------------------------------------------------------------------
// Classification
// ---------------------------------------------------------------------------

/// Whether a unit before position `i` opened the reference section.
pub open spec fn references_open(units: Seq<CanonicalReadingUnit>, i: int) -> bool
    decreases i,
{
    if i <= 0 {
        false
    } else {
        references_open(units, i - 1) || reference_section_start(trim(units[i - 1].normalized_text@))
    }
}

/// The kind of the unit at position `i`, which depends on the unit and on
/// whether the reference section has started before it.
pub open spec fn canonical_kind(units: Seq<CanonicalReadingUnit>, i: int) -> CandidateKind {
    let u = units[i];
    let t = trim(u.normalized_text@);
    if reference_section_start(t) {
        if reference_heading(t) {
            CandidateKind::Heading
        } else {
            CandidateKind::Reference
        }
    } else if references_open(units, i) || reference_entry(t) {
        CandidateKind::Reference
    } else if canonical_heading(t) {
        CandidateKind::Heading
    } else if page_one_metadata(u) {
        CandidateKind::Metadata
    } else if t.len() == 0 {
        CandidateKind::Unknown
    } else if formula_or_table(t) {
        CandidateKind::FormulaOrTable
    } else if utf16_len(t) < 30 {
        CandidateKind::ShortFragment
    } else {
        CandidateKind::BodySentence
    }
}

/// Whether `new` is `old` with only its kind replaced by `kind`.
pub open spec fn with_kind(new: CanonicalReadingUnit, old: CanonicalReadingUnit, kind: CandidateKind) -> bool {
    new == CanonicalReadingUnit { candidate_kind: kind, ..old }
}

/// Sets the kind of every unit, in document order: the reference section,
/// once opened, lasts to the end.
pub fn classify_canonical_reading_units(units: &mut [CanonicalReadingUnit])
    requires
        forall|i: int| 0 <= i < old(units)@.len() ==> 4 * (#[trigger] old(units)@[i]).normalized_text@.len() <= usize::MAX,
    ensures
        final(units)@.len() == old(units)@.len(),
        forall|i: int|
            0 <= i < old(units)@.len() ==> with_kind(
                #[trigger] final(units)@[i],
                old(units)@[i],
                canonical_kind(old(units)@, i),
            ),
        is_classification(final(units)@, old(units)@),
{
    let ghost olds = units@;
    let n = units.len();
    let mut in_references = false;
    let mut i: usize = 0;
    while i < n
        invariant
            n == units@.len() == olds.len(),
            i <= n,
            forall|k: int| 0 <= k < n ==> 4 * (#[trigger] olds[k]).normalized_text@.len() <= usize::MAX,
            in_references == references_open(olds, i as int),
            forall|k: int| 0 <= k < i ==> with_kind(#[trigger] units@[k], olds[k], canonical_kind(olds, k)),
            forall|k: int| i <= k < n ==> #[trigger] units@[k] == olds[k],
        decreases n - i,
    {
        let t = trim_chars(chars_of(units[i].normalized_text.as_str()).as_slice());
        proof {
            crate::text::lemma_trim_idempotent_len(olds[i as int].normalized_text@);
        }
        let ts = string_from_chars(t.as_slice());
        let kind = if starts_reference_section(ts.as_str()) {
            if is_reference_heading(ts.as_str()) {
                CandidateKind::Heading
            } else {
                CandidateKind::Reference
            }
        } else if in_references || is_reference_entry(ts.as_str()) {
            CandidateKind::Reference
        } else if is_heading(ts.as_str()) {
            CandidateKind::Heading
        } else if is_page_one_metadata(&units[i]) {
            CandidateKind::Metadata
        } else if t.len() == 0 {
            CandidateKind::Unknown
        } else if is_formula_or_table(ts.as_str()) {
            CandidateKind::FormulaOrTable
        } else if crate::text::utf16_count(t.as_slice()) < 30 {
            CandidateKind::ShortFragment
        } else {
            CandidateKind::BodySentence
        };
        let opens = starts_reference_section(ts.as_str());
        units[i].candidate_kind = kind;
        in_references = in_references || opens;
        i = i + 1;
    }
}

/// Once a unit opens the reference section, every later unit is a reference
/// or a heading.
pub proof fn lemma_references_run_to_end(units: Seq<CanonicalReadingUnit>, i: int, j: int)
    requires
        0 <= i < j < units.len(),
        reference_section_start(trim(units[i].normalized_text@)),
    ensures
        canonical_kind(units, j) == CandidateKind::Reference || canonical_kind(units, j)
            == CandidateKind::Heading,
        references_open(units, j),
    decreases j - i,
{
    if j - 1 > i {
        lemma_references_run_to_end(units, i, j - 1);
    }
}

// ---------------------------------------------------------------------------
// Reading units of a canonical text model
// ---------------------------------------------------------------------------

/// The characters of `s` that lie wholly inside UTF-16 offsets
/// `start..end`.
pub open spec fn utf16_slice(s: Seq<char>, start: int, end: int) -> Seq<char>
    decreases s.len(),
{
    if s.len() == 0 {
        s
    } else {
        let prev = utf16_slice(s.drop_last(), start, end);
        if utf16_len(s.drop_last()) >= start && utf16_len(s) <= end {
            prev.push(s.last())
        } else {
            prev
        }
    }
}

/// The characters of `text` that lie wholly inside UTF-16 offsets
/// `start..end`.
pub fn slice_utf16(text: &str, start: usize, end: usize) -> (r: String)
    requires
        4 * text@.len() <= usize::MAX,
    ensures
        r@ == utf16_slice(text@, start as int, end as int),
{
    let chars = chars_of(text);
    let mut out: Vec<char> = Vec::new();
    let mut offset: usize = 0;
    let mut i: usize = 0;
    while i < chars.len()
        invariant
            i <= chars@.len(),
            chars@ == text@,
            4 * chars@.len() <= usize::MAX,
            offset == utf16_len(chars@.take(i as int)),
            offset <= 2 * i,
            out@ == utf16_slice(chars@.take(i as int), start as int, end as int),
        decreases chars@.len() - i,
    {
        assert(chars@.take(i + 1).drop_last() =~= chars@.take(i as int));
        let c = chars[i];
        let char_start = offset;
        offset = offset + if (c as u32) < 0x10000 {
            1
        } else {
            2
        };
        if char_start >= start && offset <= end {
            out.push(c);
        }
        i = i + 1;
    }
    assert(chars@.take(i as int) =~= chars@);
    string_from_chars(out.as_slice())
}

/// The part of a text item that a sentence at UTF-16 offsets `ns..ne`
/// covers, relative to the item: (item id, start, end), if any.
pub open spec fn item_overlap(item: CanonicalTextItem, ns: int, ne: int) -> Option<(Seq<char>, int, int)> {
    let start = if ns > item.normalized_start {
        ns
    } else {
        item.normalized_start as int
    };
    let end = if ne < item.normalized_end {
        ne
    } else {
        item.normalized_end as int
    };
    if start < end {
        Some((item.item_id@, start - item.normalized_start, end - item.normalized_start))
    } else {
        None
    }
}

/// The item ranges of a sentence at `ns..ne`, in item order.
pub open spec fn item_ranges_of(items: Seq<CanonicalTextItem>, ns: int, ne: int) -> Seq<(Seq<char>, int, int)>
    decreases items.len(),
{
    if items.len() == 0 {
        Seq::empty()
    } else {
        let prev = item_ranges_of(items.drop_last(), ns, ne);
        match item_overlap(items.last(), ns, ne) {
            Some(r) => prev.push(r),
            None => prev,
        }
    }
}

/// Whether `r` holds the ranges `t`.
pub open spec fn are_item_ranges(r: Seq<CanonicalItemRange>, t: Seq<(Seq<char>, int, int)>) -> bool {
    &&& r.len() == t.len()
    &&& forall|k: int|
        0 <= k < r.len() ==> (#[trigger] r[k]).item_id@ == t[k].0 && r[k].normalized_start == t[k].1
            && r[k].normalized_end == t[k].2
}

/// The item ranges that a sentence at UTF-16 offsets `ns..ne` covers.
pub fn sentence_item_ranges(items: &[CanonicalTextItem], ns: usize, ne: usize) -> (r: Vec<CanonicalItemRange>)
    ensures
        are_item_ranges(r@, item_ranges_of(items@, ns as int, ne as int)),
{
    let mut r: Vec<CanonicalItemRange> = Vec::new();
    let mut i: usize = 0;
    while i < items.len()
        invariant
            i <= items@.len(),
            are_item_ranges(r@, item_ranges_of(items@.take(i as int), ns as int, ne as int)),
        decreases items@.len() - i,
    {
        assert(items@.take(i + 1).drop_last() =~= items@.take(i as int));
        let item = &items[i];
        let start = if ns > item.normalized_start {
            ns
        } else {
            item.normalized_start
        };
        let end = if ne < item.normalized_end {
            ne
        } else {
            item.normalized_end
        };
        if start < end {
            let ghost before = r@;
            r.push(
                CanonicalItemRange {
                    item_id: item.item_id.clone(),
                    normalized_start: start - item.normalized_start,
                    normalized_end: end - item.normalized_start,
                },
            );
            assert forall|k: int| 0 <= k < before.len() implies r@[k] == before[k] by {}
        }
        i = i + 1;
    }
    assert(items@.take(i as int) =~= items@);
    r
}

/// `cp{page}s{k + 1}`, the identifier of the `k`-th sentence of a page.
pub open spec fn unit_id(page: nat, k: int) -> Seq<char> {
    "cp"@ + decimal(page) + "s"@ + decimal((k + 1) as nat)
}

/// Whether `u` is the reading unit of the sentence at range `range` of
/// `page`, with its kind not yet decided.
pub open spec fn is_page_unit(u: CanonicalReadingUnit, page: CanonicalTextPage, k: int) -> bool {
    let s = page.normalized_text@;
    let range = canonical_sentence_ranges(s)[k];
    let ns = utf16_len(s.take(range.0)) as int;
    let ne = utf16_len(s.take(range.1)) as int;
    let ranges = item_ranges_of(page.text_items@, ns, ne);
    let exact = s.subrange(range.0, range.1);
    let prefix_start = if ns > QUOTE_CONTEXT_LENGTH {
        ns - QUOTE_CONTEXT_LENGTH
    } else {
        0
    };
    let suffix_end = if ne + QUOTE_CONTEXT_LENGTH < utf16_len(s) {
        ne + QUOTE_CONTEXT_LENGTH
    } else {
        utf16_len(s) as int
    };
    &&& u.sentence_id@ == unit_id(page.page as nat, k)
    &&& u.page == page.page
    &&& u.text@ == exact
    &&& u.normalized_text@ == exact
    &&& u.norm_start == ns
    &&& u.norm_end == ne
    &&& ranges.len() > 0
    &&& are_item_ranges(u.item_ranges@, ranges)
    &&& u.start_item_id@ == ranges[0].0
    &&& u.end_item_id@ == ranges.last().0
    &&& u.quote_selector.exact@ == exact
    &&& u.quote_selector.prefix@ == trim(utf16_slice(s, prefix_start, ns))
    &&& u.quote_selector.suffix@ == trim(utf16_slice(s, ne, suffix_end))
}

/// The (page index, sentence index) of every sentence, page by page.
pub open spec fn unit_plan(pages: Seq<CanonicalTextPage>) -> Seq<(int, int)>
    decreases pages.len(),
{
    if pages.len() == 0 {
        Seq::empty()
    } else {
        let last = pages.len() - 1;
        unit_plan(pages.drop_last()) + Seq::new(
            canonical_sentence_ranges(pages.last().normalized_text@).len(),
            |k: int| (last, k),
        )
    }
}

proof fn lemma_unit_id_injective(p1: nat, k1: int, p2: nat, k2: int)
    requires
        k1 >= 0,
        k2 >= 0,
        unit_id(p1, k1) == unit_id(p2, k2),
    ensures
        p1 == p2,
        k1 == k2,
{
    reveal_strlit("cp");
    reveal_strlit("s");
    let (d1, d2) = (decimal(p1), decimal(p2));
    let (e1, e2) = (decimal((k1 + 1) as nat), decimal((k2 + 1) as nat));
    lemma_decimal_digits(p1);
    lemma_decimal_digits(p2);
    lemma_decimal_digits((k1 + 1) as nat);
    lemma_decimal_digits((k2 + 1) as nat);
    let x = unit_id(p1, k1);
    let y = unit_id(p2, k2);
    assert(x == "cp"@ + d1 + "s"@ + e1);
    assert(y == "cp"@ + d2 + "s"@ + e2);
    assert(x[2 + d1.len() as int] == 's');
    assert(y[2 + d2.len() as int] == 's');
    if d1.len() < d2.len() {
        assert(y[2 + d1.len() as int] == d2[d1.len() as int]);
        assert(is_digit_char(d2[d1.len() as int]));
    }
    if d2.len() < d1.len() {
        assert(x[2 + d2.len() as int] == d1[d2.len() as int]);
        assert(is_digit_char(d1[d2.len() as int]));
    }
    assert(d1.len() == d2.len());
    assert forall|i: int| 0 <= i < d1.len() implies d1[i] == d2[i] by {
        assert(x[2 + i] == d1[i]);
        assert(y[2 + i] == d2[i]);
    }
    assert(d1 =~= d2);
    lemma_decimal_injective(p1, p2);
    assert(e1.len() == e2.len());
    assert forall|i: int| 0 <= i < e1.len() implies e1[i] == e2[i] by {
        assert(x[3 + d1.len() + i] == e1[i]);
        assert(y[3 + d2.len() + i] == e2[i]);
    }
    assert(e1 =~= e2);
    lemma_decimal_injective((k1 + 1) as nat, (k2 + 1) as nat);
}

proof fn lemma_unit_plan_order(pages: Seq<CanonicalTextPage>, t1: int, t2: int)
    requires
        0 <= t1 < t2 < unit_plan(pages).len(),
    ensures
        unit_plan(pages)[t1].0 < unit_plan(pages)[t2].0 || (unit_plan(pages)[t1].0
            == unit_plan(pages)[t2].0 && unit_plan(pages)[t1].1 < unit_plan(pages)[t2].1),
    decreases pages.len(),
{
    let d = pages.drop_last();
    let prev = unit_plan(d);
    let last = pages.len() - 1;
    let block = Seq::new(
        canonical_sentence_ranges(pages.last().normalized_text@).len(),
        |k: int| (last, k),
    );
    assert(unit_plan(pages) == prev + block);
    lemma_unit_plan_bounds(d);
    if t2 < prev.len() {
        lemma_unit_plan_order(d, t1, t2);
    } else if t1 < prev.len() {
        assert(unit_plan(pages)[t1] == prev[t1]);
        assert(unit_plan(pages)[t2] == block[t2 - prev.len()]);
    } else {
        assert(unit_plan(pages)[t1] == block[t1 - prev.len()]);
        assert(unit_plan(pages)[t2] == block[t2 - prev.len()]);
    }
}

/// Reading units have distinct sentence ids when the pages have distinct
/// page numbers: two different sentences, of one page or of two, never get
/// the same `cp{page}s{k}` identifier.
pub proof fn lemma_unit_ids_distinct(pages: Seq<CanonicalTextPage>, t1: int, t2: int)
    requires
        forall|a: int, b: int| 0 <= a < b < pages.len() ==> pages[a].page != pages[b].page,
        0 <= t1 < t2 < unit_plan(pages).len(),
    ensures
        unit_id(pages[unit_plan(pages)[t1].0].page as nat, unit_plan(pages)[t1].1) != unit_id(
            pages[unit_plan(pages)[t2].0].page as nat,
            unit_plan(pages)[t2].1,
        ),
{
    let plan = unit_plan(pages);
    lemma_unit_plan_bounds(pages);
    lemma_unit_plan_order(pages, t1, t2);
    let (a, k1) = plan[t1];
    let (b, k2) = plan[t2];
    assert(0 <= a < pages.len() && 0 <= b < pages.len());
    assert(k1 >= 0 && k2 >= 0);
    if unit_id(pages[a].page as nat, k1) == unit_id(pages[b].page as nat, k2) {
        lemma_unit_id_injective(pages[a].page as nat, k1, pages[b].page as nat, k2);
        if a < b {
            assert(pages[a].page != pages[b].page);
        }
    }
}

/// Whether `units` are the reading units of `pages`: one per sentence, page
/// by page, each with the kind that its position gives.
pub open spec fn are_reading_units(units: Seq<CanonicalReadingUnit>, pages: Seq<CanonicalTextPage>) -> bool {
    &&& units.len() == unit_plan(pages).len()
    &&& forall|t: int|
        0 <= t < units.len() ==> {
            &&& is_page_unit(#[trigger] units[t], pages[unit_plan(pages)[t].0], unit_plan(pages)[t].1)
            &&& units[t].candidate_kind == canonical_kind(units, t)
        }
}

/// A reading unit as plain values.
pub open spec fn unit_view(u: CanonicalReadingUnit) -> (
    Seq<char>,
    usize,
    Seq<char>,
    Seq<char>,
    usize,
    usize,
    Seq<char>,
    Seq<char>,
    Seq<(Seq<char>, usize, usize)>,
    (Seq<char>, Seq<char>, Seq<char>),
    CandidateKind,
) {
    (
        u.sentence_id@,
        u.page,
        u.text@,
        u.normalized_text@,
        u.norm_start,
        u.norm_end,
        u.start_item_id@,
        u.end_item_id@,
        u.item_ranges@.map_values(|r: CanonicalItemRange| (r.item_id@, r.normalized_start, r.normalized_end)),
        (u.quote_selector.exact@, u.quote_selector.prefix@, u.quote_selector.suffix@),
        u.candidate_kind,
    )
}

proof fn lemma_references_open_by_text(a: Seq<CanonicalReadingUnit>, b: Seq<CanonicalReadingUnit>, t: int)
    requires
        a.len() == b.len(),
        0 <= t <= a.len(),
        forall|i: int| 0 <= i < a.len() ==> (#[trigger] a[i]).normalized_text@ == b[i].normalized_text@,
    ensures
        references_open(a, t) == references_open(b, t),
    decreases t,
{
    if t > 0 {
        lemma_references_open_by_text(a, b, t - 1);
        assert(a[t - 1].normalized_text@ == b[t - 1].normalized_text@);
    }
}

/// The reading units of a model are determined by it: two results for the
/// same pages agree in every field.
pub proof fn lemma_reading_units_determined(
    a: Seq<CanonicalReadingUnit>,
    b: Seq<CanonicalReadingUnit>,
    pages: Seq<CanonicalTextPage>,
)
    requires
        are_reading_units(a, pages),
        are_reading_units(b, pages),
    ensures
        a.len() == b.len(),
        forall|t: int| 0 <= t < a.len() ==> unit_view(#[trigger] a[t]) == unit_view(b[t]),
{
    assert forall|i: int| 0 <= i < a.len() implies (#[trigger] a[i]).normalized_text@ == b[i].normalized_text@ by {
        assert(is_page_unit(a[i], pages[unit_plan(pages)[i].0], unit_plan(pages)[i].1));
        assert(is_page_unit(b[i], pages[unit_plan(pages)[i].0], unit_plan(pages)[i].1));
    }
    assert forall|t: int| 0 <= t < a.len() implies unit_view(#[trigger] a[t]) == unit_view(b[t]) by {
        let page = pages[unit_plan(pages)[t].0];
        let k = unit_plan(pages)[t].1;
        assert(is_page_unit(a[t], page, k));
        assert(is_page_unit(b[t], page, k));
        lemma_references_open_by_text(a, b, t);
        assert(canonical_kind(a, t) == canonical_kind(b, t));
        let f = |r: CanonicalItemRange| (r.item_id@, r.normalized_start, r.normalized_end);
        assert(a[t].item_ranges@.map_values(f) =~= b[t].item_ranges@.map_values(f));
    }
}

/// With distinct page numbers, the reading units have pairwise distinct
/// sentence ids.
pub proof fn lemma_reading_unit_ids_distinct(
    units: Seq<CanonicalReadingUnit>,
    pages: Seq<CanonicalTextPage>,
    t1: int,
    t2: int,
)
    requires
        are_reading_units(units, pages),
        forall|a: int, b: int| 0 <= a < b < pages.len() ==> pages[a].page != pages[b].page,
        0 <= t1 < t2 < units.len(),
    ensures
        units[t1].sentence_id@ != units[t2].sentence_id@,
{
    lemma_unit_ids_distinct(pages, t1, t2);
    assert(is_page_unit(units[t1], pages[unit_plan(pages)[t1].0], unit_plan(pages)[t1].1));
    assert(is_page_unit(units[t2], pages[unit_plan(pages)[t2].0], unit_plan(pages)[t2].1));
}

/// Whether the sentence `k` of `page` covers no text item.
pub open spec fn unmapped(page: CanonicalTextPage, k: int) -> bool {
    let s = page.normalized_text@;
    let range = canonical_sentence_ranges(s)[k];
    item_ranges_of(
        page.text_items@,
        utf16_len(s.take(range.0)) as int,
        utf16_len(s.take(range.1)) as int,
    ).len() == 0
}

/// The first sentence, in plan order, that covers no text item.
pub open spec fn first_unmapped(pages: Seq<CanonicalTextPage>) -> Option<int> {
    let plan = unit_plan(pages);
    if exists|t: int| 0 <= t < plan.len() && unmapped(pages[plan[t].0], plan[t].1) {
        Some(
            choose|t: int|
                0 <= t < plan.len() && unmapped(pages[plan[t].0], plan[t].1) && forall|q: int|
                    0 <= q < t ==> !unmapped(pages[plan[q].0], plan[q].1),
        )
    } else {
        None
    }
}

/// What goes wrong when canonical text is read or turned into reading units.
#[derive(Debug)]
pub enum CanonicalError {
    /// A sentence (counted from 1 on its page) covers no PDF.js text item.
    UnmappedSentence { sentence: usize, page: usize },
    /// The worker's output holds no line that starts with `{`.
    NoJsonObject,
    /// The model has a schema version other than the supported one.
    UnsupportedSchema(String),
    /// The model is for another document.
    DocumentIdMismatch,
    /// The model's PDF hash is not 64 hexadecimal digits.
    InvalidHash,
    /// The model's PDF hash is not the SHA-256 of the PDF that was sent.
    HashMismatch { actual: String, expected: String },
    /// The model has another number of pages than the text extraction.
    PageCountMismatch { canonical: usize, legacy: usize },
}

proof fn lemma_unit_plan_step(pages: Seq<CanonicalTextPage>, p: int)
    requires
        0 <= p < pages.len(),
    ensures
        unit_plan(pages.take(p + 1)) == unit_plan(pages.take(p)) + Seq::new(
            canonical_sentence_ranges(pages[p].normalized_text@).len(),
            |k: int| (p, k),
        ),
{
    assert(pages.take(p + 1).drop_last() =~= pages.take(p));
}

proof fn lemma_unit_plan_prefix(pages: Seq<CanonicalTextPage>, p: int)
    requires
        0 <= p <= pages.len(),
    ensures
        unit_plan(pages.take(p)).len() <= unit_plan(pages).len(),
        forall|t: int| 0 <= t < unit_plan(pages.take(p)).len() ==> #[trigger] unit_plan(pages.take(p))[t] == unit_plan(pages)[t],
    decreases pages.len() - p,
{
    if p < pages.len() {
        lemma_unit_plan_prefix(pages, p + 1);
        lemma_unit_plan_step(pages, p);
        let a = unit_plan(pages.take(p));
        let b = unit_plan(pages.take(p + 1));
        assert forall|t: int| 0 <= t < a.len() implies #[trigger] a[t] == unit_plan(pages)[t] by {
            assert(b[t] == a[t]);
        }
    } else {
        assert(pages.take(p) =~= pages);
    }
}

proof fn lemma_unit_plan_bounds(pages: Seq<CanonicalTextPage>)
    ensures
        forall|t: int|
            0 <= t < unit_plan(pages).len() ==> 0 <= (#[trigger] unit_plan(pages)[t]).0 < pages.len()
                && 0 <= unit_plan(pages)[t].1 < canonical_sentence_ranges(
                pages[unit_plan(pages)[t].0].normalized_text@,
            ).len(),
    decreases pages.len(),
{
    if pages.len() > 0 {
        lemma_unit_plan_bounds(pages.drop_last());
        let a = unit_plan(pages.drop_last());
        assert forall|t: int| 0 <= t < a.len() implies #[trigger] pages.drop_last()[a[t].0] == pages[a[t].0] by {}
    }
}

/// The reading units of every page, in page order: each sentence of a
/// page's normalized text, the text items it covers, its quote context, and
/// its kind.  Fails on the first sentence that covers no text item.
pub fn generate_canonical_reading_units(model: &CanonicalTextModel) -> (r: Result<Vec<CanonicalReadingUnit>, CanonicalError>)
    requires
        forall|p: int| 0 <= p < model.pages@.len() ==> 4 * (#[trigger] model.pages@[p]).normalized_text@.len() <= usize::MAX,
    ensures
        match first_unmapped(model.pages@) {
            Some(t) => r matches Err(CanonicalError::UnmappedSentence { sentence, page }) && sentence
                == unit_plan(model.pages@)[t].1 + 1 && page == model.pages@[unit_plan(model.pages@)[t].0].page,
            None => r matches Ok(units) && are_reading_units(units@, model.pages@),
        },
{
    let ghost pages = model.pages@;
    let mut units: Vec<CanonicalReadingUnit> = Vec::new();
    let mut p: usize = 0;
    proof {
        lemma_unit_plan_bounds(pages);
        assert(pages.take(0) =~= Seq::<CanonicalTextPage>::empty());
    }
    while p < model.pages.len()
        invariant
            p <= pages.len(),
            pages == model.pages@,
            forall|q: int| 0 <= q < pages.len() ==> 4 * (#[trigger] pages[q]).normalized_text@.len() <= usize::MAX,
            units@.len() == unit_plan(pages.take(p as int)).len(),
            forall|t: int|
                0 <= t < units@.len() ==> is_page_unit(
                    #[trigger] units@[t],
                    pages[unit_plan(pages.take(p as int))[t].0],
                    unit_plan(pages.take(p as int))[t].1,
                ),
            forall|t: int|
                0 <= t < units@.len() ==> !unmapped(
                    pages[#[trigger] unit_plan(pages.take(p as int))[t].0],
                    unit_plan(pages.take(p as int))[t].1,
                ),
            forall|t: int| 0 <= t < units@.len() ==> 4 * (#[trigger] units@[t]).normalized_text@.len() <= usize::MAX,
        decreases pages.len() - p,
    {
        let page = &model.pages[p];
        let chars = chars_of(page.normalized_text.as_str());
        let bytes = prefix_lengths(chars.as_slice(), false);
        let offsets = prefix_lengths(chars.as_slice(), true);
        let ranges = sentence_char_ranges(chars.as_slice());
        let total = offsets[chars.len()];
        assert(chars@.take(chars@.len() as int) =~= chars@);
        let page_id = decimal_chars(page.page);
        let ghost base = unit_plan(pages.take(p as int));
        proof {
            lemma_unit_plan_step(pages, p as int);
            lemma_unit_plan_prefix(pages, p as int);
            lemma_unit_plan_prefix(pages, p + 1);
        }
        let mut k: usize = 0;
        while k < ranges.len()
            invariant
                p < pages.len(),
                pages == model.pages@,
                *page == pages[p as int],
                chars@ == page.normalized_text@,
                4 * chars@.len() <= usize::MAX,
                k <= ranges@.len(),
                offsets@.len() == chars@.len() + 1,
                forall|j: int| 0 <= j <= chars@.len() ==> #[trigger] offsets@[j] == utf16_len(chars@.take(j)),
                total == utf16_len(chars@),
                forall|j: int| 0 <= j < ranges@.len() ==> (#[trigger] ranges@[j]).0 <= ranges@[j].1 <= chars@.len(),
                int_ranges(ranges@) == canonical_sentence_ranges(chars@),
                page_id@ == decimal(page.page as nat),
                base == unit_plan(pages.take(p as int)),
                units@.len() == base.len() + k,
                forall|t: int|
                    0 <= t < base.len() ==> is_page_unit(
                        #[trigger] units@[t],
                        pages[base[t].0],
                        base[t].1,
                    ),
                forall|t: int|
                    0 <= t < base.len() ==> !unmapped(pages[#[trigger] base[t].0], base[t].1),
                forall|j: int| 0 <= j < k ==> is_page_unit(#[trigger] units@[base.len() + j], pages[p as int], j),
                forall|j: int| 0 <= j < k ==> !unmapped(pages[p as int], j),
                forall|t: int| 0 <= t < units@.len() ==> 4 * (#[trigger] units@[t]).normalized_text@.len() <= usize::MAX,
            decreases ranges@.len() - k,
        {
            let (a, b) = ranges[k];
            let ns = offsets[a];
            let ne = offsets[b];
            let item_ranges = sentence_item_ranges(page.text_items.as_slice(), ns, ne);
            assert(int_ranges(ranges@)[k as int] == (a as int, b as int));
            if item_ranges.len() == 0 {
                proof {
                    assert(unmapped(pages[p as int], k as int));
                    lemma_unit_plan_step(pages, p as int);
                    lemma_unit_plan_prefix(pages, p as int);
                    lemma_unit_plan_prefix(pages, p + 1);
                    assert(ranges@.len() == int_ranges(ranges@).len());
                    let t = base.len() + k;
                    let full = unit_plan(pages);
                    assert(unit_plan(pages.take(p + 1))[t] == (p as int, k as int));
                    assert(full[t] == (p as int, k as int));
                    assert forall|q: int| 0 <= q < t implies !unmapped(pages[full[q].0], full[q].1) by {
                        if q < base.len() {
                            assert(full[q] == base[q]);
                        } else {
                            assert(unit_plan(pages.take(p + 1))[q] == (p as int, q - base.len()));
                            assert(full[q] == unit_plan(pages.take(p + 1))[q]);
                        }
                    }
                    let c = choose|c: int|
                        0 <= c < full.len() && unmapped(pages[full[c].0], full[c].1) && forall|q: int|
                            0 <= q < c ==> !unmapped(pages[full[q].0], full[q].1);
                    if c < t {
                    } else if c > t {
                        assert(!unmapped(pages[full[t].0], full[t].1));
                    }
                    assert(first_unmapped(pages) == Some(t));
                }
                return Err(CanonicalError::UnmappedSentence { sentence: k + 1, page: page.page });
            }
            let exact = sub_chars(chars.as_slice(), a, b);
            let prefix_start: usize = if ns > QUOTE_CONTEXT_LENGTH {
                ns - QUOTE_CONTEXT_LENGTH
            } else {
                0
            };
            proof {
                crate::text::lemma_utf16_len_concat(chars@.take(b as int), chars@.skip(b as int));
                assert(chars@.take(b as int) + chars@.skip(b as int) =~= chars@);
            }
            let suffix_end: usize = if QUOTE_CONTEXT_LENGTH < total - ne {
                ne + QUOTE_CONTEXT_LENGTH
            } else {
                total
            };
            let prefix = slice_utf16(page.normalized_text.as_str(), prefix_start, ns);
            let suffix = slice_utf16(page.normalized_text.as_str(), ne, suffix_end);
            let prefix_t = trim_chars(chars_of(prefix.as_str()).as_slice());
            let suffix_t = trim_chars(chars_of(suffix.as_str()).as_slice());
            let mut id = chars_of("cp");
            extend_chars(&mut id, page_id.as_slice());
            let s_mark = chars_of("s");
            extend_chars(&mut id, s_mark.as_slice());
            let number = decimal_chars(k + 1);
            extend_chars(&mut id, number.as_slice());
            let start_item_id = item_ranges[0].item_id.clone();
            let end_item_id = item_ranges[item_ranges.len() - 1].item_id.clone();
            let ghost before = units@;
            units.push(
                CanonicalReadingUnit {
                    sentence_id: string_from_chars(id.as_slice()),
                    page: page.page,
                    text: string_from_chars(exact.as_slice()),
                    normalized_text: string_from_chars(exact.as_slice()),
                    norm_start: ns,
                    norm_end: ne,
                    start_item_id,
                    end_item_id,
                    item_ranges,
                    quote_selector: TextQuoteSelector {
                        exact: string_from_chars(exact.as_slice()),
                        prefix: string_from_chars(prefix_t.as_slice()),
                        suffix: string_from_chars(suffix_t.as_slice()),
                    },
                    candidate_kind: CandidateKind::Unknown,
                },
            );
            proof {
                assert(units@[units@.len() - 1].normalized_text@.len() <= chars@.len());
                assert forall|t: int| 0 <= t < before.len() implies units@[t] == before[t] by {}
            }
            k = k + 1;
        }
        proof {
            lemma_unit_plan_step(pages, p as int);
            assert(ranges@.len() == int_ranges(ranges@).len());
            let next = unit_plan(pages.take(p + 1));
            assert forall|t: int| 0 <= t < units@.len() implies is_page_unit(
                #[trigger] units@[t],
                pages[next[t].0],
                next[t].1,
            ) && !unmapped(pages[next[t].0], next[t].1) by {
                if t < base.len() {
                    assert(next[t] == base[t]);
                } else {
                    assert(next[t] == (p as int, t - base.len()));
                    assert(units@[base.len() + (t - base.len())] == units@[t]);
                }
            }
        }
        p = p + 1;
    }
    proof {
        assert(pages.take(p as int) =~= pages);
        let full = unit_plan(pages);
        assert(!(exists|t: int| 0 <= t < full.len() && unmapped(pages[full[t].0], full[t].1)));
    }
    let ghost unclassified = units@;
    classify_canonical_reading_units(units.as_mut_slice());
    proof {
        assert forall|t: int| 0 <= t < units@.len() implies canonical_kind(units@, t) == canonical_kind(unclassified, t) by {
            lemma_kind_ignores_kind(units@, unclassified, t);
        }
    }
    Ok(units)
}

/// A unit's kind depends on the units' text, pages and offsets only.
proof fn lemma_kind_ignores_kind(a: Seq<CanonicalReadingUnit>, b: Seq<CanonicalReadingUnit>, t: int)
    requires
        a.len() == b.len(),
        0 <= t < a.len(),
        forall|i: int| 0 <= i < a.len() ==> with_kind(#[trigger] a[i], b[i], a[i].candidate_kind),
    ensures
        canonical_kind(a, t) == canonical_kind(b, t),
{
    assert(references_open(a, t) == references_open(b, t)) by {
        lemma_references_open_same(a, b, t);
    }
    assert(page_one_metadata(a[t]) == page_one_metadata(b[t])) by {
        assert(with_kind(a[t], b[t], a[t].candidate_kind));
    }
}

proof fn lemma_references_open_same(a: Seq<CanonicalReadingUnit>, b: Seq<CanonicalReadingUnit>, t: int)
    requires
        a.len() == b.len(),
        0 <= t <= a.len(),
        forall|i: int| 0 <= i < a.len() ==> with_kind(#[trigger] a[i], b[i], a[i].candidate_kind),
    ensures
        references_open(a, t) == references_open(b, t),
    decreases t,
{
    if t > 0 {
        lemma_references_open_same(a, b, t - 1);
        assert(with_kind(a[t - 1], b[t - 1], a[t - 1].candidate_kind));
    }
}

/// Whether `new` is the classification of `old`: the same units, each with
/// the kind that its position gives.
pub open spec fn is_classification(new: Seq<CanonicalReadingUnit>, old: Seq<CanonicalReadingUnit>) -> bool {
    &&& new.len() == old.len()
    &&& forall|i: int| 0 <= i < old.len() ==> with_kind(#[trigger] new[i], old[i], canonical_kind(old, i))
}

/// Classifying is idempotent: classifying classified units changes nothing,
/// because no kind depends on the kinds the units had.
pub proof fn lemma_classification_idempotent(
    a: Seq<CanonicalReadingUnit>,
    b: Seq<CanonicalReadingUnit>,
    c: Seq<CanonicalReadingUnit>,
)
    requires
        is_classification(b, a),
        is_classification(c, b),
    ensures
        c == b,
{
    assert forall|i: int| 0 <= i < b.len() implies with_kind(#[trigger] b[i], a[i], b[i].candidate_kind) by {
        assert(with_kind(b[i], a[i], canonical_kind(a, i)));
    }
    assert forall|i: int| 0 <= i < b.len() implies #[trigger] c[i] == b[i] by {
        lemma_kind_ignores_kind(b, a, i);
        assert(with_kind(c[i], b[i], canonical_kind(b, i)));
        assert(with_kind(b[i], a[i], canonical_kind(a, i)));
    }
    assert(c =~= b);
}

proof fn lemma_leading_digits_exact(s: Seq<char>, n: int)
    requires
        0 <= n < s.len(),
        forall|m: int| 0 <= m < n ==> is_digit(#[trigger] s[m]),
        !is_digit(s[n]),
    ensures
        leading_digits(s) == n,
    decreases n,
{
    if n > 0 {
        let r = s.drop_first();
        assert forall|m: int| 0 <= m < n - 1 implies is_digit(#[trigger] r[m]) by {
            assert(r[m] == s[m + 1]);
        }
        lemma_leading_digits_exact(r, n - 1);
    }
}

/// A unit whose trimmed text opens with `[`, one or more ASCII digits and
/// `]` is classified as a reference, whether or not a reference heading came
/// before it, unless the unit is itself the reference heading.
pub proof fn lemma_bracketed_number_is_reference(
    new: Seq<CanonicalReadingUnit>,
    old: Seq<CanonicalReadingUnit>,
    i: int,
    j: int,
)
    requires
        is_classification(new, old),
        0 <= i < old.len(),
        2 <= j < trim(old[i].normalized_text@).len(),
        trim(old[i].normalized_text@)[0] == '[',
        trim(old[i].normalized_text@)[j] == ']',
        forall|m: int| 1 <= m < j ==> '0' <= #[trigger] trim(old[i].normalized_text@)[m] <= '9',
        lowercase(trim(old[i].normalized_text@)) != "references"@,
        lowercase(trim(old[i].normalized_text@)) != "references."@,
    ensures
        new[i].candidate_kind == CandidateKind::Reference,
{
    let t = trim(old[i].normalized_text@);
    assert(leading_ws(t) == 0);
    assert(trim_start(t) =~= t);
    let rest = t.drop_first();
    assert forall|m: int| 0 <= m < j - 1 implies is_digit(#[trigger] rest[m]) by {
        assert(rest[m] == t[m + 1]);
    }
    assert(rest[j - 1] == ']');
    lemma_leading_digits_exact(rest, j - 1);
    assert(reference_entry(t));
    assert(with_kind(new[i], old[i], canonical_kind(old, i)));
}

/// A unit whose trimmed text opens with one or more ASCII digits, a dot and
/// white space, and that holds a quotation mark, is classified as a
/// reference, whether or not a reference heading came before it, unless the
/// unit is itself the reference heading.
pub proof fn lemma_numbered_quoted_entry_is_reference(
    new: Seq<CanonicalReadingUnit>,
    old: Seq<CanonicalReadingUnit>,
    i: int,
    j: int,
)
    requires
        is_classification(new, old),
        0 <= i < old.len(),
        1 <= j,
        j + 1 < trim(old[i].normalized_text@).len(),
        forall|m: int| 0 <= m < j ==> '0' <= #[trigger] trim(old[i].normalized_text@)[m] <= '9',
        trim(old[i].normalized_text@)[j] == '.',
        unicode_whitespace(trim(old[i].normalized_text@)[j + 1]),
        trim(old[i].normalized_text@).contains('"') || trim(old[i].normalized_text@).contains('\u{201c}')
            || trim(old[i].normalized_text@).contains('\u{201d}'),
        lowercase(trim(old[i].normalized_text@)) != "references"@,
        lowercase(trim(old[i].normalized_text@)) != "references."@,
    ensures
        new[i].candidate_kind == CandidateKind::Reference,
{
    let t = trim(old[i].normalized_text@);
    assert('0' <= t[0] <= '9');
    assert(leading_ws(t) == 0);
    assert(trim_start(t) =~= t);
    assert(is_first_dot(t, j));
    let p = choose|p: int| is_first_dot(t, p);
    lemma_first_dot_unique(t, p, j);
    assert(all_digits(t.take(j)));
    assert(t.skip(j + 1)[0] == t[j + 1]);
    assert(reference_entry(t));
    assert(with_kind(new[i], old[i], canonical_kind(old, i)));
}

proof fn lemma_references_open_prefix(units: Seq<CanonicalReadingUnit>, k: int, i: int)
    requires
        0 <= i <= k <= units.len(),
    ensures
        references_open(units.take(k), i) == references_open(units, i),
    decreases i,
{
    if i > 0 {
        lemma_references_open_prefix(units, k, i - 1);
        assert(units.take(k)[i - 1] == units[i - 1]);
    }
}

/// A unit's kind depends only on the unit and the units before it:
/// classifying the first `k` units alone gives the first `k` kinds of the
/// whole classification.
pub proof fn lemma_classification_prefix(
    units: Seq<CanonicalReadingUnit>,
    k: int,
    whole: Seq<CanonicalReadingUnit>,
    part: Seq<CanonicalReadingUnit>,
)
    requires
        0 <= k <= units.len(),
        is_classification(whole, units),
        is_classification(part, units.take(k)),
    ensures
        part == whole.take(k),
{
    assert forall|i: int| 0 <= i < k implies #[trigger] part[i] == whole.take(k)[i] by {
        lemma_references_open_prefix(units, k, i);
        assert(units.take(k)[i] == units[i]);
        assert(canonical_kind(units.take(k), i) == canonical_kind(units, i));
        assert(with_kind(part[i], units.take(k)[i], canonical_kind(units.take(k), i)));
        assert(with_kind(whole[i], units[i], canonical_kind(units, i)));
    }
    assert(part =~= whole.take(k));
}

// ---------------------------------------------------------------------------
// Checking what the extraction worker returned
// ---------------------------------------------------------------------------

/// Whether position `j` of `out` starts a line whose first byte is `{`.
pub open spec fn starts_json_line(out: Seq<u8>, j: int) -> bool {
    0 <= j < out.len() && out[j] == 0x7b && (j == 0 || out[j - 1] == 0x0a)
}

/// The position after the line that starts at `j`.
pub open spec fn line_end(out: Seq<u8>, j: int) -> int
    decreases out.len() - j,
{
    if j < 0 || j >= out.len() || out[j] == 0x0a {
        j
    } else {
        line_end(out, j + 1)
    }
}

/// The bounds of the last line of the worker's output that starts with `{`.
pub open spec fn last_json_line_of(out: Seq<u8>) -> Option<(int, int)> {
    if exists|j: int| starts_json_line(out, j) {
        let j = choose|j: int|
            starts_json_line(out, j) && forall|k: int| j < k < out.len() ==> !starts_json_line(out, k);
        Some((j, line_end(out, j)))
    } else {
        None
    }
}

/// Finds the last line of `out` that starts with `{`: the JSON object the
/// worker prints after any log lines.
pub fn last_json_line(out: &[u8]) -> (r: Option<(usize, usize)>)
    ensures
        match last_json_line_of(out@) {
            Some((a, b)) => r matches Some(q) && q.0 == a && q.1 == b,
            None => r is None,
        },
{
    let mut j: usize = out.len();
    while j > 0 && !(out[j - 1] == 0x7b && (j - 1 == 0 || out[j - 2] == 0x0a))
        invariant
            j <= out@.len(),
            forall|k: int| j <= k < out@.len() ==> !starts_json_line(out@, k),
        decreases j,
    {
        j = j - 1;
    }
    if j == 0 {
        assert forall|k: int| !starts_json_line(out@, k) by {
            if starts_json_line(out@, k) {
                assert(0 <= k);
            }
        }
        return None;
    }
    let start = j - 1;
    assert(starts_json_line(out@, start as int));
    let mut end = start;
    while end < out.len() && out[end] != 0x0a
        invariant
            start <= end <= out@.len(),
            line_end(out@, start as int) == line_end(out@, end as int),
        decreases out@.len() - end,
    {
        end = end + 1;
    }
    proof {
        let c = choose|c: int|
            starts_json_line(out@, c) && forall|k: int| c < k < out@.len() ==> !starts_json_line(out@, k);
        if c < start {
            assert(!starts_json_line(out@, start as int));
        } else if c > start {
            assert(!starts_json_line(out@, c));
        }
    }
    Some((start, end))
}

/// Whether `c` is an ASCII hexadecimal digit.
pub open spec fn is_hex_digit(c: char) -> bool {
    (48 <= (c as u32) <= 57) || (65 <= (c as u32) <= 70) || (97 <= (c as u32) <= 102)
}

/// Whether `h` is a SHA-256 hash written in hexadecimal: 64 hexadecimal
/// digits.
pub open spec fn is_sha256_hex(h: Seq<char>) -> bool {
    h.len() == 64 && forall|i: int| 0 <= i < h.len() ==> is_hex_digit(#[trigger] h[i])
}

/// The schema version, document and hash checks on the worker's model;
/// `document_id` is the 128-bit value of the document's UUID.
pub open spec fn model_check(model: CanonicalTextModel, document_id: u128) -> Option<CanonicalError> {
    if model.schema_version@ != "1.0"@ {
        Some(CanonicalError::UnsupportedSchema(model.schema_version))
    } else if model.document_id != document_id {
        Some(CanonicalError::DocumentIdMismatch)
    } else if !is_sha256_hex(model.pdf_hash@) {
        Some(CanonicalError::InvalidHash)
    } else {
        None
    }
}

/// Checks a model that the worker returned for `document_id`: the schema
/// version, the document, and the form of the PDF hash.
pub fn check_worker_model(model: CanonicalTextModel, document_id: u128) -> (r: Result<CanonicalTextModel, CanonicalError>)
    ensures
        match model_check(model, document_id) {
            Some(e) => r matches Err(x) && x == e,
            None => r matches Ok(m) && m == model,
        },
{
    let version = chars_of(model.schema_version.as_str());
    if !chars_eq_str(version.as_slice(), CANONICAL_TEXT_SCHEMA_VERSION) {
        proof {
            reveal_strlit("1.0");
        }
        return Err(CanonicalError::UnsupportedSchema(model.schema_version));
    }
    proof {
        reveal_strlit("1.0");
    }
    if model.document_id != document_id {
        return Err(CanonicalError::DocumentIdMismatch);
    }
    let h = chars_of(model.pdf_hash.as_str());
    if h.len() != 64 {
        return Err(CanonicalError::InvalidHash);
    }
    let mut i: usize = 0;
    while i < h.len()
        invariant
            i <= h@.len(),
            forall|k: int| 0 <= k < i ==> is_hex_digit(#[trigger] h@[k]),
            h@ == model.pdf_hash@,
            h@.len() == 64,
            model.schema_version@ == "1.0"@,
            model.document_id == document_id,
        decreases h@.len() - i,
    {
        let u = h[i] as u32;
        if !((u >= 48 && u <= 57) || (u >= 65 && u <= 70) || (u >= 97 && u <= 102)) {
            assert(!is_hex_digit(h@[i as int]));
            return Err(CanonicalError::InvalidHash);
        }
        i = i + 1;
    }
    Ok(model)
}

/// The SHA-256 digest of a byte string, as `sha2::Sha256::digest` computes it.
pub uninterp spec fn sha256(bytes: Seq<u8>) -> Seq<u8>;

/// Calls `sha2::Sha256::digest`; the contract names its result, whose type
/// holds 32 bytes.
#[verifier::external_body]
fn sha256_digest(bytes: &[u8]) -> (r: Vec<u8>)
    ensures
        r@ == sha256(bytes@),
        r@.len() == 32,
{
    Sha256::digest(bytes).to_vec()
}

/// The lower-case hexadecimal digit for `d < 16`.
pub open spec fn hex_char(d: int) -> char {
    if d < 10 {
        ((48 + d) as u8) as char
    } else {
        ((87 + d) as u8) as char
    }
}

/// Bytes written as lower-case hexadecimal, two digits each (the `{:x}`
/// form of a digest).
pub open spec fn lower_hex(bytes: Seq<u8>) -> Seq<char>
    decreases bytes.len(),
{
    if bytes.len() == 0 {
        Seq::empty()
    } else {
        lower_hex(bytes.drop_last()) + seq![
            hex_char(bytes.last() as int / 16),
            hex_char(bytes.last() as int % 16),
        ]
    }
}

fn hex_digit(d: u8) -> (r: char)
    requires
        d < 16,
    ensures
        r == hex_char(d as int),
{
    if d < 10 {
        (48 + d) as char
    } else {
        (87 + d) as char
    }
}

/// The SHA-256 of `pdf_bytes` in lower-case hexadecimal.
pub fn pdf_hash_hex(pdf_bytes: &[u8]) -> (r: String)
    ensures
        r@ == lower_hex(sha256(pdf_bytes@)),
{
    let digest = sha256_digest(pdf_bytes);
    let mut out: Vec<char> = Vec::new();
    let mut i: usize = 0;
    while i < digest.len()
        invariant
            i <= digest@.len(),
            out@ == lower_hex(digest@.take(i as int)),
        decreases digest@.len() - i,
    {
        assert(digest@.take(i + 1).drop_last() =~= digest@.take(i as int));
        let b = digest[i];
        out.push(hex_digit(b / 16));
        out.push(hex_digit(b % 16));
        i = i + 1;
        assert(out@ =~= lower_hex(digest@.take(i as int)));
    }
    assert(digest@.take(i as int) =~= digest@);
    string_from_chars(out.as_slice())
}

/// Checks that the model's PDF hash is the SHA-256 of the PDF that was sent.
pub fn check_pdf_hash(model: CanonicalTextModel, pdf_bytes: &[u8]) -> (r: Result<CanonicalTextModel, CanonicalError>)
    ensures
        model.pdf_hash@ == lower_hex(sha256(pdf_bytes@)) ==> (r matches Ok(m) && m == model),
        model.pdf_hash@ != lower_hex(sha256(pdf_bytes@)) ==> (r matches Err(
            CanonicalError::HashMismatch { actual, expected },
        ) && actual@ == model.pdf_hash@ && expected@ == lower_hex(sha256(pdf_bytes@))),
{
    let expected = pdf_hash_hex(pdf_bytes);
    let actual = chars_of(model.pdf_hash.as_str());
    let e = chars_of(expected.as_str());
    if chars_eq(actual.as_slice(), e.as_slice()) {
        Ok(model)
    } else {
        Err(CanonicalError::HashMismatch { actual: model.pdf_hash, expected })
    }
}

/// The reading units of an uploaded document's canonical model, which must
/// have as many pages as the text extraction found.
pub fn upload_reading_units(model: &CanonicalTextModel, page_count: usize) -> (r: Result<Vec<CanonicalReadingUnit>, CanonicalError>)
    requires
        forall|p: int| 0 <= p < model.pages@.len() ==> 4 * (#[trigger] model.pages@[p]).normalized_text@.len() <= usize::MAX,
    ensures
        model.pages@.len() != page_count ==> (r matches Err(CanonicalError::PageCountMismatch { canonical, legacy })
            && canonical == model.pages@.len() && legacy == page_count),
        model.pages@.len() == page_count ==> match first_unmapped(model.pages@) {
            Some(t) => r matches Err(CanonicalError::UnmappedSentence { sentence, page }) && sentence
                == unit_plan(model.pages@)[t].1 + 1 && page == model.pages@[unit_plan(model.pages@)[t].0].page,
            None => r matches Ok(units) && are_reading_units(units@, model.pages@),
        },
{
    if model.pages.len() != page_count {
        return Err(CanonicalError::PageCountMismatch { canonical: model.pages.len(), legacy: page_count });
    }
    generate_canonical_reading_units(model)
}

/// The extraction status reported for an upload.
pub fn extraction_status(canonical_extracted: bool) -> (r: &'static str)
    ensures
        canonical_extracted ==> r@ == "canonical_text_extracted"@,
        !canonical_extracted ==> r@ == "legacy_text_fallback"@,
{
    if canonical_extracted {
        "canonical_text_extracted"
    } else {
        "legacy_text_fallback"
    }
}

} // verus!
