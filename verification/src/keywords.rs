//! Keyword concepts for the mock provider: long non-stop words of the early
//! document text, title-cased and ranked by frequency.
use vstd::prelude::*;

use crate::models::{ConceptTag, TextChunk};
use crate::text::{
    char_uppercase, chars_eq, chars_of, decimal, decimal_chars, extend_chars,
    is_alphanumeric, join, join_chars, lowercase, split_at_marks, split_marked, string_from_chars,
    to_lowercase, to_uppercase_chars, trim, trim_chars, unicode_alphanumeric, utf8_len, views,
    capped_byte_len, sub_chars,
};

verus! {

// ---------------------------------------------------------------------------
// Lexicographic order of character sequences
// ---------------------------------------------------------------------------

/// Whether `a` comes before `b` in lexicographic order of code points (the
/// order of `String`, whose UTF-8 byte order is the code point order).
pub open spec fn seq_lt(a: Seq<char>, b: Seq<char>) -> bool
    decreases a.len(),
{
    if a.len() == 0 {
        b.len() > 0
    } else if b.len() == 0 {
        false
    } else if a[0] != b[0] {
        (a[0] as u32) < (b[0] as u32)
    } else {
        seq_lt(a.drop_first(), b.drop_first())
    }
}

proof fn lemma_char_u32_injective(a: char, b: char)
    requires
        (a as u32) == (b as u32),
    ensures
        a == b,
{
}

pub proof fn lemma_seq_lt_irreflexive(a: Seq<char>)
    ensures
        !seq_lt(a, a),
    decreases a.len(),
{
    if a.len() > 0 {
        lemma_seq_lt_irreflexive(a.drop_first());
    }
}

pub proof fn lemma_seq_lt_total(a: Seq<char>, b: Seq<char>)
    ensures
        a == b || seq_lt(a, b) || seq_lt(b, a),
    decreases a.len(),
{
    if a.len() > 0 && b.len() > 0 && a[0] == b[0] {
        lemma_seq_lt_total(a.drop_first(), b.drop_first());
        if a.drop_first() == b.drop_first() {
            assert(a =~= seq![a[0]] + a.drop_first());
            assert(b =~= seq![b[0]] + b.drop_first());
        }
    } else if a.len() > 0 && b.len() > 0 {
        assert((a[0] as u32) != (b[0] as u32)) by {
            if (a[0] as u32) == (b[0] as u32) {
                lemma_char_u32_injective(a[0], b[0]);
            }
        }
    } else if a.len() == 0 && b.len() == 0 {
        assert(a =~= b);
    }
}

pub proof fn lemma_seq_lt_asymmetric(a: Seq<char>, b: Seq<char>)
    ensures
        !(seq_lt(a, b) && seq_lt(b, a)),
    decreases a.len(),
{
    if a.len() > 0 && b.len() > 0 && a[0] == b[0] {
        lemma_seq_lt_asymmetric(a.drop_first(), b.drop_first());
    }
}

pub proof fn lemma_seq_lt_transitive(a: Seq<char>, b: Seq<char>, c: Seq<char>)
    requires
        seq_lt(a, b),
        seq_lt(b, c),
    ensures
        seq_lt(a, c),
    decreases a.len(),
{
    if a.len() > 0 && b.len() > 0 && c.len() > 0 {
        if a[0] == b[0] && b[0] == c[0] {
            lemma_seq_lt_transitive(a.drop_first(), b.drop_first(), c.drop_first());
        }
    }
}

/// Whether `a` comes before `b` in lexicographic order.
pub fn chars_lt(a: &[char], b: &[char]) -> (r: bool)
    ensures
        r == seq_lt(a@, b@),
{
    let mut i: usize = 0;
    assert(a@.skip(0) =~= a@);
    assert(b@.skip(0) =~= b@);
    while i < a.len() && i < b.len()
        invariant
            i <= a@.len(),
            i <= b@.len(),
            a@.take(i as int) == b@.take(i as int),
            seq_lt(a@, b@) == seq_lt(a@.skip(i as int), b@.skip(i as int)),
        decreases a@.len() - i,
    {
        if a[i] != b[i] {
            proof {
                assert(a@.skip(i as int)[0] == a@[i as int]);
                assert(b@.skip(i as int)[0] == b@[i as int]);
            }
            return (a[i] as u32) < (b[i] as u32);
        }
        proof {
            assert(a@.skip(i as int).drop_first() =~= a@.skip(i + 1));
            assert(b@.skip(i as int).drop_first() =~= b@.skip(i + 1));
            assert(a@.take(i + 1) =~= a@.take(i as int).push(a@[i as int]));
            assert(b@.take(i + 1) =~= b@.take(i as int).push(b@[i as int]));
        }
        i = i + 1;
    }
    proof {
        assert(a@.skip(i as int).len() == 0 || b@.skip(i as int).len() == 0);
    }
    i == a.len() && i < b.len()
}

// ---------------------------------------------------------------------------
// Keyword candidates
// ---------------------------------------------------------------------------

/// Common words that never become keywords.
pub open spec fn stop_words() -> Seq<Seq<char>> {
    seq![
        "about"@, "after"@, "again"@, "author"@, "because"@, "before"@, "between"@, "could"@,
        "document"@, "first"@, "from"@, "have"@, "into"@, "more"@, "paper"@, "that"@, "their"@,
        "there"@, "these"@, "this"@, "through"@, "with"@, "would"@,
    ]
}

fn stop_word_list() -> (r: Vec<&'static str>)
    ensures
        r@.map_values(|s: &str| s@) == stop_words(),
{
    let mut r: Vec<&'static str> = Vec::new();
    r.push("about");
    r.push("after");
    r.push("again");
    r.push("author");
    r.push("because");
    r.push("before");
    r.push("between");
    r.push("could");
    r.push("document");
    r.push("first");
    r.push("from");
    r.push("have");
    r.push("into");
    r.push("more");
    r.push("paper");
    r.push("that");
    r.push("their");
    r.push("there");
    r.push("these");
    r.push("this");
    r.push("through");
    r.push("with");
    r.push("would");
    assert(r@.map_values(|s: &str| s@) =~= stop_words());
    r
}

/// A word with its first character upper-cased.
pub open spec fn title_cased(w: Seq<char>) -> Seq<char> {
    if w.len() == 0 {
        w
    } else {
        char_uppercase(w[0]) + w.drop_first()
    }
}

/// `word` with its first character upper-cased.
pub fn title_case(word: &str) -> (r: String)
    ensures
        r@ == title_cased(word@),
{
    let chars = chars_of(word);
    if chars.len() == 0 {
        return string_from_chars(chars.as_slice());
    }
    let mut r = to_uppercase_chars(chars[0]);
    let rest = sub_chars(chars.as_slice(), 1, chars.len());
    assert(rest@ =~= word@.drop_first());
    extend_chars(&mut r, rest.as_slice());
    string_from_chars(r.as_slice())
}

/// Whether a lower-cased word counts as a keyword: at least six bytes and
/// not a stop word.
pub open spec fn is_keyword(w: Seq<char>) -> bool {
    utf8_len(w) >= 6 && !stop_words().contains(w)
}

/// The pieces of `text` between characters that are not alphanumeric.
pub open spec fn alphanumeric_runs(text: Seq<char>) -> Seq<Seq<char>> {
    split_marked(text, text.map_values(|c: char| !unicode_alphanumeric(c)))
}

/// The keyword occurrences of `text`, title-cased, in text order.
pub open spec fn keyword_occurrences(text: Seq<char>) -> Seq<Seq<char>> {
    alphanumeric_runs(text).map_values(|raw: Seq<char>| lowercase(trim(raw))).filter(
        |w: Seq<char>| is_keyword(w),
    ).map_values(|w: Seq<char>| title_cased(w))
}

/// How often `k` occurs in `occ`.
pub open spec fn occurrences(occ: Seq<Seq<char>>, k: Seq<char>) -> nat
    decreases occ.len(),
{
    if occ.len() == 0 {
        0
    } else {
        occurrences(occ.drop_last(), k) + if occ.last() == k {
            1nat
        } else {
            0nat
        }
    }
}

/// Keyword order: more frequent first, then lexicographic.
pub open spec fn ranks_before(a: Seq<char>, b: Seq<char>, occ: Seq<Seq<char>>) -> bool {
    occurrences(occ, a) > occurrences(occ, b) || (occurrences(occ, a) == occurrences(occ, b)
        && seq_lt(a, b))
}

/// Whether `r` lists the distinct keywords of `occ`, most frequent first and
/// alphabetically among equally frequent ones.
pub open spec fn is_ranking(r: Seq<Seq<char>>, occ: Seq<Seq<char>>) -> bool {
    &&& forall|x: Seq<char>| r.contains(x) <==> occ.contains(x)
    &&& forall|i: int, j: int| 0 <= i < j < r.len() ==> ranks_before(r[i], r[j], occ)
}

/// The keyword occurrences of `text`.
fn keyword_occurrence_list(text: &str) -> (r: Vec<Vec<char>>)
    ensures
        views(r@) == keyword_occurrences(text@),
{
    let chars = chars_of(text);
    let mut marks: Vec<bool> = Vec::new();
    let mut i: usize = 0;
    while i < chars.len()
        invariant
            i <= chars@.len(),
            chars@ == text@,
            marks@ == chars@.take(i as int).map_values(|c: char| !unicode_alphanumeric(c)),
        decreases chars@.len() - i,
    {
        marks.push(!is_alphanumeric(chars[i]));
        i = i + 1;
        assert(marks@ =~= chars@.take(i as int).map_values(|c: char| !unicode_alphanumeric(c)));
    }
    assert(chars@.take(i as int) =~= chars@);
    let runs = split_at_marks(chars.as_slice(), marks.as_slice());
    let stops = stop_word_list();
    let ghost lowered = views(runs@).map_values(|raw: Seq<char>| lowercase(trim(raw)));
    let ghost f = |w: Seq<char>| is_keyword(w);
    let mut out: Vec<Vec<char>> = Vec::new();
    let mut k: usize = 0;
    while k < runs.len()
        invariant
            k <= runs@.len(),
            views(runs@) == alphanumeric_runs(text@),
            lowered == views(runs@).map_values(|raw: Seq<char>| lowercase(trim(raw))),
            stops@.map_values(|s: &str| s@) == stop_words(),
            f == (|w: Seq<char>| is_keyword(w)),
            views(out@) == lowered.take(k as int).filter(f).map_values(|w: Seq<char>| title_cased(w)),
        decreases runs@.len() - k,
    {
        assert(lowered.take(k + 1).drop_last() =~= lowered.take(k as int));
        assert(lowered.take(k + 1).last() == lowercase(trim(runs@[k as int]@)));
        reveal(Seq::filter);
        let t = trim_chars(runs[k].as_slice());
        let ts = string_from_chars(t.as_slice());
        let lower = to_lowercase(ts.as_str());
        let word = chars_of(lower.as_str());
        let long = capped_byte_len(word.as_slice(), 5) > 5;
        let mut is_stop = false;
        let mut q: usize = 0;
        while q < stops.len()
            invariant
                q <= stops@.len(),
                stops@.map_values(|s: &str| s@) == stop_words(),
                is_stop == exists|m: int| 0 <= m < q && stop_words()[m] == word@,
            decreases stops@.len() - q,
        {
            let sw: &str = stops[q];
            assert(sw@ == stop_words()[q as int]);
            if crate::text::chars_eq_str(word.as_slice(), sw) {
                is_stop = true;
            }
            q = q + 1;
        }
        proof {
            if is_stop {
                let m = choose|m: int| 0 <= m < q && stop_words()[m] == word@;
                assert(stop_words().contains(word@));
            }
        }
        let ghost before = views(out@);
        let ghost prev = lowered.take(k as int).filter(f);
        if long && !is_stop {
            let tc = title_case(lower.as_str());
            out.push(chars_of(tc.as_str()));
            assert(lowered.take(k + 1).filter(f) == prev.push(word@));
            let ghost g = |w: Seq<char>| title_cased(w);
            assert(views(out@) =~= before.push(title_cased(word@)));
            assert(prev.push(word@).map_values(g) =~= prev.map_values(g).push(g(word@)));
            assert(views(out@) =~= lowered.take(k + 1).filter(f).map_values(|w: Seq<char>| title_cased(w)));
        } else {
            assert(lowered.take(k + 1).filter(f) == prev);
        }
        k = k + 1;
    }
    assert(lowered.take(k as int) =~= lowered);
    out
}

/// Whether the keyword `a` with `na` occurrences ranks before `b` with `nb`.
fn entry_before(a: &[char], na: usize, b: &[char], nb: usize) -> (r: bool)
    ensures
        r == (na > nb || (na == nb && seq_lt(a@, b@))),
{
    na > nb || (na == nb && chars_lt(a, b))
}

/// For distinct words, exactly one ranks before the other; the order is
/// transitive.
pub proof fn lemma_ranks_before_order(a: Seq<char>, b: Seq<char>, c: Seq<char>, occ: Seq<Seq<char>>)
    ensures
        a != b ==> (ranks_before(a, b, occ) || ranks_before(b, a, occ)),
        !(ranks_before(a, b, occ) && ranks_before(b, a, occ)),
        !ranks_before(a, a, occ),
        ranks_before(a, b, occ) && ranks_before(b, c, occ) ==> ranks_before(a, c, occ),
{
    lemma_seq_lt_total(a, b);
    lemma_seq_lt_asymmetric(a, b);
    lemma_seq_lt_irreflexive(a);
    if seq_lt(a, b) && seq_lt(b, c) {
        lemma_seq_lt_transitive(a, b, c);
    }
}

/// Whether `x` is one of `words`.
pub open spec fn lists_word(words: Seq<Vec<char>>, x: Seq<char>) -> bool {
    exists|m: int| 0 <= m < words.len() && words[m]@ == x
}

/// The distinct words of `occ` in order of first occurrence, with their counts.
pub(crate) fn count_keywords(occ: &Vec<Vec<char>>) -> (r: (Vec<Vec<char>>, Vec<usize>))
    ensures
        r.0@.len() == r.1@.len(),
        forall|m: int| 0 <= m < r.1@.len() ==> #[trigger] r.1@[m] == occurrences(views(occ@), r.0@[m]@),
        forall|m1: int, m2: int| 0 <= m1 < m2 < r.0@.len() ==> r.0@[m1]@ != r.0@[m2]@,
        forall|m: int| 0 <= m < r.0@.len() ==> views(occ@).contains(#[trigger] r.0@[m]@),
        forall|t: int| 0 <= t < occ@.len() ==> #[trigger] lists_word(r.0@, occ@[t]@),
{
    let ghost o = views(occ@);
    let mut words: Vec<Vec<char>> = Vec::new();
    let mut counts: Vec<usize> = Vec::new();
    let mut i: usize = 0;
    while i < occ.len()
        invariant
            i <= occ@.len(),
            o == views(occ@),
            words@.len() == counts@.len(),
            forall|m: int| 0 <= m < counts@.len() ==> #[trigger] counts@[m] == occurrences(o.take(i as int), words@[m]@),
            forall|m: int| 0 <= m < counts@.len() ==> #[trigger] counts@[m] <= i,
            forall|m1: int, m2: int| 0 <= m1 < m2 < words@.len() ==> words@[m1]@ != words@[m2]@,
            forall|m: int| 0 <= m < words@.len() ==> o.take(i as int).contains(#[trigger] words@[m]@),
            forall|t: int| #![trigger o[t]] 0 <= t < i ==> exists|m: int| 0 <= m < words@.len() && #[trigger] words@[m]@ == o[t],
        decreases occ@.len() - i,
    {
        let w = &occ[i];
        let ghost wv = w@;
        assert(o[i as int] == wv);
        let ghost prev = o.take(i as int);
        let ghost next = o.take(i + 1);
        assert(next.drop_last() =~= prev);
        assert(next.last() == wv);
        assert(next =~= prev.push(wv));
        let mut k: usize = 0;
        while k < words.len() && !chars_eq(words[k].as_slice(), w.as_slice())
            invariant
                k <= words@.len(),
                words@.len() == counts@.len(),
                w@ == wv,
                forall|m: int| 0 <= m < k ==> words@[m]@ != wv,
            decreases words@.len() - k,
        {
            k = k + 1;
        }
        let found = k < words.len();
        let ghost old_words = words@;
        let ghost old_counts = counts@;
        if found {
            let c = counts[k];
            counts.set(k, c + 1);
            assert forall|m: int| 0 <= m < counts@.len() implies #[trigger] counts@[m] == occurrences(next, words@[m]@) by {
                assert(old_counts[m] == occurrences(prev, old_words[m]@));
            }
            assert forall|m: int| 0 <= m < words@.len() implies next.contains(#[trigger] words@[m]@) by {
                assert(prev.contains(words@[m]@));
                let t = choose|t: int| 0 <= t < prev.len() && prev[t] == words@[m]@;
                assert(next[t] == prev[t]);
            }
            assert forall|t: int| #![trigger o[t]] 0 <= t < i + 1 implies exists|m: int| 0 <= m < words@.len() && #[trigger] words@[m]@ == o[t] by {
                if t == i {
                    assert(words@[k as int]@ == o[t]);
                }
            }
        } else {
            let copy = sub_chars(w.as_slice(), 0, w.len());
            assert(copy@ =~= wv);
            words.push(copy);
            counts.push(1);
            assert forall|m: int| 0 <= m < counts@.len() implies #[trigger] counts@[m] == occurrences(next, words@[m]@) by {
                if m < old_counts.len() {
                    assert(old_counts[m] == occurrences(prev, old_words[m]@));
                    assert(words@[m] == old_words[m]);
                } else {
                    assert(!prev.contains(wv)) by {
                        if prev.contains(wv) {
                            let t = choose|t: int| 0 <= t < prev.len() && prev[t] == wv;
                            assert(o[t] == prev[t]);
                            let m2 = choose|m2: int| 0 <= m2 < old_words.len() && #[trigger] old_words[m2]@ == o[t];
                        }
                    }
                    lemma_occurrences_absent(prev, wv);
                }
            }
            assert forall|m: int| 0 <= m < words@.len() implies next.contains(#[trigger] words@[m]@) by {
                if m < old_words.len() {
                    assert(words@[m] == old_words[m]);
                    assert(prev.contains(words@[m]@));
                    let t = choose|t: int| 0 <= t < prev.len() && prev[t] == words@[m]@;
                    assert(next[t] == prev[t]);
                } else {
                    assert(next[i as int] == wv);
                }
            }
            assert forall|t: int| #![trigger o[t]] 0 <= t < i + 1 implies exists|m: int| 0 <= m < words@.len() && #[trigger] words@[m]@ == o[t] by {
                if t == i {
                    assert(words@[old_words.len() as int]@ == o[t]);
                } else {
                    let m2 = choose|m2: int| 0 <= m2 < old_words.len() && #[trigger] old_words[m2]@ == o[t];
                    assert(words@[m2] == old_words[m2]);
                }
            }
            assert forall|m1: int, m2: int| 0 <= m1 < m2 < words@.len() implies words@[m1]@ != words@[m2]@ by {
                if m2 < old_words.len() {
                    assert(words@[m1] == old_words[m1]);
                    assert(words@[m2] == old_words[m2]);
                } else {
                    assert(words@[m1] == old_words[m1]);
                }
            }
        }
        i = i + 1;
    }
    assert(o.take(i as int) =~= o);
    assert forall|t: int| 0 <= t < occ@.len() implies #[trigger] lists_word(words@, occ@[t]@) by {
        assert(o[t] == occ@[t]@);
    }
    (words, counts)
}

/// A word absent from `s` occurs there zero times.
proof fn lemma_occurrences_absent(s: Seq<Seq<char>>, k: Seq<char>)
    requires
        !s.contains(k),
    ensures
        occurrences(s, k) == 0,
    decreases s.len(),
{
    if s.len() > 0 {
        assert(!s.drop_last().contains(k)) by {
            if s.drop_last().contains(k) {
                let t = choose|t: int| 0 <= t < s.drop_last().len() && s.drop_last()[t] == k;
                assert(s[t] == k);
            }
        }
        assert(s[s.len() - 1] == s.last());
        lemma_occurrences_absent(s.drop_last(), k);
    }
}

/// Whether index `m` appears in `order`.
spec fn lists(order: Seq<usize>, m: int) -> bool {
    exists|t: int| 0 <= t < order.len() && order[t] == m
}

/// Ranks the keywords of `text` by frequency, then alphabetically.
pub fn keyword_candidates(text: &str) -> (r: Vec<String>)
    ensures
        is_ranking(r@.map_values(|s: String| s@), keyword_occurrences(text@)),
{
    let occ = keyword_occurrence_list(text);
    let ghost o = views(occ@);
    let (words, counts) = count_keywords(&occ);
    // Insertion of each distinct keyword into the ranked order.
    let mut order: Vec<usize> = Vec::new();
    let mut j: usize = 0;
    while j < words.len()
        invariant
            j <= words@.len() == counts@.len(),
            o == views(occ@),
            forall|m: int| 0 <= m < counts@.len() ==> #[trigger] counts@[m] == occurrences(o, words@[m]@),
            forall|m1: int, m2: int| 0 <= m1 < m2 < words@.len() ==> words@[m1]@ != words@[m2]@,
            forall|t: int| 0 <= t < order@.len() ==> #[trigger] order@[t] < j,
            forall|m: int| 0 <= m < j ==> #[trigger] lists(order@, m),
            forall|a: int, b: int| 0 <= a < b < order@.len() ==> ranks_before(
                words@[order@[a] as int]@,
                words@[order@[b] as int]@,
                o,
            ),
        decreases words@.len() - j,
    {
        let mut p: usize = 0;
        while p < order.len() && !entry_before(
            words[j].as_slice(),
            counts[j],
            words[order[p]].as_slice(),
            counts[order[p]],
        )
            invariant
                p <= order@.len(),
                j < words@.len() == counts@.len(),
                forall|t: int| 0 <= t < order@.len() ==> #[trigger] order@[t] < j,
                forall|m: int| 0 <= m < counts@.len() ==> #[trigger] counts@[m] == occurrences(o, words@[m]@),
                forall|t: int| 0 <= t < p ==> !ranks_before(words@[j as int]@, #[trigger] words@[order@[t] as int]@, o),
            decreases order@.len() - p,
        {
            p = p + 1;
        }
        let ghost old_order = order@;
        let ghost nw = words@[j as int]@;
        proof {
            assert forall|t: int| 0 <= t < p implies ranks_before(#[trigger] words@[old_order[t] as int]@, nw, o) by {
                let m = old_order[t] as int;
                assert(words@[m]@ != nw);
                lemma_ranks_before_order(nw, words@[m]@, nw, o);
            }
            if p < old_order.len() {
                assert(ranks_before(nw, words@[old_order[p as int] as int]@, o));
            }
        }
        order.insert(p, j);
        proof {
            assert forall|a: int, b: int| 0 <= a < b < order@.len() implies ranks_before(
                words@[order@[a] as int]@,
                words@[order@[b] as int]@,
                o,
            ) by {
                if a < (p as int) && b < (p as int) {
                    assert(order@[a] == old_order[a] && order@[b] == old_order[b]);
                } else if a < (p as int) && b == (p as int) {
                    assert(order@[a] == old_order[a]);
                } else if a < (p as int) {
                    assert(order@[a] == old_order[a] && order@[b] == old_order[b - 1]);
                    let x = words@[old_order[a] as int]@;
                    let y = words@[old_order[b - 1] as int]@;
                    lemma_ranks_before_order(x, nw, y, o);
                    if (p as int) <= b - 2 {
                        lemma_ranks_before_order(nw, words@[old_order[p as int] as int]@, y, o);
                    }
                } else if a == p as int {
                    assert(order@[b] == old_order[b - 1]);
                    let y = words@[old_order[b - 1] as int]@;
                    if (p as int) < b - 1 {
                        lemma_ranks_before_order(nw, words@[old_order[p as int] as int]@, y, o);
                    }
                } else {
                    assert(order@[a] == old_order[a - 1] && order@[b] == old_order[b - 1]);
                }
            }
            assert forall|m: int| 0 <= m < j + 1 implies #[trigger] lists(order@, m) by {
                if m == j {
                    assert(order@[p as int] == m);
                } else {
                    assert(lists(old_order, m));
                    let t = choose|t: int| 0 <= t < old_order.len() && old_order[t] == m;
                    if t < p {
                        assert(order@[t] == m);
                    } else {
                        assert(order@[t + 1] == m);
                    }
                }
            }
        }
        j = j + 1;
    }
    let mut r: Vec<String> = Vec::new();
    let mut t: usize = 0;
    while t < order.len()
        invariant
            t <= order@.len(),
            forall|q: int| 0 <= q < order@.len() ==> #[trigger] order@[q] < words@.len(),
            r@.len() == t,
            forall|q: int| 0 <= q < t ==> #[trigger] r@[q]@ == words@[order@[q] as int]@,
        decreases order@.len() - t,
    {
        r.push(string_from_chars(words[order[t]].as_slice()));
        t = t + 1;
    }
    proof {
        let rv = r@.map_values(|s: String| s@);
        assert forall|x: Seq<char>| rv.contains(x) <==> o.contains(x) by {
            if rv.contains(x) {
                let q = choose|q: int| 0 <= q < rv.len() && rv[q] == x;
                assert(r@[q]@ == x);
            }
            if o.contains(x) {
                let q = choose|q: int| 0 <= q < o.len() && o[q] == x;
                assert(occ@[q]@ == o[q]);
                assert(lists_word(words@, occ@[q]@));
                let m = choose|m: int| 0 <= m < words@.len() && words@[m]@ == occ@[q]@;
                assert(lists(order@, m));
                let tt = choose|tt: int| 0 <= tt < order@.len() && order@[tt] == m;
                assert(rv[tt] == x);
            }
        }
        assert forall|a: int, b: int| 0 <= a < b < rv.len() implies ranks_before(rv[a], rv[b], o) by {
            assert(rv[a] == words@[order@[a] as int]@);
            assert(rv[b] == words@[order@[b] as int]@);
        }
    }
    r
}

/// Rankings are unique: two orders of the same keywords, each strictly by
/// frequency and then alphabetically, are the same sequence.
pub proof fn lemma_ranking_unique(r1: Seq<Seq<char>>, r2: Seq<Seq<char>>, occ: Seq<Seq<char>>)
    requires
        is_ranking(r1, occ),
        is_ranking(r2, occ),
    ensures
        r1 == r2,
{
    lemma_sorted_same_elements(r1, r2, occ);
}

proof fn lemma_sorted_same_elements(r1: Seq<Seq<char>>, r2: Seq<Seq<char>>, occ: Seq<Seq<char>>)
    requires
        forall|x: Seq<char>| r1.contains(x) <==> r2.contains(x),
        forall|i: int, j: int| 0 <= i < j < r1.len() ==> ranks_before(r1[i], r1[j], occ),
        forall|i: int, j: int| 0 <= i < j < r2.len() ==> ranks_before(r2[i], r2[j], occ),
    ensures
        r1 == r2,
    decreases r1.len(),
{
    if r1.len() == 0 {
        if r2.len() > 0 {
            assert(r2.contains(r2[0]));
        }
        assert(r1 =~= r2);
    } else {
        assert(r1.contains(r1[0]));
        assert(r2.len() > 0);
        assert(r2.contains(r2[0]));
        let j = choose|j: int| 0 <= j < r2.len() && r2[j] == r1[0];
        let i = choose|i: int| 0 <= i < r1.len() && r1[i] == r2[0];
        if r1[0] != r2[0] {
            assert(j > 0 && i > 0);
            assert(ranks_before(r2[0], r2[j], occ));
            assert(ranks_before(r1[0], r1[i], occ));
            lemma_ranks_before_order(r1[0], r2[0], r1[0], occ);
        }
        let t1 = r1.drop_first();
        let t2 = r2.drop_first();
        assert forall|x: Seq<char>| t1.contains(x) <==> t2.contains(x) by {
            if t1.contains(x) {
                let a = choose|a: int| 0 <= a < t1.len() && t1[a] == x;
                assert(r1[a + 1] == x);
                assert(ranks_before(r1[0], r1[a + 1], occ));
                lemma_ranks_before_order(x, x, x, occ);
                assert(r2.contains(x));
                let b = choose|b: int| 0 <= b < r2.len() && r2[b] == x;
                assert(b != 0);
                assert(t2[b - 1] == x);
            }
            if t2.contains(x) {
                let a = choose|a: int| 0 <= a < t2.len() && t2[a] == x;
                assert(r2[a + 1] == x);
                assert(ranks_before(r2[0], r2[a + 1], occ));
                lemma_ranks_before_order(x, x, x, occ);
                assert(r1.contains(x));
                let b = choose|b: int| 0 <= b < r1.len() && r1[b] == x;
                assert(b != 0);
                assert(t1[b - 1] == x);
            }
        }
        assert forall|a: int, b: int| 0 <= a < b < t1.len() implies ranks_before(t1[a], t1[b], occ) by {
            assert(t1[a] == r1[a + 1] && t1[b] == r1[b + 1]);
        }
        assert forall|a: int, b: int| 0 <= a < b < t2.len() implies ranks_before(t2[a], t2[b], occ) by {
            assert(t2[a] == r2[a + 1] && t2[b] == r2[b + 1]);
        }
        lemma_sorted_same_elements(t1, t2, occ);
        assert(r1 =~= seq![r1[0]] + t1);
        assert(r2 =~= seq![r2[0]] + t2);
    }
}

// ---------------------------------------------------------------------------
// Concept tags
// ---------------------------------------------------------------------------

/// The text the mock concepts are drawn from: the first eight chunks joined
/// with single spaces.
pub open spec fn concept_text(chunks: Seq<TextChunk>) -> Seq<char> {
    join(
        chunks.take(if chunks.len() < 8 { chunks.len() as int } else { 8 }).map_values(
            |c: TextChunk| c.text@,
        ),
        " "@,
    )
}

/// Labels used when the text yields no keyword.
pub open spec fn fallback_concept_labels() -> Seq<Seq<char>> {
    seq!["Core Argument"@, "Evidence"@, "Method"@]
}

/// The labels taken from a keyword ranking: its first twelve, or the
/// fallback labels when it is empty.
pub open spec fn concept_labels(ranking: Seq<Seq<char>>) -> Seq<Seq<char>> {
    if ranking.len() == 0 {
        fallback_concept_labels()
    } else if ranking.len() <= 12 {
        ranking
    } else {
        ranking.take(12)
    }
}

/// `concept-1`, `concept-2`, ... for the `k`-th tag counted from zero.
pub open spec fn concept_id(k: nat) -> Seq<char> {
    "concept-"@ + decimal(k + 1)
}

/// The description of a concept tag.
pub open spec fn concept_description(label: Seq<char>) -> Seq<char> {
    "Document concept related to "@ + label + "."@
}

/// Whether `tags` are the concept tags for `labels`, in order.
pub open spec fn are_concept_tags(tags: Seq<ConceptTag>, labels: Seq<Seq<char>>) -> bool {
    &&& tags.len() == labels.len()
    &&& forall|k: int|
        0 <= k < tags.len() ==> {
            &&& (#[trigger] tags[k]).id@ == concept_id(k as nat)
            &&& tags[k].label@ == labels[k]
            &&& tags[k].description@ == concept_description(labels[k])
        }
}

/// The concept tags for `labels`.
pub fn concept_tags(labels: Vec<String>) -> (r: Vec<ConceptTag>)
    requires
        labels@.len() < usize::MAX,
    ensures
        are_concept_tags(r@, labels@.map_values(|s: String| s@)),
{
    let ghost lv = labels@.map_values(|s: String| s@);
    let mut r: Vec<ConceptTag> = Vec::new();
    let mut k: usize = 0;
    while k < labels.len()
        invariant
            k <= labels@.len() < usize::MAX,
            lv == labels@.map_values(|s: String| s@),
            r@.len() == k,
            forall|q: int|
                0 <= q < k ==> {
                    &&& (#[trigger] r@[q]).id@ == concept_id(q as nat)
                    &&& r@[q].label@ == lv[q]
                    &&& r@[q].description@ == concept_description(lv[q])
                },
        decreases labels@.len() - k,
    {
        let mut id = chars_of("concept-");
        let n = decimal_chars(k + 1);
        extend_chars(&mut id, n.as_slice());
        let label_chars = chars_of(labels[k].as_str());
        let mut description = chars_of("Document concept related to ");
        extend_chars(&mut description, label_chars.as_slice());
        let dot = chars_of(".");
        extend_chars(&mut description, dot.as_slice());
        r.push(
            ConceptTag {
                id: string_from_chars(id.as_slice()),
                label: string_from_chars(label_chars.as_slice()),
                description: string_from_chars(description.as_slice()),
            },
        );
        k = k + 1;
    }
    r
}

/// The text of the first eight chunks joined with single spaces.
pub fn concept_source(chunks: &[TextChunk]) -> (r: String)
    ensures
        r@ == concept_text(chunks@),
{
    let n: usize = if chunks.len() < 8 { chunks.len() } else { 8 };
    let mut parts: Vec<Vec<char>> = Vec::new();
    let mut i: usize = 0;
    while i < n
        invariant
            i <= n <= chunks@.len(),
            n == (if chunks@.len() < 8 { chunks@.len() as int } else { 8 }),
            views(parts@) == chunks@.take(i as int).map_values(|c: TextChunk| c.text@),
        decreases n - i,
    {
        let c = chars_of(chunks[i].text.as_str());
        let ghost before = views(parts@);
        parts.push(c);
        assert(views(parts@) =~= before.push(chunks@[i as int].text@));
        assert(chunks@.take(i + 1) =~= chunks@.take(i as int).push(chunks@[i as int]));
        i = i + 1;
        assert(views(parts@) =~= chunks@.take(i as int).map_values(|c: TextChunk| c.text@));
    }
    let sep = chars_of(" ");
    let joined = join_chars(parts.as_slice(), sep.as_slice());
    string_from_chars(joined.as_slice())
}

/// The concept labels for `text`: its top twelve keywords, or the fallback
/// labels.
pub fn concept_labels_for(text: &str) -> (r: Vec<String>)
    ensures
        exists|ranking: Seq<Seq<char>>|
            is_ranking(ranking, keyword_occurrences(text@)) && r@.map_values(|s: String| s@)
                == concept_labels(ranking),
        r@.len() <= 12,
{
    let mut labels = keyword_candidates(text);
    let ghost ranking = labels@.map_values(|s: String| s@);
    if labels.len() == 0 {
        let mut fallback: Vec<String> = Vec::new();
        fallback.push(string_from_chars(chars_of("Core Argument").as_slice()));
        fallback.push(string_from_chars(chars_of("Evidence").as_slice()));
        fallback.push(string_from_chars(chars_of("Method").as_slice()));
        assert(ranking.len() == 0);
        assert(fallback@.map_values(|s: String| s@) =~= concept_labels(ranking));
        return fallback;
    }
    labels.truncate(12);
    assert(labels@.map_values(|s: String| s@) =~= concept_labels(ranking));
    labels
}

} // verus!
