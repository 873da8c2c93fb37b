//! Selectable-text extraction: paragraph chunking of page text and
//! sentence candidates inside chunks.
use vstd::prelude::*;

use crate::models::{SentenceCandidate, TextChunk};
use crate::text::{
    capped_byte_len, chars_of, extend_chars, keep_nonempty, nonempty, split_at_str, split_str,
    string_from_chars, sub_chars, trailing_ws, leading_ws, trim, trim_bounds, trim_chars,
    unicode_whitespace, utf8_len, views, is_whitespace, decimal, decimal_chars, join, trim_start, lemma_trim_idempotent_len, lemma_utf8_len_concat, char_utf8_len, is_digit_char,
    lemma_decimal_digits, lemma_decimal_injective, lemma_leading_ws_bound, lemma_trailing_ws_bound,
    lemma_leading_ws_unique, lemma_trailing_ws_unique,
};

verus! {

/// Paragraphs are combined into one chunk while their text stays within this
/// many bytes.
pub const CHUNK_BYTE_LIMIT: usize = 1500;

/// The paragraph separator, a blank line.
pub open spec fn paragraph_separator() -> Seq<char> {
    seq!['\n', '\n']
}

/// The non-empty trimmed blank-line separated paragraphs of `text`.
pub open spec fn paragraphs(text: Seq<char>) -> Seq<Seq<char>> {
    split_str(text, paragraph_separator()).map_values(|p: Seq<char>| trim(p)).filter(
        |p: Seq<char>| nonempty(p),
    )
}

/// Greedy packing of paragraphs: the finished chunks and the text collected
/// for the chunk in progress (each paragraph followed by a blank line).  A new
/// chunk starts when adding a paragraph would take the collected text over
/// `CHUNK_BYTE_LIMIT` bytes.
pub open spec fn pack_paragraphs(ps: Seq<Seq<char>>) -> (Seq<Seq<char>>, Seq<char>)
    decreases ps.len(),
{
    if ps.len() == 0 {
        (Seq::<Seq<char>>::empty(), Seq::<char>::empty())
    } else {
        let (done, current) = pack_paragraphs(ps.drop_last());
        let p = ps.last();
        if utf8_len(current) + utf8_len(p) > CHUNK_BYTE_LIMIT && current.len() > 0 {
            (done.push(trim(current)), p + paragraph_separator())
        } else {
            (done, current + p + paragraph_separator())
        }
    }
}

/// The chunks of one page's text.
pub open spec fn chunk_texts(text: Seq<char>) -> Seq<Seq<char>> {
    let (done, current) = pack_paragraphs(paragraphs(text));
    if trim(current).len() > 0 {
        done.push(trim(current))
    } else {
        done
    }
}

/// Whether `p` starts and ends with a character other than white space.
pub open spec fn is_clean(p: Seq<char>) -> bool {
    p.len() > 0 && !unicode_whitespace(p[0]) && !unicode_whitespace(p.last())
}

/// The chunks of a packing, the chunk in progress included when it holds
/// anything.
pub open spec fn packed_chunks(packed: (Seq<Seq<char>>, Seq<char>)) -> Seq<Seq<char>> {
    if packed.1.len() > 0 {
        packed.0.push(trim(packed.1))
    } else {
        packed.0
    }
}

proof fn lemma_trim_is_clean(q: Seq<char>)
    ensures
        trim(q).len() > 0 ==> is_clean(trim(q)),
{
    lemma_leading_ws_bound(q);
    let a = trim_start(q);
    lemma_trailing_ws_bound(a);
    if trim(q).len() > 0 {
        assert(trim(q)[0] == a[0]);
        assert(a[0] == q[leading_ws(q) as int]);
        assert(trim(q).last() == a[a.len() - trailing_ws(a) - 1]);
    }
}

proof fn lemma_trim_clean(y: Seq<char>)
    requires
        is_clean(y),
    ensures
        trim(y) == y,
        trim(y + paragraph_separator()) == y,
{
    lemma_leading_ws_unique(y, 0);
    lemma_trailing_ws_unique(y, 0);
    assert(y.skip(0) =~= y);
    assert(y.take(y.len() as int) =~= y);
    let z = y + paragraph_separator();
    assert(z[0] == y[0]);
    lemma_leading_ws_unique(z, 0);
    assert(z[z.len() - 3] == y.last());
    assert forall|i: int| z.len() - 2 <= i < z.len() implies unicode_whitespace(#[trigger] z[i]) by {
        assert(z[i] == '\n');
    }
    lemma_trailing_ws_unique(z, 2);
    assert(z.skip(0) =~= z);
    assert(z.take(z.len() - 2) =~= y);
}

proof fn lemma_join_push(parts: Seq<Seq<char>>, x: Seq<char>, sep: Seq<char>)
    ensures
        join(parts.push(x), sep) == if parts.len() == 0 {
            x
        } else {
            join(parts, sep) + sep + x
        },
{
    assert(parts.push(x).drop_last() =~= parts);
    if parts.len() == 0 {
        assert(parts.push(x)[0] == x);
    }
}

/// The non-empty pieces of `s`.
pub open spec fn kept_pieces(s: Seq<Seq<char>>) -> Seq<Seq<char>> {
    s.filter(|p: Seq<char>| nonempty(p))
}

proof fn lemma_clean_filter(s: Seq<Seq<char>>)
    requires
        forall|i: int| 0 <= i < s.len() && (#[trigger] s[i]).len() > 0 ==> is_clean(s[i]),
    ensures
        forall|j: int| 0 <= j < kept_pieces(s).len() ==> is_clean(#[trigger] kept_pieces(s)[j]),
    decreases s.len(),
{
    reveal(Seq::filter);
    let f = |p: Seq<char>| nonempty(p);
    if s.len() > 0 {
        let d = s.drop_last();
        assert forall|i: int| 0 <= i < d.len() && (#[trigger] d[i]).len() > 0 implies is_clean(d[i]) by {
            assert(d[i] == s[i]);
        }
        lemma_clean_filter(d);
        let out = kept_pieces(s);
        assert forall|j: int| 0 <= j < out.len() implies is_clean(#[trigger] out[j]) by {
            if f(s.last()) {
                assert(out == kept_pieces(d).push(s.last()));
                if j < kept_pieces(d).len() {
                    assert(out[j] == kept_pieces(d)[j]);
                } else {
                    assert(s[s.len() - 1] == s.last());
                }
            } else {
                assert(out == kept_pieces(d));
            }
        }
    }
}

proof fn lemma_paragraphs_clean(text: Seq<char>)
    ensures
        forall|j: int| 0 <= j < paragraphs(text).len() ==> is_clean(#[trigger] paragraphs(text)[j]),
{
    let m = split_str(text, paragraph_separator()).map_values(|p: Seq<char>| trim(p));
    assert forall|i: int| 0 <= i < m.len() && (#[trigger] m[i]).len() > 0 implies is_clean(m[i]) by {
        lemma_trim_is_clean(split_str(text, paragraph_separator())[i]);
    }
    lemma_clean_filter(m);
    assert(paragraphs(text) == kept_pieces(m));
}

/// Packing only groups paragraphs: the chunks, joined by blank lines, are
/// the paragraphs joined by blank lines.
proof fn lemma_pack_keeps_text(ps: Seq<Seq<char>>)
    requires
        forall|j: int| 0 <= j < ps.len() ==> is_clean(#[trigger] ps[j]),
    ensures
        ps.len() == 0 <==> pack_paragraphs(ps).1.len() == 0,
        pack_paragraphs(ps).1.len() == 0 ==> pack_paragraphs(ps).0.len() == 0,
        pack_paragraphs(ps).1.len() > 0 ==> is_clean(trim(pack_paragraphs(ps).1))
            && pack_paragraphs(ps).1 == trim(pack_paragraphs(ps).1) + paragraph_separator(),
        join(packed_chunks(pack_paragraphs(ps)), paragraph_separator()) == join(ps, paragraph_separator()),
    decreases ps.len(),
{
    let sep = paragraph_separator();
    if ps.len() > 0 {
        let prev = ps.drop_last();
        assert forall|j: int| 0 <= j < prev.len() implies is_clean(#[trigger] prev[j]) by {
            assert(prev[j] == ps[j]);
        }
        lemma_pack_keeps_text(prev);
        let (d, c) = pack_paragraphs(prev);
        let p = ps.last();
        assert(is_clean(ps[ps.len() - 1]));
        lemma_trim_clean(p);
        lemma_join_push(prev, p, sep);
        assert(ps == prev.push(p));
        if utf8_len(c) + utf8_len(p) > CHUNK_BYTE_LIMIT && c.len() > 0 {
            let y = trim(c);
            lemma_join_push(d, y, sep);
            lemma_join_push(d.push(y), p, sep);
        } else if c.len() == 0 {
            assert(c + p + sep =~= p + sep);
            lemma_join_push(d, p, sep);
        } else {
            let y = trim(c);
            let y2 = y + sep + p;
            assert(y2[0] == y[0]);
            assert(y2.last() == p.last());
            lemma_trim_clean(y2);
            assert(c + p + sep =~= y2 + sep);
            lemma_join_push(d, y, sep);
            lemma_join_push(d, y2, sep);
            if d.len() > 0 {
                assert(join(d, sep) + sep + y2 =~= join(d, sep) + sep + y + sep + p);
            } else {
                assert(y2 =~= y + sep + p);
            }
        }
    }
}

/// Whether `chunk` is a trimmed, non-empty chunk of at most
/// `CHUNK_BYTE_LIMIT` bytes, or a single paragraph of `ps` (which alone may
/// be longer).
pub open spec fn is_sized_chunk(chunk: Seq<char>, ps: Seq<Seq<char>>) -> bool {
    &&& is_clean(chunk)
    &&& (utf8_len(chunk) <= CHUNK_BYTE_LIMIT || ps.contains(chunk))
}

proof fn lemma_separator_bytes()
    ensures
        utf8_len(paragraph_separator()) == 2,
{
    let one = seq!['\n'];
    assert(paragraph_separator().drop_last() =~= one);
    assert(one.drop_last() =~= Seq::<char>::empty());
    assert(('\n' as u32) == 10);
    assert(char_utf8_len('\n') == 1);
    assert(utf8_len(Seq::<char>::empty()) == 0);
    assert(utf8_len(one) == 1);
    assert(utf8_len(paragraph_separator()) == utf8_len(one) + char_utf8_len('\n'));
}

proof fn lemma_pack_sizes(ps: Seq<Seq<char>>)
    requires
        forall|j: int| 0 <= j < ps.len() ==> is_clean(#[trigger] ps[j]),
    ensures
        forall|k: int| 0 <= k < pack_paragraphs(ps).0.len() ==> is_sized_chunk(#[trigger] pack_paragraphs(ps).0[k], ps),
        pack_paragraphs(ps).1.len() > 0 ==> is_sized_chunk(trim(pack_paragraphs(ps).1), ps),
    decreases ps.len(),
{
    let sep = paragraph_separator();
    lemma_pack_keeps_text(ps);
    if ps.len() > 0 {
        let prev = ps.drop_last();
        assert forall|j: int| 0 <= j < prev.len() implies is_clean(#[trigger] prev[j]) by {
            assert(prev[j] == ps[j]);
        }
        lemma_pack_sizes(prev);
        lemma_pack_keeps_text(prev);
        let (d, c) = pack_paragraphs(prev);
        let p = ps.last();
        assert(ps[ps.len() - 1] == p);
        assert(ps.contains(p));
        assert forall|x: Seq<char>| prev.contains(x) implies ps.contains(x) by {
            let t = choose|t: int| 0 <= t < prev.len() && prev[t] == x;
            assert(ps[t] == x);
        }
        lemma_trim_clean(p);
        lemma_separator_bytes();
        if utf8_len(c) + utf8_len(p) > CHUNK_BYTE_LIMIT && c.len() > 0 {
            let (d2, c2) = pack_paragraphs(ps);
            assert(d2 == d.push(trim(c)));
            assert forall|k: int| 0 <= k < d2.len() implies is_sized_chunk(#[trigger] d2[k], ps) by {
                if k < d.len() {
                    assert(d2[k] == d[k]);
                    assert(is_sized_chunk(d[k], prev));
                } else {
                    assert(is_sized_chunk(trim(c), prev));
                }
            }
        } else if c.len() == 0 {
            assert(c + p + sep =~= p + sep);
        } else {
            let y = trim(c);
            let y2 = y + sep + p;
            assert(y2[0] == y[0]);
            assert(y2.last() == p.last());
            lemma_trim_clean(y2);
            assert(c + p + sep =~= y2 + sep);
            lemma_utf8_len_concat(y, sep);
            lemma_utf8_len_concat(y + sep, p);
            assert(utf8_len(y2) <= CHUNK_BYTE_LIMIT);
            assert forall|k: int| 0 <= k < d.len() implies is_sized_chunk(#[trigger] d[k], ps) by {
                assert(is_sized_chunk(d[k], prev));
            }
        }
    }
}

/// The trimmed, non-empty paragraphs of `text`.
pub fn split_paragraphs(text: &[char]) -> (r: Vec<Vec<char>>)
    ensures
        views(r@) == paragraphs(text@),
{
    let mut sep: Vec<char> = Vec::new();
    sep.push('\n');
    sep.push('\n');
    assert(sep@ =~= paragraph_separator());
    let pieces = split_at_str(text, sep.as_slice());
    let mut trimmed: Vec<Vec<char>> = Vec::new();
    let mut i: usize = 0;
    while i < pieces.len()
        invariant
            i <= pieces@.len(),
            views(trimmed@) == views(pieces@).take(i as int).map_values(|p: Seq<char>| trim(p)),
        decreases pieces@.len() - i,
    {
        let ghost before = views(trimmed@);
        trimmed.push(trim_chars(pieces[i].as_slice()));
        assert(views(trimmed@) =~= before.push(trim(pieces@[i as int]@)));
        assert(views(pieces@).take(i + 1) =~= views(pieces@).take(i as int).push(pieces@[i as int]@));
        i = i + 1;
        assert(views(trimmed@) =~= views(pieces@).take(i as int).map_values(|p: Seq<char>| trim(p)));
    }
    assert(views(pieces@).take(i as int) =~= views(pieces@));
    keep_nonempty(trimmed)
}

/// Splits page text at blank lines and combines paragraphs into chunks of up
/// to about `CHUNK_BYTE_LIMIT` bytes; empty pages give no chunk.
pub fn chunk_paragraphs(text: &str) -> (r: Vec<String>)
    ensures
        r@.map_values(|s: String| s@) == chunk_texts(text@),
        join(r@.map_values(|s: String| s@), paragraph_separator()) == join(
            paragraphs(text@),
            paragraph_separator(),
        ),
        forall|k: int| 0 <= k < r@.len() ==> is_sized_chunk(#[trigger] r@[k]@, paragraphs(text@)),
{
    proof {
        let ps = paragraphs(text@);
        lemma_paragraphs_clean(text@);
        lemma_pack_keeps_text(ps);
        lemma_pack_sizes(ps);
        let packed = pack_paragraphs(ps);
        if packed.1.len() == 0 {
            assert(trim(packed.1).len() == 0) by {
                lemma_trim_idempotent_len(packed.1);
            }
        }
        assert(chunk_texts(text@) == packed_chunks(packed));
        assert forall|k: int| 0 <= k < packed_chunks(packed).len() implies is_sized_chunk(
            #[trigger] packed_chunks(packed)[k],
            ps,
        ) by {
            if k < packed.0.len() {
                assert(packed_chunks(packed)[k] == packed.0[k]);
            }
        }
        assert(forall|k: int| 0 <= k < chunk_texts(text@).len() ==> is_sized_chunk(#[trigger] chunk_texts(text@)[k], ps));
    }
    let chars = chars_of(text);
    let ps = split_paragraphs(chars.as_slice());
    let mut chunks: Vec<String> = Vec::new();
    let mut current: Vec<char> = Vec::new();
    let mut i: usize = 0;
    while i < ps.len()
        invariant
            i <= ps@.len(),
            views(ps@) == paragraphs(text@),
            (chunks@.map_values(|s: String| s@), current@) == pack_paragraphs(
                views(ps@).take(i as int),
            ),
        decreases ps@.len() - i,
    {
        let ghost before = chunks@.map_values(|s: String| s@);
        assert(views(ps@).take(i + 1).drop_last() =~= views(ps@).take(i as int));
        assert(views(ps@).take(i + 1).last() == ps@[i as int]@);
        let p = ps[i].as_slice();
        let cur_len = capped_byte_len(current.as_slice(), CHUNK_BYTE_LIMIT);
        let p_len = capped_byte_len(p, CHUNK_BYTE_LIMIT);
        if cur_len + p_len > CHUNK_BYTE_LIMIT && current.len() > 0 {
            let t = trim_chars(current.as_slice());
            chunks.push(string_from_chars(t.as_slice()));
            assert(chunks@.map_values(|s: String| s@) =~= before.push(trim(current@)));
            current = Vec::new();
        }
        extend_chars(&mut current, p);
        current.push('\n');
        current.push('\n');
        assert(current@ =~= (current@.drop_last().drop_last()) + paragraph_separator());
        i = i + 1;
    }
    assert(views(ps@).take(i as int) =~= views(ps@));
    let t = trim_chars(current.as_slice());
    if t.len() > 0 {
        let ghost before = chunks@.map_values(|s: String| s@);
        chunks.push(string_from_chars(t.as_slice()));
        assert(chunks@.map_values(|s: String| s@) =~= before.push(trim(current@)));
    }
    proof {
        assert forall|k: int| 0 <= k < chunks@.len() implies is_sized_chunk(#[trigger] chunks@[k]@, paragraphs(text@)) by {
            assert(chunks@.map_values(|s: String| s@)[k] == chunks@[k]@);
        }
    }
    chunks
}

// ---------------------------------------------------------------------------
// Sentence ranges inside a chunk
// ---------------------------------------------------------------------------

/// Sentence-final punctuation.
pub open spec fn is_terminal(c: char) -> bool {
    c == '.' || c == '!' || c == '?'
}

/// A sentence ends at `i` when `s[i]` is sentence-final punctuation followed
/// by white space or by the end of the text.
pub open spec fn is_sentence_boundary(s: Seq<char>, i: int) -> bool {
    is_terminal(s[i]) && (i + 1 == s.len() || unicode_whitespace(s[i + 1]))
}

/// The range of `s[start..end]` without its leading and trailing white
/// space, if anything is left.
pub open spec fn trimmed_range(s: Seq<char>, start: int, end: int) -> Option<(int, int)> {
    let a = start + leading_ws(s.subrange(start, end));
    let b = end - trailing_ws(s.subrange(a, end));
    if a < b {
        Some((a, b))
    } else {
        None
    }
}

/// `ranges` with the trimmed range of `s[start..end]` added when it is not empty.
pub open spec fn with_trimmed_range(ranges: Seq<(int, int)>, s: Seq<char>, start: int, end: int) -> Seq<(int, int)> {
    match trimmed_range(s, start, end) {
        Some(r) => ranges.push(r),
        None => ranges,
    }
}

/// The sentences that end among the first `n` characters of `s`, and where
/// the sentence after them starts.
pub open spec fn scan_sentences(s: Seq<char>, n: int) -> (Seq<(int, int)>, int)
    decreases n,
{
    if n <= 0 {
        (Seq::<(int, int)>::empty(), 0)
    } else {
        let (ranges, start) = scan_sentences(s, n - 1);
        if is_sentence_boundary(s, n - 1) {
            (with_trimmed_range(ranges, s, start, n), n)
        } else {
            (ranges, start)
        }
    }
}

/// The character ranges of the sentences of `s`: the text is cut after each
/// sentence boundary, each piece is trimmed, and empty pieces are dropped.
pub open spec fn sentence_ranges_of(s: Seq<char>) -> Seq<(int, int)> {
    let (ranges, start) = scan_sentences(s, s.len() as int);
    with_trimmed_range(ranges, s, start, s.len() as int)
}

pub proof fn lemma_scan_sentences_start(s: Seq<char>, n: int)
    requires
        0 <= n <= s.len(),
    ensures
        0 <= scan_sentences(s, n).1 <= n,
    decreases n,
{
    if n > 0 {
        lemma_scan_sentences_start(s, n - 1);
    }
}

/// Whether `r` are trimmed, non-empty, disjoint ranges of `s` in increasing
/// order, all ending by `bound`: each starts and ends with a character other
/// than white space.
pub open spec fn are_trimmed_ranges(r: Seq<(int, int)>, s: Seq<char>, bound: int) -> bool {
    &&& forall|k: int|
        0 <= k < r.len() ==> 0 <= (#[trigger] r[k]).0 < r[k].1 <= bound && !unicode_whitespace(s[r[k].0])
            && !unicode_whitespace(s[r[k].1 - 1])
    &&& forall|a: int, b: int| 0 <= a < b < r.len() ==> r[a].1 <= r[b].0
}

proof fn lemma_trimmed_range_bounds(s: Seq<char>, start: int, end: int)
    requires
        0 <= start <= end <= s.len(),
    ensures
        trimmed_range(s, start, end) matches Some(t) ==> start <= t.0 < t.1 <= end && !unicode_whitespace(
            s[t.0],
        ) && !unicode_whitespace(s[t.1 - 1]),
{
    let sub = s.subrange(start, end);
    lemma_leading_ws_bound(sub);
    let a = start + leading_ws(sub);
    let sub2 = s.subrange(a, end);
    lemma_trailing_ws_bound(sub2);
    let b = end - trailing_ws(sub2);
    if a < b {
        assert(sub[leading_ws(sub) as int] == s[a]);
        assert(sub2[sub2.len() - trailing_ws(sub2) - 1] == s[b - 1]);
    }
}

/// Adding the trimmed range of `s[start..end]` to trimmed ranges ending by
/// `start` gives trimmed ranges ending by `end`.
pub proof fn lemma_with_trimmed_range(r: Seq<(int, int)>, s: Seq<char>, start: int, end: int)
    requires
        are_trimmed_ranges(r, s, start),
        0 <= start <= end <= s.len(),
    ensures
        are_trimmed_ranges(with_trimmed_range(r, s, start, end), s, end),
{
    lemma_trimmed_range_bounds(s, start, end);
    match trimmed_range(s, start, end) {
        Some(t) => {
            let n = r.push(t);
            assert forall|a: int, b: int| 0 <= a < b < n.len() implies n[a].1 <= n[b].0 by {
                if b < r.len() {
                    assert(n[a] == r[a] && n[b] == r[b]);
                } else {
                    assert(n[a] == r[a]);
                }
            }
            assert forall|k: int| 0 <= k < n.len() implies 0 <= (#[trigger] n[k]).0 < n[k].1 <= end
                && !unicode_whitespace(s[n[k].0]) && !unicode_whitespace(s[n[k].1 - 1]) by {
                if k < r.len() {
                    assert(n[k] == r[k]);
                }
            }
        },
        None => {},
    }
}

/// Whether every character of `s` before `bound` other than white space
/// lies in one of the ranges `r`.
pub open spec fn covers_text(r: Seq<(int, int)>, s: Seq<char>, bound: int) -> bool {
    forall|i: int|
        0 <= i < bound && !unicode_whitespace(#[trigger] s[i]) ==> exists|k: int|
            0 <= k < r.len() && (#[trigger] r[k]).0 <= i < r[k].1
}

/// Adding the trimmed range of `s[start..end]` keeps every character other
/// than white space covered, now up to `end`.
pub proof fn lemma_with_trimmed_range_covers(r: Seq<(int, int)>, s: Seq<char>, start: int, end: int)
    requires
        covers_text(r, s, start),
        0 <= start <= end <= s.len(),
    ensures
        covers_text(with_trimmed_range(r, s, start, end), s, end),
{
    let sub = s.subrange(start, end);
    lemma_leading_ws_bound(sub);
    let a = start + leading_ws(sub);
    let sub2 = s.subrange(a, end);
    lemma_trailing_ws_bound(sub2);
    let b = end - trailing_ws(sub2);
    let n = with_trimmed_range(r, s, start, end);
    assert forall|i: int| 0 <= i < end && !unicode_whitespace(#[trigger] s[i]) implies exists|k: int|
        0 <= k < n.len() && (#[trigger] n[k]).0 <= i < n[k].1 by {
        if i < start {
            let k = choose|k: int| 0 <= k < r.len() && (#[trigger] r[k]).0 <= i < r[k].1;
            if trimmed_range(s, start, end) is Some {
                assert(n[k] == r[k]);
            }
        } else {
            if i < a {
                assert(sub[i - start] == s[i]);
            }
            if i >= b {
                assert(sub2[i - a] == s[i]);
            }
            assert(a <= i < b);
            assert(n[n.len() - 1] == (a, b));
        }
    }
}

proof fn lemma_scan_sentences_covers(s: Seq<char>, n: int)
    requires
        0 <= n <= s.len(),
    ensures
        covers_text(scan_sentences(s, n).0, s, scan_sentences(s, n).1),
    decreases n,
{
    if n > 0 {
        lemma_scan_sentences_covers(s, n - 1);
        lemma_scan_sentences_start(s, n - 1);
        let (r, start) = scan_sentences(s, n - 1);
        if is_sentence_boundary(s, n - 1) {
            lemma_with_trimmed_range_covers(r, s, start, n);
        }
    }
}

/// Every character of a chunk other than white space belongs to one of its
/// sentences.
pub proof fn lemma_sentence_ranges_cover_text(s: Seq<char>)
    ensures
        covers_text(sentence_ranges_of(s), s, s.len() as int),
{
    lemma_scan_sentences_covers(s, s.len() as int);
    lemma_scan_sentences_start(s, s.len() as int);
    let (r, start) = scan_sentences(s, s.len() as int);
    lemma_with_trimmed_range_covers(r, s, start, s.len() as int);
}

proof fn lemma_scan_sentences_ranges(s: Seq<char>, n: int)
    requires
        0 <= n <= s.len(),
    ensures
        are_trimmed_ranges(scan_sentences(s, n).0, s, scan_sentences(s, n).1),
    decreases n,
{
    lemma_scan_sentences_start(s, n);
    if n > 0 {
        lemma_scan_sentences_ranges(s, n - 1);
        lemma_scan_sentences_start(s, n - 1);
        let (r, start) = scan_sentences(s, n - 1);
        if is_sentence_boundary(s, n - 1) {
            lemma_with_trimmed_range(r, s, start, n);
        }
    }
}

/// The sentence ranges of a chunk are trimmed, non-empty, disjoint and in
/// text order.
pub proof fn lemma_sentence_ranges_are_trimmed(s: Seq<char>)
    ensures
        are_trimmed_ranges(sentence_ranges_of(s), s, s.len() as int),
{
    lemma_scan_sentences_ranges(s, s.len() as int);
    lemma_scan_sentences_start(s, s.len() as int);
    let (r, start) = scan_sentences(s, s.len() as int);
    lemma_with_trimmed_range(r, s, start, s.len() as int);
}

/// The trimmed range of `v[start..end]`.
pub fn trimmed_range_exec(v: &[char], start: usize, end: usize) -> (r: Option<(usize, usize)>)
    requires
        start <= end <= v@.len(),
    ensures
        match trimmed_range(v@, start as int, end as int) {
            Some(t) => r matches Some(q) && q.0 == t.0 && q.1 == t.1,
            None => r is None,
        },
{
    let sub = sub_chars(v, start, end);
    let (a, b) = trim_bounds(sub.as_slice());
    proof {
        assert(sub@.skip(a as int) =~= v@.subrange(start + a, end as int));
    }
    if a < b {
        Some((start + a, start + b))
    } else {
        None
    }
}

/// Whether two ranges lists hold the same ranges.
pub open spec fn same_ranges(r: Seq<(usize, usize, String)>, t: Seq<(int, int)>, s: Seq<char>) -> bool {
    &&& r.len() == t.len()
    &&& forall|k: int|
        0 <= k < r.len() ==> (#[trigger] r[k]).0 == t[k].0 && r[k].1 == t[k].1 && r[k].2@
            == s.subrange(t[k].0, t[k].1)
}

/// The sentences of `text` as character ranges with their text.
pub fn sentence_ranges(text: &str) -> (r: Vec<(usize, usize, String)>)
    ensures
        same_ranges(r@, sentence_ranges_of(text@), text@),
{
    let chars = chars_of(text);
    let mut ranges: Vec<(usize, usize, String)> = Vec::new();
    let mut start: usize = 0;
    let mut index: usize = 0;
    while index < chars.len()
        invariant
            index <= chars@.len(),
            chars@ == text@,
            start <= index,
            scan_sentences(chars@, index as int).1 == start,
            same_ranges(ranges@, scan_sentences(chars@, index as int).0, chars@),
        decreases chars@.len() - index,
    {
        let character = chars[index];
        let terminal = character == '.' || character == '!' || character == '?';
        let boundary = terminal && (index + 1 == chars.len() || is_whitespace(chars[index + 1]));
        if boundary {
            push_sentence_range(chars.as_slice(), start, index + 1, &mut ranges);
            start = index + 1;
        }
        index = index + 1;
    }
    push_sentence_range(chars.as_slice(), start, chars.len(), &mut ranges);
    ranges
}

/// Adds the trimmed range of `chars[start..end]` to `ranges` when it is not empty.
pub fn push_sentence_range(
    chars: &[char],
    start: usize,
    end: usize,
    ranges: &mut Vec<(usize, usize, String)>,
)
    requires
        start <= end <= chars@.len(),
    ensures
        forall|t: Seq<(int, int)>|
            same_ranges(old(ranges)@, t, chars@) ==> same_ranges(
                final(ranges)@,
                with_trimmed_range(t, chars@, start as int, end as int),
                chars@,
            ),
{
    match trimmed_range_exec(chars, start, end) {
        Some((a, b)) => {
            let sub = sub_chars(chars, a, b);
            let text = string_from_chars(sub.as_slice());
            let ghost before = ranges@;
            ranges.push((a, b, text));
            assert forall|t: Seq<(int, int)>|
                same_ranges(before, t, chars@) implies same_ranges(
                ranges@,
                with_trimmed_range(t, chars@, start as int, end as int),
                chars@,
            ) by {
                let t2 = with_trimmed_range(t, chars@, start as int, end as int);
                assert(t2 == t.push((a as int, b as int)));
                assert forall|k: int| 0 <= k < ranges@.len() implies (#[trigger] ranges@[k]).0
                    == t2[k].0 && ranges@[k].1 == t2[k].1 && ranges@[k].2@ == chars@.subrange(
                    t2[k].0,
                    t2[k].1,
                ) by {
                    if k < before.len() {
                        assert(ranges@[k] == before[k]);
                    }
                }
            }
        },
        None => {
        },
    }
}

// ---------------------------------------------------------------------------
// Sentence candidates of chunks
// ---------------------------------------------------------------------------

/// Identifier of the `k`-th (from 0) sentence of the chunk `chunk_id`, such as `p2c3s1`.
pub open spec fn sentence_id_for(chunk_id: Seq<char>, k: int) -> Seq<char> {
    chunk_id + seq!['s'] + decimal((k + 1) as nat)
}

/// The (chunk index, sentence index) pairs of all sentence candidates, chunk by chunk.
pub open spec fn sentence_plan(chunks: Seq<TextChunk>) -> Seq<(int, int)>
    decreases chunks.len(),
{
    if chunks.len() == 0 {
        Seq::<(int, int)>::empty()
    } else {
        let last = chunks.len() - 1;
        sentence_plan(chunks.drop_last()) + Seq::new(
            sentence_ranges_of(chunks.last().text@).len(),
            |k: int| (last, k),
        )
    }
}

pub proof fn lemma_sentence_plan_bounds(chunks: Seq<TextChunk>)
    ensures
        forall|j: int|
            0 <= j < sentence_plan(chunks).len() ==> 0 <= (#[trigger] sentence_plan(chunks)[j]).0
                < chunks.len() && 0 <= sentence_plan(chunks)[j].1 < sentence_ranges_of(
                chunks[sentence_plan(chunks)[j].0].text@,
            ).len(),
    decreases chunks.len(),
{
    if chunks.len() > 0 {
        lemma_sentence_plan_bounds(chunks.drop_last());
        let prev = sentence_plan(chunks.drop_last());
        assert forall|j: int| 0 <= j < prev.len() implies chunks.drop_last()[prev[j].0] == chunks[prev[j].0] by {
        }
    }
}

/// `c` is the candidate for the `k`-th sentence of `chunk`.
pub open spec fn is_sentence_candidate(c: SentenceCandidate, chunk: TextChunk, k: int) -> bool {
    let r = sentence_ranges_of(chunk.text@)[k];
    &&& c.sentence_id@ == sentence_id_for(chunk.id@, k)
    &&& c.chunk_id@ == chunk.id@
    &&& c.page == chunk.page
    &&& c.text@ == chunk.text@.subrange(r.0, r.1)
    &&& c.char_start == r.0
    &&& c.char_end == r.1
}

/// The sentence candidates of `chunks`: one per sentence range, in chunk order.
pub open spec fn are_sentence_candidates(r: Seq<SentenceCandidate>, chunks: Seq<TextChunk>) -> bool {
    let plan = sentence_plan(chunks);
    &&& r.len() == plan.len()
    &&& forall|j: int|
        0 <= j < r.len() ==> is_sentence_candidate(#[trigger] r[j], chunks[plan[j].0], plan[j].1)
}

proof fn lemma_sentence_plan_order(chunks: Seq<TextChunk>, j1: int, j2: int)
    requires
        0 <= j1 < j2 < sentence_plan(chunks).len(),
    ensures
        sentence_plan(chunks)[j1].0 < sentence_plan(chunks)[j2].0 || (sentence_plan(chunks)[j1].0
            == sentence_plan(chunks)[j2].0 && sentence_plan(chunks)[j1].1 < sentence_plan(chunks)[j2].1),
    decreases chunks.len(),
{
    let d = chunks.drop_last();
    let prev = sentence_plan(d);
    let last = chunks.len() - 1;
    let block = Seq::new(sentence_ranges_of(chunks.last().text@).len(), |k: int| (last, k));
    assert(sentence_plan(chunks) == prev + block);
    lemma_sentence_plan_bounds(d);
    if j2 < prev.len() {
        lemma_sentence_plan_order(d, j1, j2);
    } else if j1 < prev.len() {
        assert(sentence_plan(chunks)[j1] == prev[j1]);
        assert(sentence_plan(chunks)[j2] == block[j2 - prev.len()]);
    } else {
        assert(sentence_plan(chunks)[j1] == block[j1 - prev.len()]);
        assert(sentence_plan(chunks)[j2] == block[j2 - prev.len()]);
    }
}

/// Sentence candidates of chunks with distinct identifiers have distinct
/// identifiers: `{chunk}s{k}` names one sentence of one chunk.
pub proof fn lemma_sentence_ids_distinct(chunks: Seq<TextChunk>, j1: int, j2: int)
    requires
        forall|a: int, b: int| 0 <= a < b < chunks.len() ==> chunks[a].id@ != chunks[b].id@,
        0 <= j1 < j2 < sentence_plan(chunks).len(),
    ensures
        sentence_id_for(chunks[sentence_plan(chunks)[j1].0].id@, sentence_plan(chunks)[j1].1)
            != sentence_id_for(chunks[sentence_plan(chunks)[j2].0].id@, sentence_plan(chunks)[j2].1),
{
    let plan = sentence_plan(chunks);
    lemma_sentence_plan_bounds(chunks);
    lemma_sentence_plan_order(chunks, j1, j2);
    let (c1, k1) = plan[j1];
    let (c2, k2) = plan[j2];
    let (i1, i2) = (chunks[c1].id@, chunks[c2].id@);
    if sentence_id_for(i1, k1) == sentence_id_for(i2, k2) {
        lemma_decimal_digits((k1 + 1) as nat);
        lemma_decimal_digits((k2 + 1) as nat);
        assert(('s' as u32) == 115);
        lemma_id_split(
            i1,
            seq!['s'],
            decimal((k1 + 1) as nat),
            i2,
            seq!['s'],
            decimal((k2 + 1) as nat),
        );
        lemma_decimal_injective((k1 + 1) as nat, (k2 + 1) as nat);
        if c1 < c2 {
            assert(chunks[c1].id@ != chunks[c2].id@);
        }
    }
}

/// Splits every chunk into sentence candidates, numbered per chunk from 1.
pub fn extract_sentence_candidates(chunks: &[TextChunk]) -> (r: Vec<SentenceCandidate>)
    ensures
        are_sentence_candidates(r@, chunks@),
{
    let mut out: Vec<SentenceCandidate> = Vec::new();
    let mut i: usize = 0;
    while i < chunks.len()
        invariant
            i <= chunks@.len(),
            are_sentence_candidates(out@, chunks@.take(i as int)),
        decreases chunks@.len() - i,
    {
        let chunk = &chunks[i];
        let ranges = sentence_ranges(chunk.text.as_str());
        let ghost base = out@.len();
        let ghost prev_plan = sentence_plan(chunks@.take(i as int));
        assert(chunks@.take(i + 1).drop_last() =~= chunks@.take(i as int));
        let ghost block = Seq::new(
            sentence_ranges_of(chunk.text@).len(),
            |k: int| (i as int, k),
        );
        assert(sentence_plan(chunks@.take(i + 1)) == prev_plan + block);
        proof {
            lemma_sentence_plan_bounds(chunks@.take(i as int));
        }
        let mut k: usize = 0;
        while k < ranges.len()
            invariant
                i < chunks@.len(),
                chunk == chunks@[i as int],
                k <= ranges@.len(),
                same_ranges(ranges@, sentence_ranges_of(chunk.text@), chunk.text@),
                out@.len() == base + k,
                base == prev_plan.len(),
                block == Seq::new(sentence_ranges_of(chunk.text@).len(), |k: int| (i as int, k)),
                forall|j: int|
                    0 <= j < base ==> is_sentence_candidate(
                        #[trigger] out@[j],
                        chunks@.take(i as int)[prev_plan[j].0],
                        prev_plan[j].1,
                    ),
                forall|j: int|
                    0 <= j < k ==> is_sentence_candidate(#[trigger] out@[base + j], *chunk, j),
                forall|j: int|
                    0 <= j < prev_plan.len() ==> 0 <= (#[trigger] prev_plan[j]).0 < i,
            decreases ranges@.len() - k,
        {
            let (start, end, ref text) = ranges[k];
            let mut id = chars_of(chunk.id.as_str());
            id.push('s');
            let num = decimal_chars(k + 1);
            extend_chars(&mut id, num.as_slice());
            assert(id@ =~= sentence_id_for(chunk.id@, k as int));
            let ghost before = out@;
            out.push(SentenceCandidate {
                sentence_id: string_from_chars(id.as_slice()),
                chunk_id: chunk.id.clone(),
                page: chunk.page,
                text: text.clone(),
                char_start: start,
                char_end: end,
            });
            assert forall|j: int| 0 <= j < base implies is_sentence_candidate(
                #[trigger] out@[j],
                chunks@.take(i as int)[prev_plan[j].0],
                prev_plan[j].1,
            ) by {
                assert(out@[j] == before[j]);
            }
            assert forall|j: int| 0 <= j < k + 1 implies is_sentence_candidate(
                #[trigger] out@[base + j],
                *chunk,
                j,
            ) by {
                if j < k {
                    assert(out@[base + j] == before[base + j]);
                }
            }
            k = k + 1;
        }
        proof {
            let plan = sentence_plan(chunks@.take(i + 1));
            assert forall|j: int| 0 <= j < out@.len() implies is_sentence_candidate(
                #[trigger] out@[j],
                chunks@.take(i + 1)[plan[j].0],
                plan[j].1,
            ) by {
                if j < base {
                    assert(plan[j] == prev_plan[j]);
                    assert(chunks@.take(i + 1)[prev_plan[j].0] == chunks@.take(i as int)[prev_plan[j].0]);
                } else {
                    assert(plan[j] == block[j - base]);
                    assert(out@[j] == out@[base + (j - base)]);
                }
            }
        }
        i = i + 1;
    }
    assert(chunks@.take(i as int) =~= chunks@);
    out
}

// ---------------------------------------------------------------------------
// Page text to chunks
// ---------------------------------------------------------------------------

/// Why a PDF yields no chunks.
#[derive(Debug)]
pub enum PdfError {
    /// No page holds selectable text (scanned PDFs need OCR, which is not supported).
    NoSelectableText,
}

/// Identifier of the `k`-th (from 0) chunk of page index `page` (from 0), such as `p1c2`.
pub open spec fn chunk_id_for(page: int, k: int) -> Seq<char> {
    seq!['p'] + decimal((page + 1) as nat) + seq!['c'] + decimal((k + 1) as nat)
}

/// The (page index, chunk index) pairs of all chunks, page by page.
pub open spec fn chunk_plan(pages: Seq<Seq<char>>) -> Seq<(int, int)>
    decreases pages.len(),
{
    if pages.len() == 0 {
        Seq::<(int, int)>::empty()
    } else {
        let last = pages.len() - 1;
        chunk_plan(pages.drop_last()) + Seq::new(chunk_texts(pages.last()).len(), |k: int| (last, k))
    }
}

pub proof fn lemma_chunk_plan_bounds(pages: Seq<Seq<char>>)
    ensures
        forall|j: int|
            0 <= j < chunk_plan(pages).len() ==> 0 <= (#[trigger] chunk_plan(pages)[j]).0
                < pages.len() && 0 <= chunk_plan(pages)[j].1 < chunk_texts(
                pages[chunk_plan(pages)[j].0],
            ).len(),
    decreases pages.len(),
{
    if pages.len() > 0 {
        lemma_chunk_plan_bounds(pages.drop_last());
        let prev = chunk_plan(pages.drop_last());
        assert forall|j: int| 0 <= j < prev.len() implies pages.drop_last()[prev[j].0] == pages[prev[j].0] by {
        }
    }
}

proof fn lemma_id_split(a: Seq<char>, m1: Seq<char>, d1: Seq<char>, b: Seq<char>, m2: Seq<char>, d2: Seq<char>)
    requires
        a + m1 + d1 == b + m2 + d2,
        m1.len() == 1,
        m2.len() == 1,
        !is_digit_char(m1[0]),
        !is_digit_char(m2[0]),
        forall|i: int| 0 <= i < d1.len() ==> is_digit_char(#[trigger] d1[i]),
        forall|i: int| 0 <= i < d2.len() ==> is_digit_char(#[trigger] d2[i]),
    ensures
        a == b,
        d1 == d2,
{
    let x = a + m1 + d1;
    let y = b + m2 + d2;
    if d1.len() < d2.len() {
        assert(x[x.len() - d1.len() - 1] == m1[0]);
        assert(y[y.len() - d1.len() - 1] == d2[d2.len() - d1.len() - 1]);
    }
    if d2.len() < d1.len() {
        assert(y[y.len() - d2.len() - 1] == m2[0]);
        assert(x[x.len() - d2.len() - 1] == d1[d1.len() - d2.len() - 1]);
    }
    assert(d1.len() == d2.len());
    assert(x.len() == y.len());
    assert(a.len() == b.len());
    assert forall|i: int| 0 <= i < d1.len() implies d1[i] == d2[i] by {
        assert(x[a.len() + 1 + i] == d1[i]);
        assert(y[b.len() + 1 + i] == d2[i]);
        assert(x[a.len() + 1 + i] == y[b.len() + 1 + i]);
    }
    assert(d1 =~= d2);
    assert forall|i: int| 0 <= i < a.len() implies a[i] == b[i] by {
        assert(x[i] == a[i]);
        assert(y[i] == b[i]);
        assert(x[i] == y[i]);
    }
    assert(a =~= b);
}

proof fn lemma_chunk_plan_order(pages: Seq<Seq<char>>, j1: int, j2: int)
    requires
        0 <= j1 < j2 < chunk_plan(pages).len(),
    ensures
        chunk_plan(pages)[j1].0 < chunk_plan(pages)[j2].0 || (chunk_plan(pages)[j1].0
            == chunk_plan(pages)[j2].0 && chunk_plan(pages)[j1].1 < chunk_plan(pages)[j2].1),
    decreases pages.len(),
{
    let d = pages.drop_last();
    let prev = chunk_plan(d);
    let last = pages.len() - 1;
    let block = Seq::new(chunk_texts(pages.last()).len(), |k: int| (last, k));
    assert(chunk_plan(pages) == prev + block);
    lemma_chunk_plan_bounds(d);
    if j2 < prev.len() {
        lemma_chunk_plan_order(d, j1, j2);
    } else if j1 < prev.len() {
        assert(chunk_plan(pages)[j1] == prev[j1]);
        assert(chunk_plan(pages)[j2] == block[j2 - prev.len()]);
    } else {
        assert(chunk_plan(pages)[j1] == block[j1 - prev.len()]);
        assert(chunk_plan(pages)[j2] == block[j2 - prev.len()]);
    }
}

/// Every chunk of a document has its own identifier: two different chunks,
/// of one page or of two, never get the same `p{page}c{k}`.
pub proof fn lemma_chunk_ids_distinct(pages: Seq<Seq<char>>, j1: int, j2: int)
    requires
        0 <= j1 < j2 < chunk_plan(pages).len(),
    ensures
        chunk_id_for(chunk_plan(pages)[j1].0, chunk_plan(pages)[j1].1) != chunk_id_for(
            chunk_plan(pages)[j2].0,
            chunk_plan(pages)[j2].1,
        ),
{
    let plan = chunk_plan(pages);
    lemma_chunk_plan_bounds(pages);
    lemma_chunk_plan_order(pages, j1, j2);
    let (p1, k1) = plan[j1];
    let (p2, k2) = plan[j2];
    if chunk_id_for(p1, k1) == chunk_id_for(p2, k2) {
        let (a1, a2) = (decimal((p1 + 1) as nat), decimal((p2 + 1) as nat));
        let (b1, b2) = (decimal((k1 + 1) as nat), decimal((k2 + 1) as nat));
        lemma_decimal_digits((p1 + 1) as nat);
        lemma_decimal_digits((p2 + 1) as nat);
        lemma_decimal_digits((k1 + 1) as nat);
        lemma_decimal_digits((k2 + 1) as nat);
        assert(('c' as u32) == 99);
        lemma_id_split(seq!['p'] + a1, seq!['c'], b1, seq!['p'] + a2, seq!['c'], b2);
        lemma_decimal_injective((k1 + 1) as nat, (k2 + 1) as nat);
        assert(a1 =~= (seq!['p'] + a1).drop_first());
        assert(a2 =~= (seq!['p'] + a2).drop_first());
        lemma_decimal_injective((p1 + 1) as nat, (p2 + 1) as nat);
    }
}

/// `c` is the `k`-th chunk of page index `p` of `pages`.
pub open spec fn is_page_chunk(c: TextChunk, pages: Seq<Seq<char>>, p: int, k: int) -> bool {
    &&& c.id@ == chunk_id_for(p, k)
    &&& c.page == p + 1
    &&& c.text@ == chunk_texts(pages[p])[k]
}

/// The chunks of all pages, in page order.
pub open spec fn are_page_chunks(r: Seq<TextChunk>, pages: Seq<Seq<char>>) -> bool {
    let plan = chunk_plan(pages);
    &&& r.len() == plan.len()
    &&& forall|j: int| 0 <= j < r.len() ==> is_page_chunk(#[trigger] r[j], pages, plan[j].0, plan[j].1)
}

/// The page count and chunks of a document given as the text of each page
/// (what `pdf_extract::extract_text_from_mem_by_pages` returns); fails when
/// no page has text.  The page count is never below 1.
pub fn extract_text_chunks(page_texts: &Vec<String>) -> (r: Result<(usize, Vec<TextChunk>), PdfError>)
    ensures
        ({
            let pages = page_texts@.map_values(|p: String| p@);
            match r {
                Ok((count, chunks)) => {
                    &&& count == if pages.len() == 0 { 1 } else { pages.len() }
                    &&& are_page_chunks(chunks@, pages)
                    &&& chunks@.len() > 0
                },
                Err(e) => e is NoSelectableText && chunk_plan(pages).len() == 0,
            }
        }),
{
    let ghost pages = page_texts@.map_values(|p: String| p@);
    let mut out: Vec<TextChunk> = Vec::new();
    let mut i: usize = 0;
    while i < page_texts.len()
        invariant
            i <= page_texts@.len(),
            pages == page_texts@.map_values(|p: String| p@),
            are_page_chunks(out@, pages.take(i as int)),
        decreases page_texts@.len() - i,
    {
        let texts = chunk_paragraphs(page_texts[i].as_str());
        let ghost base = out@.len();
        let ghost prev_plan = chunk_plan(pages.take(i as int));
        assert(pages.take(i + 1).drop_last() =~= pages.take(i as int));
        assert(pages.take(i + 1).last() == page_texts@[i as int]@);
        let ghost block = Seq::new(chunk_texts(pages[i as int]).len(), |k: int| (i as int, k));
        assert(chunk_plan(pages.take(i + 1)) == prev_plan + block);
        proof {
            lemma_chunk_plan_bounds(pages.take(i as int));
        }
        let mut k: usize = 0;
        while k < texts.len()
            invariant
                i < page_texts@.len() <= usize::MAX,
                pages == page_texts@.map_values(|p: String| p@),
                k <= texts@.len(),
                texts@.map_values(|s: String| s@) == chunk_texts(pages[i as int]),
                out@.len() == base + k,
                base == prev_plan.len(),
                block == Seq::new(chunk_texts(pages[i as int]).len(), |k: int| (i as int, k)),
                forall|j: int|
                    0 <= j < base ==> is_page_chunk(
                        #[trigger] out@[j],
                        pages.take(i as int),
                        prev_plan[j].0,
                        prev_plan[j].1,
                    ),
                forall|j: int| 0 <= j < k ==> is_page_chunk(#[trigger] out@[base + j], pages, i as int, j),
            decreases texts@.len() - k,
        {
            let mut id: Vec<char> = Vec::new();
            id.push('p');
            let pnum = decimal_chars(i + 1);
            extend_chars(&mut id, pnum.as_slice());
            id.push('c');
            let cnum = decimal_chars(k + 1);
            extend_chars(&mut id, cnum.as_slice());
            assert(id@ =~= chunk_id_for(i as int, k as int));
            let ghost before = out@;
            assert(texts@[k as int]@ == chunk_texts(pages[i as int])[k as int]);
            out.push(TextChunk {
                id: string_from_chars(id.as_slice()),
                page: i + 1,
                text: texts[k].clone(),
            });
            assert forall|j: int| 0 <= j < base implies is_page_chunk(
                #[trigger] out@[j],
                pages.take(i as int),
                prev_plan[j].0,
                prev_plan[j].1,
            ) by {
                assert(out@[j] == before[j]);
            }
            assert forall|j: int| 0 <= j < k + 1 implies is_page_chunk(
                #[trigger] out@[base + j],
                pages,
                i as int,
                j,
            ) by {
                if j < k {
                    assert(out@[base + j] == before[base + j]);
                }
            }
            k = k + 1;
        }
        proof {
            let plan = chunk_plan(pages.take(i + 1));
            assert forall|j: int| 0 <= j < out@.len() implies is_page_chunk(
                #[trigger] out@[j],
                pages.take(i + 1),
                plan[j].0,
                plan[j].1,
            ) by {
                if j < base {
                    assert(plan[j] == prev_plan[j]);
                    assert(pages.take(i + 1)[prev_plan[j].0] == pages.take(i as int)[prev_plan[j].0]);
                } else {
                    assert(plan[j] == block[j - base]);
                    assert(out@[j] == out@[base + (j - base)]);
                    assert(pages.take(i + 1)[i as int] == pages[i as int]);
                }
            }
        }
        i = i + 1;
    }
    assert(pages.take(i as int) =~= pages);
    if out.len() == 0 {
        return Err(PdfError::NoSelectableText);
    }
    let count = if page_texts.len() == 0 {
        1
    } else {
        page_texts.len()
    };
    Ok((count, out))
}


} // verus!
