//! Choice of the analysis provider from its settings, and the plain-value
//! pieces of a chat-completions analysis: batch sizes, batches, the context
//! sent with each batch, and the results assembled from the replies.
use vstd::prelude::*;

use crate::mock::AiAnalysis;
use crate::models::{
    CandidateKind, CanonicalReadingUnit, CanonicalSentenceAnnotation, ReadingAnchor,
    SentenceCandidate, TextChunk,
};
use crate::quest::{
    anchor_keys, are_canonical_quests, are_chunk_quests, build_quests_from_anchors,
    build_quests_from_canonical_annotations,
};
use crate::text::{
    chars_eq, chars_eq_str, chars_of, extend_chars, join, join_chars, string_from_chars, sub_chars,
    trim, trim_chars, views,
};

verus! {

// ---------------------------------------------------------------------------
// Provider selection
// ---------------------------------------------------------------------------

#[derive(Clone, Copy, Debug, PartialEq, Eq, Structural)]
pub enum ProviderKind {
    OpenAi,
    Gemini,
    Custom,
}

#[derive(Clone, Copy, Debug, PartialEq, Eq, Structural)]
pub enum ApiKeySource {
    Generic,
    Gemini,
    OpenAi,
}

/// An API key and the setting it came from.
#[derive(Clone, Debug, PartialEq, Eq)]
pub struct ApiKey {
    pub source: ApiKeySource,
    pub value: String,
}

#[derive(Clone, Debug, PartialEq, Eq)]
pub struct ChatCompletionsConfig {
    pub provider: ProviderKind,
    pub base_url: String,
    pub api_key: String,
    pub model: String,
}

#[derive(Clone, Debug, PartialEq, Eq)]
pub enum AiProviderConfig {
    Mock,
    ChatCompletions(ChatCompletionsConfig),
}

/// The characters of an optional setting.
pub open spec fn setting(o: Option<String>) -> Option<Seq<char>> {
    match o {
        Some(s) => Some(s@),
        None => None,
    }
}

/// The provider named by a provider setting; unknown names mean a custom
/// endpoint.
pub open spec fn kind_for_name(name: Seq<char>) -> ProviderKind {
    if name == "gemini"@ {
        ProviderKind::Gemini
    } else if name == "openai"@ || name == "openai-compatible"@ {
        ProviderKind::OpenAi
    } else {
        ProviderKind::Custom
    }
}

/// The provider implied by where the key came from.
pub open spec fn kind_for_source(source: ApiKeySource) -> ProviderKind {
    match source {
        ApiKeySource::Gemini => ProviderKind::Gemini,
        ApiKeySource::OpenAi | ApiKeySource::Generic => ProviderKind::OpenAi,
    }
}

pub open spec fn default_base_url_of(kind: ProviderKind) -> Seq<char> {
    match kind {
        ProviderKind::Gemini => "https://generativelanguage.googleapis.com/v1beta/openai"@,
        ProviderKind::OpenAi | ProviderKind::Custom => "https://api.openai.com/v1"@,
    }
}

pub open spec fn default_model_of(kind: ProviderKind) -> Seq<char> {
    match kind {
        ProviderKind::Gemini => "gemini-2.5-flash"@,
        ProviderKind::OpenAi | ProviderKind::Custom => "gpt-4.1-mini"@,
    }
}

/// The first key that is set, in the order generic, Gemini, OpenAI; none
/// when that key is blank.
pub open spec fn chosen_key(
    generic: Option<Seq<char>>,
    gemini: Option<Seq<char>>,
    openai: Option<Seq<char>>,
) -> Option<(ApiKeySource, Seq<char>)> {
    let first = match generic {
        Some(v) => Some((ApiKeySource::Generic, v)),
        None => match gemini {
            Some(v) => Some((ApiKeySource::Gemini, v)),
            None => match openai {
                Some(v) => Some((ApiKeySource::OpenAi, v)),
                None => None,
            },
        },
    };
    match first {
        Some(k) => if trim(k.1).len() == 0 {
            None
        } else {
            Some(k)
        },
        None => None,
    }
}

impl ProviderKind {
    pub fn from_provider_name(provider: &str) -> (r: Self)
        ensures
            r == kind_for_name(provider@),
    {
        let p = chars_of(provider);
        if chars_eq_str(p.as_slice(), "gemini") {
            ProviderKind::Gemini
        } else if chars_eq_str(p.as_slice(), "openai") || chars_eq_str(
            p.as_slice(),
            "openai-compatible",
        ) {
            ProviderKind::OpenAi
        } else {
            ProviderKind::Custom
        }
    }

    pub fn from_key_source(source: ApiKeySource) -> (r: Self)
        ensures
            r == kind_for_source(source),
    {
        match source {
            ApiKeySource::Gemini => ProviderKind::Gemini,
            ApiKeySource::OpenAi | ApiKeySource::Generic => ProviderKind::OpenAi,
        }
    }

    pub fn default_base_url(self) -> (r: String)
        ensures
            r@ == default_base_url_of(self),
    {
        match self {
            ProviderKind::Gemini => string_from_chars(
                chars_of("https://generativelanguage.googleapis.com/v1beta/openai").as_slice(),
            ),
            ProviderKind::OpenAi | ProviderKind::Custom => string_from_chars(
                chars_of("https://api.openai.com/v1").as_slice(),
            ),
        }
    }

    pub fn default_model(self) -> (r: String)
        ensures
            r@ == default_model_of(self),
    {
        match self {
            ProviderKind::Gemini => string_from_chars(chars_of("gemini-2.5-flash").as_slice()),
            ProviderKind::OpenAi | ProviderKind::Custom => string_from_chars(
                chars_of("gpt-4.1-mini").as_slice(),
            ),
        }
    }
}

impl ApiKey {
    /// The key from the `AI_API_KEY`, `GEMINI_API_KEY` and `OPENAI_API_KEY`
    /// settings: the first that is set, unless it is blank.
    pub fn from_settings(
        generic: Option<String>,
        gemini: Option<String>,
        openai: Option<String>,
    ) -> (r: Option<ApiKey>)
        ensures
            match chosen_key(setting(generic), setting(gemini), setting(openai)) {
                Some(k) => r is Some && r->0.source == k.0 && r->0.value@ == k.1,
                None => r is None,
            },
    {
        let first = match generic {
            Some(value) => Some(ApiKey { source: ApiKeySource::Generic, value }),
            None => match gemini {
                Some(value) => Some(ApiKey { source: ApiKeySource::Gemini, value }),
                None => match openai {
                    Some(value) => Some(ApiKey { source: ApiKeySource::OpenAi, value }),
                    None => None,
                },
            },
        };
        match first {
            Some(key) => {
                let v = chars_of(key.value.as_str());
                let t = trim_chars(v.as_slice());
                if t.len() == 0 {
                    None
                } else {
                    Some(key)
                }
            },
            None => None,
        }
    }
}

/// What the provider settings select.
pub open spec fn is_provider_config(
    r: AiProviderConfig,
    provider: Option<Seq<char>>,
    generic: Option<Seq<char>>,
    gemini: Option<Seq<char>>,
    openai: Option<Seq<char>>,
    base_url: Option<Seq<char>>,
    model: Option<Seq<char>>,
) -> bool {
    if provider == Some("mock"@) {
        r is Mock
    } else {
        match chosen_key(generic, gemini, openai) {
            None => r is Mock,
            Some(k) => {
                let kind = match provider {
                    Some(p) => kind_for_name(p),
                    None => kind_for_source(k.0),
                };
                &&& r is ChatCompletions
                &&& r->0.provider == kind
                &&& r->0.api_key@ == k.1
                &&& r->0.base_url@ == match base_url {
                    Some(u) => u,
                    None => default_base_url_of(kind),
                }
                &&& r->0.model@ == match model {
                    Some(m) => m,
                    None => default_model_of(kind),
                }
            },
        }
    }
}

impl AiProviderConfig {
    /// The provider chosen by the settings `AI_PROVIDER`, `AI_API_KEY`,
    /// `GEMINI_API_KEY`, `OPENAI_API_KEY`, `AI_BASE_URL` and `AI_MODEL`
    /// (`None` for a setting that is not set).
    pub fn from_settings(
        provider: Option<String>,
        generic: Option<String>,
        gemini: Option<String>,
        openai: Option<String>,
        base_url: Option<String>,
        model: Option<String>,
    ) -> (r: AiProviderConfig)
        ensures
            is_provider_config(
                r,
                setting(provider),
                setting(generic),
                setting(gemini),
                setting(openai),
                setting(base_url),
                setting(model),
            ),
    {
        let is_mock = match &provider {
            Some(p) => {
                let pc = chars_of(p.as_str());
                chars_eq_str(pc.as_slice(), "mock")
            },
            None => false,
        };
        if is_mock {
            return AiProviderConfig::Mock;
        }
        let key = match ApiKey::from_settings(generic, gemini, openai) {
            Some(k) => k,
            None => {
                return AiProviderConfig::Mock;
            },
        };
        let kind = match &provider {
            Some(p) => ProviderKind::from_provider_name(p.as_str()),
            None => ProviderKind::from_key_source(key.source),
        };
        let base_url = match base_url {
            Some(u) => u,
            None => kind.default_base_url(),
        };
        let model = match model {
            Some(m) => m,
            None => kind.default_model(),
        };
        AiProviderConfig::ChatCompletions(
            ChatCompletionsConfig { provider: kind, base_url, api_key: key.value, model },
        )
    }
}

/// `AI_PROVIDER=mock` forces the deterministic provider, whatever keys are set.
pub proof fn lemma_mock_setting_forces_mock(
    r: AiProviderConfig,
    generic: Option<Seq<char>>,
    gemini: Option<Seq<char>>,
    openai: Option<Seq<char>>,
    base_url: Option<Seq<char>>,
    model: Option<Seq<char>>,
)
    requires
        is_provider_config(r, Some("mock"@), generic, gemini, openai, base_url, model),
    ensures
        r is Mock,
{
}

/// Without any key the deterministic provider is used.
pub proof fn lemma_no_key_means_mock(
    r: AiProviderConfig,
    provider: Option<Seq<char>>,
    base_url: Option<Seq<char>>,
    model: Option<Seq<char>>,
)
    requires
        is_provider_config(r, provider, None, None, None, base_url, model),
    ensures
        r is Mock,
{
}

/// `AI_API_KEY` takes precedence over the provider-specific keys: when it
/// is set and not blank, and the provider is not forced to the mock, it is
/// the key used.
pub proof fn lemma_generic_key_takes_precedence(
    r: AiProviderConfig,
    provider: Option<Seq<char>>,
    generic: Seq<char>,
    gemini: Option<Seq<char>>,
    openai: Option<Seq<char>>,
    base_url: Option<Seq<char>>,
    model: Option<Seq<char>>,
)
    requires
        is_provider_config(r, provider, Some(generic), gemini, openai, base_url, model),
        provider != Some("mock"@),
        trim(generic).len() > 0,
    ensures
        r is ChatCompletions,
        r->0.api_key@ == generic,
{
}

/// A Gemini key alone selects Gemini with its default endpoint and model.
pub proof fn lemma_gemini_key_selects_gemini(r: AiProviderConfig, key: Seq<char>)
    requires
        is_provider_config(r, None, None, Some(key), None, None, None),
        trim(key).len() > 0,
    ensures
        r is ChatCompletions,
        r->0.provider == ProviderKind::Gemini,
        r->0.api_key@ == key,
        r->0.base_url@ == "https://generativelanguage.googleapis.com/v1beta/openai"@,
        r->0.model@ == "gemini-2.5-flash"@,
{
}

// ---------------------------------------------------------------------------
// Batch size
// ---------------------------------------------------------------------------

pub open spec fn is_digit(c: char) -> bool {
    48 <= (c as u32) <= 57
}

/// The value of a string of decimal digits.
pub open spec fn digits_value(s: Seq<char>) -> nat
    decreases s.len(),
{
    if s.len() == 0 {
        0
    } else {
        digits_value(s.drop_last()) * 10 + ((s.last() as u32) - 48) as nat
    }
}

/// `s` without a leading `+`.
pub open spec fn unsigned_digits(s: Seq<char>) -> Seq<char> {
    if s.len() > 0 && s[0] == '+' {
        s.drop_first()
    } else {
        s
    }
}

pub open spec fn all_digits(d: Seq<char>) -> bool {
    forall|i: int| 0 <= i < d.len() ==> is_digit(#[trigger] d[i])
}

/// The number that `str::parse` reads from `s` as an unsigned integer of
/// unbounded width: an optional `+`, then one or more ASCII digits.
pub open spec fn parsed_unsigned(s: Seq<char>) -> Option<nat> {
    let d = unsigned_digits(s);
    if d.len() > 0 && all_digits(d) {
        Some(digits_value(d))
    } else {
        None
    }
}

/// The batch size named by the `AI_ANALYSIS_BATCH_SIZE` setting: a number
/// from 1 to 60, else 18.
pub open spec fn batch_size_of(s: Option<Seq<char>>) -> nat {
    match s {
        Some(v) => match parsed_unsigned(v) {
            Some(n) => if 1 <= n <= 60 {
                n
            } else {
                18
            },
            None => 18,
        },
        None => 18,
    }
}

pub fn analysis_batch_size(value: Option<String>) -> (r: usize)
    ensures
        r == batch_size_of(setting(value)),
        1 <= r <= 60,
{
    let s = match value {
        Some(s) => s,
        None => {
            return 18;
        },
    };
    let c = chars_of(s.as_str());
    let start: usize = if c.len() > 0 && c[0] == '+' {
        1
    } else {
        0
    };
    let ghost d = if c@.len() > 0 && c@[0] == '+' {
        c@.drop_first()
    } else {
        c@
    };
    assert(d =~= c@.skip(start as int));
    if start == c.len() {
        return 18;
    }
    // The value read so far, saturated at 61.
    let mut acc: usize = 0;
    let mut i: usize = start;
    while i < c.len()
        invariant
            start <= i <= c@.len(),
            d == c@.skip(start as int),
            setting(value) == Some(c@),
            d == if c@.len() > 0 && c@[0] == '+' {
                c@.drop_first()
            } else {
                c@
            },
            acc == if digits_value(d.take(i - start)) > 61 {
                61
            } else {
                digits_value(d.take(i - start))
            },
            forall|k: int| 0 <= k < i - start ==> is_digit(#[trigger] d[k]),
        decreases c@.len() - i,
    {
        let ch = c[i];
        if !((ch as u32) >= 48 && (ch as u32) <= 57) {
            assert(d[i - start] == ch);
            assert(!is_digit(d[i - start]));
            assert(parsed_unsigned(c@) is None);
            return 18;
        }
        let digit = (ch as u32 - 48) as usize;
        proof {
            let p = d.take(i - start);
            let q = d.take(i - start + 1);
            assert(q.drop_last() =~= p);
            assert(q.last() == ch);
            assert(digits_value(q) == digits_value(p) * 10 + digit);
        }
        acc = if acc >= 61 || acc * 10 + digit > 61 {
            61
        } else {
            acc * 10 + digit
        };
        i = i + 1;
    }
    assert(d.take(i - start) =~= d);
    if acc >= 1 && acc <= 60 {
        acc
    } else {
        18
    }
}

// ---------------------------------------------------------------------------
// Request pieces
// ---------------------------------------------------------------------------

/// The first `max_chars` characters of `text`.
pub fn truncate_chars(text: &str, max_chars: usize) -> (r: String)
    ensures
        r@ == text@.take(if text@.len() < max_chars { text@.len() as int } else { max_chars as int }),
{
    let c = chars_of(text);
    let n: usize = if c.len() < max_chars { c.len() } else { max_chars };
    let t = sub_chars(c.as_slice(), 0, n);
    assert(t@ =~= text@.take(n as int));
    string_from_chars(t.as_slice())
}

/// The line `{id}: {text}` for a chunk.
pub open spec fn sample_line(c: TextChunk) -> Seq<char> {
    c.id@ + ": "@ + c.text@
}

/// The first twenty chunks as `{id}: {text}` lines separated by blank lines.
pub open spec fn concept_sample_text(chunks: Seq<TextChunk>) -> Seq<char> {
    join(
        chunks.take(if chunks.len() < 20 { chunks.len() as int } else { 20 }).map_values(
            |c: TextChunk| sample_line(c),
        ),
        "\n\n"@,
    )
}

/// The document sample sent when asking for concept tags.
pub fn concept_sample(chunks: &[TextChunk]) -> (r: String)
    ensures
        r@ == concept_sample_text(chunks@),
{
    let n: usize = if chunks.len() < 20 { chunks.len() } else { 20 };
    let mut parts: Vec<Vec<char>> = Vec::new();
    let mut i: usize = 0;
    while i < n
        invariant
            i <= n <= chunks@.len(),
            n == (if chunks@.len() < 20 { chunks@.len() as int } else { 20 }),
            views(parts@) == chunks@.take(i as int).map_values(|c: TextChunk| sample_line(c)),
        decreases n - i,
    {
        let mut line = chars_of(chunks[i].id.as_str());
        let colon = chars_of(": ");
        extend_chars(&mut line, colon.as_slice());
        let text = chars_of(chunks[i].text.as_str());
        extend_chars(&mut line, text.as_slice());
        let ghost before = views(parts@);
        parts.push(line);
        assert(views(parts@) =~= before.push(sample_line(chunks@[i as int])));
        assert(chunks@.take(i + 1) =~= chunks@.take(i as int).push(chunks@[i as int]));
        i = i + 1;
        assert(views(parts@) =~= chunks@.take(i as int).map_values(|c: TextChunk| sample_line(c)));
    }
    let sep = chars_of("\n\n");
    let joined = join_chars(parts.as_slice(), sep.as_slice());
    string_from_chars(joined.as_slice())
}

/// Positions `k` of `m` where `m[k]` holds, in order.
pub open spec fn positions(m: Seq<bool>) -> Seq<int> {
    crate::quest::marked(m)
}

/// Whether `r` lists, in order, the positions where `m` holds.
pub open spec fn lists_positions(r: Seq<usize>, m: Seq<bool>) -> bool {
    r.map_values(|x: usize| x as int) == positions(m)
}

proof fn lemma_positions_empty(r: Seq<usize>, m: Seq<bool>)
    requires
        r.len() == 0,
        m.len() == 0,
    ensures
        lists_positions(r, m),
{
    assert(r.map_values(|x: usize| x as int) =~= positions(m));
}

proof fn lemma_positions_push(r: Seq<usize>, m: Seq<bool>, b: bool)
    requires
        lists_positions(r, m),
        m.len() < usize::MAX,
    ensures
        b ==> lists_positions(r.push(m.len() as usize), m.push(b)),
        !b ==> lists_positions(r, m.push(b)),
{
    assert(m.push(b).drop_last() =~= m);
    if b {
        assert(r.push(m.len() as usize).map_values(|x: usize| x as int) =~= r.map_values(
            |x: usize| x as int,
        ).push(m.len() as int));
    }
}

/// Whether a candidate is a body sentence, the only kind that is sent for
/// annotation.
pub open spec fn is_body(c: CanonicalReadingUnit) -> bool {
    c.candidate_kind == CandidateKind::BodySentence
}

/// Positions of the body-sentence candidates, in order.
pub fn canonical_targets(candidates: &[CanonicalReadingUnit]) -> (r: Vec<usize>)
    ensures
        lists_positions(r@, candidates@.map_values(|c: CanonicalReadingUnit| is_body(c))),
        forall|k: int| 0 <= k < r@.len() ==> #[trigger] r@[k] < candidates@.len(),
{
    let ghost m = candidates@.map_values(|c: CanonicalReadingUnit| is_body(c));
    let mut r: Vec<usize> = Vec::new();
    let mut i: usize = 0;
    proof {
        lemma_positions_empty(r@, m.take(0));
    }
    while i < candidates.len()
        invariant
            i <= candidates@.len(),
            m == candidates@.map_values(|c: CanonicalReadingUnit| is_body(c)),
            lists_positions(r@, m.take(i as int)),
            forall|k: int| 0 <= k < r@.len() ==> #[trigger] r@[k] < i,
        decreases candidates@.len() - i,
    {
        let b = candidates[i].candidate_kind == CandidateKind::BodySentence;
        proof {
            lemma_positions_push(r@, m.take(i as int), b);
            assert(m.take(i + 1) =~= m.take(i as int).push(b));
        }
        if b {
            r.push(i);
        }
        i = i + 1;
    }
    assert(m.take(i as int) =~= m);
    r
}

/// Whether `r` cuts `0..len` into consecutive batches of `size`, the last
/// one possibly shorter (`slice::chunks`).
pub open spec fn are_batches(r: Seq<(usize, usize)>, len: nat, size: nat) -> bool {
    &&& r.len() * size >= len
    &&& r.len() > 0 ==> (r.len() - 1) * size < len
    &&& forall|k: int|
        0 <= k < r.len() ==> (#[trigger] r[k]).0 == k * size && r[k].1 == if k * size + size
            <= len {
            k * size + size
        } else {
            len as int
        }
}

/// The bounds of the batches of `size` items that `0..len` is cut into.
pub fn batch_bounds(len: usize, size: usize) -> (r: Vec<(usize, usize)>)
    requires
        size > 0,
    ensures
        are_batches(r@, len as nat, size as nat),
{
    let mut r: Vec<(usize, usize)> = Vec::new();
    let mut start: usize = 0;
    assert(r@.len() * size == 0) by (nonlinear_arith)
        requires
            r@.len() == 0,
    ;
    while start < len
        invariant
            size > 0,
            start <= len,
            start == r@.len() * size || (start == len && r@.len() * size >= len && r@.len() > 0 && (r@.len() - 1) * size < len),
            start < len ==> start == r@.len() * size,
            r@.len() > 0 ==> (r@.len() - 1) * size < len,
            forall|k: int|
                0 <= k < r@.len() ==> (#[trigger] r@[k]).0 == k * size && r@[k].1 == if k * size
                    + size <= len {
                    k * size + size
                } else {
                    len as int
                },
        decreases len - start,
    {
        let end: usize = if len - start > size {
            start + size
        } else {
            len
        };
        let ghost n = r@.len();
        r.push((start, end));
        proof {
            assert((n + 1) * size == n * size + size) by (nonlinear_arith);
        }
        start = end;
    }
    r
}

/// Whether candidate `j` is a heading on a page of one of the candidates at
/// the positions `batch`.
pub open spec fn is_heading_context(cands: Seq<CanonicalReadingUnit>, batch: Seq<usize>, j: int) -> bool {
    &&& cands[j].candidate_kind == CandidateKind::Heading
    &&& exists|b: int| 0 <= b < batch.len() && cands[batch[b] as int].page == cands[j].page
}

/// Positions of the headings on the pages of a batch, sent with it as
/// context.
pub fn heading_context(candidates: &[CanonicalReadingUnit], batch: &[usize]) -> (r: Vec<usize>)
    requires
        forall|k: int| 0 <= k < batch@.len() ==> #[trigger] batch@[k] < candidates@.len(),
    ensures
        lists_positions(
            r@,
            Seq::new(candidates@.len(), |j: int| is_heading_context(candidates@, batch@, j)),
        ),
{
    let ghost m = Seq::new(candidates@.len(), |j: int| is_heading_context(candidates@, batch@, j));
    let mut r: Vec<usize> = Vec::new();
    let mut i: usize = 0;
    proof {
        lemma_positions_empty(r@, m.take(0));
    }
    while i < candidates.len()
        invariant
            i <= candidates@.len(),
            m == Seq::new(candidates@.len(), |j: int| is_heading_context(candidates@, batch@, j)),
            forall|k: int| 0 <= k < batch@.len() ==> #[trigger] batch@[k] < candidates@.len(),
            lists_positions(r@, m.take(i as int)),
        decreases candidates@.len() - i,
    {
        let mut on_page = false;
        if candidates[i].candidate_kind == CandidateKind::Heading {
            let mut b: usize = 0;
            while b < batch.len() && !on_page
                invariant
                    b <= batch@.len(),
                    i < candidates@.len(),
                    forall|k: int| 0 <= k < batch@.len() ==> #[trigger] batch@[k] < candidates@.len(),
                    on_page ==> exists|q: int| 0 <= q < batch@.len() && candidates@[batch@[q] as int].page == candidates@[i as int].page,
                    !on_page ==> forall|q: int| 0 <= q < b ==> candidates@[#[trigger] batch@[q] as int].page != candidates@[i as int].page,
                decreases batch@.len() - b,
            {
                if candidates[batch[b]].page == candidates[i].page {
                    on_page = true;
                }
                b = b + 1;
            }
        }
        proof {
            assert(on_page == m[i as int]);
            lemma_positions_push(r@, m.take(i as int), on_page);
            assert(m.take(i + 1) =~= m.take(i as int).push(on_page));
        }
        if on_page {
            r.push(i);
        }
        i = i + 1;
    }
    assert(m.take(i as int) =~= m);
    r
}

/// Whether chunk `j` is the chunk of one of the sentence candidates.
pub open spec fn is_batch_chunk(chunks: Seq<TextChunk>, batch: Seq<SentenceCandidate>, j: int) -> bool {
    exists|b: int| 0 <= b < batch.len() && batch[b].chunk_id@ == chunks[j].id@
}

/// Positions of the chunks that the sentence candidates of a batch come from.
pub fn batch_chunks(chunks: &[TextChunk], batch: &[SentenceCandidate]) -> (r: Vec<usize>)
    ensures
        lists_positions(r@, Seq::new(chunks@.len(), |j: int| is_batch_chunk(chunks@, batch@, j))),
{
    let ghost m = Seq::new(chunks@.len(), |j: int| is_batch_chunk(chunks@, batch@, j));
    let mut r: Vec<usize> = Vec::new();
    let mut i: usize = 0;
    proof {
        lemma_positions_empty(r@, m.take(0));
    }
    while i < chunks.len()
        invariant
            i <= chunks@.len(),
            m == Seq::new(chunks@.len(), |j: int| is_batch_chunk(chunks@, batch@, j)),
            lists_positions(r@, m.take(i as int)),
        decreases chunks@.len() - i,
    {
        let id = chars_of(chunks[i].id.as_str());
        let mut hit = false;
        let mut b: usize = 0;
        while b < batch.len() && !hit
            invariant
                b <= batch@.len(),
                i < chunks@.len(),
                id@ == chunks@[i as int].id@,
                hit ==> exists|q: int| 0 <= q < batch@.len() && batch@[q].chunk_id@ == chunks@[i as int].id@,
                !hit ==> forall|q: int| 0 <= q < b ==> (#[trigger] batch@[q]).chunk_id@ != chunks@[i as int].id@,
            decreases batch@.len() - b,
        {
            let c = chars_of(batch[b].chunk_id.as_str());
            if chars_eq(c.as_slice(), id.as_slice()) {
                hit = true;
            }
            b = b + 1;
        }
        proof {
            assert(hit == m[i as int]);
            lemma_positions_push(r@, m.take(i as int), hit);
            assert(m.take(i + 1) =~= m.take(i as int).push(hit));
        }
        if hit {
            r.push(i);
        }
        i = i + 1;
    }
    assert(m.take(i as int) =~= m);
    r
}

/// The analysis assembled from the validated canonical annotations of all
/// batches.
pub fn canonical_chat_analysis(canonical_annotations: Vec<CanonicalSentenceAnnotation>) -> (r: AiAnalysis)
    ensures
        r.canonical_annotations == canonical_annotations,
        are_canonical_quests(r.quests@, canonical_annotations@),
        r.annotations@.len() == 0,
        r.reading_anchors@.len() == 0,
{
    let quests = build_quests_from_canonical_annotations(canonical_annotations.as_slice());
    AiAnalysis {
        quests,
        annotations: Vec::new(),
        reading_anchors: Vec::new(),
        canonical_annotations,
    }
}

/// The analysis assembled from the validated reading anchors of all batches.
pub fn legacy_chat_analysis(chunks: &[TextChunk], reading_anchors: Vec<ReadingAnchor>) -> (r: AiAnalysis)
    ensures
        r.reading_anchors == reading_anchors,
        are_chunk_quests(r.quests@, chunks@, anchor_keys(reading_anchors@)),
        r.annotations@.len() == 0,
        r.canonical_annotations@.len() == 0,
{
    let quests = build_quests_from_anchors(chunks, reading_anchors.as_slice());
    AiAnalysis {
        quests,
        annotations: Vec::new(),
        reading_anchors,
        canonical_annotations: Vec::new(),
    }
}

} // verus!
