use delta_reader_backend::models::{
    CandidateKind, CanonicalItemRange, CanonicalReadingUnit, SentenceCandidate, TextChunk,
    TextQuoteSelector,
};
use delta_reader_backend::provider::{
    analysis_batch_size, batch_bounds, batch_chunks, canonical_targets, concept_sample,
    heading_context, truncate_chars, AiProviderConfig, ApiKey, ApiKeySource,
    ChatCompletionsConfig, ProviderKind,
};

fn some(s: &str) -> Option<String> {
    Some(s.to_owned())
}

#[test]
fn gemini_key_selects_gemini_defaults() {
    assert_eq!(
        AiProviderConfig::from_settings(None, None, some("test-key"), None, None, None),
        AiProviderConfig::ChatCompletions(ChatCompletionsConfig {
            provider: ProviderKind::Gemini,
            base_url: "https://generativelanguage.googleapis.com/v1beta/openai".to_owned(),
            api_key: "test-key".to_owned(),
            model: "gemini-2.5-flash".to_owned(),
        })
    );
}

#[test]
fn ai_api_key_takes_precedence_over_provider_specific_keys() {
    assert_eq!(
        AiProviderConfig::from_settings(
            None,
            some("ai-key"),
            some("gemini-key"),
            some("openai-key"),
            None,
            None
        ),
        AiProviderConfig::ChatCompletions(ChatCompletionsConfig {
            provider: ProviderKind::OpenAi,
            base_url: "https://api.openai.com/v1".to_owned(),
            api_key: "ai-key".to_owned(),
            model: "gpt-4.1-mini".to_owned(),
        })
    );
}

#[test]
fn explicit_provider_and_overrides_select_custom_chat_adapter() {
    assert_eq!(
        AiProviderConfig::from_settings(
            some("custom"),
            some("custom-key"),
            None,
            None,
            some("https://example.test/v1"),
            some("custom-model")
        ),
        AiProviderConfig::ChatCompletions(ChatCompletionsConfig {
            provider: ProviderKind::Custom,
            base_url: "https://example.test/v1".to_owned(),
            api_key: "custom-key".to_owned(),
            model: "custom-model".to_owned(),
        })
    );
}

#[test]
fn no_key_uses_mock_provider() {
    assert_eq!(
        AiProviderConfig::from_settings(None, None, None, None, None, None),
        AiProviderConfig::Mock
    );
}

#[test]
fn blank_first_key_and_mock_provider_select_mock() {
    assert_eq!(
        AiProviderConfig::from_settings(None, some("  "), some("gemini-key"), None, None, None),
        AiProviderConfig::Mock
    );
    assert_eq!(
        AiProviderConfig::from_settings(some("mock"), some("key"), None, None, None, None),
        AiProviderConfig::Mock
    );
    let key = ApiKey::from_settings(None, None, some("openai-key")).unwrap();
    assert_eq!(key.source, ApiKeySource::OpenAi);
    assert_eq!(key.value, "openai-key");
    assert_eq!(
        ProviderKind::from_provider_name("openai-compatible"),
        ProviderKind::OpenAi
    );
    assert_eq!(ProviderKind::from_provider_name("other"), ProviderKind::Custom);
    assert_eq!(
        ProviderKind::from_key_source(ApiKeySource::Generic),
        ProviderKind::OpenAi
    );
}

#[test]
fn gemini_provider_name_with_generic_key_uses_gemini_defaults() {
    assert_eq!(
        AiProviderConfig::from_settings(some("gemini"), some("k"), None, None, None, None),
        AiProviderConfig::ChatCompletions(ChatCompletionsConfig {
            provider: ProviderKind::Gemini,
            base_url: "https://generativelanguage.googleapis.com/v1beta/openai".to_owned(),
            api_key: "k".to_owned(),
            model: "gemini-2.5-flash".to_owned(),
        })
    );
}

#[test]
fn batch_size_accepts_only_one_to_sixty() {
    assert_eq!(analysis_batch_size(None), 18);
    assert_eq!(analysis_batch_size(some("7")), 7);
    assert_eq!(analysis_batch_size(some("+12")), 12);
    assert_eq!(analysis_batch_size(some("60")), 60);
    assert_eq!(analysis_batch_size(some("0")), 18);
    assert_eq!(analysis_batch_size(some("61")), 18);
    assert_eq!(analysis_batch_size(some("abc")), 18);
    assert_eq!(analysis_batch_size(some("")), 18);
    assert_eq!(analysis_batch_size(some("+")), 18);
    assert_eq!(analysis_batch_size(some("-3")), 18);
    assert_eq!(analysis_batch_size(some(" 5")), 18);
    assert_eq!(analysis_batch_size(some("007")), 7);
    assert_eq!(
        analysis_batch_size(some("99999999999999999999999999")),
        18
    );
}

#[test]
fn truncation_counts_characters() {
    assert_eq!(truncate_chars("héllo", 2), "hé");
    assert_eq!(truncate_chars("abc", 10), "abc");
    assert_eq!(truncate_chars("abc", 0), "");
}

#[test]
fn concept_sample_uses_first_twenty_chunks() {
    let chunks = (1..=22)
        .map(|k| TextChunk {
            id: format!("p1c{k}"),
            page: 1,
            text: format!("text {k}"),
        })
        .collect::<Vec<_>>();
    let sample = concept_sample(&chunks);
    assert!(sample.starts_with("p1c1: text 1\n\np1c2: text 2"));
    assert!(sample.ends_with("p1c20: text 20"));
    assert_eq!(concept_sample(&chunks[..1]), "p1c1: text 1");
    assert_eq!(concept_sample(&[]), "");
}

#[test]
fn batches_cover_every_position_once() {
    assert_eq!(batch_bounds(7, 3), vec![(0, 3), (3, 6), (6, 7)]);
    assert_eq!(batch_bounds(6, 3), vec![(0, 3), (3, 6)]);
    assert!(batch_bounds(0, 3).is_empty());
    assert_eq!(batch_bounds(2, 60), vec![(0, 2)]);
}

fn unit(id: &str, page: usize, kind: CandidateKind) -> CanonicalReadingUnit {
    CanonicalReadingUnit {
        sentence_id: id.to_owned(),
        page,
        text: id.to_owned(),
        normalized_text: id.to_owned(),
        norm_start: 0,
        norm_end: 1,
        start_item_id: "i".to_owned(),
        end_item_id: "i".to_owned(),
        item_ranges: vec![CanonicalItemRange {
            item_id: "i".to_owned(),
            normalized_start: 0,
            normalized_end: 1,
        }],
        quote_selector: TextQuoteSelector {
            exact: id.to_owned(),
            prefix: String::new(),
            suffix: String::new(),
        },
        candidate_kind: kind,
    }
}

#[test]
fn targets_and_heading_context_follow_pages() {
    let units = vec![
        unit("cp1s1", 1, CandidateKind::Heading),
        unit("cp1s2", 1, CandidateKind::BodySentence),
        unit("cp2s1", 2, CandidateKind::Heading),
        unit("cp3s1", 3, CandidateKind::Heading),
        unit("cp3s2", 3, CandidateKind::BodySentence),
    ];
    let targets = canonical_targets(&units);
    assert_eq!(targets, vec![1, 4]);
    assert_eq!(heading_context(&units, &targets[..1]), vec![0]);
    assert_eq!(heading_context(&units, &targets), vec![0, 3]);
    assert!(heading_context(&units, &[]).is_empty());
}

#[test]
fn batch_chunks_are_those_of_the_batch_sentences() {
    let chunks = vec![
        TextChunk {
            id: "p1c1".to_owned(),
            page: 1,
            text: "One.".to_owned(),
        },
        TextChunk {
            id: "p1c2".to_owned(),
            page: 1,
            text: "Two.".to_owned(),
        },
    ];
    let batch = vec![SentenceCandidate {
        sentence_id: "p1c2s1".to_owned(),
        chunk_id: "p1c2".to_owned(),
        page: 1,
        text: "Two.".to_owned(),
        char_start: 0,
        char_end: 4,
    }];
    assert_eq!(batch_chunks(&chunks, &batch), vec![1]);
    assert!(batch_chunks(&chunks, &[]).is_empty());
}
