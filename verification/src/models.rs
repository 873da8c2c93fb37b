//! Domain data shared by extraction, analysis and the reader API.
//!
//! Confidences are held as integers in millionths (`CONFIDENCE_SCALE` is 1.0),
//! so that the policies that clamp, compare and assign them are exact.
use vstd::prelude::*;

use crate::delta_policy::DeltaEligibilityDiagnostics;

verus! {

/// Schema version of the canonical text model that the extractor must report.
pub const CANONICAL_TEXT_SCHEMA_VERSION: &'static str = "1.0";

/// The value that stands for a confidence of 1.0.
pub const CONFIDENCE_SCALE: u32 = 1_000_000;

#[derive(Clone, Debug)]
pub struct CanonicalExtractorOptions {
    pub disable_font_face: bool,
    pub include_marked_content: bool,
    pub use_system_fonts: bool,
}

#[derive(Clone, Debug)]
pub struct CanonicalExtractorMetadata {
    pub name: String,
    pub version: String,
    pub options: CanonicalExtractorOptions,
}

/// One PDF.js text item of a canonical page.  Offsets are UTF-16 code-unit
/// offsets into the page's raw and normalized text.
#[derive(Clone, Debug)]
pub struct CanonicalTextItem {
    pub item_id: String,
    pub page: usize,
    pub str: String,
    pub normalized_str: String,
    pub raw_start: usize,
    pub raw_end: usize,
    pub normalized_start: usize,
    pub normalized_end: usize,
    pub has_eol: bool,
}

#[derive(Clone, Debug)]
pub struct CanonicalTextPage {
    pub page: usize,
    pub raw_text: String,
    pub normalized_text: String,
    pub text_items: Vec<CanonicalTextItem>,
}

/// PDF.js-derived text used as the canonical coordinate space for sentence
/// anchors.  The document identifier is the 128-bit value of its UUID.
#[derive(Clone, Debug)]
pub struct CanonicalTextModel {
    pub schema_version: String,
    pub document_id: u128,
    pub pdf_hash: String,
    pub extractor: CanonicalExtractorMetadata,
    pub pages: Vec<CanonicalTextPage>,
}

#[derive(Clone, Copy, Debug, PartialEq, Eq, PartialOrd, Ord, Structural)]
pub enum CandidateKind {
    BodySentence,
    Heading,
    Metadata,
    Reference,
    FormulaOrTable,
    ShortFragment,
    Unknown,
}

#[derive(Debug)]
pub struct CanonicalItemRange {
    pub item_id: String,
    pub normalized_start: usize,
    pub normalized_end: usize,
}

#[derive(Debug)]
pub struct TextQuoteSelector {
    pub exact: String,
    pub prefix: String,
    pub suffix: String,
}

/// A sentence-sized unit derived from one canonical page.  Text and offsets
/// use the page's normalized UTF-16 coordinate space.
#[derive(Clone, Debug)]
pub struct CanonicalReadingUnit {
    pub sentence_id: String,
    pub page: usize,
    pub text: String,
    pub normalized_text: String,
    pub norm_start: usize,
    pub norm_end: usize,
    pub start_item_id: String,
    pub end_item_id: String,
    pub item_ranges: Vec<CanonicalItemRange>,
    pub quote_selector: TextQuoteSelector,
    pub candidate_kind: CandidateKind,
}

#[derive(Clone, Debug)]
pub struct TextChunk {
    pub id: String,
    pub page: usize,
    pub text: String,
}

#[derive(Clone, Debug)]
pub struct SentenceCandidate {
    pub sentence_id: String,
    pub chunk_id: String,
    pub page: usize,
    pub text: String,
    pub char_start: usize,
    pub char_end: usize,
}

#[derive(Clone, Debug)]
pub struct ConceptTag {
    pub id: String,
    pub label: String,
    pub description: String,
}

#[derive(Clone, Debug)]
pub struct UserBaseline {
    pub express_text: String,
    pub mastered_concept_ids: Vec<String>,
}

#[derive(Clone, Copy, Debug, PartialEq, Eq, Structural)]
pub enum Priority {
    Delta,
    Bridge,
    Familiar,
}

#[derive(Clone, Copy, Debug, PartialEq, Eq, Structural)]
pub enum ReaderDirective {
    Highlight,
    SoftFade,
    Callout,
    LeaveNormal,
}

#[derive(Clone, Copy, Debug, PartialEq, Eq, Structural)]
pub enum AnnotationSource {
    Ai,
    Mock,
    Fallback,
}

impl Default for AnnotationSource {
    fn default() -> (r: Self)
        ensures
            r == AnnotationSource::Fallback,
    {
        AnnotationSource::Fallback
    }
}

/// The confidence given to an annotation whose confidence is missing (0.5).
pub fn default_confidence() -> (r: u32)
    ensures
        r == CONFIDENCE_SCALE / 2,
{
    500_000
}

/// The directive given to an annotation whose directive is missing.
pub fn default_reader_directive() -> (r: ReaderDirective)
    ensures
        r == ReaderDirective::LeaveNormal,
{
    ReaderDirective::LeaveNormal
}

#[derive(Clone, Debug)]
pub struct ChunkAnnotation {
    pub chunk_id: String,
    pub source: AnnotationSource,
    pub priority: Priority,
    pub directive: ReaderDirective,
    pub confidence: u32,
    pub rationale: String,
    pub reader_label: String,
}

#[derive(Clone, Debug)]
pub struct ReadingAnchor {
    pub anchor_id: String,
    pub sentence_ids: Vec<String>,
    pub chunk_id: String,
    pub page: usize,
    pub text: String,
    pub char_start: usize,
    pub char_end: usize,
    pub source: AnnotationSource,
    pub priority: Priority,
    pub directive: ReaderDirective,
    pub confidence: u32,
    pub rationale: String,
    pub reader_label: String,
}

#[derive(Clone, Debug)]
pub struct CanonicalSentenceAnnotation {
    pub annotation_id: String,
    pub sentence_id: String,
    pub page: usize,
    pub directive: ReaderDirective,
    pub priority: Priority,
    pub confidence: u32,
    pub source: AnnotationSource,
    pub source_text: String,
    pub item_ranges: Vec<CanonicalItemRange>,
    pub quote_selector: TextQuoteSelector,
    pub candidate_kind: CandidateKind,
    pub rationale: String,
    pub reader_label: String,
}

#[derive(Clone, Debug)]
pub struct Quest {
    pub id: String,
    pub question: String,
    pub anchor_chunk_ids: Vec<String>,
}

#[derive(Clone, Debug)]
pub struct BaselineRequest {
    pub express_text: String,
    pub mastered_concept_ids: Vec<String>,
}

/// The answer to an upload; the document identifier is its UUID's value.
#[derive(Clone, Debug)]
pub struct UploadResponse {
    pub document_id: u128,
    pub page_count: usize,
    pub extraction_status: String,
}

/// The answer to an analysis request.
#[derive(Clone, Debug)]
pub struct AnalyzeResponse {
    pub quests: Vec<Quest>,
    pub chunk_annotations: Vec<ChunkAnnotation>,
    pub reading_anchors: Vec<ReadingAnchor>,
    pub canonical_sentence_annotations: Vec<CanonicalSentenceAnnotation>,
    pub delta_eligibility_diagnostics: DeltaEligibilityDiagnostics,
}

/// Everything the reader view shows of a document.
#[derive(Clone, Debug)]
pub struct ReaderResponse {
    pub document_id: u128,
    pub filename: String,
    pub page_count: usize,
    pub chunks: Vec<TextChunk>,
    pub sentence_candidates: Vec<SentenceCandidate>,
    pub canonical_text_model_available: bool,
    pub concepts: Vec<ConceptTag>,
    pub baseline: Option<UserBaseline>,
    pub quests: Vec<Quest>,
    pub chunk_annotations: Vec<ChunkAnnotation>,
    pub reading_anchors: Vec<ReadingAnchor>,
    pub canonical_sentence_annotations: Vec<CanonicalSentenceAnnotation>,
    pub delta_eligibility_diagnostics: DeltaEligibilityDiagnostics,
}

impl Clone for CanonicalItemRange {
    fn clone(&self) -> (r: Self)
        ensures
            r == *self,
    {
        CanonicalItemRange {
            item_id: self.item_id.clone(),
            normalized_start: self.normalized_start,
            normalized_end: self.normalized_end,
        }
    }
}

impl Clone for TextQuoteSelector {
    fn clone(&self) -> (r: Self)
        ensures
            r == *self,
    {
        TextQuoteSelector {
            exact: self.exact.clone(),
            prefix: self.prefix.clone(),
            suffix: self.suffix.clone(),
        }
    }
}

} // verus!
