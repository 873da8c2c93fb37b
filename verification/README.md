# delta-reader-backend

The backend of AI Delta Reader, a PDF-first reader that highlights what is
new to a reader and fades what they already know, as a library whose logic
is verified with Verus, and a thin program around it.

## Layout

- `src/` — the verified library.
  - `text.rs`: character sequences, Unicode white space, trimming,
    splitting, decimal numerals, and the few standard-library character
    functions the library calls.
  - `pdf.rs`: paragraph chunks of page text and legacy sentence candidates.
  - `canonical.rs`: canonical PDF.js reading units, their classification,
    and the checks on the worker's model and PDF hash.
  - `annotation.rs`, `quest.rs`, `ai.rs`, `delta_policy.rs`: validation of
    model output, quests, and the delta eligibility filter.
  - `mock.rs`, `keywords.rs`, `provider.rs`, `analysis.rs`: the deterministic
    provider, concept keywords, provider configuration and batching, and the
    steps after an analysis.
  - `evaluation.rs`, `fixture.rs`, `review.rs`, `diagnostics.rs`: product-fit
    evaluation, annotation fixtures, label review and unit statistics.
  - `session.rs`: the in-memory session store with its six-hour lifetime.
  - `models.rs`: the shared data types.
- `tests/` — tests of the library.
- `app/` — the HTTP service (axum) with page text from `pdf-extract`, the
  chat-completions provider
  (reqwest), the PDF.js worker process, JSON forms of the types, and the
  `canonical-text`, `product-eval` and `product-fixture` commands.

Confidences are held in millionths and phrase scores as exact fractions;
document identifiers are the 128-bit values of their UUIDs and times are
milliseconds since the Unix epoch.
