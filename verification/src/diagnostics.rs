//! Statistics on the canonical reading units of a document: how many there
//! are per page, how long they are, and how they were classified.
use vstd::prelude::*;

use crate::fixture::{count_pages, page_occurrences};
use crate::models::{CandidateKind, CanonicalReadingUnit, CanonicalTextModel, CanonicalTextPage};
use crate::text::{chars_of, utf16_count, utf16_len};

verus! {

/// Units longer than this many UTF-16 code units are reported as long.
pub const LONG_UNIT_LENGTH: usize = 500;

/// Units shorter than this many UTF-16 code units are reported as short.
pub const SHORT_UNIT_LENGTH: usize = 30;

/// The page of each reading unit.
pub open spec fn unit_pages(units: Seq<CanonicalReadingUnit>) -> Seq<usize> {
    Seq::new(units.len(), |i: int| units[i].page)
}

/// The page number of each canonical page.
pub open spec fn model_pages(pages: Seq<CanonicalTextPage>) -> Seq<usize> {
    Seq::new(pages.len(), |i: int| pages[i].page)
}

/// A unit's length in UTF-16 code units of its normalized text.
pub open spec fn unit_length(u: CanonicalReadingUnit) -> nat {
    utf16_len(u.normalized_text@)
}

/// The summed length of the units.
pub open spec fn total_length(units: Seq<CanonicalReadingUnit>) -> nat
    decreases units.len(),
{
    if units.len() == 0 {
        0
    } else {
        total_length(units.drop_last()) + unit_length(units.last())
    }
}

/// How many units are longer than [`LONG_UNIT_LENGTH`].
pub open spec fn long_units(units: Seq<CanonicalReadingUnit>) -> nat
    decreases units.len(),
{
    if units.len() == 0 {
        0
    } else {
        long_units(units.drop_last()) + if unit_length(units.last()) > LONG_UNIT_LENGTH {
            1nat
        } else {
            0nat
        }
    }
}

/// How many units are shorter than [`SHORT_UNIT_LENGTH`].
pub open spec fn short_units(units: Seq<CanonicalReadingUnit>) -> nat
    decreases units.len(),
{
    if units.len() == 0 {
        0
    } else {
        short_units(units.drop_last()) + if unit_length(units.last()) < SHORT_UNIT_LENGTH {
            1nat
        } else {
            0nat
        }
    }
}

/// How many units have the kind `kind`.
pub open spec fn kind_units(units: Seq<CanonicalReadingUnit>, kind: CandidateKind) -> nat
    decreases units.len(),
{
    if units.len() == 0 {
        0
    } else {
        kind_units(units.drop_last(), kind) + if units.last().candidate_kind == kind {
            1nat
        } else {
            0nat
        }
    }
}

/// The positions of the units of kind `kind`, in order.
pub open spec fn kind_positions(units: Seq<CanonicalReadingUnit>, kind: CandidateKind) -> Seq<int>
    decreases units.len(),
{
    if units.len() == 0 {
        Seq::empty()
    } else if units.last().candidate_kind == kind {
        kind_positions(units.drop_last(), kind).push(units.len() - 1)
    } else {
        kind_positions(units.drop_last(), kind)
    }
}

/// The kinds in the order in which they are reported.
pub open spec fn reported_kinds() -> Seq<CandidateKind> {
    seq![
        CandidateKind::BodySentence,
        CandidateKind::Heading,
        CandidateKind::Metadata,
        CandidateKind::Reference,
        CandidateKind::FormulaOrTable,
        CandidateKind::ShortFragment,
        CandidateKind::Unknown,
    ]
}

/// Whether `r` lists, in ascending order, every page that the model has or
/// that a unit lies on, each with the number of units on it.
pub open spec fn is_page_tally(r: Seq<(usize, usize)>, pages: Seq<usize>, unit_pages: Seq<usize>) -> bool {
    &&& forall|p: usize| (exists|k: int| 0 <= k < r.len() && r[k].0 == p) <==> (pages.contains(p) || unit_pages.contains(p))
    &&& forall|a: int, b: int| 0 <= a < b < r.len() ==> r[a].0 < r[b].0
    &&& forall|k: int| 0 <= k < r.len() ==> (#[trigger] r[k]).1 == page_occurrences(unit_pages, r[k].0)
}

/// What is reported on the reading units of a document.
#[derive(Debug)]
pub struct SentenceDiagnostics {
    pub page_count: usize,
    pub sentence_count: usize,
    /// Each page with its number of units, in ascending order of page.
    pub per_page: Vec<(usize, usize)>,
    /// The summed length of the units, for their average.
    pub total_length: u128,
    pub long_count: usize,
    pub short_count: usize,
    /// Each kind, in the order of [`reported_kinds`], with its number of units.
    pub kind_counts: Vec<(CandidateKind, usize)>,
}

/// How often `p` occurs in `pages`.
fn count_page(pages: &[usize], p: usize) -> (c: usize)
    ensures
        c == page_occurrences(pages@, p),
{
    let mut c: usize = 0;
    let mut i: usize = 0;
    while i < pages.len()
        invariant
            i <= pages@.len(),
            c == page_occurrences(pages@.take(i as int), p),
            c <= i,
        decreases pages@.len() - i,
    {
        assert(pages@.take(i + 1).drop_last() =~= pages@.take(i as int));
        if pages[i] == p {
            c = c + 1;
        }
        i = i + 1;
    }
    assert(pages@.take(i as int) =~= pages@);
    c
}

/// How many units have the kind `kind`.
fn count_kind(units: &[CanonicalReadingUnit], kind: CandidateKind) -> (c: usize)
    ensures
        c == kind_units(units@, kind),
{
    let mut c: usize = 0;
    let mut i: usize = 0;
    while i < units.len()
        invariant
            i <= units@.len(),
            c == kind_units(units@.take(i as int), kind),
            c <= i,
        decreases units@.len() - i,
    {
        assert(units@.take(i + 1).drop_last() =~= units@.take(i as int));
        if units[i].candidate_kind == kind {
            c = c + 1;
        }
        i = i + 1;
    }
    assert(units@.take(i as int) =~= units@);
    c
}

/// Every page of the model or of a unit, in ascending order, with its
/// number of units.
fn page_tally(pages: &[usize], unit_pages: &[usize]) -> (r: Vec<(usize, usize)>)
    ensures
        is_page_tally(r@, pages@, unit_pages@),
{
    let mut all: Vec<usize> = Vec::new();
    let mut i: usize = 0;
    while i < pages.len()
        invariant
            i <= pages@.len(),
            all@ == pages@.take(i as int),
        decreases pages@.len() - i,
    {
        all.push(pages[i]);
        i = i + 1;
        assert(all@ =~= pages@.take(i as int));
    }
    let mut j: usize = 0;
    while j < unit_pages.len()
        invariant
            j <= unit_pages@.len(),
            all@ == pages@ + unit_pages@.take(j as int),
        decreases unit_pages@.len() - j,
    {
        all.push(unit_pages[j]);
        j = j + 1;
        assert(all@ =~= pages@ + unit_pages@.take(j as int));
    }
    assert(all@ =~= pages@ + unit_pages@);
    let keys = count_pages(all.as_slice());
    let mut r: Vec<(usize, usize)> = Vec::new();
    let mut k: usize = 0;
    while k < keys.len()
        invariant
            k <= keys@.len(),
            r@.len() == k,
            forall|q: int| 0 <= q < k ==> (#[trigger] r@[q]).0 == keys@[q].0 && r@[q].1 == page_occurrences(unit_pages@, keys@[q].0),
        decreases keys@.len() - k,
    {
        let key = keys[k].0;
        let c = count_page(unit_pages, key);
        r.push((key, c));
        k = k + 1;
    }
    proof {
        assert forall|p: usize| (exists|q: int| 0 <= q < r@.len() && r@[q].0 == p) <==> (pages@.contains(p)
            || unit_pages@.contains(p)) by {
            crate::review::lemma_concat_contains(pages@, unit_pages@, p);
            if exists|q: int| 0 <= q < r@.len() && r@[q].0 == p {
                let q = choose|q: int| 0 <= q < r@.len() && r@[q].0 == p;
                assert(keys@[q].0 == p);
            }
            if all@.contains(p) {
                let q = choose|q: int| 0 <= q < keys@.len() && keys@[q].0 == p;
                assert(r@[q].0 == p);
            }
        }
        assert forall|a: int, b: int| 0 <= a < b < r@.len() implies r@[a].0 < r@[b].0 by {
            assert(r@[a].0 == keys@[a].0 && r@[b].0 == keys@[b].0);
        }
    }
    r
}

/// Counts the reading units of a document: per page, by length and by kind.
pub fn sentence_diagnostics(model: &CanonicalTextModel, units: &[CanonicalReadingUnit]) -> (r: SentenceDiagnostics)
    requires
        forall|i: int| 0 <= i < units@.len() ==> 2 * (#[trigger] units@[i]).normalized_text@.len() <= usize::MAX,
    ensures
        r.page_count == model.pages@.len(),
        r.sentence_count == units@.len(),
        is_page_tally(r.per_page@, model_pages(model.pages@), unit_pages(units@)),
        r.total_length == total_length(units@),
        r.long_count == long_units(units@),
        r.short_count == short_units(units@),
        r.kind_counts@.len() == reported_kinds().len(),
        forall|k: int| 0 <= k < r.kind_counts@.len() ==> (#[trigger] r.kind_counts@[k]).0 == reported_kinds()[k]
            && r.kind_counts@[k].1 == kind_units(units@, reported_kinds()[k]),
{
    let mut pages: Vec<usize> = Vec::new();
    let mut i: usize = 0;
    while i < model.pages.len()
        invariant
            i <= model.pages@.len(),
            pages@ == model_pages(model.pages@).take(i as int),
        decreases model.pages@.len() - i,
    {
        pages.push(model.pages[i].page);
        i = i + 1;
        assert(pages@ =~= model_pages(model.pages@).take(i as int));
    }
    assert(pages@ =~= model_pages(model.pages@));

    let mut upages: Vec<usize> = Vec::new();
    let mut total: u128 = 0;
    let mut long: usize = 0;
    let mut short: usize = 0;
    let mut j: usize = 0;
    while j < units.len()
        invariant
            j <= units@.len(),
            forall|q: int| 0 <= q < units@.len() ==> 2 * (#[trigger] units@[q]).normalized_text@.len() <= usize::MAX,
            upages@ == unit_pages(units@).take(j as int),
            total == total_length(units@.take(j as int)),
            total <= j * (usize::MAX as int),
            long == long_units(units@.take(j as int)),
            short == short_units(units@.take(j as int)),
            long <= j,
            short <= j,
        decreases units@.len() - j,
    {
        assert(units@.take(j + 1).drop_last() =~= units@.take(j as int));
        let text = chars_of(units[j].normalized_text.as_str());
        let n = utf16_count(text.as_slice());
        proof {
            let m = usize::MAX as int;
            assert(j + 1 <= m);
            assert((j + 1) * m <= m * m) by (nonlinear_arith)
                requires
                    j + 1 <= m,
                    0 <= m,
            ;
            assert(m * m < 0x1_0000_0000_0000_0000_0000_0000_0000_0000) by (nonlinear_arith)
                requires
                    0 <= m <= 0xffff_ffff_ffff_ffff,
            ;
            assert(j * m + m == (j + 1) * m) by (nonlinear_arith);
        }
        total = total + n as u128;
        if n > LONG_UNIT_LENGTH {
            long = long + 1;
        }
        if n < SHORT_UNIT_LENGTH {
            short = short + 1;
        }
        upages.push(units[j].page);
        j = j + 1;
        assert(upages@ =~= unit_pages(units@).take(j as int));
    }
    assert(units@.take(j as int) =~= units@);
    assert(upages@ =~= unit_pages(units@));

    let per_page = page_tally(pages.as_slice(), upages.as_slice());

    let kinds: Vec<CandidateKind> = vec![
        CandidateKind::BodySentence,
        CandidateKind::Heading,
        CandidateKind::Metadata,
        CandidateKind::Reference,
        CandidateKind::FormulaOrTable,
        CandidateKind::ShortFragment,
        CandidateKind::Unknown,
    ];
    assert(kinds@ =~= reported_kinds());
    let mut kind_counts: Vec<(CandidateKind, usize)> = Vec::new();
    let mut k: usize = 0;
    while k < kinds.len()
        invariant
            k <= kinds@.len(),
            kinds@ == reported_kinds(),
            kind_counts@.len() == k,
            forall|q: int| 0 <= q < k ==> (#[trigger] kind_counts@[q]).0 == reported_kinds()[q]
                && kind_counts@[q].1 == kind_units(units@, reported_kinds()[q]),
        decreases kinds@.len() - k,
    {
        let c = count_kind(units, kinds[k]);
        kind_counts.push((kinds[k], c));
        k = k + 1;
    }
    SentenceDiagnostics {
        page_count: model.pages.len(),
        sentence_count: units.len(),
        per_page,
        total_length: total,
        long_count: long,
        short_count: short,
        kind_counts,
    }
}

/// The positions of the first `limit` units of kind `kind`, in order.
pub fn kind_examples(units: &[CanonicalReadingUnit], kind: CandidateKind, limit: usize) -> (r: Vec<usize>)
    ensures
        r@.len() == if kind_positions(units@, kind).len() < limit {
            kind_positions(units@, kind).len()
        } else {
            limit as nat
        },
        forall|k: int| 0 <= k < r@.len() ==> (#[trigger] r@[k]) as int == kind_positions(units@, kind)[k],
{
    let mut r: Vec<usize> = Vec::new();
    let mut i: usize = 0;
    while i < units.len()
        invariant
            i <= units@.len(),
            r@.len() == if kind_positions(units@.take(i as int), kind).len() < limit {
                kind_positions(units@.take(i as int), kind).len()
            } else {
                limit as nat
            },
            forall|k: int| 0 <= k < r@.len() ==> (#[trigger] r@[k]) as int == kind_positions(units@.take(i as int), kind)[k],
        decreases units@.len() - i,
    {
        let ghost before = kind_positions(units@.take(i as int), kind);
        assert(units@.take(i + 1).drop_last() =~= units@.take(i as int));
        if units[i].candidate_kind == kind && r.len() < limit {
            r.push(i);
        }
        i = i + 1;
        proof {
            let after = kind_positions(units@.take(i as int), kind);
            assert forall|k: int| 0 <= k < r@.len() implies (#[trigger] r@[k]) as int == after[k] by {
                if k < before.len() {
                    assert(after[k] == before[k]);
                }
            }
        }
    }
    assert(units@.take(i as int) =~= units@);
    r
}

} // verus!
