//! Composing a book's chapters into one document's worth of parts.
//!
//! What composition reads of a chapter document is its identities and the places that name them
//! (blocks, their runs, footnotes, sections, breaks), its page-setup agreement with the first
//! chapter, its positional page masters, its named definitions — each as a name and a value
//! identity (equal identities for equal values) — its default master, its requirements and its
//! metadata: [`ChapterParts`] holds exactly that.

use vstd::prelude::*;
use crate::book::{Book, BookChapter, BookNote, ConflictKind};
use crate::identity::{assign_missing_block_ids, first_duplicate, first_fresh, filled, highest_id, unassigned_count};
use crate::load::LoadError;
use crate::model::{BlockId, Metadata, RunSource};
use crate::pages::{BreakKind, PageBreak, Section};
use crate::resolve::PackRequirement;
use crate::book::chapter_prefix_spec;
use crate::numbering::{decimal_digits, push_decimal_u64};
use crate::text::{push_all, str_chars, string_from_chars};

verus! {

/// How a chapter's page setup compares with the first chapter's.
#[derive(Debug, Clone, PartialEq)]
pub enum SetupComparison {
    /// The same setup.
    Same,
    /// Margins or the baseline grid differ: the first chapter's govern, and a note says so.
    DesignDiffers,
    /// Trim, bleed or facing pages differ (`field` names the first that does): a press file has
    /// one geometry, so the book is refused.
    PressDiffers { field: String },
}

/// A named definition as composition reads it: its name, and an identity equal for equal values.
#[derive(Debug, Clone, PartialEq)]
pub struct Named {
    pub name: String,
    pub identity: u64,
}

/// What composition reads of one chapter document.
#[derive(Debug, Clone, PartialEq)]
pub struct ChapterParts {
    /// The content blocks' ids, in order.
    pub block_ids: Vec<BlockId>,
    /// Each content block's run sources.
    pub block_runs: Vec<Vec<RunSource>>,
    /// The footnotes' ids, in order.
    pub note_ids: Vec<BlockId>,
    /// Each footnote's run sources.
    pub note_runs: Vec<Vec<RunSource>>,
    pub sections: Vec<Section>,
    pub breaks: Vec<PageBreak>,
    pub next_block_id: u64,
    /// Each page override's master, by page.
    pub page_masters: Vec<Option<String>>,
    pub masters: Vec<Named>,
    pub styles: Vec<Named>,
    pub components: Vec<Named>,
    pub default_master: Option<String>,
    pub requires: Vec<PackRequirement>,
    pub setup: SetupComparison,
    pub metadata: Metadata,
}

/// A named definition the composed book keeps: which chapter's, and which of its items.
#[derive(Debug, Clone, PartialEq)]
pub struct Kept {
    pub name: String,
    pub identity: u64,
    pub chapter: usize,
    pub index: usize,
}

/// One document's worth of parts, composed.
#[derive(Debug, Clone, PartialEq)]
pub struct ComposedParts {
    pub metadata: Metadata,
    pub block_ids: Vec<BlockId>,
    pub block_runs: Vec<Vec<RunSource>>,
    pub note_ids: Vec<BlockId>,
    pub note_runs: Vec<Vec<RunSource>>,
    pub sections: Vec<Section>,
    pub breaks: Vec<PageBreak>,
    pub masters: Vec<Kept>,
    pub styles: Vec<Kept>,
    pub components: Vec<Kept>,
    pub default_master: Option<String>,
    pub requires: Vec<PackRequirement>,
    pub next_block_id: u64,
    /// Per chapter, the (composed) id of its first block, or `None` for a chapter with no content.
    pub chapter_anchors: Vec<Option<BlockId>>,
    /// Decisions composition made on the author's behalf.
    pub notes: Vec<BookNote>,
}

// ---- identities, shifted ----

/// `id` moved past `base`; an unassigned id stays unassigned.
pub open spec fn shift(id: BlockId, base: nat) -> BlockId {
    if id.0 == 0 { id } else { BlockId((id.0 + base) as u64) }
}

/// A run source with the identity it names shifted.
pub open spec fn shift_source(s: RunSource, base: nat) -> RunSource {
    match s {
        RunSource::Authored => RunSource::Authored,
        RunSource::Reference { target } => RunSource::Reference { target: shift(target, base) },
        RunSource::Footnote { note } => RunSource::Footnote { note: shift(note, base) },
    }
}

pub open spec fn shift_ids(ids: Seq<BlockId>, base: nat) -> Seq<BlockId> {
    ids.map_values(|id: BlockId| shift(id, base))
}

pub open spec fn shift_runs(runs: Seq<Seq<RunSource>>, base: nat) -> Seq<Seq<RunSource>> {
    runs.map_values(|r: Seq<RunSource>| r.map_values(|s: RunSource| shift_source(s, base)))
}

pub open spec fn shift_sections(sections: Seq<Section>, base: nat) -> Seq<Section> {
    sections.map_values(|s: Section| Section { start: shift(s.start, base), ..s })
}

pub open spec fn shift_breaks(breaks: Seq<PageBreak>, base: nat) -> Seq<PageBreak> {
    breaks.map_values(|b: PageBreak| PageBreak { before: shift(b.before, base), ..b })
}

pub open spec fn runs_view(v: Seq<Vec<RunSource>>) -> Seq<Seq<RunSource>> {
    v.map_values(|r: Vec<RunSource>| r@)
}

/// How many ids a chapter takes up: past every id it uses, and past its own counter.
pub open spec fn chapter_used(c: ChapterParts) -> nat {
    let h = highest_id(c.block_ids@ + c.note_ids@, (c.block_ids@.len() + c.note_ids@.len()) as int);
    if h >= c.next_block_id { h } else { c.next_block_id as nat }
}

/// Where chapter `i`'s ids start: past every id the chapters before it took up.
pub open spec fn base_before(chapters: Seq<ChapterParts>, i: int) -> nat
    decreases i,
{
    if i <= 0 { 0 } else { base_before(chapters, i - 1) + chapter_used(chapters[i - 1]) }
}

/// Whether the identity `id` stays within `u64` once shifted by `base`.
pub open spec fn id_fits(id: BlockId, base: nat) -> bool {
    id.0 + base <= u64::MAX
}

pub open spec fn source_fits(s: RunSource, base: nat) -> bool {
    match s {
        RunSource::Authored => true,
        RunSource::Reference { target } => id_fits(target, base),
        RunSource::Footnote { note } => id_fits(note, base),
    }
}

/// Whether every identity chapter `c` names stays within `u64` once shifted by `base`.
pub open spec fn chapter_fits(c: ChapterParts, base: nat) -> bool {
    &&& forall|k: int| 0 <= k < c.block_ids@.len() ==> id_fits(#[trigger] c.block_ids@[k], base)
    &&& forall|k: int| 0 <= k < c.note_ids@.len() ==> id_fits(#[trigger] c.note_ids@[k], base)
    &&& forall|k: int, j: int| 0 <= k < c.block_runs@.len() && 0 <= j < c.block_runs@[k]@.len()
        ==> source_fits(#[trigger] c.block_runs@[k]@[j], base)
    &&& forall|k: int, j: int| 0 <= k < c.note_runs@.len() && 0 <= j < c.note_runs@[k]@.len()
        ==> source_fits(#[trigger] c.note_runs@[k]@[j], base)
    &&& forall|k: int| 0 <= k < c.sections@.len() ==> id_fits((#[trigger] c.sections@[k]).start, base)
    &&& forall|k: int| 0 <= k < c.breaks@.len() ==> id_fits((#[trigger] c.breaks@[k]).before, base)
    &&& base + c.next_block_id <= u64::MAX
    &&& c.block_ids@.len() + c.note_ids@.len() <= usize::MAX
}

// ---- merging named definitions ----

/// The first kept definition named `name`.
pub open spec fn find_kept(kept: Seq<Kept>, name: Seq<char>, n: int) -> Option<int>
    decreases n,
{
    if n <= 0 {
        None
    } else {
        match find_kept(kept, name, n - 1) {
            Some(k) => Some(k),
            None => if kept[n - 1].name@ == name { Some(n - 1) } else { None },
        }
    }
}

/// The first `n` of chapter `chapter`'s definitions merged into `kept`: a new name is kept; a name
/// already kept with a different value is reported as a conflict (the earlier one wins); an
/// identical redefinition is silent.
pub open spec fn merge_upto(
    kept: Seq<Kept>,
    notes: Seq<BookNote>,
    items: Seq<Named>,
    chapter: int,
    what: ConflictKind,
    n: int,
) -> (Seq<Kept>, Seq<BookNote>)
    decreases n,
{
    if n <= 0 {
        (kept, notes)
    } else {
        let (k0, n0) = merge_upto(kept, notes, items, chapter, what, n - 1);
        let item = items[n - 1];
        match find_kept(k0, item.name@, k0.len() as int) {
            Some(k) => if k0[k].identity != item.identity {
                (k0, n0.push(BookNote::Conflict { chapter: chapter as usize, what, name: item.name }))
            } else {
                (k0, n0)
            },
            None => (k0.push(Kept { name: item.name, identity: item.identity, chapter: chapter as usize, index: (n - 1) as usize }), n0),
        }
    }
}

/// Whether `reqs` already holds a requirement equal to `r`.
pub open spec fn has_requirement(reqs: Seq<PackRequirement>, r: PackRequirement) -> bool {
    exists|k: int| 0 <= k < reqs.len() && (#[trigger] reqs[k]).name@ == r.name@ && reqs[k].version@ == r.version@
}

/// `reqs` with each of the first `n` incoming requirements added unless already there.
pub open spec fn union_upto(reqs: Seq<PackRequirement>, incoming: Seq<PackRequirement>, n: int) -> Seq<PackRequirement>
    decreases n,
{
    if n <= 0 {
        reqs
    } else {
        let r0 = union_upto(reqs, incoming, n - 1);
        if has_requirement(r0, incoming[n - 1]) { r0 } else { r0.push(incoming[n - 1]) }
    }
}

/// A note for each of the first `n` pages after the first that carries a positional master.
pub open spec fn dropped_upto(page_masters: Seq<Option<String>>, chapter: int, n: int) -> Seq<BookNote>
    decreases n,
{
    if n <= 1 {
        Seq::empty()
    } else {
        let rest = dropped_upto(page_masters, chapter, n - 1);
        if page_masters[n - 1] is Some {
            rest.push(BookNote::DroppedPageOverride { chapter: chapter as usize, page: (n - 1) as usize })
        } else {
            rest
        }
    }
}

// ---- the composition ----

/// Composition's state after some chapters.
pub struct ComposeView {
    pub block_ids: Seq<BlockId>,
    pub block_runs: Seq<Seq<RunSource>>,
    pub note_ids: Seq<BlockId>,
    pub note_runs: Seq<Seq<RunSource>>,
    pub sections: Seq<Section>,
    pub breaks: Seq<PageBreak>,
    pub masters: Seq<Kept>,
    pub styles: Seq<Kept>,
    pub components: Seq<Kept>,
    pub default_master: Option<String>,
    pub requires: Seq<PackRequirement>,
    pub anchors: Seq<Option<BlockId>>,
    pub notes: Seq<BookNote>,
}

/// The master a chapter's opening page takes: the book's word for it, else the chapter's own
/// positional override for its own first page.
pub open spec fn opener(entry: BookChapter, c: ChapterParts) -> Option<String> {
    match entry.master {
        Some(m) => Some(m),
        None => if c.page_masters@.len() > 0 { c.page_masters@[0] } else { None },
    }
}

/// Chapter `i` composed onto `st`, its ids shifted past `base`.
pub open spec fn chapter_step(st: ComposeView, entry: BookChapter, c: ChapterParts, i: int, base: nat) -> ComposeView {
    let n1 = if c.setup is DesignDiffers { st.notes.push(BookNote::PageSetupDiffers { chapter: i as usize }) } else { st.notes };
    let n2 = n1 + dropped_upto(c.page_masters@, i, c.page_masters@.len() as int);
    let (masters, n3) = merge_upto(st.masters, n2, c.masters@, i, ConflictKind::MasterPage, c.masters@.len() as int);
    let (styles, n4) = merge_upto(st.styles, n3, c.styles@, i, ConflictKind::ParagraphStyle, c.styles@.len() as int);
    let (components, n5) = merge_upto(st.components, n4, c.components@, i, ConflictKind::ComponentDefinition, c.components@.len() as int);
    let sections = st.sections + shift_sections(c.sections@, base);
    let breaks = st.breaks + shift_breaks(c.breaks@, base);
    let anchor = if c.block_ids@.len() > 0 { Some(shift(c.block_ids@[0], base)) } else { None };
    ComposeView {
        block_ids: st.block_ids + shift_ids(c.block_ids@, base),
        block_runs: st.block_runs + shift_runs(runs_view(c.block_runs@), base),
        note_ids: st.note_ids + shift_ids(c.note_ids@, base),
        note_runs: st.note_runs + shift_runs(runs_view(c.note_runs@), base),
        sections: match anchor {
            Some(a) => sections.push(Section { name: entry.name, start: a, master: opener(entry, c), folio: entry.folio }),
            None => sections,
        },
        breaks: match anchor {
            Some(a) => if entry.break_before != BreakKind::Continue {
                breaks.push(PageBreak { before: a, kind: entry.break_before })
            } else {
                breaks
            },
            None => breaks,
        },
        masters,
        styles,
        components,
        default_master: if st.default_master is None { c.default_master } else { st.default_master },
        requires: union_upto(st.requires, c.requires@, c.requires@.len() as int),
        anchors: st.anchors.push(anchor),
        notes: if anchor is None { n5.push(BookNote::EmptyChapter { chapter: i as usize }) } else { n5 },
    }
}

/// The state before any chapter: the book's own requirements, nothing else.
pub open spec fn initial_view(book: Book) -> ComposeView {
    ComposeView {
        block_ids: Seq::empty(),
        block_runs: Seq::empty(),
        note_ids: Seq::empty(),
        note_runs: Seq::empty(),
        sections: Seq::empty(),
        breaks: Seq::empty(),
        masters: Seq::empty(),
        styles: Seq::empty(),
        components: Seq::empty(),
        default_master: None,
        requires: book.requires@,
        anchors: Seq::empty(),
        notes: Seq::empty(),
    }
}

/// The first `n` chapters composed, or the refusal of the first whose press geometry differs.
pub open spec fn compose_upto(book: Book, chapters: Seq<ChapterParts>, n: int) -> Result<ComposeView, LoadError>
    decreases n,
{
    if n <= 0 {
        Ok(initial_view(book))
    } else {
        match compose_upto(book, chapters, n - 1) {
            Err(e) => Err(e),
            Ok(st) => match chapters[n - 1].setup {
                SetupComparison::PressDiffers { field } => Err(LoadError::BookPageSetup { chapter: (n - 1) as usize, field }),
                _ => Ok(chapter_step(st, book.chapters@[n - 1], chapters[n - 1], n - 1, base_before(chapters, n - 1))),
            },
        }
    }
}

/// Whether composing `chapters` stays within the id space: every chapter's shifted ids fit, and
/// the composed book's own id assignment does.
pub open spec fn compose_fits(book: Book, chapters: Seq<ChapterParts>) -> bool {
    let n = chapters.len() as int;
    &&& forall|i: int| 0 <= i < n ==> #[trigger] chapter_fits(chapters[i], base_before(chapters, i))
    &&& base_before(chapters, n) + 1 <= u64::MAX
    &&& (compose_upto(book, chapters, n) matches Ok(st) ==> {
        let ids = st.block_ids + st.note_ids;
        &&& ids.len() <= usize::MAX
        &&& first_duplicate(ids, ids.len() as int) is None ==> first_fresh(ids, (base_before(chapters, n) + 1) as u64)
            + unassigned_count(ids, ids.len() as int) <= u64::MAX
    })
}

/// The metadata a book carries: its own, unless it states neither a title nor an author.
pub open spec fn book_metadata(book: Book, first: ChapterParts) -> Metadata {
    if book.metadata.title@.len() == 0 && book.metadata.authors@.len() == 0 { first.metadata } else { book.metadata }
}


// ---- executable parts ----

fn shift_exec(id: BlockId, base: u64) -> (r: BlockId)
    requires
        id_fits(id, base as nat),
    ensures
        r == shift(id, base as nat),
{
    if id.0 == 0 { id } else { BlockId(id.0 + base) }
}

fn shift_source_exec(s: RunSource, base: u64) -> (r: RunSource)
    requires
        source_fits(s, base as nat),
    ensures
        r == shift_source(s, base as nat),
{
    match s {
        RunSource::Authored => RunSource::Authored,
        RunSource::Reference { target } => RunSource::Reference { target: shift_exec(target, base) },
        RunSource::Footnote { note } => RunSource::Footnote { note: shift_exec(note, base) },
    }
}

fn shift_ids_into(out: &mut Vec<BlockId>, ids: &Vec<BlockId>, base: u64)
    requires
        forall|k: int| 0 <= k < ids@.len() ==> id_fits(#[trigger] ids@[k], base as nat),
    ensures
        final(out)@ == old(out)@ + shift_ids(ids@, base as nat),
{
    let ghost start = out@;
    let mut k: usize = 0;
    while k < ids.len()
        invariant
            0 <= k <= ids@.len(),
            forall|q: int| 0 <= q < ids@.len() ==> id_fits(#[trigger] ids@[q], base as nat),
            out@ == start + shift_ids(ids@.subrange(0, k as int), base as nat),
        decreases ids.len() - k,
    {
        out.push(shift_exec(ids[k], base));
        k = k + 1;
        assert(out@ =~= start + shift_ids(ids@.subrange(0, k as int), base as nat));
    }
    assert(ids@.subrange(0, ids@.len() as int) =~= ids@);
}

fn shift_run_list(runs: &Vec<RunSource>, base: u64) -> (out: Vec<RunSource>)
    requires
        forall|j: int| 0 <= j < runs@.len() ==> source_fits(#[trigger] runs@[j], base as nat),
    ensures
        out@ == runs@.map_values(|s: RunSource| shift_source(s, base as nat)),
{
    let mut out: Vec<RunSource> = Vec::new();
    let mut j: usize = 0;
    while j < runs.len()
        invariant
            0 <= j <= runs@.len(),
            forall|q: int| 0 <= q < runs@.len() ==> source_fits(#[trigger] runs@[q], base as nat),
            out@ == runs@.subrange(0, j as int).map_values(|s: RunSource| shift_source(s, base as nat)),
        decreases runs.len() - j,
    {
        out.push(shift_source_exec(runs[j], base));
        j = j + 1;
        assert(out@ =~= runs@.subrange(0, j as int).map_values(|s: RunSource| shift_source(s, base as nat)));
    }
    assert(runs@.subrange(0, runs@.len() as int) =~= runs@);
    out
}

fn shift_runs_into(out: &mut Vec<Vec<RunSource>>, runs: &Vec<Vec<RunSource>>, base: u64)
    requires
        forall|k: int, j: int| 0 <= k < runs@.len() && 0 <= j < runs@[k]@.len()
            ==> source_fits(#[trigger] runs@[k]@[j], base as nat),
    ensures
        runs_view(final(out)@) == runs_view(old(out)@) + shift_runs(runs_view(runs@), base as nat),
{
    let ghost start = runs_view(out@);
    let mut k: usize = 0;
    while k < runs.len()
        invariant
            0 <= k <= runs@.len(),
            forall|q: int, j: int| 0 <= q < runs@.len() && 0 <= j < runs@[q]@.len()
                ==> source_fits(#[trigger] runs@[q]@[j], base as nat),
            runs_view(out@) == start + shift_runs(runs_view(runs@.subrange(0, k as int)), base as nat),
        decreases runs.len() - k,
    {
        let shifted = shift_run_list(&runs[k], base);
        let ghost before = runs_view(out@);
        out.push(shifted);
        assert(runs_view(out@) =~= before.push(shifted@));
        k = k + 1;
        assert(runs_view(runs@.subrange(0, k as int)) =~= runs_view(runs@.subrange(0, k - 1)).push(runs@[k - 1]@));
        assert(runs_view(out@) =~= start + shift_runs(runs_view(runs@.subrange(0, k as int)), base as nat));
    }
    assert(runs@.subrange(0, runs@.len() as int) =~= runs@);
}

fn clone_opt_string(o: &Option<String>) -> (r: Option<String>)
    ensures
        r == *o,
{
    match o {
        Some(s) => Some(s.clone()),
        None => None,
    }
}

fn clone_strings(v: &Vec<String>) -> (r: Vec<String>)
    ensures
        r@ == v@,
{
    let mut out: Vec<String> = Vec::new();
    let mut k: usize = 0;
    while k < v.len()
        invariant
            0 <= k <= v@.len(),
            out@ == v@.subrange(0, k as int),
        decreases v.len() - k,
    {
        out.push(v[k].clone());
        k = k + 1;
        assert(out@ =~= v@.subrange(0, k as int));
    }
    assert(v@.subrange(0, v@.len() as int) =~= v@);
    out
}

fn clone_metadata(m: &Metadata) -> (r: Metadata)
    ensures
        r.title == m.title,
        r.authors@ == m.authors@,
{
    Metadata { title: m.title.clone(), authors: clone_strings(&m.authors) }
}

fn shift_sections_into(out: &mut Vec<Section>, sections: &Vec<Section>, base: u64)
    requires
        forall|k: int| 0 <= k < sections@.len() ==> id_fits((#[trigger] sections@[k]).start, base as nat),
    ensures
        final(out)@ == old(out)@ + shift_sections(sections@, base as nat),
{
    let ghost start = out@;
    let mut k: usize = 0;
    while k < sections.len()
        invariant
            0 <= k <= sections@.len(),
            forall|q: int| 0 <= q < sections@.len() ==> id_fits((#[trigger] sections@[q]).start, base as nat),
            out@ == start + shift_sections(sections@.subrange(0, k as int), base as nat),
        decreases sections.len() - k,
    {
        let s = &sections[k];
        out.push(Section { name: s.name.clone(), start: shift_exec(s.start, base), master: clone_opt_string(&s.master), folio: s.folio });
        k = k + 1;
        assert(out@ =~= start + shift_sections(sections@.subrange(0, k as int), base as nat));
    }
    assert(sections@.subrange(0, sections@.len() as int) =~= sections@);
}

fn shift_breaks_into(out: &mut Vec<PageBreak>, breaks: &Vec<PageBreak>, base: u64)
    requires
        forall|k: int| 0 <= k < breaks@.len() ==> id_fits((#[trigger] breaks@[k]).before, base as nat),
    ensures
        final(out)@ == old(out)@ + shift_breaks(breaks@, base as nat),
{
    let ghost start = out@;
    let mut k: usize = 0;
    while k < breaks.len()
        invariant
            0 <= k <= breaks@.len(),
            forall|q: int| 0 <= q < breaks@.len() ==> id_fits((#[trigger] breaks@[q]).before, base as nat),
            out@ == start + shift_breaks(breaks@.subrange(0, k as int), base as nat),
        decreases breaks.len() - k,
    {
        let b = breaks[k];
        out.push(PageBreak { before: shift_exec(b.before, base), kind: b.kind });
        k = k + 1;
        assert(out@ =~= start + shift_breaks(breaks@.subrange(0, k as int), base as nat));
    }
    assert(breaks@.subrange(0, breaks@.len() as int) =~= breaks@);
}

fn find_kept_exec(kept: &Vec<Kept>, name: &String) -> (r: Option<usize>)
    ensures
        match r {
            Some(k) => find_kept(kept@, name@, kept@.len() as int) == Some(k as int) && k < kept@.len(),
            None => find_kept(kept@, name@, kept@.len() as int) is None,
        },
{
    let mut k: usize = 0;
    while k < kept.len()
        invariant
            0 <= k <= kept@.len(),
            find_kept(kept@, name@, k as int) is None,
        decreases kept.len() - k,
    {
        if kept[k].name == *name {
            proof {
                lemma_find_kept_found(kept@, name@, k + 1, kept@.len() as int);
            }
            return Some(k);
        }
        k = k + 1;
    }
    None
}

proof fn lemma_find_kept_found(kept: Seq<Kept>, name: Seq<char>, m: int, n: int)
    requires
        0 <= m <= n,
        find_kept(kept, name, m) is Some,
    ensures
        find_kept(kept, name, n) == find_kept(kept, name, m),
    decreases n - m,
{
    if n > m {
        lemma_find_kept_found(kept, name, m, n - 1);
    }
}

fn merge_exec(kept: &mut Vec<Kept>, notes: &mut Vec<BookNote>, items: &Vec<Named>, chapter: usize, what: ConflictKind)
    ensures
        (final(kept)@, final(notes)@) == merge_upto(old(kept)@, old(notes)@, items@, chapter as int, what, items@.len() as int),
{
    let ghost k_start = kept@;
    let ghost n_start = notes@;
    let mut q: usize = 0;
    while q < items.len()
        invariant
            0 <= q <= items@.len(),
            (kept@, notes@) == merge_upto(k_start, n_start, items@, chapter as int, what, q as int),
        decreases items.len() - q,
    {
        let item = &items[q];
        match find_kept_exec(kept, &item.name) {
            Some(k) => {
                if kept[k].identity != item.identity {
                    notes.push(BookNote::Conflict { chapter, what, name: item.name.clone() });
                }
            },
            None => {
                kept.push(Kept { name: item.name.clone(), identity: item.identity, chapter, index: q });
            },
        }
        q = q + 1;
    }
}

fn has_requirement_exec(reqs: &Vec<PackRequirement>, r: &PackRequirement) -> (b: bool)
    ensures
        b == has_requirement(reqs@, *r),
{
    let mut k: usize = 0;
    while k < reqs.len()
        invariant
            0 <= k <= reqs@.len(),
            forall|q: int| 0 <= q < k ==> !((#[trigger] reqs@[q]).name@ == r.name@ && reqs@[q].version@ == r.version@),
        decreases reqs.len() - k,
    {
        if reqs[k].name == r.name && reqs[k].version == r.version {
            return true;
        }
        k = k + 1;
    }
    false
}

fn union_exec(reqs: &mut Vec<PackRequirement>, incoming: &Vec<PackRequirement>)
    ensures
        final(reqs)@ == union_upto(old(reqs)@, incoming@, incoming@.len() as int),
{
    let ghost start = reqs@;
    let mut q: usize = 0;
    while q < incoming.len()
        invariant
            0 <= q <= incoming@.len(),
            reqs@ == union_upto(start, incoming@, q as int),
        decreases incoming.len() - q,
    {
        let r = &incoming[q];
        if !has_requirement_exec(reqs, r) {
            reqs.push(PackRequirement { name: r.name.clone(), version: r.version.clone() });
        }
        q = q + 1;
    }
}

fn dropped_exec(notes: &mut Vec<BookNote>, page_masters: &Vec<Option<String>>, chapter: usize)
    ensures
        final(notes)@ == old(notes)@ + dropped_upto(page_masters@, chapter as int, page_masters@.len() as int),
{
    let ghost start = notes@;
    if page_masters.len() <= 1 {
        assert(notes@ =~= start + dropped_upto(page_masters@, chapter as int, page_masters@.len() as int));
        return;
    }
    let mut p: usize = 1;
    assert(notes@ =~= start + dropped_upto(page_masters@, chapter as int, 1));
    while p < page_masters.len()
        invariant
            1 <= p <= page_masters@.len(),
            notes@ == start + dropped_upto(page_masters@, chapter as int, p as int),
        decreases page_masters.len() - p,
    {
        if page_masters[p].is_some() {
            notes.push(BookNote::DroppedPageOverride { chapter, page: p });
        }
        p = p + 1;
        assert(notes@ =~= start + dropped_upto(page_masters@, chapter as int, p as int));
    }
}

proof fn lemma_highest_prefix(ids: Seq<BlockId>, n: int)
    requires
        0 <= n <= ids.len(),
    ensures
        highest_id(ids, n) <= u64::MAX,
    decreases n,
{
    if n > 0 {
        lemma_highest_prefix(ids, n - 1);
    }
}

fn chapter_used_exec(c: &ChapterParts) -> (u: u64)
    requires
        c.block_ids@.len() + c.note_ids@.len() <= usize::MAX,
    ensures
        u == chapter_used(*c),
{
    let ghost ids = c.block_ids@ + c.note_ids@;
    let nb = c.block_ids.len();
    let total: usize = c.block_ids.len() + c.note_ids.len();
    let mut h: u64 = 0;
    let mut k: usize = 0;
    while k < total
        invariant
            ids == c.block_ids@ + c.note_ids@,
            nb == c.block_ids@.len(),
            total == ids.len(),
            0 <= k <= total,
            h == highest_id(ids, k as int),
        decreases total - k,
    {
        let id = if k < nb { c.block_ids[k] } else { c.note_ids[k - nb] };
        assert(id == ids[k as int]);
        if id.0 > h {
            h = id.0;
        }
        k = k + 1;
    }
    if h >= c.next_block_id { h } else { c.next_block_id }
}

impl Book {
    /// Compose `chapters` — what composition reads of each chapter document, in the book's order —
    /// into one document's worth of parts.
    ///
    /// Refused when the chapter count disagrees with the book's, when there are no chapters, when a
    /// chapter's press geometry differs from the first's, or when the composed identities collide.
    pub fn compose(&self, chapters: &[ChapterParts]) -> (r: Result<ComposedParts, LoadError>)
        requires
            compose_fits(*self, chapters@),
        ensures
            chapters@.len() != self.chapters@.len() ==> (r matches Err(LoadError::BookParse(m))
                && m@ == "the book names "@ + decimal_digits(self.chapters@.len() as nat) + " chapters but "@
                    + decimal_digits(chapters@.len() as nat) + " were supplied"@),
            chapters@.len() == self.chapters@.len() && chapters@.len() == 0 ==> (r matches Err(LoadError::BookParse(m))
                && m@ == "a book must name at least one chapter"@),
            chapters@.len() == self.chapters@.len() && chapters@.len() > 0 ==> match compose_upto(*self, chapters@, chapters@.len() as int) {
                Err(e) => r == Err::<ComposedParts, LoadError>(e),
                Ok(st) => {
                    let ids = st.block_ids + st.note_ids;
                    let next = (base_before(chapters@, chapters@.len() as int) + 1) as u64;
                    match first_duplicate(ids, ids.len() as int) {
                        Some(j) => r == Err::<ComposedParts, LoadError>(LoadError::DuplicateBlockId(ids[j].0)),
                        None => r matches Ok(out) && {
                            &&& out.metadata.title == book_metadata(*self, chapters@[0]).title
                            &&& out.metadata.authors@ == book_metadata(*self, chapters@[0]).authors@
                            &&& out.block_ids@ + out.note_ids@ == filled(ids, first_fresh(ids, next))
                            &&& out.block_ids@.len() == st.block_ids.len()
                            &&& out.next_block_id == first_fresh(ids, next) + unassigned_count(ids, ids.len() as int)
                            &&& runs_view(out.block_runs@) == st.block_runs
                            &&& runs_view(out.note_runs@) == st.note_runs
                            &&& out.sections@ == st.sections
                            &&& out.breaks@ == st.breaks
                            &&& out.masters@ == st.masters
                            &&& out.styles@ == st.styles
                            &&& out.components@ == st.components
                            &&& out.default_master == st.default_master
                            &&& out.requires@ == st.requires
                            &&& out.chapter_anchors@ == st.anchors
                            &&& out.notes@ == st.notes
                        },
                    }
                },
            },
    {
        if chapters.len() != self.chapters.len() {
            let mut msg = crate::text::str_chars("the book names ");
            crate::numbering::push_decimal_u64(self.chapters.len() as u64, &mut msg);
            let middle = crate::text::str_chars(" chapters but ");
            crate::text::push_all(&mut msg, &middle);
            crate::numbering::push_decimal_u64(chapters.len() as u64, &mut msg);
            let tail = crate::text::str_chars(" were supplied");
            crate::text::push_all(&mut msg, &tail);
            return Err(LoadError::BookParse(crate::text::string_from_chars(&msg)));
        }
        if chapters.len() == 0 {
            return Err(LoadError::BookParse("a book must name at least one chapter".to_owned()));
        }
        let mut block_ids: Vec<BlockId> = Vec::new();
        let mut block_runs: Vec<Vec<RunSource>> = Vec::new();
        let mut note_ids: Vec<BlockId> = Vec::new();
        let mut note_runs: Vec<Vec<RunSource>> = Vec::new();
        let mut sections: Vec<Section> = Vec::new();
        let mut breaks: Vec<PageBreak> = Vec::new();
        let mut masters: Vec<Kept> = Vec::new();
        let mut styles: Vec<Kept> = Vec::new();
        let mut components: Vec<Kept> = Vec::new();
        let mut default_master: Option<String> = None;
        let mut reqs: Vec<PackRequirement> = Vec::new();
        let mut q: usize = 0;
        while q < self.requires.len()
            invariant
                0 <= q <= self.requires@.len(),
                reqs@ == self.requires@.subrange(0, q as int),
            decreases self.requires.len() - q,
        {
            let r = &self.requires[q];
            reqs.push(PackRequirement { name: r.name.clone(), version: r.version.clone() });
            q = q + 1;
            assert(reqs@ =~= self.requires@.subrange(0, q as int));
        }
        assert(self.requires@.subrange(0, self.requires@.len() as int) =~= self.requires@);
        let mut anchors: Vec<Option<BlockId>> = Vec::new();
        let mut notes: Vec<BookNote> = Vec::new();
        let mut base: u64 = 0;
        assert(runs_view(block_runs@) =~= Seq::<Seq<RunSource>>::empty());
        assert(runs_view(note_runs@) =~= Seq::<Seq<RunSource>>::empty());
        let mut i: usize = 0;
        while i < chapters.len()
            invariant
                chapters@.len() == self.chapters@.len(),
                0 <= i <= chapters@.len(),
                compose_fits(*self, chapters@),
                base == base_before(chapters@, i as int),
                compose_upto(*self, chapters@, i as int) == Ok::<ComposeView, LoadError>(ComposeView {
                    block_ids: block_ids@,
                    block_runs: runs_view(block_runs@),
                    note_ids: note_ids@,
                    note_runs: runs_view(note_runs@),
                    sections: sections@,
                    breaks: breaks@,
                    masters: masters@,
                    styles: styles@,
                    components: components@,
                    default_master,
                    requires: reqs@,
                    anchors: anchors@,
                    notes: notes@,
                }),
            decreases chapters.len() - i,
        {
            let c = &chapters[i];
            let entry = &self.chapters[i];
            proof {
                lemma_base_grows(chapters@, i as int, chapters@.len() as int);
                assert(chapter_fits(chapters@[i as int], base_before(chapters@, i as int)));
            }
            match &c.setup {
                SetupComparison::PressDiffers { field } => {
                    proof {
                        lemma_compose_error_stays(*self, chapters@, i + 1, chapters@.len() as int);
                    }
                    return Err(LoadError::BookPageSetup { chapter: i, field: field.clone() });
                },
                SetupComparison::DesignDiffers => {
                    notes.push(BookNote::PageSetupDiffers { chapter: i });
                },
                SetupComparison::Same => {},
            }
            dropped_exec(&mut notes, &c.page_masters, i);
            merge_exec(&mut masters, &mut notes, &c.masters, i, ConflictKind::MasterPage);
            merge_exec(&mut styles, &mut notes, &c.styles, i, ConflictKind::ParagraphStyle);
            merge_exec(&mut components, &mut notes, &c.components, i, ConflictKind::ComponentDefinition);
            if default_master.is_none() {
                default_master = clone_opt_string(&c.default_master);
            }
            union_exec(&mut reqs, &c.requires);
            shift_sections_into(&mut sections, &c.sections, base);
            shift_breaks_into(&mut breaks, &c.breaks, base);
            let anchor: Option<BlockId> = if c.block_ids.len() > 0 { Some(shift_exec(c.block_ids[0], base)) } else { None };
            match anchor {
                Some(a) => {
                    let opener: Option<String> = match &entry.master {
                        Some(m) => Some(m.clone()),
                        None => if c.page_masters.len() > 0 { clone_opt_string(&c.page_masters[0]) } else { None },
                    };
                    sections.push(Section { name: entry.name.clone(), start: a, master: opener, folio: entry.folio });
                    if entry.break_before != BreakKind::Continue {
                        breaks.push(PageBreak { before: a, kind: entry.break_before });
                    }
                },
                None => {
                    notes.push(BookNote::EmptyChapter { chapter: i });
                },
            }
            anchors.push(anchor);
            shift_ids_into(&mut block_ids, &c.block_ids, base);
            shift_runs_into(&mut block_runs, &c.block_runs, base);
            shift_ids_into(&mut note_ids, &c.note_ids, base);
            shift_runs_into(&mut note_runs, &c.note_runs, base);
            let used = chapter_used_exec(c);
            proof {
                lemma_base_grows(chapters@, i + 1, chapters@.len() as int);
            }
            base = base + used;
            i = i + 1;
        }
        let ghost st = ComposeView {
            block_ids: block_ids@,
            block_runs: runs_view(block_runs@),
            note_ids: note_ids@,
            note_runs: runs_view(note_runs@),
            sections: sections@,
            breaks: breaks@,
            masters: masters@,
            styles: styles@,
            components: components@,
            default_master,
            requires: reqs@,
            anchors: anchors@,
            notes: notes@,
        };
        let mut next_block_id: u64 = base + 1;
        let assigned = assign_missing_block_ids(&mut block_ids, &mut note_ids, &mut next_block_id);
        match assigned {
            Err(e) => Err(e),
            Ok(()) => {
                let metadata = if self.metadata.title.as_str().is_empty() && self.metadata.authors.len() == 0 {
                    clone_metadata(&chapters[0].metadata)
                } else {
                    clone_metadata(&self.metadata)
                };
                Ok(ComposedParts {
                    metadata,
                    block_ids,
                    block_runs,
                    note_ids,
                    note_runs,
                    sections,
                    breaks,
                    masters,
                    styles,
                    components,
                    default_master,
                    requires: reqs,
                    next_block_id,
                    chapter_anchors: anchors,
                    notes,
                })
            },
        }
    }
}

proof fn lemma_base_grows(chapters: Seq<ChapterParts>, i: int, n: int)
    requires
        0 <= i <= n,
    ensures
        base_before(chapters, i) <= base_before(chapters, n),
    decreases n - i,
{
    if n > i {
        lemma_base_grows(chapters, i, n - 1);
    }
}

proof fn lemma_compose_error_stays(book: Book, chapters: Seq<ChapterParts>, m: int, n: int)
    requires
        0 <= m <= n,
        compose_upto(book, chapters, m) is Err,
    ensures
        compose_upto(book, chapters, n) == compose_upto(book, chapters, m),
    decreases n - m,
{
    if n > m {
        lemma_compose_error_stays(book, chapters, m, n - 1);
    }
}


/// `s` under chapter `chapter`'s namespace: `{chapter}/{s}`.
pub open spec fn namespaced(chapter: usize, s: Seq<char>) -> Seq<char> {
    decimal_digits(chapter as nat) + seq!['/'] + s
}

/// `path` under chapter `chapter`'s extraction directory: `chapters/{chapter}/{path}`.
pub open spec fn relocated(chapter: usize, path: Seq<char>) -> Seq<char> {
    chapter_prefix_spec(chapter) + seq!['/'] + path
}

fn prefix_each(v: &mut Vec<String>, prefix: &Vec<char>)
    ensures
        final(v)@.len() == old(v)@.len(),
        forall|k: int| 0 <= k < old(v)@.len() ==> (#[trigger] final(v)@[k])@ == prefix@ + old(v)@[k]@,
{
    let ghost start = v@;
    let mut k: usize = 0;
    while k < v.len()
        invariant
            0 <= k <= v@.len(),
            v@.len() == start.len(),
            forall|q: int| 0 <= q < k ==> (#[trigger] v@[q])@ == prefix@ + start[q]@,
            forall|q: int| k <= q < v@.len() ==> v@[q] == start[q],
        decreases v.len() - k,
    {
        let mut chars = prefix.clone();
        assert(chars@ == prefix@) by {
            assert(chars@ =~= prefix@);
        }
        let tail = str_chars(v[k].as_str());
        push_all(&mut chars, &tail);
        v.set(k, string_from_chars(&chars));
        k = k + 1;
    }
}

/// Namespace chapter `chapter`'s assets: each asset id becomes `{chapter}/{id}` and each asset
/// path `chapters/{chapter}/{path}`, and every image reference — in the flow (`image_refs`) and in
/// master furniture (`static_refs`) — is repointed to match. A chapter with no assets is left as
/// it is.
pub fn namespace_assets(
    chapter: usize,
    asset_ids: &mut Vec<String>,
    asset_paths: &mut Vec<String>,
    image_refs: &mut Vec<String>,
    static_refs: &mut Vec<String>,
)
    ensures
        old(asset_ids)@.len() == 0 ==> final(asset_ids)@ == old(asset_ids)@ && final(asset_paths)@ == old(asset_paths)@
            && final(image_refs)@ == old(image_refs)@ && final(static_refs)@ == old(static_refs)@,
        old(asset_ids)@.len() > 0 ==> {
            &&& final(asset_ids)@.len() == old(asset_ids)@.len()
            &&& final(asset_paths)@.len() == old(asset_paths)@.len()
            &&& final(image_refs)@.len() == old(image_refs)@.len()
            &&& final(static_refs)@.len() == old(static_refs)@.len()
            &&& forall|k: int| 0 <= k < old(asset_ids)@.len() ==> (#[trigger] final(asset_ids)@[k])@ == namespaced(chapter, old(asset_ids)@[k]@)
            &&& forall|k: int| 0 <= k < old(asset_paths)@.len() ==> (#[trigger] final(asset_paths)@[k])@ == relocated(chapter, old(asset_paths)@[k]@)
            &&& forall|k: int| 0 <= k < old(image_refs)@.len() ==> (#[trigger] final(image_refs)@[k])@ == namespaced(chapter, old(image_refs)@[k]@)
            &&& forall|k: int| 0 <= k < old(static_refs)@.len() ==> (#[trigger] final(static_refs)@[k])@ == namespaced(chapter, old(static_refs)@[k]@)
        },
{
    if asset_ids.len() == 0 {
        return;
    }
    let mut id_prefix: Vec<char> = Vec::new();
    push_decimal_u64(chapter as u64, &mut id_prefix);
    id_prefix.push('/');
    assert(id_prefix@ =~= decimal_digits(chapter as nat) + seq!['/']);
    let mut path_prefix = str_chars("chapters/");
    push_decimal_u64(chapter as u64, &mut path_prefix);
    path_prefix.push('/');
    assert(path_prefix@ =~= chapter_prefix_spec(chapter) + seq!['/']);
    prefix_each(asset_ids, &id_prefix);
    prefix_each(asset_paths, &path_prefix);
    prefix_each(image_refs, &id_prefix);
    prefix_each(static_refs, &id_prefix);
}


/// **Each chapter opens with a section and a page break anchored to its first block**: after a
/// chapter with content is composed, the last section is the book's section for it, starting at
/// the chapter's first (shifted) block, which is also its anchor and the first block it adds; a
/// break the book asks for is anchored to that same block. A chapter with no content anchors
/// nothing and is reported.
pub proof fn lemma_chapter_opens_at_its_first_block(st: ComposeView, entry: BookChapter, c: ChapterParts, i: int, base: nat)
    ensures
        ({
            let next = chapter_step(st, entry, c, i, base);
            if c.block_ids@.len() > 0 {
                let a = shift(c.block_ids@[0], base);
                &&& next.anchors.last() == Some(a)
                &&& next.block_ids[st.block_ids.len() as int] == a
                &&& next.sections.last() == (Section { name: entry.name, start: a, master: opener(entry, c), folio: entry.folio })
                &&& entry.break_before != BreakKind::Continue ==> next.breaks.last() == (PageBreak { before: a, kind: entry.break_before })
                &&& entry.break_before == BreakKind::Continue ==> next.breaks.len() == st.breaks.len() + c.breaks@.len()
            } else {
                &&& next.anchors.last() is None
                &&& next.notes.last() == (BookNote::EmptyChapter { chapter: i as usize })
            }
        }),
{
}

/// **Rebasing keeps every cross-reference and note anchor pointing at its own block**: a run of a
/// chapter's block that names one of the chapter's own blocks (or notes) names, once composed,
/// the composed identity of that same block (or note).
pub proof fn lemma_rebasing_keeps_references(
    st: ComposeView,
    entry: BookChapter,
    c: ChapterParts,
    i: int,
    base: nat,
    k: int,
    j: int,
    m: int,
)
    requires
        st.block_runs.len() == st.block_ids.len(),
        st.note_ids.len() == st.note_runs.len(),
        0 <= k < c.block_runs@.len(),
        0 <= j < c.block_runs@[k]@.len(),
    ensures
        ({
            let next = chapter_step(st, entry, c, i, base);
            let off = st.block_ids.len() as int;
            &&& 0 <= m < c.block_ids@.len() && c.block_runs@[k]@[j] == (RunSource::Reference { target: c.block_ids@[m] })
                ==> next.block_runs[off + k][j] == (RunSource::Reference { target: next.block_ids[off + m] })
            &&& 0 <= m < c.note_ids@.len() && c.block_runs@[k]@[j] == (RunSource::Footnote { note: c.note_ids@[m] })
                ==> next.block_runs[off + k][j] == (RunSource::Footnote { note: next.note_ids[st.note_ids.len() + m] })
        }),
{
    let next = chapter_step(st, entry, c, i, base);
    let off = st.block_ids.len() as int;
    assert(next.block_runs[off + k] == shift_runs(runs_view(c.block_runs@), base)[k]);
    if 0 <= m < c.block_ids@.len() {
        assert(next.block_ids[off + m] == shift_ids(c.block_ids@, base)[m]);
    }
    if 0 <= m < c.note_ids@.len() {
        assert(next.note_ids[st.note_ids.len() + m] == shift_ids(c.note_ids@, base)[m]);
    }
}

/// **A composed book has no two blocks or notes with one identity**: when composition succeeds,
/// every composed id is assigned and all are distinct, and the composed counter is past them all.
pub proof fn lemma_composed_ids_are_unique(book: Book, chapters: Seq<ChapterParts>)
    requires
        compose_fits(book, chapters),
        compose_upto(book, chapters, chapters.len() as int) is Ok,
        ({
            let st = compose_upto(book, chapters, chapters.len() as int)->Ok_0;
            let ids = st.block_ids + st.note_ids;
            first_duplicate(ids, ids.len() as int) is None
        }),
    ensures
        ({
            let st = compose_upto(book, chapters, chapters.len() as int)->Ok_0;
            let ids = st.block_ids + st.note_ids;
            let next = (base_before(chapters, chapters.len() as int) + 1) as u64;
            let out = filled(ids, first_fresh(ids, next));
            let end = first_fresh(ids, next) + unassigned_count(ids, ids.len() as int);
            &&& forall|p: int| 0 <= p < out.len() ==> (#[trigger] out[p]).0 != 0 && out[p].0 < end
            &&& forall|p: int, q: int| 0 <= p < q < out.len() ==> #[trigger] out[p] != #[trigger] out[q]
        }),
{
    let st = compose_upto(book, chapters, chapters.len() as int)->Ok_0;
    let ids = st.block_ids + st.note_ids;
    let next = (base_before(chapters, chapters.len() as int) + 1) as u64;
    crate::identity::lemma_assignment_is_unique(ids, next);
    let end = first_fresh(ids, next) + unassigned_count(ids, ids.len() as int);
    assert forall|p: int| 0 <= p < ids.len() implies #[trigger] unassigned_count(ids, p) <= unassigned_count(ids, ids.len() as int) by {
        crate::identity::lemma_unassigned_count_bounded(ids, p, ids.len() as int);
    }
}

/// **The first chapter that states a default master governs the book**: once composition of the
/// first `n` chapters succeeds, its default master is that of the earliest of them that states
/// one, and there is none only when none of them states one. A later chapter's default master
/// never replaces an earlier one.
pub proof fn lemma_first_default_master_governs(book: Book, chapters: Seq<ChapterParts>, n: int)
    requires
        0 <= n <= chapters.len(),
        n <= book.chapters@.len(),
    ensures
        compose_upto(book, chapters, n) matches Ok(st) ==> {
            &&& forall|i: int| 0 <= i < n && (#[trigger] chapters[i]).default_master is Some
                && (forall|j: int| 0 <= j < i ==> (#[trigger] chapters[j]).default_master is None)
                ==> st.default_master == chapters[i].default_master
            &&& (forall|j: int| 0 <= j < n ==> (#[trigger] chapters[j]).default_master is None)
                ==> st.default_master is None
        },
    decreases n,
{
    if n > 0 {
        lemma_first_default_master_governs(book, chapters, n - 1);
        match compose_upto(book, chapters, n - 1) {
            Ok(prev) => {
                if compose_upto(book, chapters, n) is Ok {
                    let st = compose_upto(book, chapters, n)->Ok_0;
                    assert(st.default_master == (if prev.default_master is None { chapters[n - 1].default_master } else { prev.default_master }));
                    assert forall|i: int| 0 <= i < n && (#[trigger] chapters[i]).default_master is Some
                        && (forall|j: int| 0 <= j < i ==> (#[trigger] chapters[j]).default_master is None)
                        implies st.default_master == chapters[i].default_master by {
                        if i < n - 1 {
                            assert(prev.default_master == chapters[i].default_master);
                        } else {
                            assert forall|j: int| 0 <= j < n - 1 implies (#[trigger] chapters[j]).default_master is None by {
                                assert(chapters[j].default_master is None);
                            }
                        }
                    }
                    if forall|j: int| 0 <= j < n ==> (#[trigger] chapters[j]).default_master is None {
                        assert(chapters[n - 1].default_master is None);
                        assert forall|j: int| 0 <= j < n - 1 implies (#[trigger] chapters[j]).default_master is None by {
                            assert(chapters[j].default_master is None);
                        }
                    }
                }
            },
            Err(_) => {},
        }
    }
}

} // verus!
