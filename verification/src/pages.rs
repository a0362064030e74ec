//! Pagination rules: page parity, forced breaks, sections, per-page master assignment and the
//! folio numbering a document's sections produce.

use vstd::prelude::*;
use crate::model::BlockId;
use crate::numbering::{format_chars, NumberFormat};
use crate::text::string_from_chars;

verus! {

/// Whether `page_index` is a right-hand page. With facing pages off every page is a recto.
pub open spec fn recto(page_index: usize, facing_pages: bool) -> bool {
    !facing_pages || page_index % 2 == 0
}

/// Whether `page_index` is a right-hand page — the spine on its left, the fore-edge on its right.
/// The one place page parity is decided.
pub fn is_recto(page_index: usize, facing_pages: bool) -> (b: bool)
    ensures
        b == recto(page_index, facing_pages),
{
    !facing_pages || page_index % 2 == 0
}

/// What a [`PageBreak`] demands of the page the content resumes on.
#[derive(Debug, Clone, Copy, PartialEq, Eq, Default, Structural)]
pub enum BreakKind {
    /// No break: the content continues in the frame the flow had reached.
    Continue,
    /// The next page, whichever side it falls on.
    #[default]
    Page,
    /// The next right-hand page.
    Recto,
    /// The next left-hand page.
    Verso,
}

impl BreakKind {
    pub open spec fn spec_accepts(self, page_index: usize, facing_pages: bool) -> bool {
        match self {
            BreakKind::Continue | BreakKind::Page => true,
            BreakKind::Recto => recto(page_index, facing_pages),
            BreakKind::Verso => !facing_pages || !recto(page_index, facing_pages),
        }
    }

    /// Whether a break of this kind is satisfied by a page starting at `page_index`. With facing
    /// pages off, every kind accepts every page.
    #[verifier::when_used_as_spec(spec_accepts)]
    pub fn accepts(self, page_index: usize, facing_pages: bool) -> (b: bool)
        ensures
            b == self.spec_accepts(page_index, facing_pages),
    {
        match self {
            BreakKind::Continue | BreakKind::Page => true,
            BreakKind::Recto => is_recto(page_index, facing_pages),
            BreakKind::Verso => !facing_pages || !is_recto(page_index, facing_pages),
        }
    }

    /// Whether this kind asks the flow for anything at all.
    pub fn is_break(self) -> (b: bool)
        ensures
            b == (self != BreakKind::Continue),
    {
        match self {
            BreakKind::Continue => false,
            _ => true,
        }
    }
}

/// **Page parity is decided in one place.** A recto break lands exactly on the pages
/// [`is_recto`] calls rectos and a verso break exactly on the others; with facing pages off
/// there are no versos, so every kind accepts every page.
pub proof fn lemma_break_parity(page_index: usize, facing_pages: bool)
    ensures
        BreakKind::Recto.spec_accepts(page_index, facing_pages) == recto(page_index, facing_pages),
        facing_pages ==> BreakKind::Verso.spec_accepts(page_index, facing_pages) == !recto(page_index, facing_pages),
        !facing_pages ==> forall|k: BreakKind| #[trigger] k.spec_accepts(page_index, facing_pages),
        BreakKind::Page.spec_accepts(page_index, facing_pages),
{
}

/// A forced page break, anchored to the block the flow must start a page for.
#[derive(Debug, Clone, Copy, PartialEq, Eq, Structural)]
pub struct PageBreak {
    pub before: BlockId,
    pub kind: BreakKind,
}

/// How a master static is set within its rect.
#[derive(Debug, Clone, Copy, PartialEq, Eq, Default, Structural)]
pub enum StaticAlign {
    #[default]
    Left,
    Center,
    Right,
    /// Flush to the spine side: left on a recto, right on a verso.
    Inside,
    /// Flush to the fore-edge side: right on a recto, left on a verso.
    Outside,
}

impl StaticAlign {
    pub open spec fn spec_edge_on(self, page_index: usize, facing_pages: bool) -> StaticAlign {
        match self {
            StaticAlign::Inside => if recto(page_index, facing_pages) { StaticAlign::Left } else { StaticAlign::Right },
            StaticAlign::Outside => if recto(page_index, facing_pages) { StaticAlign::Right } else { StaticAlign::Left },
            other => other,
        }
    }

    /// The fixed alignment this one comes to on `page_index`: `Inside` and `Outside` resolve by
    /// page parity through [`is_recto`] (the rule margins use too), the others stay as they are.
    #[verifier::when_used_as_spec(spec_edge_on)]
    pub fn edge_on(self, page_index: usize, facing_pages: bool) -> (a: StaticAlign)
        ensures
            a == self.spec_edge_on(page_index, facing_pages),
    {
        let on_recto = is_recto(page_index, facing_pages);
        match self {
            StaticAlign::Inside => if on_recto { StaticAlign::Left } else { StaticAlign::Right },
            StaticAlign::Outside => if on_recto { StaticAlign::Right } else { StaticAlign::Left },
            other => other,
        }
    }
}

/// **Inside and outside swap with page parity.** A resolved alignment is always a fixed edge or
/// the centre; `Outside` is flush right exactly on the pages [`is_recto`] calls rectos (the side
/// the outside margin is on), `Inside` is always its mirror, two facing pages never set an
/// `Outside` static against the same edge, and with facing pages off every page is a recto.
pub proof fn lemma_parity_alignment(align: StaticAlign, page_index: usize, facing_pages: bool)
    ensures
        align.spec_edge_on(page_index, facing_pages) != StaticAlign::Inside,
        align.spec_edge_on(page_index, facing_pages) != StaticAlign::Outside,
        (StaticAlign::Outside.spec_edge_on(page_index, facing_pages) == StaticAlign::Right)
            == recto(page_index, facing_pages),
        (StaticAlign::Inside.spec_edge_on(page_index, facing_pages) == StaticAlign::Left)
            == (StaticAlign::Outside.spec_edge_on(page_index, facing_pages) == StaticAlign::Right),
        facing_pages && page_index < usize::MAX ==>
            StaticAlign::Outside.spec_edge_on(page_index, facing_pages)
                != StaticAlign::Outside.spec_edge_on((page_index + 1) as usize, facing_pages),
        !facing_pages ==> StaticAlign::Outside.spec_edge_on(page_index, facing_pages) == StaticAlign::Right
            && StaticAlign::Inside.spec_edge_on(page_index, facing_pages) == StaticAlign::Left,
        align != StaticAlign::Inside && align != StaticAlign::Outside ==>
            align.spec_edge_on(page_index, facing_pages) == align,
{
}

/// Per-page override of the document's default master.
#[derive(Debug, Clone, Default, PartialEq)]
pub struct PageOverride {
    /// `None` declines to override — which is not the same as "no master".
    pub master: Option<String>,
}

/// How a section's pages are numbered.
#[derive(Debug, Clone, Copy, PartialEq, Eq, Default, Structural)]
pub struct Folio {
    /// The numerals this section's folios are written in.
    pub format: NumberFormat,
    /// The number this section's first page carries, or `None` to continue the count.
    pub restart_at: Option<u32>,
}

/// A named division of the document, anchored to the block that opens it.
#[derive(Debug, Clone, PartialEq)]
pub struct Section {
    pub name: String,
    pub start: BlockId,
    /// The master applied to the section's opening page.
    pub master: Option<String>,
    /// How this section's pages are numbered, or `None` to carry on.
    pub folio: Option<Folio>,
}

/// One stretch of pages numbered by a single rule.
#[derive(Debug, Clone, Copy, PartialEq, Eq, Structural)]
pub struct FolioRun {
    /// Zero-based index of the first page this run governs.
    pub first_page: usize,
    /// How the numbers in this run are written.
    pub format: NumberFormat,
    /// The number shown on `first_page`.
    pub start: u32,
}

fn clone_name(s: &Option<String>) -> (r: Option<String>)
    ensures
        r == *s,
{
    match s {
        Some(n) => Some(n.clone()),
        None => None,
    }
}

// ---------------------------------------------------------------------------------------------
// Master assignment.

/// A page override list, as the master name each entry states.
pub open spec fn overrides_view(pages: Seq<PageOverride>) -> Seq<Option<String>> {
    Seq::new(pages.len(), |i: int| pages[i].master)
}

/// The assignment after applying one section: a placed section that names a master writes it
/// onto the page its anchor landed on, growing the list as needed.
pub open spec fn assign_step(view: Seq<Option<String>>, start: Option<usize>, master: Option<String>) -> Seq<Option<String>> {
    match (start, master) {
        (Some(s), Some(m)) => {
            let grown = if view.len() <= s {
                view + Seq::new((s + 1 - view.len()) as nat, |_i: int| None::<String>)
            } else {
                view
            };
            grown.update(s as int, Some(m))
        },
        _ => view,
    }
}

/// The assignment after the first `n` sections.
pub open spec fn assignment_upto(view: Seq<Option<String>>, sections: Seq<Section>, starts: Seq<Option<usize>>, n: int) -> Seq<Option<String>>
    decreases n,
{
    if n <= 0 {
        view
    } else {
        assign_step(assignment_upto(view, sections, starts, n - 1), starts[n - 1], sections[n - 1].master)
    }
}

pub open spec fn min_len(a: int, b: int) -> int {
    if a < b { a } else { b }
}

/// Synthesise the per-page assignment from where each section's anchor landed.
///
/// `starts[i]` is the page `sections[i]`'s anchor was first placed on, or `None`. The result is
/// the authored `pages` with one entry written per placed section that names a master. A section
/// wins over a positional entry at the same index, and a later section over an earlier one.
pub fn page_assignment(pages: &[PageOverride], sections: &[Section], starts: &[Option<usize>]) -> (out: Vec<PageOverride>)
    requires
        forall|k: int| 0 <= k < starts.len() && starts[k] is Some ==> (#[trigger] starts[k])->0 < usize::MAX,
    ensures
        overrides_view(out@) == assignment_upto(overrides_view(pages@), sections@, starts@,
            min_len(sections.len() as int, starts.len() as int)),
{
    let mut out: Vec<PageOverride> = Vec::new();
    let mut i: usize = 0;
    while i < pages.len()
        invariant
            0 <= i <= pages.len(),
            out@.len() == i,
            forall|j: int| 0 <= j < i ==> (#[trigger] out@[j]).master == pages@[j].master,
        decreases pages.len() - i,
    {
        out.push(PageOverride { master: clone_name(&pages[i].master) });
        i = i + 1;
    }
    assert(overrides_view(out@) =~= overrides_view(pages@));
    let n: usize = if sections.len() < starts.len() { sections.len() } else { starts.len() };
    let mut k: usize = 0;
    while k < n
        invariant
            0 <= k <= n,
            n == min_len(sections.len() as int, starts.len() as int),
            n <= sections.len() && n <= starts.len(),
            forall|j: int| 0 <= j < starts.len() && starts[j] is Some ==> (#[trigger] starts[j])->0 < usize::MAX,
            overrides_view(out@) == assignment_upto(overrides_view(pages@), sections@, starts@, k as int),
        decreases n - k,
    {
        let ghost before = overrides_view(out@);
        match (starts[k], &sections[k].master) {
            (Some(s), Some(m)) => {
                assert(starts@[k as int] is Some);
                if out.len() <= s {
                    while out.len() <= s
                        invariant
                            s < usize::MAX,
                            before.len() <= out@.len() <= s + 1,
                            forall|j: int| 0 <= j < before.len() ==> (#[trigger] out@[j]).master == before[j],
                            forall|j: int| before.len() <= j < out@.len() ==> (#[trigger] out@[j]).master is None,
                        decreases s + 1 - out.len(),
                    {
                        out.push(PageOverride { master: None });
                    }
                    assert(overrides_view(out@) =~= before + Seq::new((s + 1 - before.len()) as nat, |_i: int| None::<String>));
                }
                out.set(s, PageOverride { master: Some(m.clone()) });
                assert(overrides_view(out@) =~= assign_step(before, starts@[k as int], sections@[k as int].master));
            },
            _ => {
                assert(overrides_view(out@) == assign_step(before, starts@[k as int], sections@[k as int].master));
            },
        }
        k = k + 1;
    }
    out
}

/// **A section wins over a positional entry at the same page**, and a later section over an
/// earlier one: the page a placed section's anchor landed on carries that section's master
/// unless a later placed section claims the same page.
pub proof fn lemma_section_wins(view: Seq<Option<String>>, sections: Seq<Section>, starts: Seq<Option<usize>>, n: int, k: int)
    requires
        0 <= k < n <= sections.len(),
        n <= starts.len(),
        starts[k] is Some,
        sections[k].master is Some,
        forall|j: int| k < j < n && starts[j] is Some && sections[j].master is Some ==> (#[trigger] starts[j])->0 != starts[k]->0,
    ensures
        (starts[k]->0 as int) < assignment_upto(view, sections, starts, n).len(),
        assignment_upto(view, sections, starts, n)[starts[k]->0 as int] == sections[k].master,
    decreases n,
{
    lemma_assignment_grows(view, sections, starts, n);
    if n - 1 > k {
        lemma_section_wins(view, sections, starts, n - 1, k);
    }
}

proof fn lemma_assignment_grows(view: Seq<Option<String>>, sections: Seq<Section>, starts: Seq<Option<usize>>, n: int)
    ensures
        view.len() <= assignment_upto(view, sections, starts, n).len(),
        forall|j: int| 0 <= j < n && starts[j] is Some && sections[j].master is Some
            ==> ((#[trigger] starts[j])->0 as int) < assignment_upto(view, sections, starts, n).len(),
    decreases n,
{
    if n > 0 {
        lemma_assignment_grows(view, sections, starts, n - 1);
    }
}

/// The first master named `name` among `names`.
pub open spec fn first_named(names: Seq<String>, name: String, n: int) -> Option<int>
    decreases n,
{
    if n <= 0 {
        None
    } else {
        match first_named(names, name, n - 1) {
            Some(k) => Some(k),
            None => if names[n - 1]@ == name@ { Some(n - 1) } else { None },
        }
    }
}

fn find_named(names: &[String], name: &String) -> (r: Option<usize>)
    ensures
        r == (match first_named(names@, *name, names.len() as int) {
            Some(k) => Some(k as usize),
            None => None::<usize>,
        }),
{
    let mut k: usize = 0;
    while k < names.len()
        invariant
            0 <= k <= names.len(),
            first_named(names@, *name, k as int) is None,
        decreases names.len() - k,
    {
        if names[k] == *name {
            proof {
                lemma_first_named_extends(names@, *name, k as int + 1, names.len() as int);
            }
            return Some(k);
        }
        k = k + 1;
    }
    None
}

proof fn lemma_first_named_extends(names: Seq<String>, name: String, m: int, n: int)
    requires
        0 <= m <= n,
        first_named(names, name, m) is Some,
    ensures
        first_named(names, name, n) == first_named(names, name, m),
    decreases n - m,
{
    if n > m {
        lemma_first_named_extends(names, name, m, n - 1);
    }
}

/// Which master governs `page_index`: the page's own override if it names a master that exists,
/// else the document's default if that names one, else none.
pub open spec fn resolved_master(names: Seq<String>, default_master: Option<String>, pages: Seq<PageOverride>, page_index: int) -> Option<int> {
    let named = if 0 <= page_index < pages.len() {
        match pages[page_index].master {
            Some(n) => first_named(names, n, names.len() as int),
            None => None,
        }
    } else {
        None
    };
    match named {
        Some(k) => Some(k),
        None => match default_master {
            Some(d) => first_named(names, d, names.len() as int),
            None => None,
        },
    }
}

/// The master page governing `page_index`, as an index into `master_names` (the document's masters
/// in order). A name that matches no master falls through to the next step rather than failing.
pub fn master_in(master_names: &[String], default_master: &Option<String>, pages: &[PageOverride], page_index: usize) -> (r: Option<usize>)
    ensures
        r == (match resolved_master(master_names@, *default_master, pages@, page_index as int) {
            Some(k) => Some(k as usize),
            None => None::<usize>,
        }),
{
    if page_index < pages.len() {
        if let Some(name) = &pages[page_index].master {
            let found = find_named(master_names, name);
            if found.is_some() {
                return found;
            }
        }
    }
    match default_master {
        Some(d) => find_named(master_names, d),
        None => None,
    }
}

// ---------------------------------------------------------------------------------------------
// Folio numbering.

/// The placed sections that state a folio, as `(page, folio)` in authored order.
pub open spec fn stated_folios(sections: Seq<Section>, starts: Seq<Option<usize>>, n: int) -> Seq<(usize, Folio)>
    decreases n,
{
    if n <= 0 {
        Seq::empty()
    } else {
        let prev = stated_folios(sections, starts, n - 1);
        match (starts[n - 1], sections[n - 1].folio) {
            (Some(p), Some(f)) => prev.push((p, f)),
            _ => prev,
        }
    }
}

/// The index of the first entry with the smallest page, from `i` onwards.
pub open spec fn first_min_from(list: Seq<(usize, Folio)>, i: int) -> int
    decreases list.len() - i,
{
    if i + 1 >= list.len() {
        i
    } else {
        let m = first_min_from(list, i + 1);
        if list[i].0 <= list[m].0 { i } else { m }
    }
}

pub proof fn lemma_first_min(list: Seq<(usize, Folio)>, i: int)
    requires
        0 <= i < list.len(),
    ensures
        i <= first_min_from(list, i) < list.len(),
        forall|j: int| i <= j < list.len() ==> list[first_min_from(list, i)].0 <= (#[trigger] list[j]).0,
    decreases list.len() - i,
{
    if i + 1 < list.len() {
        lemma_first_min(list, i + 1);
    }
}

/// The run in force after applying one stated folio: a new run at its page, starting at its
/// restart or at whatever the page would have shown, replacing a run already at that page.
pub open spec fn folio_step(runs: Seq<FolioRun>, entry: (usize, Folio)) -> Seq<FolioRun> {
    let previous = runs.last();
    let page = entry.0;
    let continued = previous.start.saturating_add(page.saturating_sub(previous.first_page) as u32);
    let start = match entry.1.restart_at {
        Some(r) => r,
        None => continued,
    };
    let run = FolioRun { first_page: page, format: entry.1.format, start };
    if previous.first_page == page {
        runs.update(runs.len() - 1, run)
    } else {
        runs.push(run)
    }
}

/// Apply every stated folio in page order, earlier-authored first among equal pages.
pub open spec fn folio_fold(runs: Seq<FolioRun>, list: Seq<(usize, Folio)>) -> Seq<FolioRun>
    decreases list.len(),
{
    if list.len() == 0 {
        runs
    } else {
        let m = first_min_from(list, 0);
        proof {
            lemma_first_min(list, 0);
        }
        folio_fold(folio_step(runs, list[m]), list.remove(m))
    }
}

/// Page 0 onwards, arabic from 1: the rule every page ahead of the first stated folio follows.
pub open spec fn default_folio_run() -> FolioRun {
    FolioRun { first_page: 0, format: NumberFormat::Decimal, start: 1 }
}

/// The page-numbering runs `sections` produce, given where each anchor landed.
pub open spec fn folio_runs_spec(sections: Seq<Section>, starts: Seq<Option<usize>>) -> Seq<FolioRun> {
    folio_fold(seq![default_folio_run()], stated_folios(sections, starts, min_len(sections.len() as int, starts.len() as int)))
}

/// Runs that begin at page 0 and strictly increase, so every page has exactly one rule.
pub open spec fn runs_well_formed(runs: Seq<FolioRun>) -> bool {
    &&& runs.len() > 0
    &&& runs[0].first_page == 0
    &&& forall|i: int, j: int| 0 <= i < j < runs.len() ==> (#[trigger] runs[i]).first_page < (#[trigger] runs[j]).first_page
}

proof fn lemma_fold_well_formed(runs: Seq<FolioRun>, list: Seq<(usize, Folio)>)
    requires
        runs_well_formed(runs),
        forall|j: int| 0 <= j < list.len() ==> runs.last().first_page <= (#[trigger] list[j]).0,
    ensures
        runs_well_formed(folio_fold(runs, list)),
    decreases list.len(),
{
    if list.len() > 0 {
        let m = first_min_from(list, 0);
        lemma_first_min(list, 0);
        let next = folio_step(runs, list[m]);
        let rest = list.remove(m);
        assert(runs_well_formed(next)) by {
            if runs.last().first_page == list[m].0 {
                assert forall|i: int, j: int| 0 <= i < j < next.len() implies (#[trigger] next[i]).first_page < (#[trigger] next[j]).first_page by {
                    if j == next.len() - 1 {
                        assert(runs[i].first_page < runs[j].first_page);
                    } else {
                        assert(next[j] == runs[j]);
                    }
                }
            } else {
                assert forall|i: int, j: int| 0 <= i < j < next.len() implies (#[trigger] next[i]).first_page < (#[trigger] next[j]).first_page by {
                    if j == next.len() - 1 {
                        if i < runs.len() - 1 {
                            assert(runs[i].first_page < runs[runs.len() - 1].first_page);
                        }
                    }
                }
            }
        }
        assert forall|j: int| 0 <= j < rest.len() implies next.last().first_page <= (#[trigger] rest[j]).0 by {
            if j < m {
                assert(rest[j] == list[j]);
            } else {
                assert(rest[j] == list[j + 1]);
            }
        }
        lemma_fold_well_formed(next, rest);
    }
}

/// The page-numbering runs this document's sections produce.
///
/// The result always begins with a run at page 0 and its pages strictly increase, so **every
/// page has exactly one rule**. A section that states no folio starts no run. Stated folios are
/// applied in page order, and of two on the same page the later authored one wins.
pub fn folio_runs(sections: &[Section], starts: &[Option<usize>]) -> (runs: Vec<FolioRun>)
    ensures
        runs@ == folio_runs_spec(sections@, starts@),
        runs_well_formed(runs@),
{
    let n: usize = if sections.len() < starts.len() { sections.len() } else { starts.len() };
    let mut stated: Vec<(usize, Folio)> = Vec::new();
    let mut k: usize = 0;
    while k < n
        invariant
            0 <= k <= n,
            n <= sections.len() && n <= starts.len(),
            stated@ == stated_folios(sections@, starts@, k as int),
        decreases n - k,
    {
        match (starts[k], sections[k].folio) {
            (Some(p), Some(f)) => stated.push((p, f)),
            _ => {},
        }
        k = k + 1;
    }
    let mut runs: Vec<FolioRun> = Vec::new();
    runs.push(FolioRun { first_page: 0, format: NumberFormat::Decimal, start: 1 });
    let ghost total = folio_runs_spec(sections@, starts@);
    proof {
        assert(runs@ =~= seq![default_folio_run()]);
        lemma_fold_well_formed(runs@, stated@);
    }
    while stated.len() > 0
        invariant
            runs@.len() > 0,
            folio_fold(runs@, stated@) == total,
            runs_well_formed(runs@),
            forall|j: int| 0 <= j < stated@.len() ==> runs@.last().first_page <= (#[trigger] stated@[j]).0,
        decreases stated.len(),
    {
        let mut m: usize = stated.len() - 1;
        let mut j: usize = stated.len() - 1;
        proof {
            lemma_first_min(stated@, 0);
        }
        while j > 0
            invariant
                0 <= j < stated.len(),
                j <= m < stated.len(),
                m == first_min_from(stated@, j as int),
            decreases j,
        {
            j = j - 1;
            if stated[j].0 <= stated[m].0 {
                m = j;
            }
        }
        let ghost old_stated = stated@;
        let entry = stated.remove(m);
        let last = runs.len() - 1;
        let previous = runs[last];
        let (page, folio) = entry;
        let gap = page.saturating_sub(previous.first_page);
        #[verifier::truncate]
        let gap32: u32 = gap as u32;
        let continued = previous.start.saturating_add(gap32);
        let start = match folio.restart_at {
            Some(r) => r,
            None => continued,
        };
        let run = FolioRun { first_page: page, format: folio.format, start };
        let ghost old_runs = runs@;
        if previous.first_page == page {
            runs.set(last, run);
        } else {
            runs.push(run);
        }
        proof {
            lemma_first_min(old_stated, 0);
            assert(runs@ =~= folio_step(old_runs, old_stated[m as int]));
            assert(stated@ =~= old_stated.remove(m as int));
            lemma_fold_well_formed(old_runs, old_stated);
            assert forall|j: int| 0 <= j < stated@.len() implies runs@.last().first_page <= (#[trigger] stated@[j]).0 by {
                if j < m {
                    assert(stated@[j] == old_stated[j]);
                } else {
                    assert(stated@[j] == old_stated[j + 1]);
                }
            }
            assert(runs_well_formed(runs@)) by {
                let next = runs@;
                if old_runs.last().first_page == page {
                    assert forall|i: int, j: int| 0 <= i < j < next.len() implies (#[trigger] next[i]).first_page < (#[trigger] next[j]).first_page by {
                        if j == next.len() - 1 {
                            assert(old_runs[i].first_page < old_runs[j].first_page);
                        } else {
                            assert(next[j] == old_runs[j]);
                        }
                    }
                } else {
                    assert forall|i: int, j: int| 0 <= i < j < next.len() implies (#[trigger] next[i]).first_page < (#[trigger] next[j]).first_page by {
                        if j == next.len() - 1 {
                            if i < old_runs.len() - 1 {
                                assert(old_runs[i].first_page < old_runs[old_runs.len() - 1].first_page);
                            }
                        }
                    }
                }
            }
        }
    }
    runs
}

/// The last run (by position) that starts at or before `page`, among the first `n`.
pub open spec fn last_run_at(runs: Seq<FolioRun>, page: usize, n: int) -> Option<int>
    decreases n,
{
    if n <= 0 {
        None
    } else if runs[n - 1].first_page <= page {
        Some(n - 1)
    } else {
        last_run_at(runs, page, n - 1)
    }
}

/// The numbering behind the folio printed on `page`: its format and its number.
pub open spec fn folio_number_spec(runs: Seq<FolioRun>, page: usize) -> (NumberFormat, u32) {
    match last_run_at(runs, page, runs.len() as int) {
        Some(k) => (runs[k].format, runs[k].start.saturating_add((page - runs[k].first_page) as u32)),
        None => (NumberFormat::Decimal, ((page as u32) + 1) as u32),
    }
}

/// The numbering behind [`folio_in`] — the format and the number, before either becomes text.
pub fn folio_number_in(runs: &[FolioRun], page_index: usize) -> (r: (NumberFormat, u32))
    requires
        last_run_at(runs@, page_index, runs.len() as int) is None ==> (page_index as u32) < u32::MAX,
    ensures
        r == folio_number_spec(runs@, page_index),
{
    let mut k: usize = runs.len();
    while k > 0
        invariant
            0 <= k <= runs.len(),
            last_run_at(runs@, page_index, runs.len() as int) == last_run_at(runs@, page_index, k as int),
        decreases k,
    {
        if runs[k - 1].first_page <= page_index {
            let run = runs[k - 1];
            #[verifier::truncate]
            let offset: u32 = (page_index - run.first_page) as u32;
            return (run.format, run.start.saturating_add(offset));
        }
        k = k - 1;
    }
    #[verifier::truncate]
    let p: u32 = page_index as u32;
    (NumberFormat::Decimal, p + 1)
}

/// The folio printed on `page_index` — the string a reader sees on the page. It is always
/// exactly [`folio_number_in`]'s number written in its format.
pub fn folio_in(runs: &[FolioRun], page_index: usize) -> (s: String)
    requires
        last_run_at(runs@, page_index, runs.len() as int) is None ==> (page_index as u32) < u32::MAX,
    ensures
        s@ == format_chars(folio_number_spec(runs@, page_index).0, folio_number_spec(runs@, page_index).1 as nat),
{
    let (format, number) = folio_number_in(runs, page_index);
    format.format(number)
}

proof fn lemma_well_formed_runs_cover(runs: Seq<FolioRun>, page: usize, n: int)
    requires
        runs_well_formed(runs),
        1 <= n <= runs.len(),
    ensures
        last_run_at(runs, page, n) is Some,
    decreases n,
{
    if n > 1 && runs[n - 1].first_page > page {
        lemma_well_formed_runs_cover(runs, page, n - 1);
    }
}

/// The folio on `page_index` against a fresh derivation from `sections`.
pub fn folio(sections: &[Section], starts: &[Option<usize>], page_index: usize) -> (s: String)
    ensures
        s@ == format_chars(folio_number_spec(folio_runs_spec(sections@, starts@), page_index).0,
            folio_number_spec(folio_runs_spec(sections@, starts@), page_index).1 as nat),
{
    let runs = folio_runs(sections, starts);
    proof {
        lemma_well_formed_runs_cover(runs@, page_index, runs@.len() as int);
    }
    folio_in(&runs, page_index)
}

/// The placed section with the greatest start at or before `page`, among the first `n`; of
/// several on one page, the later authored.
pub open spec fn section_index_at(sections: Seq<Section>, starts: Seq<Option<usize>>, page: usize, n: int) -> Option<int>
    decreases n,
{
    if n <= 0 {
        None
    } else {
        let best = section_index_at(sections, starts, page, n - 1);
        match starts[n - 1] {
            Some(s) => if s <= page && (best matches Some(b) ==> starts[b]->0 <= s) { Some(n - 1) } else { best },
            None => best,
        }
    }
}

proof fn lemma_section_index_placed(sections: Seq<Section>, starts: Seq<Option<usize>>, page: usize, n: int)
    ensures
        section_index_at(sections, starts, page, n) matches Some(b) ==> 0 <= b < n && starts[b] is Some,
    decreases n,
{
    if n > 0 {
        lemma_section_index_placed(sections, starts, page, n - 1);
    }
}

/// Which section `page_index` belongs to, by name: the placed section with the greatest start
/// page at or before it. `None` ahead of the first one.
pub fn section_at<'a>(sections: &'a [Section], starts: &[Option<usize>], page_index: usize) -> (r: Option<&'a str>)
    ensures
        match section_index_at(sections@, starts@, page_index, min_len(sections.len() as int, starts.len() as int)) {
            Some(k) => r matches Some(name) && name@ == sections@[k].name@,
            None => r is None,
        },
{
    let n: usize = if sections.len() < starts.len() { sections.len() } else { starts.len() };
    let mut best: Option<usize> = None;
    let mut k: usize = 0;
    while k < n
        invariant
            0 <= k <= n,
            n <= sections.len() && n <= starts.len(),
            best == (match section_index_at(sections@, starts@, page_index, k as int) {
                Some(b) => Some(b as usize),
                None => None::<usize>,
            }),
        decreases n - k,
    {
        proof {
            lemma_section_index_placed(sections@, starts@, page_index, k as int);
        }
        if let Some(s) = starts[k] {
            if s <= page_index {
                let replace = match best {
                    Some(b) => match starts[b] {
                        Some(bs) => bs <= s,
                        None => true,
                    },
                    None => true,
                };
                if replace {
                    best = Some(k);
                }
            }
        }
        k = k + 1;
    }
    proof {
        lemma_section_index_placed(sections@, starts@, page_index, n as int);
    }
    match best {
        Some(b) => Some(sections[b].name.as_str()),
        None => None,
    }
}

/// The position of a format in declaration order.
pub open spec fn format_rank(f: NumberFormat) -> int {
    match f {
        NumberFormat::Decimal => 0,
        NumberFormat::LowerAlpha => 1,
        NumberFormat::UpperAlpha => 2,
        NumberFormat::LowerRoman => 3,
        NumberFormat::UpperRoman => 4,
    }
}

/// Whether `section` states a folio written in `f`.
pub open spec fn states_format(section: Section, f: NumberFormat) -> bool {
    match section.folio {
        Some(folio) => folio.format == f,
        None => false,
    }
}

/// Whether some section states a folio in `f`.
pub open spec fn section_uses(sections: Seq<Section>, f: NumberFormat) -> bool {
    exists|k: int| 0 <= k < sections.len() && states_format(#[trigger] sections[k], f)
}

fn uses_format(sections: &[Section], f: NumberFormat) -> (b: bool)
    ensures
        b == section_uses(sections@, f),
{
    let mut k: usize = 0;
    while k < sections.len()
        invariant
            0 <= k <= sections.len(),
            forall|j: int| 0 <= j < k ==> !states_format(#[trigger] sections@[j], f),
        decreases sections.len() - k,
    {
        if let Some(folio) = sections[k].folio {
            if folio.format == f {
                return true;
            }
        }
        k = k + 1;
    }
    false
}

/// Every numeral format a folio in this document can be written in, in declaration order.
/// [`NumberFormat::Decimal`] is always present, because the pages ahead of the first section
/// that states a folio are numbered in it.
pub fn folio_formats(sections: &[Section]) -> (out: Vec<NumberFormat>)
    ensures
        forall|f: NumberFormat| out@.contains(f) <==> (f == NumberFormat::Decimal || section_uses(sections@, f)),
        forall|i: int, j: int| 0 <= i < j < out@.len() ==> format_rank(#[trigger] out@[i]) < format_rank(#[trigger] out@[j]),
{
    let la = uses_format(sections, NumberFormat::LowerAlpha);
    let ua = uses_format(sections, NumberFormat::UpperAlpha);
    let lr = uses_format(sections, NumberFormat::LowerRoman);
    let ur = uses_format(sections, NumberFormat::UpperRoman);
    let mut out: Vec<NumberFormat> = Vec::new();
    out.push(NumberFormat::Decimal);
    if la {
        out.push(NumberFormat::LowerAlpha);
    }
    if ua {
        out.push(NumberFormat::UpperAlpha);
    }
    if lr {
        out.push(NumberFormat::LowerRoman);
    }
    if ur {
        out.push(NumberFormat::UpperRoman);
    }
    proof {
        let s0 = seq![NumberFormat::Decimal];
        let s1 = if la { s0.push(NumberFormat::LowerAlpha) } else { s0 };
        let s2 = if ua { s1.push(NumberFormat::UpperAlpha) } else { s1 };
        let s3 = if lr { s2.push(NumberFormat::LowerRoman) } else { s2 };
        let s4 = if ur { s3.push(NumberFormat::UpperRoman) } else { s3 };
        assert(out@ =~= s4);
        assert forall|i: int| 0 <= i < out@.len() implies (#[trigger] out@[i] == NumberFormat::Decimal && i == 0)
            || section_uses(sections@, out@[i]) by {
        }
        assert forall|f: NumberFormat| out@.contains(f) <==> (f == NumberFormat::Decimal || section_uses(sections@, f)) by {
            if out@.contains(f) {
                let i = choose|i: int| 0 <= i < out@.len() && out@[i] == f;
            }
            if f == NumberFormat::Decimal {
                assert(out@[0] == f);
            } else if section_uses(sections@, f) {
                match f {
                    NumberFormat::LowerAlpha => { assert(s1[1] == f); assert(out@[1] == f); },
                    NumberFormat::UpperAlpha => { assert(s2[s2.len() - 1] == f); assert(out@[s2.len() - 1] == f); },
                    NumberFormat::LowerRoman => { assert(s3[s3.len() - 1] == f); assert(out@[s3.len() - 1] == f); },
                    NumberFormat::UpperRoman => { assert(s4[s4.len() - 1] == f); assert(out@[s4.len() - 1] == f); },
                    NumberFormat::Decimal => {},
                }
            }
        }
    }
    out
}

proof fn lemma_last_run_at_prefix(a: Seq<FolioRun>, b: Seq<FolioRun>, page: usize, n: int)
    requires
        0 <= n <= a.len(),
        n <= b.len(),
        forall|i: int| 0 <= i < n ==> a[i] == b[i],
    ensures
        last_run_at(a, page, n) == last_run_at(b, page, n),
        last_run_at(a, page, n) matches Some(k) ==> 0 <= k < n,
    decreases n,
{
    if n > 0 {
        lemma_last_run_at_prefix(a, b, page, n - 1);
    }
}

/// **A section that states a folio changes the numbering from its own page on, and nothing
/// before it.** Applying a stated folio at `page` to well-formed runs (none of them starting after
/// it) leaves every earlier page's numbering as it was. From `page` on, pages are written in the
/// stated format and counted on from the section's number: its restart if it states one, else the
/// number the numbering already in force would have given `page` — the count carries on from the
/// run in force there, whatever runs came before it.
pub proof fn lemma_stated_folio_numbering(runs: Seq<FolioRun>, page: usize, folio: Folio, q: usize)
    requires
        runs_well_formed(runs),
        runs.last().first_page <= page,
    ensures
        ({
            let next = folio_step(runs, (page, folio));
            let number = match folio.restart_at {
                Some(r) => r,
                None => folio_number_spec(runs, page).1,
            };
            &&& runs_well_formed(next)
            &&& q < page ==> folio_number_spec(next, q) == folio_number_spec(runs, q)
            &&& page <= q ==> folio_number_spec(next, q)
                == (folio.format, number.saturating_add((q - page) as u32))
            &&& folio_number_spec(next, page) == (folio.format, number)
        }),
{
    let next = folio_step(runs, (page, folio));
    let len = runs.len() as int;
    let previous = runs.last();
    assert(last_run_at(runs, page, len) == Some(len - 1));
    assert(page.saturating_sub(previous.first_page) == page - previous.first_page);
    let number = match folio.restart_at {
        Some(r) => r,
        None => folio_number_spec(runs, page).1,
    };
    assert(folio_number_spec(runs, page).1 == previous.start.saturating_add((page - previous.first_page) as u32));
    assert(next.last().start == number);
    assert(next.last().format == folio.format);
    assert(next.last().first_page == page);
    if previous.first_page == page {
        assert(next.len() == len);
        if q < page {
            assert(next[len - 1].first_page > q);
            lemma_last_run_at_prefix(runs, next, q, len - 1);
            assert(runs[len - 1].first_page > q);
            assert(last_run_at(runs, q, len) == last_run_at(runs, q, len - 1));
            assert(last_run_at(next, q, len) == last_run_at(next, q, len - 1));
        } else {
            assert(last_run_at(next, q, len) == Some(len - 1));
        }
        assert(last_run_at(next, page, len) == Some(len - 1));
    } else {
        assert(next.len() == len + 1);
        assert(next[len].first_page == page);
        if q < page {
            lemma_last_run_at_prefix(runs, next, q, len);
            assert(last_run_at(next, q, len + 1) == last_run_at(next, q, len));
        } else {
            assert(last_run_at(next, q, len + 1) == Some(len));
        }
        assert(last_run_at(next, page, len + 1) == Some(len));
        assert forall|i: int, j: int| 0 <= i < j < next.len() implies (#[trigger] next[i]).first_page < (#[trigger] next[j]).first_page by {
            if j == next.len() - 1 && i < len - 1 {
                assert(runs[i].first_page < runs[len - 1].first_page);
            }
        }
    }
    assert(folio_number_spec(next, page) == (folio.format, number));
    assert(page <= q ==> folio_number_spec(next, q) == (folio.format, number.saturating_add((q - page) as u32)));
    if q < page {
        lemma_last_run_at_prefix(runs, next, q, len - 1);
        if previous.first_page != page {
            lemma_last_run_at_prefix(runs, next, q, len);
        }
        match last_run_at(runs, q, len) {
            Some(k) => { assert(next[k] == runs[k]); },
            None => {},
        }
    }
    assert(q < page ==> folio_number_spec(next, q) == folio_number_spec(runs, q));
    if previous.first_page == page {
        assert forall|i: int, j: int| 0 <= i < j < next.len() implies (#[trigger] next[i]).first_page < (#[trigger] next[j]).first_page by {
            if j == next.len() - 1 {
                assert(runs[i].first_page < runs[j].first_page);
            } else {
                assert(next[j] == runs[j]);
            }
        }
    }
}

} // verus!
