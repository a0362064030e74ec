//! Portable content components: titled panels, range tables, and how a component may be cut
//! across a frame boundary.
//!
//! Deliberately domain-neutral. A panel is a titled record of named sections; a range table
//! partitions `1..=max` — a d100 roll, a severity scale, a postage band.

use vstd::prelude::*;
use crate::numbering::{decimal_digits, push_decimal};
use crate::ranges::{find_covering, first_covering, lemma_first_covering, partitions, partitions_exec};
use crate::text::string_from_chars;

verus! {

/// Field names the bundled `statblock` definition renders.
pub const STATBLOCK_FIELD_NAME: &'static str = "name";
pub const STATBLOCK_FIELD_OVERVIEW: &'static str = "overview";
pub const STATBLOCK_FIELD_ATTRIBUTES: &'static str = "attributes";
pub const STATBLOCK_FIELD_DETAILS: &'static str = "details";
pub const STATBLOCK_FIELD_ACTIONS: &'static str = "actions";
pub const STATBLOCK_FIELD_REACTIONS: &'static str = "reactions";

/// Field names the bundled `table` definition renders.
pub const TABLE_FIELD_HEADER: &'static str = "header";
pub const TABLE_FIELD_ROWS: &'static str = "rows";
pub const TABLE_FIELD_COLUMNS: &'static str = "columns";
pub const TABLE_FIELD_ZEBRA: &'static str = "zebra";

/// A titled record of named sections, set as a bordered panel.
#[derive(Debug, Clone, PartialEq)]
pub struct Panel {
    pub name: String,
    pub overview: Vec<String>,
    pub attributes: Vec<(String, String)>,
    pub details: Vec<String>,
    pub actions: Vec<String>,
    pub reactions: Vec<String>,
}

/// One row of a range table, covering the inclusive range `low..=high`.
#[derive(Debug, Clone, PartialEq)]
pub struct RangeEntry {
    pub low: u32,
    pub high: u32,
    pub value: String,
}

/// A table whose entries partition `1..=max` — a lookup by number rather than by key.
#[derive(Debug, Clone, PartialEq)]
pub struct RangeTable {
    pub max: u32,
    /// The heading column 0 is given when this is set as a table; empty falls back to `1–{max}`.
    pub label: String,
    pub entries: Vec<RangeEntry>,
}

/// The bounds of each entry, in order.
pub open spec fn range_entry_bounds(entries: Seq<RangeEntry>) -> Seq<(u32, u32)> {
    entries.map_values(|e: RangeEntry| (e.low, e.high))
}

fn bounds_of(entries: &[RangeEntry]) -> (out: Vec<(u32, u32)>)
    ensures
        out@ == range_entry_bounds(entries@),
{
    let mut out: Vec<(u32, u32)> = Vec::new();
    let mut i: usize = 0;
    while i < entries.len()
        invariant
            0 <= i <= entries@.len(),
            out@ == range_entry_bounds(entries@.subrange(0, i as int)),
        decreases entries.len() - i,
    {
        out.push((entries[i].low, entries[i].high));
        i = i + 1;
        assert(out@ =~= range_entry_bounds(entries@.subrange(0, i as int)));
    }
    assert(entries@.subrange(0, entries@.len() as int) =~= entries@);
    out
}

impl RangeTable {
    /// The value for a given number: that of the first entry covering it, if any does.
    pub fn lookup(&self, n: u32) -> (r: Option<&str>)
        ensures
            match first_covering(range_entry_bounds(self.entries@), n as int, self.entries@.len() as int) {
                Some(i) => r matches Some(s) && s@ == self.entries@[i].value@,
                None => r is None,
            },
    {
        let bounds = bounds_of(&self.entries);
        let found = find_covering(&bounds, n);
        proof {
            lemma_first_covering(bounds@, n as int, bounds@.len() as int);
        }
        match found {
            Some(i) => Some(self.entries[i].value.as_str()),
            None => None,
        }
    }

    /// Whether the entries cover every value in `1..=max` exactly once (no gaps or overlaps).
    pub fn is_complete(&self) -> (b: bool)
        ensures
            b == partitions(range_entry_bounds(self.entries@), self.max),
    {
        let bounds = bounds_of(&self.entries);
        partitions_exec(&bounds, self.max)
    }
}

/// A range as a reader writes it: `7` for a single value, `11-25` for a span.
pub open spec fn format_range_spec(low: u32, high: u32) -> Seq<char> {
    if low == high {
        decimal_digits(low as nat)
    } else {
        decimal_digits(low as nat) + seq!['-'] + decimal_digits(high as nat)
    }
}

/// A range as a reader writes it: `7` for a single value, `11-25` for a span.
pub fn format_range(low: u32, high: u32) -> (s: String)
    ensures
        s@ == format_range_spec(low, high),
{
    let mut out: Vec<char> = Vec::new();
    push_decimal(low, &mut out);
    if low != high {
        out.push('-');
        push_decimal(high, &mut out);
    }
    string_from_chars(&out)
}


/// The views of a vector of strings.
pub open spec fn texts(v: Seq<String>) -> Seq<Seq<char>> {
    v.map_values(|s: String| s@)
}

/// The heading of a range table's first column: its label, or `1–{max}` when it has none.
pub open spec fn range_heading(t: RangeTable) -> Seq<char> {
    if t.label@.len() == 0 { seq!['1', '\u{2013}'] + decimal_digits(t.max as nat) } else { t.label@ }
}

/// The cells a range table is set as: a header of its range heading and `Result`, then a row per
/// entry of its range (as a reader writes it) and its value.
pub fn range_table_cells(t: &RangeTable) -> (r: (Vec<String>, Vec<Vec<String>>))
    ensures
        texts(r.0@) == seq![range_heading(*t), "Result"@],
        r.1@.len() == t.entries@.len(),
        forall|i: int| 0 <= i < r.1@.len() ==> texts((#[trigger] r.1@[i])@)
            == seq![format_range_spec(t.entries@[i].low, t.entries@[i].high), t.entries@[i].value@],
{
    let heading = if t.label.as_str().is_empty() {
        let mut h: Vec<char> = vec!['1', '\u{2013}'];
        assert(h@ =~= seq!['1', '\u{2013}']);
        push_decimal(t.max, &mut h);
        string_from_chars(&h)
    } else {
        t.label.clone()
    };
    let mut header: Vec<String> = Vec::new();
    header.push(heading);
    header.push("Result".to_owned());
    assert(texts(header@) =~= seq![range_heading(*t), "Result"@]);
    let mut rows: Vec<Vec<String>> = Vec::new();
    let mut i: usize = 0;
    while i < t.entries.len()
        invariant
            0 <= i <= t.entries@.len(),
            rows@.len() == i,
            forall|q: int| 0 <= q < i ==> texts((#[trigger] rows@[q])@)
                == seq![format_range_spec(t.entries@[q].low, t.entries@[q].high), t.entries@[q].value@],
        decreases t.entries.len() - i,
    {
        let e = &t.entries[i];
        let mut row: Vec<String> = Vec::new();
        row.push(format_range(e.low, e.high));
        row.push(e.value.clone());
        assert(texts(row@) =~= seq![format_range_spec(e.low, e.high), e.value@]);
        rows.push(row);
        i = i + 1;
    }
    (header, rows)
}

/// How many columns a table has: the widest row, or the header if it is wider; 0 for none.
pub open spec fn column_count_spec(header: Option<Vec<String>>, rows: Seq<Vec<String>>, n: int) -> nat
    decreases n,
{
    if n <= 0 {
        match header {
            Some(h) => h@.len(),
            None => 0,
        }
    } else {
        let rest = column_count_spec(header, rows, n - 1);
        if rows[n - 1]@.len() > rest { rows[n - 1]@.len() } else { rest }
    }
}

/// How many columns a table actually has: the widest row, or the header.
pub fn column_count(header: &Option<Vec<String>>, rows: &Vec<Vec<String>>) -> (n: usize)
    ensures
        n == column_count_spec(*header, rows@, rows@.len() as int),
{
    let mut widest: usize = match header {
        Some(h) => h.len(),
        None => 0,
    };
    let mut i: usize = 0;
    while i < rows.len()
        invariant
            0 <= i <= rows@.len(),
            widest == column_count_spec(*header, rows@, i as int),
        decreases rows.len() - i,
    {
        if rows[i].len() > widest {
            widest = rows[i].len();
        }
        i = i + 1;
    }
    widest
}

/// Where a component's cuts would rather fall when it is cut across a frame boundary.
#[derive(Debug, Clone, Copy, PartialEq, Eq, Structural)]
pub enum SplitGranularity {
    /// Prefer a section boundary; when none fits, cut between elements of a section.
    Sections,
    /// No preference: every element is as good a break as any other.
    Elements,
    /// Indivisible: the component moves whole or not at all.
    Whole,
}

impl Default for SplitGranularity {
    fn default() -> (g: SplitGranularity)
        ensures
            g == SplitGranularity::Sections,
    {
        SplitGranularity::Sections
    }
}

/// How a component may be cut across a frame boundary.
#[derive(Debug, Clone, Copy, PartialEq, Eq, Structural)]
pub struct SplitDef {
    pub granularity: SplitGranularity,
    /// The fewest elements a fragment may contain.
    pub min_items: usize,
    /// Prefer moving whole to the next frame over cutting, when the component would fit there.
    pub keep_together: bool,
}

impl Default for SplitDef {
    fn default() -> (d: SplitDef)
        ensures
            d == (SplitDef { granularity: SplitGranularity::Sections, min_items: 1, keep_together: true }),
    {
        SplitDef { granularity: SplitGranularity::Sections, min_items: 1, keep_together: true }
    }
}

} // verus!
