//! Tabletop-game content as portable objects: stat blocks and random tables.

use vstd::prelude::*;
use crate::components::{format_range, format_range_spec, texts};
use crate::numbering::{decimal_digits, push_decimal};
use crate::text::string_from_chars;
use crate::ranges::{find_covering, first_covering, lemma_first_covering, partitions, partitions_exec};

verus! {

/// A creature or character stat block: overview, attributes, details, actions, reactions.
#[derive(Debug, Clone, PartialEq)]
pub struct StatBlock {
    pub name: String,
    pub overview: Vec<String>,
    pub attributes: Vec<(String, String)>,
    pub details: Vec<String>,
    pub actions: Vec<String>,
    pub reactions: Vec<String>,
}

/// One row of a random table, covering an inclusive die-roll range `low..=high`.
#[derive(Debug, Clone, PartialEq)]
pub struct TableEntry {
    pub low: u32,
    pub high: u32,
    pub result: String,
}

/// A random table rolled on `die` (`die = 100` for a d100 table).
#[derive(Debug, Clone, PartialEq)]
pub struct RandomTable {
    pub die: u32,
    pub entries: Vec<TableEntry>,
}

/// The roll range of each entry, in order.
pub open spec fn table_entry_bounds(entries: Seq<TableEntry>) -> Seq<(u32, u32)> {
    entries.map_values(|e: TableEntry| (e.low, e.high))
}

fn bounds_of(entries: &[TableEntry]) -> (out: Vec<(u32, u32)>)
    ensures
        out@ == table_entry_bounds(entries@),
{
    let mut out: Vec<(u32, u32)> = Vec::new();
    let mut i: usize = 0;
    while i < entries.len()
        invariant
            0 <= i <= entries@.len(),
            out@ == table_entry_bounds(entries@.subrange(0, i as int)),
        decreases entries.len() - i,
    {
        out.push((entries[i].low, entries[i].high));
        i = i + 1;
        assert(out@ =~= table_entry_bounds(entries@.subrange(0, i as int)));
    }
    assert(entries@.subrange(0, entries@.len() as int) =~= entries@);
    out
}

impl RandomTable {
    /// The result for a given roll: that of the first entry covering it, if any does.
    pub fn lookup(&self, roll: u32) -> (r: Option<&str>)
        ensures
            match first_covering(table_entry_bounds(self.entries@), roll as int, self.entries@.len() as int) {
                Some(i) => r matches Some(s) && s@ == self.entries@[i].result@,
                None => r is None,
            },
    {
        let bounds = bounds_of(&self.entries);
        let found = find_covering(&bounds, roll);
        proof {
            lemma_first_covering(bounds@, roll as int, bounds@.len() as int);
        }
        match found {
            Some(i) => Some(self.entries[i].result.as_str()),
            None => None,
        }
    }

    /// Whether the entries cover every value in `1..=die` exactly once (no gaps or overlaps).
    pub fn is_complete(&self) -> (b: bool)
        ensures
            b == partitions(table_entry_bounds(self.entries@), self.die),
    {
        let bounds = bounds_of(&self.entries);
        partitions_exec(&bounds, self.die)
    }
}


/// The cells a random table is set as: a header of `d{die}` and `Result`, then a row per entry of
/// its roll range (as a reader writes it) and its result.
pub fn random_table_cells(t: &RandomTable) -> (r: (Vec<String>, Vec<Vec<String>>))
    ensures
        texts(r.0@) == seq![seq!['d'] + decimal_digits(t.die as nat), "Result"@],
        r.1@.len() == t.entries@.len(),
        forall|i: int| 0 <= i < r.1@.len() ==> texts((#[trigger] r.1@[i])@)
            == seq![format_range_spec(t.entries@[i].low, t.entries@[i].high), t.entries@[i].result@],
{
    let mut h: Vec<char> = vec!['d'];
    assert(h@ =~= seq!['d']);
    push_decimal(t.die, &mut h);
    let mut header: Vec<String> = Vec::new();
    header.push(string_from_chars(&h));
    header.push("Result".to_owned());
    assert(texts(header@) =~= seq![seq!['d'] + decimal_digits(t.die as nat), "Result"@]);
    let mut rows: Vec<Vec<String>> = Vec::new();
    let mut i: usize = 0;
    while i < t.entries.len()
        invariant
            0 <= i <= t.entries@.len(),
            rows@.len() == i,
            forall|q: int| 0 <= q < i ==> texts((#[trigger] rows@[q])@)
                == seq![format_range_spec(t.entries@[q].low, t.entries@[q].high), t.entries@[q].result@],
        decreases t.entries.len() - i,
    {
        let e = &t.entries[i];
        let mut row: Vec<String> = Vec::new();
        row.push(format_range(e.low, e.high));
        row.push(e.result.clone());
        assert(texts(row@) =~= seq![format_range_spec(e.low, e.high), e.result@]);
        rows.push(row);
        i = i + 1;
    }
    (header, rows)
}

} // verus!
