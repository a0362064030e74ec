//! Identities and the small value types a document's runs and paragraphs are built from.

use std::collections::BTreeSet;
use vstd::prelude::*;
use crate::numbering::{alphabet_of, NumberFormat};
use crate::text::union_chars;

verus! {

/// A stable identity for a content block, unique within a document and preserved across saves.
#[derive(Debug, Clone, Copy, Default, PartialEq, Eq, Hash, PartialOrd, Ord, Structural)]
pub struct BlockId(pub u64);

impl BlockId {
    /// The id of a block that has not been given one yet. No assigned block ever has it.
    pub fn unassigned() -> (id: BlockId)
        ensures
            id.0 == 0,
    {
        BlockId(0)
    }

    pub open spec fn spec_is_assigned(self) -> bool {
        self.0 != 0
    }

    #[verifier::when_used_as_spec(spec_is_assigned)]
    pub fn is_assigned(self) -> (b: bool)
        ensures
            b == self.spec_is_assigned(),
    {
        self.0 != 0
    }
}

/// How heavy a face is, on the `OS/2` `usWeightClass` scale.
#[derive(Debug, Clone, Copy, PartialEq, Eq, PartialOrd, Ord, Hash, Structural)]
pub struct Weight(pub u16);

impl Weight {
    /// The regular weight, 400.
    pub fn regular() -> (w: Weight)
        ensures
            w.0 == 400,
    {
        Weight(400)
    }

    /// The bold weight, 700.
    pub fn bold() -> (w: Weight)
        ensures
            w.0 == 700,
    {
        Weight(700)
    }

    pub fn is_regular(&self) -> (b: bool)
        ensures
            b == (self.0 == 400),
    {
        self.0 == 400
    }
}

impl Default for Weight {
    fn default() -> (w: Weight)
        ensures
            w.0 == 400,
    {
        Weight(400)
    }
}

/// How a paragraph's lines are set within their frame.
#[derive(Debug, Clone, Copy, PartialEq, Eq, Default, Structural)]
pub enum TextAlign {
    /// Stretch inter-word space so every line but the last fills the measure.
    #[default]
    Justified,
    /// Ragged right: words sit at their natural advances.
    Left,
}

/// How text at a tab stop is aligned.
#[derive(Debug, Clone, Copy, PartialEq, Eq, Default, Structural)]
pub enum TabAlign {
    #[default]
    Left,
    Centre,
    Right,
    /// The decimal separator sits at the stop.
    Decimal,
}

/// What stands in a list item's gutter.
#[derive(Debug, Clone, Copy, PartialEq, Eq, Structural)]
pub enum ListMarker {
    /// A fixed glyph, repeated for every item.
    Bullet { glyph: char },
    /// A counter, formatted and suffixed — `1.`, `iv)`, `C.`.
    Number { format: NumberFormat, suffix: Option<char> },
}

/// A paragraph set as a list item: what marks it, and at what depth.
#[derive(Debug, Clone, Copy, PartialEq, Eq, Structural)]
pub struct ListSpec {
    pub marker: ListMarker,
    /// The first ordinal at this level. Ignored by a bullet.
    pub start: u32,
    /// Nesting depth, `0` outermost.
    pub level: u8,
}

/// Document-level metadata, written into both the manifest and the exported PDF.
#[derive(Debug, Clone, Default, PartialEq)]
pub struct Metadata {
    pub title: String,
    pub authors: Vec<String>,
}

/// What a cross-reference or a footnote anchor prints when it cannot be resolved.
pub const UNRESOLVED_REFERENCE: &'static str = "[?]";

/// The unresolved marker, as characters.
pub open spec fn unresolved_chars() -> Seq<char> {
    seq!['[', '?', ']']
}

fn unresolved_string() -> (s: String)
    ensures
        s@ == unresolved_chars(),
{
    let v: Vec<char> = vec!['[', '?', ']'];
    assert(v@ =~= unresolved_chars());
    crate::text::string_from_chars(&v)
}

/// Everything a layout-time token or generated run can draw: whole strings knowable before
/// layout, and loose characters where only the alphabet is knowable.
#[derive(Debug, Default, Clone, PartialEq, Eq)]
pub struct TokenText {
    /// Whole strings this can resolve to.
    pub runs: Vec<String>,
    /// Loose characters, where the exact string is not knowable before layout.
    pub chars: BTreeSet<char>,
}

/// The union of the alphabets of `formats`.
pub open spec fn alphabets_of(formats: Seq<NumberFormat>) -> Set<char> {
    Set::new(|c: char| exists|k: int| 0 <= k < formats.len() && #[trigger] alphabet_of(formats[k]).contains(c))
}

/// Every character any of `formats` can write.
pub fn alphabets(formats: &[NumberFormat]) -> (out: BTreeSet<char>)
    ensures
        out@ == alphabets_of(formats@),
{
    let mut out: BTreeSet<char> = BTreeSet::new();
    let mut i: usize = 0;
    while i < formats.len()
        invariant
            0 <= i <= formats.len(),
            out@ == alphabets_of(formats@.subrange(0, i as int)),
        decreases formats.len() - i,
    {
        let ghost pre = out@;
        union_chars(&mut out, formats[i].alphabet());
        i = i + 1;
        proof {
            let s = formats@.subrange(0, i as int);
            let s0 = formats@.subrange(0, i - 1);
            assert forall|c: char| out@.contains(c) <==> alphabets_of(s).contains(c) by {
                if alphabets_of(s).contains(c) {
                    let k = choose|k: int| 0 <= k < s.len() && #[trigger] alphabet_of(s[k]).contains(c);
                    if k < i - 1 {
                        assert(s0[k] == s[k]);
                        assert(alphabets_of(s0).contains(c));
                    }
                }
                if pre.contains(c) {
                    let k = choose|k: int| 0 <= k < s0.len() && #[trigger] alphabet_of(s0[k]).contains(c);
                    assert(s[k] == s0[k]);
                }
                if alphabet_of(formats@[i - 1]).contains(c) {
                    assert(s[i - 1] == formats@[i - 1]);
                }
            }
            assert(out@ =~= alphabets_of(s));
        }
    }
    assert(formats@.subrange(0, formats.len() as int) == formats@);
    out
}

/// Where a run's characters come from.
#[derive(Debug, Clone, Copy, Default, PartialEq, Eq, Hash, Structural)]
pub enum RunSource {
    /// The run draws its own text.
    #[default]
    Authored,
    /// The run draws the folio of the page `target` was placed on — "see page 42".
    Reference { target: BlockId },
    /// The run draws the number of footnote `note`.
    Footnote { note: BlockId },
}

impl RunSource {
    /// Whether this run draws its own text.
    pub fn is_authored(&self) -> (b: bool)
        ensures
            b == (*self == RunSource::Authored),
    {
        match self {
            RunSource::Authored => true,
            _ => false,
        }
    }

    /// The block this run refers to, if any.
    pub fn target(&self) -> (t: Option<BlockId>)
        ensures
            t == (match *self {
                RunSource::Reference { target } => Some(target),
                _ => None,
            }),
    {
        match self {
            RunSource::Authored | RunSource::Footnote { .. } => None,
            RunSource::Reference { target } => Some(*target),
        }
    }

    /// The footnote this run numbers, if any.
    pub fn note(&self) -> (n: Option<BlockId>)
        ensures
            n == (match *self {
                RunSource::Footnote { note } => Some(note),
                _ => None,
            }),
    {
        match self {
            RunSource::Authored | RunSource::Reference { .. } => None,
            RunSource::Footnote { note } => Some(*note),
        }
    }

    /// What this run's drawn characters are derived from: a reference's target, a footnote's note.
    pub fn referent(&self) -> (r: Option<BlockId>)
        ensures
            r == (match *self {
                RunSource::Authored => None,
                RunSource::Reference { target } => Some(target),
                RunSource::Footnote { note } => Some(note),
            }),
    {
        match self {
            RunSource::Authored => None,
            RunSource::Reference { target } => Some(*target),
            RunSource::Footnote { note } => Some(*note),
        }
    }

    /// Apply `f` to every identity this source names.
    pub fn remap<F: Fn(BlockId) -> BlockId>(&mut self, f: &F)
        requires
            forall|id: BlockId| f.requires((id,)),
        ensures
            match *old(self) {
                RunSource::Authored => *final(self) == RunSource::Authored,
                RunSource::Reference { target } => *final(self) matches RunSource::Reference { target: t }
                    && f.ensures((target,), t),
                RunSource::Footnote { note } => *final(self) matches RunSource::Footnote { note: n }
                    && f.ensures((note,), n),
            },
    {
        match self {
            RunSource::Authored => {},
            RunSource::Reference { target } => {
                let t = f(*target);
                *self = RunSource::Reference { target: t };
            },
            RunSource::Footnote { note } => {
                let n = f(*note);
                *self = RunSource::Footnote { note: n };
            },
        }
    }

    /// Everything this run can draw, given the numeral formats the document's folios use
    /// ([`crate::folio_formats`]).
    ///
    /// A reference draws a folio, so the alphabet of every folio format; a footnote anchor draws a
    /// decimal number. Both can print the unresolved marker, which travels as a run.
    pub fn contributes(&self, folio_formats: &[NumberFormat]) -> (t: TokenText)
        ensures
            match *self {
                RunSource::Authored => t.runs@.len() == 0 && t.chars@ == Set::<char>::empty(),
                RunSource::Reference { .. } => t.runs@.len() == 1 && t.runs@[0]@ == unresolved_chars()
                    && t.chars@ == alphabets_of(folio_formats@),
                RunSource::Footnote { .. } => t.runs@.len() == 1 && t.runs@[0]@ == unresolved_chars()
                    && t.chars@ == alphabet_of(NumberFormat::Decimal),
            },
    {
        match self {
            RunSource::Authored => TokenText { runs: Vec::new(), chars: BTreeSet::new() },
            RunSource::Reference { .. } => {
                let mut runs: Vec<String> = Vec::new();
                runs.push(unresolved_string());
                TokenText { runs, chars: alphabets(folio_formats) }
            },
            RunSource::Footnote { .. } => {
                let mut runs: Vec<String> = Vec::new();
                runs.push(unresolved_string());
                TokenText { runs, chars: NumberFormat::Decimal.alphabet() }
            },
        }
    }
}

/// A term a run puts in the index.
#[derive(Debug, Clone, Default, PartialEq, Eq, Hash)]
pub struct IndexMark {
    /// The term as it is printed in the index.
    pub term: String,
    /// What the term files under, when that is not the term itself.
    pub sort_as: Option<String>,
}

impl IndexMark {
    /// A mark that files under its own printed term.
    pub fn new(term: &str) -> (m: IndexMark)
        ensures
            m.term@ == term@,
            m.sort_as is None,
    {
        IndexMark { term: term.to_owned(), sort_as: None }
    }

    /// Everything an index entry built from this mark can draw: the term, as a run.
    /// `sort_as` contributes nothing, because it is never printed.
    pub fn contributes(&self) -> (t: TokenText)
        ensures
            t.runs@.len() == 1,
            t.runs@[0] == self.term,
            t.chars@ == Set::<char>::empty(),
    {
        let mut runs: Vec<String> = Vec::new();
        runs.push(self.term.clone());
        TokenText { runs, chars: BTreeSet::new() }
    }
}

} // verus!
