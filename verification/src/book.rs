//! A **book**: several chapter documents composed into one.
//!
//! Composition is a pure function from a book manifest plus what it reads of each chapter to one
//! document's worth of parts: every chapter's identities shifted past the ids used before it (so
//! nothing collides and every cross-reference, note anchor, section and break still names its own
//! block), a section and a page break synthesised at each chapter's first block, named
//! definitions merged first-wins, requirements unioned, and every decision made on the author's
//! behalf reported as a note.

use vstd::prelude::*;
use crate::container::{safe_relative_path, safe_relative_path_spec};
use crate::identity::{assign_missing_block_ids, first_duplicate, first_fresh, filled, highest_id, unassigned_count};
use crate::load::LoadError;
use crate::model::{BlockId, Metadata, RunSource};
use crate::numbering::{decimal_digits, push_decimal_u64};
use crate::pages::{BreakKind, Folio, PageBreak, Section};
use crate::resolve::PackRequirement;
use crate::text::{push_str_chars, str_chars, string_from_chars};

verus! {

/// One chapter of a book: a `.tpub` and what the book says about it.
#[derive(Debug, Clone, PartialEq)]
pub struct BookChapter {
    /// Path to the chapter's `.tpub`, relative to the book file.
    pub path: String,
    /// The chapter's name as a section: what `{section}` prints in a running head.
    pub name: String,
    /// How this chapter's pages are numbered, or `None` to carry the count on.
    pub folio: Option<Folio>,
    /// The master applied to this chapter's opening page.
    pub master: Option<String>,
    /// The page this chapter opens on; `Page` by default.
    pub break_before: BreakKind,
}

/// A book file: the chapters that compose into one press file.
#[derive(Debug, Clone, PartialEq)]
pub struct Book {
    pub book_version: u32,
    /// The book's metadata. A book that states no title and no authors inherits its first
    /// chapter's.
    pub metadata: Metadata,
    /// Content packs the book requires, unioned with its chapters' own.
    pub requires: Vec<PackRequirement>,
    /// The chapters, in reading order.
    pub chapters: Vec<BookChapter>,
}

/// Which kind of named definition two chapters disagree about.
#[derive(Debug, Clone, Copy, PartialEq, Eq, Structural)]
pub enum ConflictKind {
    MasterPage,
    ParagraphStyle,
    ComponentDefinition,
}

/// Something composition settled that the author might not have intended.
#[derive(Debug, Clone, PartialEq)]
pub enum BookNote {
    /// A chapter's positional master override for one of its later pages was dropped.
    DroppedPageOverride { chapter: usize, page: usize },
    /// Two chapters define the same named thing differently. The first wins.
    Conflict { chapter: usize, what: ConflictKind, name: String },
    /// A chapter's margins or baseline grid differ from the first chapter's, which govern.
    PageSetupDiffers { chapter: usize },
    /// A chapter with no content anchors no section.
    EmptyChapter { chapter: usize },
}

/// Where chapter `chapter`'s payload is extracted, relative to the book's extraction root.
pub open spec fn chapter_prefix_spec(chapter: usize) -> Seq<char> {
    "chapters/"@ + decimal_digits(chapter as nat)
}

/// Where chapter `chapter`'s payload is extracted, relative to the book's extraction root:
/// `chapters/{chapter}`.
pub fn chapter_prefix(chapter: usize) -> (s: String)
    ensures
        s@ == chapter_prefix_spec(chapter),
{
    let mut out = str_chars("chapters/");
    push_decimal_u64(chapter as u64, &mut out);
    string_from_chars(&out)
}

/// The first chapter among the first `n` whose path is absolute or escapes the book's directory.
pub open spec fn first_unsafe_chapter(chapters: Seq<BookChapter>, n: int) -> Option<int>
    decreases n,
{
    if n <= 0 {
        None
    } else {
        match first_unsafe_chapter(chapters, n - 1) {
            Some(i) => Some(i),
            None => if safe_relative_path_spec(chapters[n - 1].path@) is None { Some(n - 1) } else { None },
        }
    }
}

proof fn lemma_first_unsafe_chapter_found(chapters: Seq<BookChapter>, m: int, n: int)
    requires
        0 <= m <= n,
        first_unsafe_chapter(chapters, m) is Some,
    ensures
        first_unsafe_chapter(chapters, n) == first_unsafe_chapter(chapters, m),
    decreases n - m,
{
    if n > m {
        lemma_first_unsafe_chapter_found(chapters, m, n - 1);
    }
}

impl Book {
    /// The structural checks that do not need the chapters themselves: a book names at least one
    /// chapter, and every chapter path stays under the book's directory.
    pub fn validate(&self) -> (r: Result<(), LoadError>)
        ensures
            self.chapters@.len() == 0 ==> (r matches Err(LoadError::BookParse(m))
                && m@ == "a book must name at least one chapter"@),
            self.chapters@.len() > 0 ==> match first_unsafe_chapter(self.chapters@, self.chapters@.len() as int) {
                Some(i) => r == Err::<(), LoadError>(LoadError::BookUnsafePath { path: self.chapters@[i].path }),
                None => r == Ok::<(), LoadError>(()),
            },
    {
        if self.chapters.len() == 0 {
            return Err(LoadError::BookParse("a book must name at least one chapter".to_owned()));
        }
        let mut i: usize = 0;
        while i < self.chapters.len()
            invariant
                0 <= i <= self.chapters@.len(),
                self.chapters@.len() > 0,
                first_unsafe_chapter(self.chapters@, i as int) is None,
            decreases self.chapters.len() - i,
        {
            if safe_relative_path(self.chapters[i].path.as_str()).is_none() {
                proof {
                    lemma_first_unsafe_chapter_found(self.chapters@, i + 1, self.chapters@.len() as int);
                }
                return Err(LoadError::BookUnsafePath { path: self.chapters[i].path.clone() });
            }
            i = i + 1;
        }
        Ok(())
    }
}


/// What a conflict calls the kind of definition it is about.
pub open spec fn conflict_noun(what: ConflictKind) -> Seq<char> {
    match what {
        ConflictKind::MasterPage => "master page"@,
        ConflictKind::ParagraphStyle => "paragraph style"@,
        ConflictKind::ComponentDefinition => "component definition"@,
    }
}

/// How a book note reads to the author.
pub open spec fn book_note_text(n: BookNote) -> Seq<char> {
    match n {
        BookNote::DroppedPageOverride { chapter, page } =>
            "chapter "@ + decimal_digits(chapter as nat) + ": the master assigned to its page "@ + decimal_digits(page as nat)
                + " was dropped \u{2014} a positional assignment cannot be placed in a book; anchor it to a section instead"@,
        BookNote::Conflict { chapter, what, name } =>
            "chapter "@ + decimal_digits(chapter as nat) + " defines the "@ + conflict_noun(what) + " `"@ + name@
                + "` differently from an earlier chapter; the earlier one governs the book"@,
        BookNote::PageSetupDiffers { chapter } =>
            "chapter "@ + decimal_digits(chapter as nat)
                + "'s margins or baseline grid differ from the first chapter's; the first chapter's govern the book"@,
        BookNote::EmptyChapter { chapter } =>
            "chapter "@ + decimal_digits(chapter as nat) + " has no content and anchors no section"@,
    }
}

impl ConflictKind {
    /// What a conflict calls this kind of definition.
    pub fn noun(self) -> (s: String)
        ensures
            s@ == conflict_noun(self),
    {
        match self {
            ConflictKind::MasterPage => "master page".to_owned(),
            ConflictKind::ParagraphStyle => "paragraph style".to_owned(),
            ConflictKind::ComponentDefinition => "component definition".to_owned(),
        }
    }
}

impl BookNote {
    /// The note as it reads to the author.
    pub fn message(&self) -> (s: String)
        ensures
            s@ == book_note_text(*self),
    {
        let mut out = str_chars("chapter ");
        match self {
            BookNote::DroppedPageOverride { chapter, page } => {
                push_decimal_u64(*chapter as u64, &mut out);
                push_str_chars(&mut out, ": the master assigned to its page ");
                push_decimal_u64(*page as u64, &mut out);
                push_str_chars(&mut out, " was dropped \u{2014} a positional assignment cannot be placed in a book; anchor it to a section instead");
            },
            BookNote::Conflict { chapter, what, name } => {
                push_decimal_u64(*chapter as u64, &mut out);
                push_str_chars(&mut out, " defines the ");
                let noun = what.noun();
                push_str_chars(&mut out, noun.as_str());
                push_str_chars(&mut out, " `");
                push_str_chars(&mut out, name.as_str());
                push_str_chars(&mut out, "` differently from an earlier chapter; the earlier one governs the book");
            },
            BookNote::PageSetupDiffers { chapter } => {
                push_decimal_u64(*chapter as u64, &mut out);
                push_str_chars(&mut out, "'s margins or baseline grid differ from the first chapter's; the first chapter's govern the book");
            },
            BookNote::EmptyChapter { chapter } => {
                push_decimal_u64(*chapter as u64, &mut out);
                push_str_chars(&mut out, " has no content and anchors no section");
            },
        }
        string_from_chars(&out)
    }
}

} // verus!
