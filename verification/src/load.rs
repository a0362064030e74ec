//! Everything that can go wrong loading a document, a template, a pack or a book.

use vstd::prelude::*;
use crate::defs::{def_error_text, ComponentDefError};
use crate::numbering::{decimal_digits, push_decimal, push_decimal_u64};
use crate::text::{joined, push_joined, push_str_chars, str_chars, string_from_chars, string_texts, trim_chars, trim_spec};

verus! {

/// Everything that can go wrong loading a document or a container.
#[derive(Debug, Clone, PartialEq)]
pub enum LoadError {
    /// The manifest is not well-formed, or does not match the schema this build understands.
    Parse(String),
    /// The manifest declares a `format_version` newer than this build supports.
    UnsupportedVersion { found: u32, supported: u32 },
    /// The container could not be read or written.
    Container(String),
    /// The container is structurally valid but not a `.tpub`.
    NotATpub(String),
    /// Two blocks claim the same identity.
    DuplicateBlockId(u64),
    /// A template file is not well-formed.
    TemplateParse(String),
    /// A template file declares a `template_version` newer than this build supports.
    UnsupportedTemplateVersion { found: u32, supported: u32 },
    /// A component definition is malformed, or declares a version this build does not understand.
    ComponentDef(ComponentDefError),
    /// A `.qpack` manifest is not well-formed.
    PackParse(String),
    /// A pack declares a `pack_version` newer than this build supports.
    UnsupportedPackVersion { found: u32, supported: u32 },
    /// The container is a readable zip but not a `.qpack`.
    NotAQpack(String),
    /// A pack omits its `source` or `license`.
    PackMissingProvenance { pack: String, field: String },
    /// A pack carries a path that is absolute or escapes its root.
    PackUnsafePath { pack: String, path: String },
    /// A document requires a pack that is not installed; names what is installed too.
    PackNotInstalled { pack: String, version: String, installed: Vec<String>, root: String },
    /// Two resolved packs both define the same item, or a requirement is stated twice.
    PackConflict { what: String, item: String, first: String, second: String },
    /// A different pack is already installed at this name and version.
    PackAlreadyInstalled { pack: String, version: String, path: String },
    /// A book file is not well-formed.
    BookParse(String),
    /// A book file declares a `book_version` newer than this build supports.
    UnsupportedBookVersion { found: u32, supported: u32 },
    /// A chapter path is absolute or escapes the book's directory.
    BookUnsafePath { path: String },
    /// A chapter's press geometry differs from the book's.
    BookPageSetup { chapter: usize, field: String },
}


/// How a refused requirement names the version it asked for.
pub open spec fn wanted_text(version: Seq<char>) -> Seq<char> {
    if trim_spec(version).len() == 0 { "any version"@ } else { "version "@ + version }
}

/// How a refused requirement names what is installed.
pub open spec fn installed_text(installed: Seq<String>) -> Seq<char> {
    if installed.len() == 0 { "nothing"@ } else { joined(string_texts(installed), ", "@) }
}

/// How a load error reads to the author.
pub open spec fn load_error_text(e: LoadError) -> Seq<char> {
    match e {
        LoadError::Parse(m) => "malformed document manifest: "@ + m@,
        LoadError::UnsupportedVersion { found, supported } =>
            version_refusal("document format"@, found, supported, "open"@),
        LoadError::Container(m) => "reading .tpub container: "@ + m@,
        LoadError::NotATpub(m) => "not a .tpub container: "@ + m@,
        LoadError::DuplicateBlockId(id) =>
            "two content blocks share id "@ + decimal_digits(id as nat) + "; block ids must be unique within a document"@,
        LoadError::TemplateParse(m) => "malformed template file: "@ + m@,
        LoadError::UnsupportedTemplateVersion { found, supported } =>
            version_refusal("template file"@, found, supported, "use"@),
        LoadError::ComponentDef(d) => def_error_text(d),
        LoadError::PackParse(m) => "malformed pack manifest: "@ + m@,
        LoadError::UnsupportedPackVersion { found, supported } =>
            version_refusal("pack format"@, found, supported, "install"@),
        LoadError::NotAQpack(m) => "not a .qpack container: "@ + m@,
        LoadError::PackMissingProvenance { pack, field } =>
            "pack `"@ + pack@ + "` has no `"@ + field@
                + "`; a pack must say where it came from and under what licence before it can be installed"@,
        LoadError::PackUnsafePath { pack, path } =>
            "pack `"@ + pack@ + "` carries the path '"@ + path@ + "', which is absolute or escapes the pack root"@,
        LoadError::PackNotInstalled { pack, version, installed, root } =>
            "this document requires pack `"@ + pack@ + "` ("@ + wanted_text(version@) + "), which is not installed in '"@
                + root@ + "' \u{2014} installed there: "@ + installed_text(installed@)
                + ". Install it with `quill pack install`."@,
        LoadError::PackConflict { what, item, first, second } =>
            "packs `"@ + first@ + "` and `"@ + second@ + "` both define the "@ + what@ + " `"@ + item@
                + "`; uninstall one or use a document-level definition"@,
        LoadError::PackAlreadyInstalled { pack, version, path } =>
            "a different pack `"@ + pack@ + "` "@ + version@ + " is already installed at '"@ + path@
                + "'; pass --force to replace it"@,
        LoadError::BookParse(m) => "malformed book file: "@ + m@,
        LoadError::UnsupportedBookVersion { found, supported } =>
            version_refusal("book file"@, found, supported, "open"@),
        LoadError::BookUnsafePath { path } =>
            "the book names the chapter '"@ + path@ + "', which is absolute or escapes the book's directory"@,
        LoadError::BookPageSetup { chapter, field } =>
            "chapter "@ + decimal_digits(chapter as nat) + "'s "@ + field@
                + " differs from the book's; every page of a press file must share it"@,
    }
}

/// How a refusal of a newer version reads: `{what} version {found} is newer than this build
/// supports (up to {supported}); upgrade Quill to {verb} it`.
pub open spec fn version_refusal(what: Seq<char>, found: u32, supported: u32, verb: Seq<char>) -> Seq<char> {
    what + " version "@ + decimal_digits(found as nat) + " is newer than this build supports (up to "@
        + decimal_digits(supported as nat) + "); upgrade Quill to "@ + verb + " it"@
}

/// Append the refusal of a newer version.
fn push_version_refusal(out: &mut Vec<char>, what: &str, found: u32, supported: u32, verb: &str)
    ensures
        final(out)@ == old(out)@ + version_refusal(what@, found, supported, verb@),
{
    push_str_chars(out, what);
    push_str_chars(out, " version ");
    push_decimal(found, out);
    push_str_chars(out, " is newer than this build supports (up to ");
    push_decimal(supported, out);
    push_str_chars(out, "); upgrade Quill to ");
    push_str_chars(out, verb);
    push_str_chars(out, " it");
}

impl LoadError {
    /// The error as it reads to the author.
    pub fn message(&self) -> (s: String)
        ensures
            s@ == load_error_text(*self),
    {
        let mut out: Vec<char> = Vec::new();
        match self {
            LoadError::Parse(m) => {
                push_str_chars(&mut out, "malformed document manifest: ");
                push_str_chars(&mut out, m.as_str());
            },
            LoadError::UnsupportedVersion { found, supported } => {
                push_version_refusal(&mut out, "document format", *found, *supported, "open");
            },
            LoadError::Container(m) => {
                push_str_chars(&mut out, "reading .tpub container: ");
                push_str_chars(&mut out, m.as_str());
            },
            LoadError::NotATpub(m) => {
                push_str_chars(&mut out, "not a .tpub container: ");
                push_str_chars(&mut out, m.as_str());
            },
            LoadError::DuplicateBlockId(id) => {
                push_str_chars(&mut out, "two content blocks share id ");
                push_decimal_u64(*id, &mut out);
                push_str_chars(&mut out, "; block ids must be unique within a document");
            },
            LoadError::TemplateParse(m) => {
                push_str_chars(&mut out, "malformed template file: ");
                push_str_chars(&mut out, m.as_str());
            },
            LoadError::UnsupportedTemplateVersion { found, supported } => {
                push_version_refusal(&mut out, "template file", *found, *supported, "use");
            },
            LoadError::ComponentDef(d) => {
                let text = d.message();
                push_str_chars(&mut out, text.as_str());
            },
            LoadError::PackParse(m) => {
                push_str_chars(&mut out, "malformed pack manifest: ");
                push_str_chars(&mut out, m.as_str());
            },
            LoadError::UnsupportedPackVersion { found, supported } => {
                push_version_refusal(&mut out, "pack format", *found, *supported, "install");
            },
            LoadError::NotAQpack(m) => {
                push_str_chars(&mut out, "not a .qpack container: ");
                push_str_chars(&mut out, m.as_str());
            },
            LoadError::PackMissingProvenance { pack, field } => {
                push_str_chars(&mut out, "pack `");
                push_str_chars(&mut out, pack.as_str());
                push_str_chars(&mut out, "` has no `");
                push_str_chars(&mut out, field.as_str());
                push_str_chars(&mut out, "`; a pack must say where it came from and under what licence before it can be installed");
            },
            LoadError::PackUnsafePath { pack, path } => {
                push_str_chars(&mut out, "pack `");
                push_str_chars(&mut out, pack.as_str());
                push_str_chars(&mut out, "` carries the path '");
                push_str_chars(&mut out, path.as_str());
                push_str_chars(&mut out, "', which is absolute or escapes the pack root");
            },
            LoadError::PackNotInstalled { pack, version, installed, root } => {
                push_str_chars(&mut out, "this document requires pack `");
                push_str_chars(&mut out, pack.as_str());
                push_str_chars(&mut out, "` (");
                let v = str_chars(version.as_str());
                if trim_chars(&v).len() == 0 {
                    push_str_chars(&mut out, "any version");
                } else {
                    push_str_chars(&mut out, "version ");
                    push_str_chars(&mut out, version.as_str());
                }
                push_str_chars(&mut out, "), which is not installed in '");
                push_str_chars(&mut out, root.as_str());
                push_str_chars(&mut out, "' \u{2014} installed there: ");
                if installed.len() == 0 {
                    push_str_chars(&mut out, "nothing");
                } else {
                    push_joined(&mut out, installed, ", ");
                }
                push_str_chars(&mut out, ". Install it with `quill pack install`.");
            },
            LoadError::PackConflict { what, item, first, second } => {
                push_str_chars(&mut out, "packs `");
                push_str_chars(&mut out, first.as_str());
                push_str_chars(&mut out, "` and `");
                push_str_chars(&mut out, second.as_str());
                push_str_chars(&mut out, "` both define the ");
                push_str_chars(&mut out, what.as_str());
                push_str_chars(&mut out, " `");
                push_str_chars(&mut out, item.as_str());
                push_str_chars(&mut out, "`; uninstall one or use a document-level definition");
            },
            LoadError::PackAlreadyInstalled { pack, version, path } => {
                push_str_chars(&mut out, "a different pack `");
                push_str_chars(&mut out, pack.as_str());
                push_str_chars(&mut out, "` ");
                push_str_chars(&mut out, version.as_str());
                push_str_chars(&mut out, " is already installed at '");
                push_str_chars(&mut out, path.as_str());
                push_str_chars(&mut out, "'; pass --force to replace it");
            },
            LoadError::BookParse(m) => {
                push_str_chars(&mut out, "malformed book file: ");
                push_str_chars(&mut out, m.as_str());
            },
            LoadError::UnsupportedBookVersion { found, supported } => {
                push_version_refusal(&mut out, "book file", *found, *supported, "open");
            },
            LoadError::BookUnsafePath { path } => {
                push_str_chars(&mut out, "the book names the chapter '");
                push_str_chars(&mut out, path.as_str());
                push_str_chars(&mut out, "', which is absolute or escapes the book's directory");
            },
            LoadError::BookPageSetup { chapter, field } => {
                push_str_chars(&mut out, "chapter ");
                push_decimal_u64(*chapter as u64, &mut out);
                push_str_chars(&mut out, "'s ");
                push_str_chars(&mut out, field.as_str());
                push_str_chars(&mut out, " differs from the book's; every page of a press file must share it");
            },
        }
        string_from_chars(&out)
    }
}

} // verus!
