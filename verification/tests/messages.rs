use quill::book::{BookNote, ConflictKind};
use quill::defs::ComponentDefError;
use quill::load::LoadError;

#[test]
fn a_refused_requirement_says_what_is_installed_and_where() {
    let e = LoadError::PackNotInstalled {
        pack: "vault".into(),
        version: "1.2.0".into(),
        installed: vec!["1.0.0".into(), "1.1.3".into()],
        root: "/packs".into(),
    };
    assert_eq!(
        e.message(),
        "this document requires pack `vault` (version 1.2.0), which is not installed in '/packs' \u{2014} \
         installed there: 1.0.0, 1.1.3. Install it with `quill pack install`."
    );
    let nothing = LoadError::PackNotInstalled {
        pack: "vault".into(),
        version: "  ".into(),
        installed: vec![],
        root: "/packs".into(),
    };
    assert_eq!(
        nothing.message(),
        "this document requires pack `vault` (any version), which is not installed in '/packs' \u{2014} \
         installed there: nothing. Install it with `quill pack install`."
    );
}

#[test]
fn a_conflict_names_both_packs_and_the_item() {
    let e = LoadError::PackConflict {
        what: "component".into(),
        item: "move".into(),
        first: "alpha".into(),
        second: "beta".into(),
    };
    assert_eq!(
        e.message(),
        "packs `alpha` and `beta` both define the component `move`; uninstall one or use a document-level definition"
    );
}

#[test]
fn a_newer_version_is_refused_with_both_numbers() {
    assert_eq!(
        LoadError::UnsupportedVersion { found: 11, supported: 10 }.message(),
        "document format version 11 is newer than this build supports (up to 10); upgrade Quill to open it"
    );
    assert_eq!(
        LoadError::UnsupportedPackVersion { found: 2, supported: 1 }.message(),
        "pack format version 2 is newer than this build supports (up to 1); upgrade Quill to install it"
    );
    assert_eq!(
        LoadError::UnsupportedTemplateVersion { found: 7, supported: 1 }.message(),
        "template file version 7 is newer than this build supports (up to 1); upgrade Quill to use it"
    );
}

#[test]
fn plain_errors_read_as_their_kind_and_detail() {
    assert_eq!(LoadError::Parse("bad".into()).message(), "malformed document manifest: bad");
    assert_eq!(
        LoadError::DuplicateBlockId(42).message(),
        "two content blocks share id 42; block ids must be unique within a document"
    );
    assert_eq!(
        LoadError::PackMissingProvenance { pack: "vault".into(), field: "license".into() }.message(),
        "pack `vault` has no `license`; a pack must say where it came from and under what licence before it can be installed"
    );
    assert_eq!(
        LoadError::PackUnsafePath { pack: "vault".into(), path: "../x".into() }.message(),
        "pack `vault` carries the path '../x', which is absolute or escapes the pack root"
    );
    assert_eq!(
        LoadError::PackAlreadyInstalled { pack: "vault".into(), version: "1.0.0".into(), path: "/p/vault".into() }.message(),
        "a different pack `vault` 1.0.0 is already installed at '/p/vault'; pass --force to replace it"
    );
}

#[test]
fn a_definition_error_reads_the_same_inside_a_load_error() {
    let d = ComponentDefError::SectionMissingStyle { def: "statblock".into(), index: 3 };
    assert_eq!(d.message(), "component definition `statblock`, section 3: `style` is empty");
    assert_eq!(LoadError::ComponentDef(d.clone()).message(), d.message());
    assert_eq!(
        ComponentDefError::BadMeasure { def: "thing".into(), field: "panel.padding_pt".into(), value: "-1".into() }.message(),
        "component definition `thing`: `panel.padding_pt` is -1, which must be a finite, non-negative measurement in points"
    );
    assert_eq!(
        ComponentDefError::NameMismatch { key: "table".into(), def: "statblock".into() }.message(),
        "component definition filed under `table` calls itself `statblock`"
    );
    assert_eq!(ComponentDefError::EmptyName.message(), "a component definition has an empty `name`");
}

#[test]
fn book_notes_name_the_chapter() {
    assert_eq!(
        BookNote::Conflict { chapter: 2, what: ConflictKind::ParagraphStyle, name: "body".into() }.message(),
        "chapter 2 defines the paragraph style `body` differently from an earlier chapter; the earlier one governs the book"
    );
    assert_eq!(
        BookNote::DroppedPageOverride { chapter: 1, page: 4 }.message(),
        "chapter 1: the master assigned to its page 4 was dropped \u{2014} a positional assignment cannot be placed \
         in a book; anchor it to a section instead"
    );
    assert_eq!(BookNote::EmptyChapter { chapter: 0 }.message(), "chapter 0 has no content and anchors no section");
    assert_eq!(ConflictKind::MasterPage.noun(), "master page");
}
