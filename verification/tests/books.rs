use quill::book::{chapter_prefix, Book, BookChapter, BookNote, ConflictKind};
use quill::compose::{namespace_assets, ChapterParts, Named, SetupComparison};
use quill::load::LoadError;
use quill::model::{BlockId, Metadata, RunSource};
use quill::pages::{BreakKind, PageBreak};
use quill::resolve::PackRequirement;

fn chapter(headings: &[&str]) -> ChapterParts {
    let n = headings.len() as u64 * 2;
    ChapterParts {
        block_ids: (1..=n).map(BlockId).collect(),
        block_runs: (1..=n).map(|_| vec![RunSource::Authored]).collect(),
        note_ids: vec![],
        note_runs: vec![],
        sections: vec![],
        breaks: vec![],
        next_block_id: n + 1,
        page_masters: vec![],
        masters: vec![],
        styles: vec![Named { name: "body".into(), identity: 1 }],
        components: vec![],
        default_master: None,
        requires: vec![],
        setup: SetupComparison::Same,
        metadata: Metadata { title: "Sample".into(), authors: vec![] },
    }
}

fn book_of(n: usize) -> Book {
    Book {
        book_version: 2,
        metadata: Metadata { title: String::new(), authors: vec![] },
        requires: vec![],
        chapters: (0..n)
            .map(|i| BookChapter {
                path: format!("ch{i}.tpub"),
                name: format!("Chapter {i}"),
                folio: None,
                master: None,
                break_before: BreakKind::Page,
            })
            .collect(),
    }
}

#[test]
fn block_ids_are_rebased_so_two_chapters_cannot_collide() {
    let a = chapter(&["One"]);
    let b = chapter(&["Two"]);
    assert_eq!(a.block_ids[0], b.block_ids[0], "the fixture must actually collide");
    let composed = book_of(2).compose(&[a, b]).expect("compose");
    let ids: Vec<u64> = composed.block_ids.iter().map(|b| b.0).collect();
    let mut sorted = ids.clone();
    sorted.sort_unstable();
    sorted.dedup();
    assert_eq!(ids.len(), sorted.len(), "ids must be unique: {ids:?}");
}

#[test]
fn a_chapters_own_cross_reference_still_points_at_its_own_block() {
    let a = chapter(&["One"]);
    let mut b = chapter(&["Two"]);
    let target = b.block_ids[0];
    b.block_runs[1] = vec![RunSource::Authored, RunSource::Reference { target }];
    let composed = book_of(2).compose(&[a, b]).expect("compose");
    let resolved = composed.block_runs[3][1].target().expect("a target");
    assert_eq!(resolved, composed.block_ids[2], "a chapter's reference must still name its own block after rebasing");
}

#[test]
fn assets_are_namespaced_so_two_chapters_may_share_an_id() {
    let mut ids = vec!["map".to_string()];
    let mut paths = vec!["assets/map.png".to_string()];
    let mut images = vec!["map".to_string()];
    let mut statics: Vec<String> = vec![];
    namespace_assets(1, &mut ids, &mut paths, &mut images, &mut statics);
    assert_eq!(ids, vec!["1/map"]);
    assert_eq!(paths, vec!["chapters/1/assets/map.png"]);
    assert_eq!(images, vec!["1/map"]);
    assert_eq!(chapter_prefix(0), "chapters/0");
    // No assets: nothing is renamed.
    let mut none: Vec<String> = vec![];
    let mut refs = vec!["map".to_string()];
    namespace_assets(2, &mut none, &mut vec![], &mut refs, &mut vec![]);
    assert_eq!(refs, vec!["map"]);
}

#[test]
fn each_chapter_gets_a_section_anchored_to_its_first_block() {
    let composed = book_of(2).compose(&[chapter(&["One"]), chapter(&["Two"])]).expect("compose");
    let names: Vec<&str> = composed.sections.iter().map(|s| s.name.as_str()).collect();
    assert_eq!(names, vec!["Chapter 0", "Chapter 1"]);
    for (section, anchor) in composed.sections.iter().zip(&composed.chapter_anchors) {
        assert_eq!(Some(section.start), *anchor);
    }
}

#[test]
fn a_chapters_opening_page_master_becomes_its_sections_master() {
    let mut a = chapter(&["One"]);
    a.masters = vec![Named { name: "opener".into(), identity: 7 }];
    a.page_masters = vec![Some("opener".into())];
    let composed = book_of(1).compose(&[a]).expect("compose");
    assert_eq!(composed.sections[0].master.as_deref(), Some("opener"));
    assert!(composed.notes.is_empty(), "{:?}", composed.notes);
}

#[test]
fn a_positional_override_for_a_later_page_is_dropped_and_reported() {
    let mut a = chapter(&["One"]);
    a.page_masters = vec![None, Some("opener".into())];
    let composed = book_of(1).compose(&[a]).expect("compose");
    assert_eq!(composed.notes, vec![BookNote::DroppedPageOverride { chapter: 0, page: 1 }]);
}

#[test]
fn a_chapter_of_a_different_trim_is_refused() {
    let a = chapter(&["One"]);
    let mut b = chapter(&["Two"]);
    b.setup = SetupComparison::PressDiffers { field: "trim".into() };
    let err = book_of(2).compose(&[a, b]).unwrap_err();
    assert!(matches!(err, LoadError::BookPageSetup { chapter: 1, ref field } if field == "trim"), "{err:?}");
}

#[test]
fn a_differing_margin_is_reported_rather_than_refused() {
    let a = chapter(&["One"]);
    let mut b = chapter(&["Two"]);
    b.setup = SetupComparison::DesignDiffers;
    let composed = book_of(2).compose(&[a, b]).expect("compose");
    assert!(composed.notes.contains(&BookNote::PageSetupDiffers { chapter: 1 }));
}

#[test]
fn requirements_union_and_reach_the_composed_document() {
    let mut a = chapter(&["One"]);
    a.requires = vec![PackRequirement::new("house", "1")];
    let mut b = chapter(&["Two"]);
    b.requires = vec![PackRequirement::new("house", "1")];
    let mut book = book_of(2);
    book.requires = vec![PackRequirement::new("grimdark", "")];
    let composed = book.compose(&[a, b]).expect("compose");
    assert_eq!(composed.requires, vec![PackRequirement::new("grimdark", ""), PackRequirement::new("house", "1")]);
}

#[test]
fn a_chapter_path_that_escapes_the_book_is_refused() {
    for escaping in ["../secret.tpub", "/etc/passwd"] {
        let mut book = book_of(1);
        book.chapters[0].path = escaping.into();
        assert!(matches!(book.validate(), Err(LoadError::BookUnsafePath { .. })), "'{escaping}' should be refused");
    }
    assert!(matches!(book_of(0).validate(), Err(LoadError::BookParse(_))));
}

#[test]
fn each_chapter_gets_a_break_anchored_to_the_block_its_section_is() {
    let composed = book_of(3)
        .compose(&[chapter(&["One"]), chapter(&["Two"]), chapter(&["Three"])])
        .expect("compose");
    let breaks: Vec<BlockId> = composed.breaks.iter().map(|b| b.before).collect();
    let anchors: Vec<BlockId> = composed.chapter_anchors.iter().flatten().copied().collect();
    assert_eq!(breaks, anchors, "one break per chapter, on its first block");
    assert!(composed.breaks.iter().all(|b| b.kind == BreakKind::Page));
    for (section, br) in composed.sections.iter().zip(&composed.breaks) {
        assert_eq!(section.start, br.before);
    }
}

#[test]
fn a_book_may_ask_for_a_recto_opener_or_decline_the_break() {
    let mut book = book_of(3);
    book.chapters[1].break_before = BreakKind::Recto;
    book.chapters[2].break_before = BreakKind::Continue;
    let composed = book
        .compose(&[chapter(&["One"]), chapter(&["Two"]), chapter(&["Three"])])
        .expect("compose");
    let third = composed.chapter_anchors[2].expect("anchor");
    assert_eq!(
        composed.breaks.iter().map(|b| (b.before, b.kind)).collect::<Vec<_>>(),
        vec![
            (composed.chapter_anchors[0].expect("anchor"), BreakKind::Page),
            (composed.chapter_anchors[1].expect("anchor"), BreakKind::Recto),
        ],
        "a declined break is not written at all"
    );
    assert!(composed.breaks.iter().all(|b| b.before != third));
}

#[test]
fn a_chapters_own_breaks_are_rebased_with_its_blocks() {
    let mut a = chapter(&["One", "Two"]);
    a.breaks = vec![PageBreak { before: a.block_ids[1], kind: BreakKind::Verso }];
    let mut b = chapter(&["Three", "Four"]);
    b.breaks = vec![PageBreak { before: b.block_ids[1], kind: BreakKind::Verso }];
    let composed = book_of(2).compose(&[a, b]).expect("compose");
    let ids = &composed.block_ids;
    let versos: Vec<BlockId> =
        composed.breaks.iter().filter(|br| br.kind == BreakKind::Verso).map(|br| br.before).collect();
    assert_eq!(versos.len(), 2, "one from each chapter");
    assert_ne!(versos[0], versos[1], "and they cannot have collided");
    assert_eq!(versos[1], ids[5]);
    assert_eq!(versos[0], ids[1]);
}

#[test]
fn an_empty_chapter_anchors_nothing_and_is_reported() {
    let mut empty = chapter(&[]);
    empty.block_ids.clear();
    let composed = book_of(2).compose(&[chapter(&["One"]), empty]).expect("compose");
    assert_eq!(composed.chapter_anchors[1], None);
    assert_eq!(composed.notes, vec![BookNote::EmptyChapter { chapter: 1 }]);
}

#[test]
fn a_differing_definition_is_a_conflict_and_the_first_wins() {
    let mut a = chapter(&["One"]);
    a.masters = vec![Named { name: "body".into(), identity: 1 }];
    let mut b = chapter(&["Two"]);
    b.masters = vec![Named { name: "body".into(), identity: 2 }, Named { name: "extra".into(), identity: 3 }];
    let composed = book_of(2).compose(&[a, b]).expect("compose");
    assert_eq!(composed.masters.iter().map(|k| (k.chapter, k.index)).collect::<Vec<_>>(), vec![(0, 0), (1, 1)]);
    assert_eq!(
        composed.notes,
        vec![BookNote::Conflict { chapter: 1, what: ConflictKind::MasterPage, name: "body".into() }]
    );
}

#[test]
fn the_chapter_count_must_match_and_a_book_inherits_its_first_chapters_metadata() {
    assert!(book_of(2).compose(&[chapter(&["One"])]).is_err());
    let composed = book_of(1).compose(&[chapter(&["One"])]).expect("compose");
    assert_eq!(composed.metadata.title, "Sample");
    assert!(composed.next_block_id > composed.block_ids.iter().map(|b| b.0).max().unwrap());
}
