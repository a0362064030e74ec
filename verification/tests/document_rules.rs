use std::collections::BTreeSet;

use quill::identity::{assign_missing_block_ids, footnote_numbers, footnote_order, new_block_id, reference_targets};
use quill::load::LoadError;
use quill::model::{BlockId, RunSource, TokenText, UNRESOLVED_REFERENCE};
use quill::numbering::NumberFormat;
use quill::pages::{
    folio, folio_formats, folio_in, folio_number_in, folio_runs, master_in, page_assignment, section_at, Folio,
    FolioRun, PageOverride, Section, StaticAlign,
};
use quill::styles::{paragraph_style_slot, StyleRequest};
use quill::tokens::StaticToken;

/// The sample document's two blocks, once identified.
const FIRST: BlockId = BlockId(1);
const SECOND: BlockId = BlockId(2);

fn masters() -> Vec<String> {
    vec!["opener".to_string(), "body".to_string()]
}

fn body_default() -> Option<String> {
    Some("body".to_string())
}

fn over(master: Option<&str>) -> PageOverride {
    PageOverride { master: master.map(str::to_string) }
}

fn chapter_one() -> Vec<Section> {
    vec![Section { name: "Chapter One".into(), start: SECOND, master: Some("opener".into()), folio: None }]
}

fn master_name(pages: &[PageOverride], page: usize) -> Option<String> {
    let names = masters();
    master_in(&names, &body_default(), pages, page).map(|k| names[k].clone())
}

#[test]
fn blocks_without_ids_get_them_in_document_order() {
    let mut blocks = vec![BlockId(0), BlockId(0), BlockId(0)];
    let mut notes = Vec::new();
    let mut next = 0;
    assign_missing_block_ids(&mut blocks, &mut notes, &mut next).expect("load");
    let ids: Vec<u64> = blocks.iter().map(|b| b.0).collect();
    assert_eq!(ids, vec![1, 2, 3]);
}

#[test]
fn duplicate_ids_are_refused_rather_than_renumbered() {
    let mut blocks = vec![BlockId(7), BlockId(7)];
    let mut next = 0;
    assert!(matches!(
        assign_missing_block_ids(&mut blocks, &mut Vec::new(), &mut next),
        Err(LoadError::DuplicateBlockId(7))
    ));
}

#[test]
fn assigned_ids_are_preserved_and_gaps_filled_around_them() {
    let mut blocks = vec![BlockId(42), BlockId(0)];
    let mut next = 0;
    assign_missing_block_ids(&mut blocks, &mut Vec::new(), &mut next).expect("load");
    assert_eq!(blocks[0].0, 42, "an existing id must be kept");
    assert!(blocks[1].0 > 42, "a fresh id must not collide with an existing one, got {}", blocks[1].0);
}

#[test]
fn a_thousand_new_ids_are_all_distinct_and_never_collide() {
    let mut blocks = vec![BlockId(0), BlockId(0)];
    let mut next = 0;
    assign_missing_block_ids(&mut blocks, &mut Vec::new(), &mut next).expect("sample");
    let existing: BTreeSet<u64> = blocks.iter().map(|b| b.0).collect();
    let minted: BTreeSet<u64> = (0..1000).map(|_| new_block_id(&mut next).0).collect();
    assert_eq!(minted.len(), 1000, "ids must be distinct");
    assert!(minted.is_disjoint(&existing), "must not reuse a live id");
    assert!(!minted.contains(&0), "0 is reserved for an unassigned block");
}

#[test]
fn a_footnote_shares_the_one_id_space_and_a_collision_is_refused() {
    let mut blocks = vec![BlockId(0), BlockId(0)];
    let mut notes = vec![BlockId(0), BlockId(0)];
    let mut next = 0;
    assign_missing_block_ids(&mut blocks, &mut notes, &mut next).expect("ids");
    let ids: BTreeSet<u64> = blocks.iter().chain(notes.iter()).map(|b| b.0).collect();
    assert_eq!(ids.len(), blocks.len() + notes.len(), "every block and every note has its own id");

    let clash = blocks[0];
    notes[0] = clash;
    assert!(matches!(
        assign_missing_block_ids(&mut blocks, &mut notes, &mut next),
        Err(LoadError::DuplicateBlockId(n)) if n == clash.0
    ));
}

#[test]
fn a_note_block_is_synthesised_once_and_carries_its_own_number() {
    // One block anchoring one note; the note is the second identity handed out.
    let mut blocks = vec![BlockId(0)];
    let mut notes = vec![BlockId(0)];
    let mut next = 0;
    assign_missing_block_ids(&mut blocks, &mut notes, &mut next).expect("ids");
    let note = notes[0];
    let anchors = vec![note];

    let set = footnote_order(&anchors, &notes);
    assert_eq!(set, vec![(note, 0)], "the note is set once, carrying its own id");
    let numbered: Vec<BlockId> = set.iter().map(|(id, _)| *id).collect();
    assert_eq!(footnote_numbers(&numbered), vec![(note, "1".to_string())]);

    // A note nothing anchors is not set and is not numbered.
    notes.push(BlockId(0));
    assign_missing_block_ids(&mut blocks, &mut notes, &mut next).expect("ids");
    assert_eq!(footnote_order(&anchors, &notes).len(), 1);
}

#[test]
fn a_footnote_number_contributes_its_own_alphabet_and_not_the_folios() {
    let sections = vec![Section {
        name: "Front".into(),
        start: FIRST,
        master: None,
        folio: Some(Folio { format: NumberFormat::LowerRoman, restart_at: Some(1) }),
    }];
    let formats = folio_formats(&sections);
    let note = RunSource::Footnote { note: BlockId(1) }.contributes(&formats);
    assert_eq!(note.chars, NumberFormat::Decimal.alphabet());
    assert!(!note.chars.contains(&'v'), "a roman folio must not widen what a footnote number can draw");
    assert_eq!(note.runs, vec![UNRESOLVED_REFERENCE.to_string()]);

    let reference = RunSource::Reference { target: BlockId(1) }.contributes(&formats);
    assert!(reference.chars.contains(&'v'));
}

#[test]
fn what_a_cross_reference_can_draw_is_the_folio_alphabet_and_the_marker() {
    let sections = vec![Section {
        name: "Front".into(),
        start: FIRST,
        master: None,
        folio: Some(Folio { format: NumberFormat::LowerRoman, restart_at: Some(1) }),
    }];
    let formats = folio_formats(&sections);
    let carried = RunSource::Reference { target: FIRST }.contributes(&formats);
    assert_eq!(carried.runs, vec![UNRESOLVED_REFERENCE.to_string()]);
    for ch in "ivxlcdm0123456789".chars() {
        assert!(carried.chars.contains(&ch), "{ch:?} must be carried");
    }
    let page = StaticToken::Page.contributes(&formats, &[], &[]);
    assert_eq!(carried.chars, page.chars);
    assert_eq!(RunSource::Authored.contributes(&formats), TokenText::default());
}

#[test]
fn reference_targets_are_collected_once_per_block_referred_to() {
    let a = FIRST;
    let sources = vec![
        RunSource::Reference { target: a },
        RunSource::Authored,
        RunSource::Reference { target: a },
        RunSource::Reference { target: a },
    ];
    assert_eq!(reference_targets(&sources), vec![a]);
    assert!(reference_targets(&[RunSource::Authored, RunSource::Authored]).is_empty());
}

#[test]
fn a_page_override_wins_over_the_default_master() {
    let pages = vec![over(Some("opener"))];
    assert_eq!(master_name(&pages, 0).as_deref(), Some("opener"));
    assert_eq!(master_name(&pages, 1).as_deref(), Some("body"));
}

#[test]
fn master_resolution_falls_through_every_step() {
    let pages = vec![over(Some("was-renamed"))];
    assert_eq!(master_name(&pages, 0).as_deref(), Some("body"), "unknown page master means the document default");
    let names = masters();
    assert_eq!(
        master_in(&names, &Some("also-renamed".to_string()), &pages, 0),
        None,
        "unknown default too means the document's own page setup"
    );
}

#[test]
fn an_override_naming_no_master_is_not_the_same_as_no_master() {
    let pages = vec![over(None)];
    assert_eq!(master_name(&pages, 0).as_deref(), Some("body"), "an entry that declines to override still gets the default");
}

#[test]
fn a_page_list_shorter_or_longer_than_the_document_is_fine() {
    let mut pages = vec![over(Some("opener"))];
    assert_eq!(master_name(&pages, 99).as_deref(), Some("body"));
    pages.extend((0..50).map(|_| over(Some("opener"))));
    assert_eq!(master_name(&pages, 0).as_deref(), Some("opener"));
}

#[test]
fn a_section_writes_its_master_onto_the_page_its_anchor_landed_on() {
    let sections = chapter_one();
    assert_eq!(page_assignment(&[], &sections, &[Some(0)])[0].master.as_deref(), Some("opener"));

    let pages = page_assignment(&[], &sections, &[Some(3)]);
    assert_eq!(pages.len(), 4);
    assert_eq!(pages[3].master.as_deref(), Some("opener"));
    assert!(pages[..3].iter().all(|p| p.master.is_none()));
    assert_eq!(master_name(&pages, 0).as_deref(), Some("body"));
    assert_eq!(master_name(&pages, 3).as_deref(), Some("opener"));
}

#[test]
fn a_section_that_is_not_placed_or_names_no_master_assigns_nothing() {
    let mut sections = chapter_one();
    assert_eq!(page_assignment(&[], &sections, &[None]), Vec::<PageOverride>::new());
    sections[0].master = None;
    assert_eq!(page_assignment(&[], &sections, &[Some(2)]), Vec::<PageOverride>::new());
}

#[test]
fn a_section_wins_over_a_positional_entry_for_the_same_page() {
    let mut sections = chapter_one();
    let authored = vec![over(Some("opener")), over(None)];
    let pages = page_assignment(&authored, &sections, &[Some(1)]);
    assert_eq!(pages[1].master.as_deref(), Some("opener"), "the section's page");
    assert_eq!(
        pages[0].master.as_deref(),
        Some("opener"),
        "and an authored entry the section does not reach is left exactly as authored"
    );

    let pages = page_assignment(&authored, &sections, &[Some(0)]);
    sections[0].master = Some("body".into());
    let collided = page_assignment(&authored, &sections, &[Some(0)]);
    assert_eq!(pages[0].master.as_deref(), Some("opener"));
    assert_eq!(collided[0].master.as_deref(), Some("body"));
}

#[test]
fn a_section_numbers_its_own_run_of_pages() {
    let sections = vec![
        Section {
            name: "Front matter".into(),
            start: FIRST,
            master: None,
            folio: Some(Folio { format: NumberFormat::LowerRoman, restart_at: Some(1) }),
        },
        Section {
            name: "Body".into(),
            start: SECOND,
            master: None,
            folio: Some(Folio { format: NumberFormat::Decimal, restart_at: Some(1) }),
        },
    ];
    let starts = [Some(0), Some(4)];
    let folios: Vec<String> = (0..8).map(|p| folio(&sections, &starts, p)).collect();
    assert_eq!(
        folios,
        ["i", "ii", "iii", "iv", "1", "2", "3", "4"],
        "the body restarts at 1 and the front matter counts in roman"
    );
}

#[test]
fn a_section_that_states_no_restart_keeps_counting() {
    let sections = vec![Section {
        name: "Appendix".into(),
        start: SECOND,
        master: None,
        folio: Some(Folio { format: NumberFormat::UpperRoman, restart_at: None }),
    }];
    let starts = [Some(3)];
    assert_eq!(folio(&sections, &starts, 2), "3");
    assert_eq!(folio(&sections, &starts, 3), "IV", "page 3 was going to be `4`, and it is still the fourth page");
    assert_eq!(folio(&sections, &starts, 4), "V");
}

#[test]
fn a_document_with_no_sections_is_numbered_exactly_as_it_was() {
    assert_eq!(folio_runs(&[], &[]), vec![FolioRun { first_page: 0, format: NumberFormat::Decimal, start: 1 }]);
    for page in 0..200 {
        assert_eq!(folio(&[], &[], page), (page + 1).to_string());
    }
    assert_eq!(folio_runs(&chapter_one(), &[Some(2)]), folio_runs(&[], &[]));
}

#[test]
fn an_unplaced_section_numbers_nothing_and_a_collision_takes_the_later_one() {
    let sections = vec![
        Section {
            name: "Deleted anchor".into(),
            start: FIRST,
            master: None,
            folio: Some(Folio { format: NumberFormat::LowerRoman, restart_at: Some(1) }),
        },
        Section {
            name: "Part two".into(),
            start: SECOND,
            master: None,
            folio: Some(Folio { format: NumberFormat::UpperAlpha, restart_at: Some(1) }),
        },
    ];
    assert_eq!(folio(&sections, &[None, Some(1)], 0), "1");
    assert_eq!(folio(&sections, &[None, Some(1)], 1), "A");

    let runs = folio_runs(&sections, &[Some(1), Some(1)]);
    assert_eq!(runs.len(), 2, "page 0's default, then the one at page 1");
    assert_eq!(runs[1].format, NumberFormat::UpperAlpha);
}

#[test]
fn a_folio_is_its_own_numbering_formatted() {
    let runs = vec![
        FolioRun { first_page: 0, format: NumberFormat::LowerRoman, start: 1 },
        FolioRun { first_page: 4, format: NumberFormat::Decimal, start: 1 },
    ];
    for page in 0..12 {
        let (format, n) = folio_number_in(&runs, page);
        assert_eq!(folio_in(&runs, page), format.format(n));
    }
    let (format, n) = folio_number_in(&[], 6);
    assert_eq!(folio_in(&[], 6), format.format(n));
    assert_eq!(format.format(n), "7");
}

#[test]
fn the_formats_in_use_always_include_decimal() {
    assert_eq!(folio_formats(&[]), vec![NumberFormat::Decimal]);
    let mut sections = chapter_one();
    sections[0].folio = Some(Folio { format: NumberFormat::LowerRoman, restart_at: Some(1) });
    assert_eq!(folio_formats(&sections), vec![NumberFormat::Decimal, NumberFormat::LowerRoman]);
}

#[test]
fn the_token_parser_finds_every_token_and_walks_past_everything_else() {
    assert_eq!(
        StaticToken::scan("{section} \u{2014} {heading:2} \u{2014} {page}").into_iter().map(|(_, t)| t).collect::<Vec<_>>(),
        vec![StaticToken::Section, StaticToken::Heading { level: 2 }, StaticToken::Page]
    );
    assert_eq!(StaticToken::scan("a{page}b"), vec![(1..7, StaticToken::Page)]);
    for text in [
        "{}",
        "{pages}",
        "{Page}",
        "{heading}",
        "{heading:}",
        "{heading:x}",
        "{heading:1",
        "no tokens at all",
        "{heading:999}",
    ] {
        assert!(StaticToken::scan(text).is_empty(), "{text:?} spells no token");
    }
}

#[test]
fn a_token_contributes_the_text_it_can_actually_print() {
    let sections = chapter_one();
    let formats = folio_formats(&sections);
    let names: Vec<String> = sections.iter().map(|s| s.name.clone()).collect();
    let headings = vec![(1u8, "The Ruined Keep".to_string())];

    let page = StaticToken::Page.contributes(&formats, &names, &headings);
    assert!(page.runs.is_empty());
    assert!(page.chars.is_superset(&('0'..='9').collect()));

    assert_eq!(StaticToken::Section.contributes(&formats, &names, &headings).runs, vec!["Chapter One".to_string()]);
    assert_eq!(
        StaticToken::Heading { level: 1 }.contributes(&formats, &names, &headings).runs,
        vec!["The Ruined Keep".to_string()]
    );
    assert!(StaticToken::Section.contributes(&formats, &names, &headings).chars.is_empty());
}

#[test]
fn a_page_belongs_to_the_last_section_that_opened_at_or_before_it() {
    let sections = vec![
        Section { name: "Front matter".into(), start: FIRST, master: None, folio: None },
        Section { name: "Body".into(), start: SECOND, master: None, folio: None },
    ];
    let starts = [Some(2), Some(5)];
    assert_eq!(section_at(&sections, &starts, 0), None);
    assert_eq!(section_at(&sections, &starts, 1), None);
    assert_eq!(section_at(&sections, &starts, 2), Some("Front matter"));
    assert_eq!(section_at(&sections, &starts, 4), Some("Front matter"));
    assert_eq!(section_at(&sections, &starts, 5), Some("Body"));
    assert_eq!(section_at(&sections, &starts, 500), Some("Body"));
    assert_eq!(section_at(&sections, &[Some(2), None], 500), Some("Front matter"));
    assert_eq!(section_at(&sections, &[Some(3), Some(3)], 3), Some("Body"));
}

/// The default style sheet's paragraph style names, in order.
fn default_sheet() -> Vec<String> {
    let mut names: Vec<String> = [
        "body", "footnote", "h1", "h2", "h3", "h4", "h5", "h6", "index-entry", "index-title", "list-bullet",
        "list-number", "statblock-attr", "statblock-body", "statblock-title", "table-cell", "table-header", "toc-1",
        "toc-2", "toc-3", "toc-4", "toc-5", "toc-6", "toc-title",
    ]
    .iter()
    .map(|s| s.to_string())
    .collect();
    names.sort();
    names
}

fn slot_name(names: &[String], request: StyleRequest) -> Option<String> {
    paragraph_style_slot(&names.to_vec(), &request).map(|i| names[i].clone())
}

#[test]
fn a_block_can_name_an_explicit_style() {
    let mut names = default_sheet();
    names.push("sidebar".into());
    names.sort();
    assert_eq!(slot_name(&names, StyleRequest::Body { style: Some("sidebar".into()) }).as_deref(), Some("sidebar"));
}

#[test]
fn an_unknown_style_name_falls_back_rather_than_losing_the_text() {
    let names = default_sheet();
    assert_eq!(
        slot_name(&names, StyleRequest::Body { style: Some("does-not-exist".into()) }).as_deref(),
        Some("body")
    );
}

#[test]
fn a_heading_beyond_h6_still_resolves() {
    let names = default_sheet();
    assert_eq!(slot_name(&names, StyleRequest::Heading { style: None, level: 99 }).as_deref(), Some("h6"));
}

#[test]
fn an_image_block_resolves_to_the_default_style() {
    assert_eq!(slot_name(&default_sheet(), StyleRequest::Composite), None);
}

#[test]
fn an_outside_static_alternates_edges_across_a_spread() {
    assert_eq!(StaticAlign::Outside.edge_on(0, true), StaticAlign::Right);
    assert_eq!(StaticAlign::Outside.edge_on(1, true), StaticAlign::Left);
    assert_eq!(StaticAlign::Inside.edge_on(0, true), StaticAlign::Left);
    assert_eq!(StaticAlign::Inside.edge_on(1, true), StaticAlign::Right);
    for page in 0..6usize {
        assert_ne!(StaticAlign::Outside.edge_on(page, true), StaticAlign::Outside.edge_on(page + 1, true));
    }
}

#[test]
fn a_single_sided_document_resolves_every_page_as_a_recto() {
    for page in 0..4usize {
        assert_eq!(StaticAlign::Outside.edge_on(page, false), StaticAlign::Right);
        assert_eq!(StaticAlign::Inside.edge_on(page, false), StaticAlign::Left);
    }
}

#[test]
fn fixed_alignments_ignore_page_parity() {
    for page in 0..4usize {
        for facing in [true, false] {
            assert_eq!(StaticAlign::Left.edge_on(page, facing), StaticAlign::Left);
            assert_eq!(StaticAlign::Center.edge_on(page, facing), StaticAlign::Center);
            assert_eq!(StaticAlign::Right.edge_on(page, facing), StaticAlign::Right);
        }
    }
    assert_eq!(StaticAlign::default(), StaticAlign::Left);
}
