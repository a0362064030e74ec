use quill::tokens::{heading_style_name, toc_entry_style_name, StaticToken};
use quill::version::{
    gate_book, gate_document, gate_pack, migration_chain, version_gate, DeclaredVersion, GateRefusal, MigrationStep,
    BOOK_VERSION, FORMAT_VERSION,
};
use quill::load::LoadError;

#[test]
fn the_scanner_finds_every_token_and_leaves_other_groups_alone() {
    let found = StaticToken::scan("{page} of {section} — {heading:2} {heading:x} {nope} {heading:+3}");
    let tokens: Vec<StaticToken> = found.iter().map(|(_, t)| *t).collect();
    assert_eq!(
        tokens,
        vec![StaticToken::Page, StaticToken::Section, StaticToken::Heading { level: 2 }, StaticToken::Heading { level: 3 }]
    );
    assert_eq!(found[0].0, 0..6);
    assert_eq!(found[1].0, 10..19);
}

#[test]
fn byte_ranges_count_bytes_not_characters() {
    let text = "é{page}";
    let found = StaticToken::scan(text);
    assert_eq!(found.len(), 1);
    assert_eq!(&text[found[0].0.clone()], "{page}");
}

#[test]
fn a_group_that_spells_no_token_is_none() {
    assert_eq!(StaticToken::parse("{page}"), Some(StaticToken::Page));
    assert_eq!(StaticToken::parse("{heading:256}"), None);
    assert_eq!(StaticToken::parse("{heading:}"), None);
    assert_eq!(StaticToken::parse("{Page}"), None);
}

#[test]
fn style_names_clamp_the_level() {
    assert_eq!(heading_style_name(0), "h1");
    assert_eq!(heading_style_name(3), "h3");
    assert_eq!(heading_style_name(9), "h6");
    assert_eq!(toc_entry_style_name(2), "toc-2");
    assert_eq!(toc_entry_style_name(200), "toc-6");
}

#[test]
fn a_newer_version_is_refused_and_an_absent_one_is_current() {
    assert_eq!(version_gate(DeclaredVersion::Absent, 3), Ok(3));
    assert_eq!(version_gate(DeclaredVersion::Number(2), 3), Ok(2));
    assert_eq!(version_gate(DeclaredVersion::Number(4), 3), Err(GateRefusal::Newer { found: 4 }));
    assert_eq!(version_gate(DeclaredVersion::Number(u64::MAX), 3), Err(GateRefusal::Newer { found: u32::MAX }));
    assert_eq!(version_gate(DeclaredVersion::NotAnInteger, 3), Err(GateRefusal::NotAnInteger));
    assert_eq!(
        gate_document(DeclaredVersion::Number(FORMAT_VERSION as u64 + 1)),
        Err(LoadError::UnsupportedVersion { found: FORMAT_VERSION + 1, supported: FORMAT_VERSION })
    );
    assert!(matches!(gate_pack(DeclaredVersion::NotAnInteger), Err(LoadError::PackParse(_))));
}

#[test]
fn a_book_file_newer_than_this_build_is_refused() {
    let err = gate_book(DeclaredVersion::Number(BOOK_VERSION as u64 + 1)).unwrap_err();
    assert!(
        matches!(err, LoadError::UnsupportedBookVersion { found, supported }
                 if found == BOOK_VERSION + 1 && supported == BOOK_VERSION),
        "{err:?}"
    );
}

#[test]
fn a_newer_format_version_is_refused_not_silently_downgraded() {
    let next = FORMAT_VERSION + 1;
    match gate_document(DeclaredVersion::Number(next as u64)) {
        Err(LoadError::UnsupportedVersion { found, supported }) => {
            assert_eq!(found, next);
            assert_eq!(supported, FORMAT_VERSION);
        }
        other => panic!("expected UnsupportedVersion, got {other:?}"),
    }
}

#[test]
fn a_far_future_version_is_refused_too() {
    assert!(matches!(
        gate_document(DeclaredVersion::Number(99)),
        Err(LoadError::UnsupportedVersion { found: 99, .. })
    ));
}

#[test]
fn an_absent_format_version_migrates_forward_to_current() {
    assert_eq!(gate_document(DeclaredVersion::Absent), Ok(FORMAT_VERSION));
}

#[test]
fn a_non_integer_format_version_is_a_parse_error() {
    let err = gate_document(DeclaredVersion::NotAnInteger).unwrap_err();
    assert!(matches!(err, LoadError::Parse(_)));
}

#[test]
fn display_names_the_versions_so_the_message_is_actionable() {
    let e = LoadError::UnsupportedVersion { found: 7, supported: 1 };
    let msg = e.message();
    assert!(msg.contains('7') && msg.contains('1'), "got: {msg}");
}

#[test]
fn the_whole_migration_chain_runs_in_order_from_version_one() {
    assert_eq!(migration_chain(1), vec![MigrationStep::MastersAndMargins, MigrationStep::StaticAlignment]);
    assert_eq!(migration_chain(0), vec![MigrationStep::MastersAndMargins, MigrationStep::StaticAlignment]);
}

#[test]
fn a_manifest_migrates_only_through_the_steps_after_its_version() {
    assert_eq!(migration_chain(2), vec![MigrationStep::StaticAlignment]);
    assert!(migration_chain(3).is_empty());
    assert!(migration_chain(FORMAT_VERSION).is_empty());
}
