use quill::import::{import, ImportedBlock, ImportedContent};

fn import_ok(src: &str) -> ImportedContent {
    import(src).expect("import")
}

#[test]
fn every_supported_construct_round_trips_to_the_blocks_it_names() {
    let src = "\
# The Ruined Keep

A dank corridor stretches
into darkness.

![a map](map1)

:::statblock
name: Goblin
overview: Small humanoid, chaotic evil
attr: Armour Class = 15
detail: Nimble Escape.
action: Scimitar. +4 to hit.
reaction: Warren Cunning.
:::

:::table
| d20 | Encounter |
|-----|-----------|
| 1-4 | Nothing   |
:::

:::toc
title: What Is Inside
max_level: 3
:::
";
    let out = import_ok(src);
    assert!(out.warnings.is_empty(), "unexpected: {:?}", out.warnings);
    let c = &out.blocks;
    assert_eq!(c.len(), 6);
    match &c[0] {
        ImportedBlock::Heading { level, text } => assert_eq!((*level, text.as_str()), (1, "The Ruined Keep")),
        other => panic!("{other:?}"),
    }
    match &c[1] {
        ImportedBlock::Body { text } => assert_eq!(text, "A dank corridor stretches into darkness."),
        other => panic!("{other:?}"),
    }
    match &c[2] {
        ImportedBlock::Image { asset } => assert_eq!(asset, "map1"),
        other => panic!("{other:?}"),
    }
    match &c[3] {
        ImportedBlock::Panel { panel } => {
            assert_eq!(panel.name, "Goblin");
            assert_eq!(panel.overview, ["Small humanoid, chaotic evil"]);
            assert_eq!(panel.attributes, [("Armour Class".to_string(), "15".to_string())]);
            assert_eq!(panel.details, ["Nimble Escape."]);
            assert_eq!(panel.actions, ["Scimitar. +4 to hit."]);
            assert_eq!(panel.reactions, ["Warren Cunning."]);
        }
        other => panic!("{other:?}"),
    }
    match &c[4] {
        ImportedBlock::Table { header, rows } => {
            assert_eq!(header, &["d20".to_string(), "Encounter".to_string()]);
            assert_eq!(rows, &[vec!["1-4".to_string(), "Nothing".to_string()]]);
        }
        other => panic!("{other:?}"),
    }
    match &c[5] {
        ImportedBlock::Toc { title, max_level } => assert_eq!((title.as_str(), *max_level), ("What Is Inside", 3)),
        other => panic!("{other:?}"),
    }
}

#[test]
fn an_unknown_fence_is_fatal_rather_than_dropped() {
    let err = match import(":::spellcard\nname: Fireball\n:::\n") {
        Err(e) => e,
        Ok(_) => panic!("an unknown fence must refuse"),
    };
    assert_eq!(err.line, 1);
    assert!(err.message.contains("spellcard"), "{}", err.message);
    assert!(err.message.contains("panel"), "must list what is supported");
    assert_eq!(err.message, "unknown block `:::spellcard`; supported: panel, table, toc");
}

#[test]
fn unsupported_inline_syntax_warns_with_a_line_number_and_keeps_the_text() {
    let out = import_ok("intro\n\n- a list item\n\n> a quote\n\n| stray | row |\n");
    assert_eq!(out.warnings.len(), 3, "{:?}", out.warnings);
    assert_eq!(out.warnings[0].line, 3);
    assert_eq!(out.warnings[1].line, 5);
    assert_eq!(out.warnings[2].line, 7);
    let kept: Vec<String> = out
        .blocks
        .iter()
        .filter_map(|b| match b {
            ImportedBlock::Body { text } => Some(text.clone()),
            _ => None,
        })
        .collect();
    assert_eq!(kept, ["intro", "- a list item", "> a quote", "| stray | row |"]);
}

#[test]
fn the_pre_0062_fence_spelling_parses_identically() {
    let src = "name: Astrolabe\noverview: A brass instrument.\nattr: Diameter = 180 mm\n";
    let new_spelling = import_ok(&format!(":::panel\n{src}:::\n"));
    let old_spelling = import_ok(&format!(":::statblock\n{src}:::\n"));
    assert_eq!(new_spelling.blocks, old_spelling.blocks);
    assert_eq!(new_spelling.warnings.len(), 0, "{:?}", new_spelling.warnings);
    match &new_spelling.blocks[0] {
        ImportedBlock::Panel { panel } => assert_eq!(panel.name, "Astrolabe"),
        other => panic!("expected a panel, got {other:?}"),
    }
}

#[test]
fn a_heading_needs_a_space_and_at_most_six_hashes() {
    let out = import_ok("#1 is a number\n\n####### seven\n\n###### six\n");
    match &out.blocks[2] {
        ImportedBlock::Heading { level, text } => assert_eq!((*level, text.as_str()), (6, "six")),
        other => panic!("{other:?}"),
    }
    assert!(matches!(&out.blocks[0], ImportedBlock::Body { text } if text == "#1 is a number"));
    assert!(matches!(&out.blocks[1], ImportedBlock::Body { text } if text == "####### seven"));
}

#[test]
fn a_bare_hash_is_prose_because_the_line_is_trimmed_first() {
    let out = import_ok("#   \n");
    assert_eq!(out.blocks.len(), 1);
    assert!(matches!(&out.blocks[0], ImportedBlock::Body { text } if text == "#"));
    assert!(out.warnings.is_empty());
}

#[test]
fn an_unterminated_fence_runs_to_the_end_of_the_file() {
    let out = import_ok("before\n:::toc\ntitle: All\n");
    assert_eq!(out.blocks.len(), 2);
    assert!(matches!(&out.blocks[1], ImportedBlock::Toc { title, max_level: 2 } if title == "All"));
}

#[test]
fn a_table_with_no_rows_is_refused_and_a_bad_row_is_skipped() {
    let err = match import("\n:::table\n|---|\n:::\n") {
        Err(e) => e,
        Ok(_) => panic!("a table of separators has no rows"),
    };
    assert_eq!((err.line, err.message.as_str()), (3, "a `:::table` block has no rows"));
    let out = import_ok(":::table\n| a | b |\nnot a row\n| c | d |\n:::\n");
    assert_eq!(out.warnings.len(), 1);
    assert_eq!(out.warnings[0].line, 3);
    match &out.blocks[0] {
        ImportedBlock::Table { header, rows } => {
            assert_eq!(header, &["a".to_string(), "b".to_string()]);
            assert_eq!(rows.len(), 1);
        }
        other => panic!("{other:?}"),
    }
}

#[test]
fn a_panel_reports_what_it_could_not_read() {
    let out = import_ok(":::panel\nloose line\nattr: no equals sign\ncolour: red\n:::\n");
    let lines: Vec<usize> = out.warnings.iter().map(|w| w.line).collect();
    assert_eq!(lines, [2, 3, 4, 2]);
    assert_eq!(out.warnings[2].message, "unknown panel field `colour`; kept as a detail");
    assert_eq!(out.warnings[3].message, "panel has no `name:`");
    match &out.blocks[0] {
        ImportedBlock::Panel { panel } => {
            assert_eq!(panel.overview, ["loose line"]);
            assert_eq!(panel.details, ["colour: red"]);
        }
        other => panic!("{other:?}"),
    }
}

#[test]
fn a_contents_depth_outside_one_to_six_is_reported_and_ignored() {
    let out = import_ok(":::toc\nmax_level: 9\nmax_level: +4\ndepth: 2\n:::\n");
    assert!(matches!(&out.blocks[0], ImportedBlock::Toc { title, max_level: 4 } if title == "Contents"));
    assert_eq!(out.warnings[0].message, "`max_level` must be 1-6, got `9`; using 2");
    assert_eq!(out.warnings[1].message, "a `:::toc` block takes `title:` and `max_level:` only; ignored");
}

#[test]
fn windows_line_endings_read_like_unix_ones() {
    let unix = import_ok("# Title\n\nbody\n");
    let windows = import_ok("# Title\r\n\r\nbody\r\n");
    assert_eq!(unix.blocks, windows.blocks);
}

#[test]
fn a_malformed_stat_block_field_warns_and_keeps_the_line() {
    let out = import_ok(":::statblock\nname: Goblin\nattr: no equals sign\nwibble: value\n:::\n");
    assert_eq!(out.warnings.len(), 2, "{:?}", out.warnings);
    assert_eq!(out.warnings[0].line, 3);
    assert!(out.warnings[0].message.contains("name = value"));
    assert_eq!(out.warnings[1].line, 4);
    let ImportedBlock::Panel { panel } = &out.blocks[0] else {
        panic!("expected a stat block")
    };
    assert_eq!(panel.details, ["wibble: value"], "the unknown field is kept");
}

#[test]
fn a_table_with_no_rows_is_fatal() {
    let err = match import(":::table\n:::\n") {
        Err(e) => e,
        Ok(_) => panic!("an empty table must refuse"),
    };
    assert_eq!(err.line, 2);
}

#[test]
fn a_hash_without_a_space_is_a_word_not_a_heading() {
    let out = import_ok("#1 on the list\n");
    assert!(matches!(out.blocks[0], ImportedBlock::Body { .. }));
}

#[test]
fn an_unterminated_fence_still_yields_its_content() {
    let out = import_ok(":::statblock\nname: Goblin\n");
    let ImportedBlock::Panel { panel } = &out.blocks[0] else {
        panic!("expected a stat block")
    };
    assert_eq!(panel.name, "Goblin");
}

#[test]
fn an_empty_source_imports_to_an_empty_document() {
    let out = import_ok("");
    assert!(out.blocks.is_empty());
    assert!(out.warnings.is_empty());
}

#[test]
fn a_large_source_imports_to_the_expected_block_count() {
    let src: String = (0..5_000).map(|i| format!("paragraph number {i}\n\n")).collect();
    let out = import_ok(&src);
    assert_eq!(out.blocks.len(), 5_000);
}

#[test]
fn every_prose_line_is_kept_inside_a_body_block() {
    let src = "first line\n- second\n   third  \n:::toc\nnot prose\n:::\n> after\n";
    let out = import_ok(src);
    let bodies: Vec<String> = out
        .blocks
        .iter()
        .filter_map(|b| match b {
            ImportedBlock::Body { text } => Some(text.clone()),
            _ => None,
        })
        .collect();
    assert_eq!(bodies, ["first line - second third", "> after"]);
    for line in ["first line", "- second", "third", "> after"] {
        assert!(bodies.iter().any(|b| b.contains(line)), "{line:?} was dropped");
    }
    let warned: Vec<usize> = out.warnings.iter().map(|w| w.line).collect();
    assert_eq!(warned, [2, 5, 7], "the list item, the line the contents block could not read, the quote");
}
