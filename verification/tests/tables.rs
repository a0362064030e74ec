use quill::components::{column_count, format_range, range_table_cells, RangeEntry, RangeTable, SplitDef, SplitGranularity};
use quill::ttrpg::{random_table_cells, RandomTable, TableEntry};

fn d6_table() -> RandomTable {
    RandomTable {
        die: 6,
        entries: vec![
            TableEntry { low: 1, high: 3, result: "Goblins".into() },
            TableEntry { low: 4, high: 6, result: "Bandits".into() },
        ],
    }
}

fn six_way_table() -> RangeTable {
    RangeTable {
        max: 6,
        label: String::new(),
        entries: vec![
            RangeEntry { low: 1, high: 3, value: "Goblins".into() },
            RangeEntry { low: 4, high: 6, value: "Bandits".into() },
        ],
    }
}

#[test]
fn lookup_finds_the_covering_entry() {
    let t = d6_table();
    assert_eq!(t.lookup(2), Some("Goblins"));
    assert_eq!(t.lookup(5), Some("Bandits"));
    assert_eq!(t.lookup(7), None);
}

#[test]
fn completeness_detects_gaps() {
    assert!(d6_table().is_complete());
    let gappy = RandomTable {
        die: 6,
        entries: vec![TableEntry { low: 1, high: 3, result: "x".into() }],
    };
    assert!(!gappy.is_complete());
}

#[test]
fn lib_lookup_finds_the_covering_entry() {
    let t = six_way_table();
    assert_eq!(t.lookup(2), Some("Goblins"));
    assert_eq!(t.lookup(5), Some("Bandits"));
    assert_eq!(t.lookup(7), None);
}

#[test]
fn lib_completeness_detects_gaps() {
    assert!(six_way_table().is_complete());
    let gappy = RangeTable {
        max: 6,
        label: String::new(),
        entries: vec![RangeEntry { low: 1, high: 3, value: "x".into() }],
    };
    assert!(!gappy.is_complete());
}

#[test]
fn completeness_refuses_overlaps_out_of_order_entries_and_empty_ranges() {
    let entry = |low: u32, high: u32| RangeEntry { low, high, value: "v".into() };
    let table = |max: u32, entries: Vec<RangeEntry>| RangeTable { max, label: String::new(), entries };
    // Listed out of order is still a partition.
    assert!(table(6, vec![entry(4, 6), entry(1, 3)]).is_complete());
    // Overlap, an empty range, a range past the end, a short chain.
    assert!(!table(6, vec![entry(1, 4), entry(4, 6)]).is_complete());
    assert!(!table(6, vec![entry(1, 6), entry(4, 3)]).is_complete());
    assert!(!table(6, vec![entry(1, 7)]).is_complete());
    assert!(!table(6, vec![entry(1, 5)]).is_complete());
    // A zero-width table is complete with no entries, and with any entry it is not.
    assert!(table(0, vec![]).is_complete());
    assert!(!table(0, vec![entry(1, 1)]).is_complete());
    // The largest bound is handled without overflow.
    assert!(table(u32::MAX, vec![entry(1, u32::MAX)]).is_complete());
    assert!(!table(u32::MAX, vec![entry(1, u32::MAX), entry(u32::MAX, u32::MAX)]).is_complete());
}

#[test]
fn a_complete_table_answers_every_number_in_range() {
    let t = RangeTable {
        max: 10,
        label: String::new(),
        entries: vec![
            RangeEntry { low: 6, high: 10, value: "high".into() },
            RangeEntry { low: 1, high: 5, value: "low".into() },
        ],
    };
    assert!(t.is_complete());
    for n in 1..=10 {
        let expected = if n <= 5 { "low" } else { "high" };
        assert_eq!(t.lookup(n), Some(expected));
    }
    assert_eq!(t.lookup(0), None);
    assert_eq!(t.lookup(11), None);
}

#[test]
fn a_single_value_range_is_written_alone() {
    assert_eq!(format_range(7, 7), "7");
    assert_eq!(format_range(11, 25), "11-25");
    assert_eq!(format_range(1, 10), "1-10");
}

#[test]
fn a_split_prefers_sections_by_default() {
    let d = SplitDef::default();
    assert_eq!(d.granularity, SplitGranularity::Sections);
    assert_eq!(d.min_items, 1);
    assert!(d.keep_together);
}

#[test]
fn a_random_table_renders_as_range_and_result() {
    let t = RandomTable {
        die: 100,
        entries: vec![
            TableEntry { low: 1, high: 10, result: "Nothing".into() },
            TableEntry { low: 11, high: 11, result: "A single".into() },
        ],
    };
    let (header, rows) = random_table_cells(&t);
    assert_eq!(header, vec!["d100".to_string(), "Result".to_string()]);
    assert_eq!(rows[0][0], "1-10");
    assert_eq!(rows[1][0], "11", "a one-value range must not read `11-11`");
    assert_eq!(rows[1][1], "A single");
}

#[test]
fn a_range_table_renders_as_range_and_value() {
    let t = RangeTable {
        max: 100,
        label: String::new(),
        entries: vec![
            RangeEntry { low: 1, high: 10, value: "Nothing".into() },
            RangeEntry { low: 11, high: 11, value: "A single".into() },
        ],
    };
    let (header, rows) = range_table_cells(&t);
    assert_eq!(
        header,
        vec!["1\u{2013}100".to_string(), "Result".to_string()],
        "an unlabelled range table heads column 0 with its own bounds, not with a die"
    );
    assert_eq!(rows[0][0], "1-10");
    assert_eq!(rows[1][0], "11", "a one-value range must not read `11-11`");

    // The genre is content, not mechanism: a roll table says so by labelling itself.
    let rolled = RangeTable { label: "d100".into(), ..t };
    assert_eq!(range_table_cells(&rolled).0, vec!["d100".to_string(), "Result".to_string()]);
}

#[test]
fn column_count_follows_the_widest_row() {
    let rows: Vec<Vec<String>> = vec![vec!["a".into()], vec!["a".into(), "b".into(), "c".into()]];
    assert_eq!(column_count(&None, &rows), 3);
    assert_eq!(column_count(&None, &Vec::new()), 0);
}

#[test]
fn lib_column_count_follows_the_widest_row() {
    let rows: Vec<Vec<String>> = vec![vec!["a".into()], vec!["a".into(), "b".into(), "c".into()]];
    assert_eq!(column_count(&None, &rows), 3);
    assert_eq!(column_count(&None, &Vec::new()), 0);
}

#[test]
fn a_header_wider_than_every_row_sets_the_column_count() {
    let header = Some(vec!["a".to_string(), "b".to_string(), "c".to_string(), "d".to_string()]);
    let rows: Vec<Vec<String>> = vec![vec!["a".into(), "b".into()]];
    assert_eq!(column_count(&header, &rows), 4);
    let narrow = Some(vec!["a".to_string()]);
    assert_eq!(column_count(&narrow, &rows), 2);
}
