use quill::identity::{assign_missing_block_ids, footnote_numbers, footnote_order, new_block_id, reference_targets};
use quill::load::LoadError;
use quill::model::{BlockId, RunSource};

#[test]
fn ids_start_at_one_and_never_repeat() {
    let mut next = 0;
    assert_eq!(new_block_id(&mut next), BlockId(1));
    assert_eq!(new_block_id(&mut next), BlockId(2));
    assert_eq!(next, 3);
}

#[test]
fn unassigned_blocks_and_notes_get_fresh_ids_past_every_id_in_use() {
    let mut blocks = vec![BlockId(0), BlockId(7), BlockId(0)];
    let mut notes = vec![BlockId(0), BlockId(3)];
    let mut next = 2;
    assign_missing_block_ids(&mut blocks, &mut notes, &mut next).expect("no duplicates");
    assert_eq!(blocks, vec![BlockId(8), BlockId(7), BlockId(9)]);
    assert_eq!(notes, vec![BlockId(10), BlockId(3)]);
    assert_eq!(next, 11);
}

#[test]
fn a_duplicate_id_is_refused_and_nothing_changes() {
    let mut blocks = vec![BlockId(0), BlockId(5)];
    let mut notes = vec![BlockId(5)];
    let mut next = 9;
    let err = assign_missing_block_ids(&mut blocks, &mut notes, &mut next).unwrap_err();
    assert_eq!(err, LoadError::DuplicateBlockId(5));
    assert_eq!(blocks, vec![BlockId(0), BlockId(5)]);
    assert_eq!(next, 9);
}

#[test]
fn notes_are_set_in_first_anchor_order_and_numbered_without_a_hole() {
    let anchors = [BlockId(20), BlockId(10), BlockId(20), BlockId(99), BlockId(30)];
    let notes = [BlockId(10), BlockId(20), BlockId(30)];
    let order = footnote_order(&anchors, &notes);
    assert_eq!(order, vec![(BlockId(20), 1), (BlockId(10), 0), (BlockId(30), 2)]);
    let ids: Vec<BlockId> = order.iter().map(|(id, _)| *id).collect();
    let numbers = footnote_numbers(&ids);
    assert_eq!(
        numbers,
        vec![(BlockId(20), "1".to_string()), (BlockId(10), "2".to_string()), (BlockId(30), "3".to_string())]
    );
}

#[test]
fn reference_targets_are_each_block_a_reference_names() {
    let sources = [
        RunSource::Authored,
        RunSource::Reference { target: BlockId(4) },
        RunSource::Footnote { note: BlockId(9) },
        RunSource::Reference { target: BlockId(2) },
        RunSource::Reference { target: BlockId(4) },
    ];
    assert_eq!(reference_targets(&sources), vec![BlockId(4), BlockId(2)]);
}

#[test]
fn a_second_assignment_changes_nothing() {
    let mut blocks = vec![BlockId(0), BlockId(7), BlockId(0)];
    let mut notes = vec![BlockId(0)];
    let mut next = 0;
    assign_missing_block_ids(&mut blocks, &mut notes, &mut next).expect("no duplicates");
    let (first_blocks, first_notes, first_next) = (blocks.clone(), notes.clone(), next);
    assign_missing_block_ids(&mut blocks, &mut notes, &mut next).expect("still no duplicates");
    assert_eq!((blocks, notes, next), (first_blocks, first_notes, first_next));
}
