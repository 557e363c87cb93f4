use bt_preview::preview_viewport::{band, forget_bands, map_byte, next_record, Edit, PictureReach, Record};

#[test]
fn a_position_before_a_replacement_stays_and_one_after_moves_by_the_difference() {
    let edit = Edit { at: 10, removed: 4, inserted: 7 };
    assert_eq!(edit.map(3, false), 3);
    assert_eq!(edit.map(3, true), 3);
    assert_eq!(edit.map(14, false), 17);
    assert_eq!(edit.map(20, true), 23);
}

#[test]
fn a_position_inside_the_removed_bytes_goes_to_an_end_of_the_inserted_ones() {
    let edit = Edit { at: 10, removed: 4, inserted: 7 };
    assert_eq!(edit.map(12, false), 10);
    assert_eq!(edit.map(12, true), 17);
    assert_eq!(edit.map(10, false), 10);
    assert_eq!(edit.map(10, true), 17);
}

#[test]
fn an_insertion_pushes_a_downstream_position_past_it() {
    let edit = Edit { at: 5, removed: 0, inserted: 3 };
    assert_eq!(edit.map(5, false), 5);
    assert_eq!(edit.map(5, true), 8);
    assert_eq!(edit.map(6, false), 9);
}

#[test]
fn a_run_of_replacements_applies_in_order() {
    let edits = [
        Edit { at: 0, removed: 0, inserted: 2 },
        Edit { at: 4, removed: 3, inserted: 0 },
    ];
    // 5 -> 7 after the first, then inside the removed 4..7 -> 4.
    assert_eq!(map_byte(5, &edits, false), 4);
    assert_eq!(map_byte(5, &edits, true), 4);
    assert_eq!(map_byte(9, &edits, false), 8);
    assert_eq!(map_byte(9, &[], true), 9);
}

#[test]
fn positions_keep_their_order_through_replacements() {
    let edits = [
        Edit { at: 3, removed: 5, inserted: 1 },
        Edit { at: 0, removed: 2, inserted: 9 },
        Edit { at: 7, removed: 0, inserted: 4 },
    ];
    for downstream in [false, true] {
        let mut last = 0;
        for at in 0..30 {
            let now = map_byte(at, &edits, downstream);
            assert!(now >= last, "{at} fell behind");
            last = now;
        }
    }
}

use bt_preview::preview_viewport::remap_blocks;

#[test]
fn an_edit_inside_a_block_keeps_every_occurrence() {
    let old = [0..5, 6..10, 11..20];
    let edits = [Edit { at: 7, removed: 0, inserted: 3 }];
    let new = [0..5, 6..13, 14..23];
    assert_eq!(remap_blocks(&old, 3, &new, &edits), vec![Some(0), Some(1), Some(2)]);
}

#[test]
fn a_duplicate_inserted_above_is_a_new_block_and_the_old_ones_move_down() {
    let old = [0..4, 5..9];
    let edits = [Edit { at: 0, removed: 0, inserted: 5 }];
    let new = [0..4, 5..9, 10..14];
    assert_eq!(remap_blocks(&old, 2, &new, &edits), vec![None, Some(0), Some(1)]);
}

#[test]
fn a_deleted_block_is_nobodys_occurrence() {
    let old = [0..4, 5..9, 10..14];
    let edits = [Edit { at: 5, removed: 5, inserted: 0 }];
    let new = [0..4, 5..9];
    assert_eq!(remap_blocks(&old, 3, &new, &edits), vec![Some(0), Some(2)]);
}

#[test]
fn a_block_that_grew_at_one_end_is_found_by_the_other() {
    // The first block gains a line at its end: its old range now ends inside
    // the new one and starts where it starts.
    let old = [0..4, 6..9];
    let edits = [Edit { at: 4, removed: 0, inserted: 3 }];
    let new = [0..7, 9..12];
    assert_eq!(remap_blocks(&old, 2, &new, &edits), vec![Some(0), Some(1)]);
    // A block that merged with its neighbour is found once, by its end.
    let new = [0..12];
    assert_eq!(remap_blocks(&old, 2, &new, &edits), vec![Some(1)]);
}

#[test]
fn only_the_live_old_blocks_can_be_found() {
    let old = [0..4, 5..9];
    let new = [0..4, 5..9];
    assert_eq!(remap_blocks(&old, 1, &new, &[]), vec![Some(0), None]);
    assert_eq!(remap_blocks(&old, 0, &new, &[]), vec![None, None]);
}

use bt_preview::preview_viewport::{remap_anchor, AnchorMove};

#[test]
fn an_anchor_with_no_blocks_goes_to_the_top() {
    assert_eq!(remap_anchor(&[], 3, 0, Some(2), &[0..4], &[], &[]), AnchorMove::Reset);
}

#[test]
fn an_anchor_whose_block_survived_stays_in_it() {
    let ranges = [0..4, 5..9, 10..14];
    assert_eq!(
        remap_anchor(&[10, 11, 12], 11, 1, Some(6), &ranges, &ranges, &[]),
        AnchorMove::Stay { index: 1 }
    );
    assert_eq!(
        remap_anchor(&[10, 11, 12], 12, 2, None, &ranges, &ranges, &[]),
        AnchorMove::Stay { index: 2 }
    );
}

#[test]
fn a_deleted_anchor_falls_forward_to_the_surviving_block() {
    let old = [0..4, 5..9, 10..14];
    let edits = [Edit { at: 5, removed: 5, inserted: 0 }];
    let new = [0..4, 5..9];
    assert_eq!(
        remap_anchor(&[10, 12], 99, 1, None, &old, &new, &edits),
        AnchorMove::Move { index: 1, id: 12, forget: true }
    );
}

#[test]
fn an_anchor_whose_byte_left_its_block_follows_the_byte() {
    let ranges = [0..4, 5..9];
    assert_eq!(
        remap_anchor(&[10, 11], 10, 0, Some(7), &ranges, &ranges, &[]),
        AnchorMove::Move { index: 1, id: 11, forget: false }
    );
    // Past the last block, it lands on the last block.
    assert_eq!(
        remap_anchor(&[10, 11], 10, 0, Some(30), &ranges, &ranges, &[]),
        AnchorMove::Move { index: 1, id: 11, forget: false }
    );
}

#[test]
fn a_reused_block_keeps_its_id_and_stays_exact_only_while_nothing_moved() {
    let old = Record { id: 7, exact: true, intrinsic: true };
    assert_eq!(
        next_record(Some(old), Some(7), true, true, true, false, 9),
        (Record { id: 7, exact: true, intrinsic: true }, 9)
    );
    assert_eq!(
        next_record(Some(old), Some(7), false, true, true, false, 9),
        (Record { id: 7, exact: false, intrinsic: true }, 9)
    );
    assert_eq!(
        next_record(Some(old), Some(7), true, true, true, true, 9),
        (Record { id: 7, exact: false, intrinsic: false }, 9)
    );
    assert_eq!(
        next_record(None, Some(7), true, true, true, false, 9),
        (Record { id: 7, exact: false, intrinsic: false }, 10)
    );
    assert_eq!(
        next_record(None, None, true, true, true, false, 9),
        (Record { id: 10, exact: false, intrinsic: false }, 10)
    );
}

#[test]
fn both_picture_bands_are_measured_again_when_the_reach_moves() {
    let images = [1usize, 3, 5, 7];
    let exact = Record { id: 0, exact: true, intrinsic: true };
    let mut records = vec![exact; 8];
    let unknown = forget_bands(
        &mut records,
        &images,
        PictureReach { first: 0, last: 1 },
        PictureReach { first: 2, last: 2 },
    );
    assert_eq!(unknown, vec![1, 3, 5]);
    for (index, record) in records.iter().enumerate() {
        assert_eq!(record.exact, !unknown.contains(&index), "block {index}");
        assert!(record.intrinsic, "widths are not a height");
    }
    assert_eq!(band(&images, PictureReach { first: 3, last: 1 }), vec![7], "one picture when the band is empty");
    assert_eq!(band(&images, PictureReach { first: 9, last: 12 }), Vec::<usize>::new());
    assert_eq!(band(&images, PictureReach { first: 2, last: 40 }), vec![5, 7]);
}
