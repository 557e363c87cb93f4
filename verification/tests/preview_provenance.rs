use std::ops::Range;

use bt_preview::markdown::{MarkdownBlock, Span};
use bt_preview::preview_provenance::{file_offset_of, place_of, BlockOrigins, Origin, TextOrigin};
use bt_preview::preview_select::{pieces, Place};

/// `a **bold** b\n`: one paragraph drawn as `a bold b`, the stars undrawn.
fn bold_page() -> (Vec<MarkdownBlock>, Vec<Range<usize>>, Vec<BlockOrigins>) {
    let mut map = TextOrigin::new();
    map.copied(0, 2);
    map.copied(4, 4);
    map.copied(10, 2);
    let blocks = vec![MarkdownBlock::Paragraph(vec![Span::plain("a bold b")])];
    (blocks, vec![0..13], vec![BlockOrigins::one(map)])
}

#[test]
fn a_walk_a_character_at_a_time_leaves_one_run() {
    let mut map = TextOrigin::new();
    for i in 0..5 {
        map.copied(10 + i, 1);
    }
    map.drawn(2);
    map.drawn(1);
    assert_eq!(map.len(), 8);
    assert!(!map.is_empty());
    assert_eq!(map.origin_of(4), Some(Origin::File(14)));
    assert_eq!(map.origin_of(5), Some(Origin::Drawn));
    assert_eq!(map.origin_of(8), None);
    assert_eq!(map, {
        let mut whole = TextOrigin::slice(10, 5);
        whole.drawn(3);
        whole
    });
}

#[test]
fn a_copied_byte_is_found_where_it_was_drawn() {
    let (_, _, maps) = bold_page();
    let map = &maps[0].pieces[0];
    assert_eq!(map.text_of(4), Some(2));
    assert_eq!(map.text_of(2), None, "a star is not drawn");
    assert_eq!(map.text_of(11), Some(7));
}

#[test]
fn a_map_read_through_another_lands_in_the_file() {
    // A span drawing bytes 2..6 of its block's text, and the block's text
    // copying the file from 100 with one drawn space at 4.
    let inner = TextOrigin::slice(2, 4);
    let mut outer = TextOrigin::slice(100, 4);
    outer.drawn(1);
    outer.copied(200, 5);
    let through = inner.through(&outer);
    assert_eq!(through.origin_of(0), Some(Origin::File(102)));
    assert_eq!(through.origin_of(1), Some(Origin::File(103)));
    assert_eq!(through.origin_of(2), Some(Origin::Drawn));
    assert_eq!(through.origin_of(3), Some(Origin::File(200)));
    let mut appended = TextOrigin::new();
    appended.append(&through);
    assert_eq!(appended, through);
}

/// One paragraph drawn as `text`, copying the file in `copies` (file
/// offset, length), whose block covers `len` bytes of the file.
fn page(text: &str, copies: &[(usize, usize)], len: usize) -> (Vec<MarkdownBlock>, Vec<Range<usize>>, Vec<BlockOrigins>) {
    let mut map = TextOrigin::new();
    for &(from, n) in copies {
        map.copied(from, n);
    }
    let blocks = vec![MarkdownBlock::Paragraph(vec![Span::plain(text)])];
    (blocks, vec![0..len], vec![BlockOrigins::one(map)])
}

#[test]
fn a_caret_at_the_edge_of_a_mark_resolves_outside_it() {
    for (src, (blocks, ranges, maps), text, edges) in [
        // `a **bold** b`: after `bold` is after the closing `**`.
        ("a **bold** b\n", bold_page(), "a bold b", vec![(2usize, 4usize), (6, 10)]),
        // A code span: after `code` is after the closing backtick.
        ("a `code` b\n", page("a code b", &[(0, 2), (3, 4), (8, 2)], 11), "a code b", vec![(2, 3), (6, 8)]),
        // A link: the label's ends are the label's, and the space after it is
        // the space the file has after the target, not inside it.
        ("a [word](u) b\n", page("a word b", &[(0, 2), (3, 4), (11, 2)], 14), "a word b", vec![(2, 3), (6, 11)]),
    ] {
        let all = pieces(&blocks);
        assert_eq!(all[0].text, text, "{src:?}: the page draws this");
        for (offset, expected) in edges {
            let place = Place::new(0, 0, offset);
            assert_eq!(
                file_offset_of(&place, &blocks, &ranges, &maps),
                Some(expected),
                "{src:?}: the caret at {offset} does not stand at {expected}"
            );
        }
    }
    let (blocks, ranges, maps) = bold_page();
    assert_eq!(file_offset_of(&Place::new(0, 0, 8), &blocks, &ranges, &maps), Some(12));
    assert_eq!(file_offset_of(&Place::new(0, 1, 0), &blocks, &ranges, &maps), None);
}

#[test]
fn a_source_byte_inside_a_mark_rounds_to_a_drawn_place() {
    let (blocks, ranges, maps) = bold_page();
    for (offset, expected) in [(2usize, Place::new(0, 0, 2)), (3, Place::new(0, 0, 2)), (8, Place::new(0, 0, 6)), (9, Place::new(0, 0, 6))] {
        assert_eq!(place_of(offset, &blocks, &ranges, &maps), Some(expected), "byte {offset}");
    }
    assert_eq!(place_of(5, &blocks, &ranges, &maps), Some(Place::new(0, 0, 3)));
}

#[test]
fn a_byte_between_blocks_answers_with_the_next_block_that_has_words() {
    let blocks = vec![
        MarkdownBlock::Paragraph(vec![Span::plain("one")]),
        MarkdownBlock::Rule,
        MarkdownBlock::Paragraph(vec![Span::plain("two")]),
    ];
    let ranges = vec![0..4, 5..9, 10..14];
    let maps = vec![
        BlockOrigins::one(TextOrigin::slice(0, 3)),
        BlockOrigins::none(),
        BlockOrigins::one(TextOrigin::slice(10, 3)),
    ];
    assert_eq!(place_of(4, &blocks, &ranges, &maps), Some(Place::new(2, 0, 0)), "the tissue");
    assert_eq!(place_of(6, &blocks, &ranges, &maps), Some(Place::new(2, 0, 0)), "inside the rule");
    assert_eq!(place_of(99, &blocks, &ranges, &maps), Some(Place::new(2, 0, 3)), "past the end");
    assert_eq!(place_of(11, &blocks, &ranges, &maps), Some(Place::new(2, 0, 1)));
    assert_eq!(place_of(0, &[], &[], &[]), None);
}

#[test]
fn copies_contiguous_in_both_texts_are_one_run() {
    let mut joined = TextOrigin::slice(10, 4);
    joined.append(&TextOrigin::slice(14, 3));
    assert_eq!(joined, TextOrigin::slice(10, 7));
    let mut drawn = TextOrigin::new();
    drawn.drawn(2);
    drawn.drawn(3);
    let mut once = TextOrigin::new();
    once.drawn(5);
    assert_eq!(drawn, once);
    let mut same = TextOrigin::slice(3, 2);
    let before = same.clone();
    same.copied(40, 0);
    same.drawn(0);
    assert_eq!(same, before);
}
