use std::ops::Range;

use bt_preview::preview_edit::{display_lines, EditCaret, Motion, WrapLayout};
use bt_preview::preview_live::{block_source, caret_seat, place_in_block, step_by_row, BlockRows, CaretSeat};

fn ranges(spans: &[(usize, usize)]) -> Vec<Range<usize>> {
    spans.iter().map(|(from, to)| *from..*to).collect()
}

fn folded(content: &str, range: &Range<usize>, columns: Option<usize>) -> (String, WrapLayout) {
    let text = block_source(content, range).to_owned();
    let lines = display_lines(&text);
    let wrap = match columns {
        Some(columns) => WrapLayout::wrapped(&lines, columns),
        None => WrapLayout::unwrapped(&lines),
    };
    (text, wrap)
}

fn caret_at(offset: usize) -> EditCaret {
    EditCaret { anchor: offset, caret: offset, desired_column: None, desired_x: None }
}

#[test]
fn the_block_that_owns_a_caret_is_the_one_whose_range_holds_it() {
    let text = "one\n\ntwo\n";
    let spans = ranges(&[(0, 4), (5, 9)]);
    assert_eq!(caret_seat(text, &spans, 0), CaretSeat::Block(0), "at the start");
    assert_eq!(caret_seat(text, &spans, 2), CaretSeat::Block(0), "inside");
    assert_eq!(caret_seat(text, &spans, 3), CaretSeat::Block(0));
    assert_eq!(caret_seat(text, &spans, 4), CaretSeat::Gap { after: Some(0) });
    assert_eq!(caret_seat(text, &spans, 5), CaretSeat::Block(1), "the next block");
    assert_eq!(caret_seat(text, &spans, 9), CaretSeat::Gap { after: Some(1) });
}

#[test]
fn adjacent_blocks_hand_the_caret_straight_over() {
    let text = "# head\ntext\n";
    let spans = ranges(&[(0, 7), (7, 12)]);
    assert_eq!(caret_seat(text, &spans, 6), CaretSeat::Block(0));
    assert_eq!(caret_seat(text, &spans, 7), CaretSeat::Block(1));
    assert_eq!(caret_seat("", &[], 0), CaretSeat::Gap { after: None });
    assert_eq!(caret_seat(text, &spans, 0), CaretSeat::Block(0));
}

#[test]
fn a_caret_in_front_of_every_block_is_a_gap_under_nothing() {
    let text = "\n\n\n\ntext\n";
    let spans = ranges(&[(4, 8)]);
    assert_eq!(caret_seat(text, &spans, 0), CaretSeat::Gap { after: None });
    assert_eq!(caret_seat(text, &spans, 3), CaretSeat::Gap { after: None });
    assert_eq!(caret_seat(text, &spans, 4), CaretSeat::Block(0));
}

#[test]
fn the_end_of_an_unterminated_last_block_is_that_blocks_own() {
    let content = "abc";
    let spans = ranges(&[(0, 3)]);
    assert_eq!(caret_seat(content, &spans, 3), CaretSeat::Block(0));
    assert_eq!(place_in_block(content, &spans, 0, 3), Some((0, 3)));
    let ended = "abc\n";
    let spans = ranges(&[(0, 4)]);
    assert_eq!(caret_seat(ended, &spans, 4), CaretSeat::Gap { after: Some(0) });
    assert_eq!(caret_seat(ended, &spans, 3), CaretSeat::Block(0));
    assert_eq!(place_in_block(ended, &spans, 0, 3), Some((0, 3)));
    let two = "one\n\ntwo";
    let spans = ranges(&[(0, 4), (5, 8)]);
    assert_eq!(caret_seat(two, &spans, 4), CaretSeat::Gap { after: Some(0) });
    assert_eq!(caret_seat(two, &spans, 8), CaretSeat::Block(1));
    assert_eq!(place_in_block(two, &spans, 1, 8), Some((0, 3)));
    let crlf = "one\r\n\r\ntwo";
    let spans = ranges(&[(0, 5), (7, 10)]);
    assert_eq!(caret_seat(crlf, &spans, 10), CaretSeat::Block(1));
    assert_eq!(place_in_block(crlf, &spans, 1, 10), Some((0, 3)));
    assert_eq!(place_in_block(crlf, &spans, 0, 3), Some((0, 3)));
}

#[test]
fn a_byte_of_a_block_answers_with_its_row_and_column() {
    let content = "# head\r\n\r\none\r\ntwo\r\n";
    let spans = ranges(&[(0, 8), (10, 20)]);
    assert_eq!(place_in_block(content, &spans, 0, 2), Some((0, 2)));
    assert_eq!(place_in_block(content, &spans, 0, 6), Some((0, 6)));
    assert_eq!(place_in_block(content, &spans, 1, 15), Some((1, 0)));
    assert_eq!(place_in_block(content, &spans, 1, 18), Some((1, 3)));
    assert_eq!(place_in_block(content, &spans, 0, 12), None);
    assert_eq!(place_in_block(content, &spans, 9, 2), None, "no such block");
}

#[test]
fn a_caret_inside_a_break_is_pulled_off_it() {
    let content = "one\r\ntwo\r\n";
    let spans = ranges(&[(0, 10)]);
    assert_eq!(place_in_block(content, &spans, 0, 4), Some((0, 3)));
}

#[test]
fn a_blocks_source_drops_its_own_ending_and_nothing_else() {
    assert_eq!(block_source("para\n", &(0..5)), "para");
    assert_eq!(block_source("para\r\n", &(0..6)), "para");
    assert_eq!(block_source("para", &(0..4)), "para", "a last line with no break");
    assert_eq!(
        block_source("```\n\na\n```\n", &(0..11)),
        "```\n\na\n```",
        "a blank line inside a fence is the file's and stays",
    );
    assert_eq!(block_source("para  \n", &(0..7)), "para  ", "trailing whitespace is the file's too");
}

#[test]
fn a_row_and_a_column_of_the_source_block_name_a_file_byte() {
    let content = "# head\n\nthe paragraph\n";
    let (text, wrap) = folded(content, &(8..22), None);
    let rows = BlockRows { text: &text, start: 8, wrap: &wrap };
    assert_eq!(rows.offset_at(0, 0), 8, "the block's first byte");
    assert_eq!(rows.offset_at(0, 4), 12, "four columns in");
    assert_eq!(rows.offset_at(0, 900), 21);
    assert_eq!(rows.offset_at(9, 0), 21);
    assert_eq!(rows.row_of(12), Some((0, 4)), "and back again");
    assert_eq!(rows.row_of(3), None, "a byte of another block is not ours");
}

#[test]
fn a_folded_line_answers_in_the_rows_it_draws_as() {
    let content = "aaa bbb ccc ddd\n";
    let (text, wrap) = folded(content, &(0..16), Some(7));
    let rows = BlockRows { text: &text, start: 0, wrap: &wrap };
    assert!(wrap.rows() > 1, "the fixture has to actually fold");
    let (row, column) = rows.row_of(9).expect("inside the block");
    assert!(row > 0);
    assert_eq!(rows.offset_at(row, column), 9);
}

#[test]
fn down_out_of_the_bottom_row_walks_into_what_is_under_it() {
    let content = "one\n\ntwo\n";
    let spans = ranges(&[(0, 4), (5, 9)]);
    let (text, wrap) = folded(content, &spans[0], None);
    let rows = BlockRows { text: &text, start: spans[0].start, wrap: &wrap };
    let mut caret = caret_at(1);
    assert!(step_by_row(content, Some(rows), &mut caret, Motion::Down, 10));
    assert_eq!(caret.caret, 4, "the blank line between the two paragraphs");
    assert_eq!(caret_seat(content, &spans, caret.caret), CaretSeat::Gap { after: Some(0) });
    assert!(step_by_row(content, None, &mut caret, Motion::Down, 10));
    assert_eq!(caret.caret, 6, "one column into the second paragraph");
    assert_eq!(caret_seat(content, &spans, caret.caret), CaretSeat::Block(1));
}

#[test]
fn up_out_of_the_top_row_lands_above_and_keeps_the_column() {
    let content = "a long first line\nx\nthe third line\n";
    let spans = ranges(&[(0, 35)]);
    let (text, wrap) = folded(content, &spans[0], None);
    let rows = BlockRows { text: &text, start: spans[0].start, wrap: &wrap };
    let mut caret = caret_at(26);
    assert_eq!(rows.row_of(26), Some((2, 6)), "six columns into line three");
    assert!(step_by_row(content, Some(rows), &mut caret, Motion::Up, 10));
    assert_eq!(caret.caret, 19, "the short line, at its end");
    assert!(step_by_row(content, Some(rows), &mut caret, Motion::Up, 10));
    assert_eq!(caret.caret, 6, "and the column comes back on the long one");
}

#[test]
fn a_caret_in_a_gap_walks_the_files_lines() {
    let content = "one\n\ntwo\n";
    let mut caret = caret_at(4);
    assert!(step_by_row(content, None, &mut caret, Motion::Up, 10));
    assert_eq!(caret.caret, 0, "the paragraph above it");
    assert!(!step_by_row(content, None, &mut caret, Motion::Left, 10));
    assert_eq!(caret.caret, 0, "a horizontal motion is not this one's");
}

#[test]
fn a_page_step_walks_a_screenful_of_lines() {
    let content = "a\nb\nc\nd\ne\n";
    let mut caret = caret_at(0);
    assert!(step_by_row(content, None, &mut caret, Motion::PageDown, 3));
    assert_eq!(caret.caret, 6, "three lines down");
    assert!(step_by_row(content, None, &mut caret, Motion::PageDown, 0));
    assert_eq!(caret.caret, 8, "a page is never less than one row");
    assert!(step_by_row(content, None, &mut caret, Motion::PageDown, 100));
    assert_eq!(caret.caret, 10, "off the bottom is the end");
}

#[test]
fn every_boundary_of_a_folded_block_reads_back_through_its_row() {
    let content = "wörds that fold\nné ok\n";
    let (text, wrap) = folded(content, &(0..content.len()), Some(6));
    let rows = BlockRows { text: &text, start: 0, wrap: &wrap };
    assert!(wrap.rows() > 2, "the fixture has to actually fold");
    for offset in 0..=text.len() {
        if !text.is_char_boundary(offset) {
            continue;
        }
        let (row, column) = rows.row_of(offset).expect("inside the block");
        assert_eq!(rows.offset_at(row, column), offset, "offset {offset}");
    }
    assert_eq!(rows.row_of(text.len() + 1), None);
}
