use bt_preview::preview_text::{EditTarget, EditText, LineIndex, Text};

#[test]
fn an_index_measures_every_line_with_its_tabs_expanded() {
    let index = LineIndex::new("a\tb\nwide \u{5b57}\n");
    assert_eq!(index.starts, vec![0, 4, 13]);
    // "a" then a tab to the next stop of four, then "b"; five plain cells and
    // one wide character; the empty line after the last break.
    assert_eq!(index.max_columns(), 7);
    assert_eq!(LineIndex::new("").max_columns(), 0);
    assert_eq!(LineIndex::new("").starts, vec![0]);
}

#[test]
fn a_replacement_leaves_the_index_a_rebuild_would_make() {
    let before = "one\ntwo\nthree";
    let mut index = LineIndex::new(before);
    let after = "one\n2\n22\n222\nthree";
    index.replace(after, 4, 3, "2\n22\n222");
    assert_eq!(index, LineIndex::new(after));
    assert_eq!(index.starts, vec![0, 4, 6, 9, 13]);
    assert_eq!(index.max_columns(), 5);
}

#[test]
fn a_replacement_that_joins_lines_drops_their_starts() {
    let mut index = LineIndex::new("alpha\nbeta\ngamma\ndelta");
    let after = "alpdelta";
    index.replace(after, 3, 15, "");
    assert_eq!(index, LineIndex::new(after));
    assert_eq!(index.starts, vec![0]);
    assert_eq!(index.max_columns(), 8);
}

#[test]
fn a_run_of_edits_keeps_the_index_level_with_the_body() {
    let mut body = String::from("# title\n\nsome\ttext\nmore\r\nlast");
    let mut index = LineIndex::new(&body);
    let pieces = ["x", "\n", "\t\t", "\u{5b57}\n\u{5b57}", "", "ab\ncd\nef"];
    let mut seed: usize = 7;
    for step in 0..60 {
        seed = seed.wrapping_mul(1_103_515_245).wrapping_add(12_345) % 2_147_483_648;
        let len = body.len();
        let mut at = if len == 0 { 0 } else { seed % (len + 1) };
        while !body.is_char_boundary(at) {
            at -= 1;
        }
        let mut end = at + (seed / 7) % 5;
        if end > len {
            end = len;
        }
        while !body.is_char_boundary(end) {
            end -= 1;
        }
        let inserted = pieces[step % pieces.len()];
        body.replace_range(at..end, inserted);
        index.replace(&body, at, end - at, inserted);
        assert_eq!(index, LineIndex::new(&body), "after step {step}");
    }
}

#[test]
fn an_edit_records_the_smallest_change_at_its_place() {
    let mut body = String::from("hello world");
    let mut edit = EditText::new(&mut body);
    edit.replace(6..11, "wordy");
    let change = edit.change.clone().expect("the text changed");
    // "world" and "wordy" share "wor"; what differs is "ld" against "dy".
    assert_eq!(change.at, 9);
    assert_eq!(change.removed, "ld");
    assert_eq!(change.inserted, "dy");
    assert_eq!(&*edit, "hello wordy");
    drop(edit);
    assert_eq!(body, "hello wordy");
}

#[test]
fn an_edit_that_changes_nothing_records_nothing() {
    let mut body = String::from("same");
    let mut edit = EditText::new(&mut body);
    edit.replace(1..3, "am");
    assert!(edit.change.is_none());
    assert_eq!(&*edit, "same");
}

#[test]
fn a_string_is_an_edit_target_too() {
    let mut body = String::from("caf\u{e9} au lait");
    EditTarget::replace(&mut body, 0..5, "tea");
    assert_eq!(body, "tea au lait");
}

#[test]
fn a_snapshot_keeps_its_text_when_the_text_is_written() {
    let mut text = Text::from(String::from("draft"));
    let snapshot = text.clone();
    text.make_mut().push_str(" two");
    assert_eq!(&*text, "draft two");
    assert_eq!(&*snapshot, "draft");
}
