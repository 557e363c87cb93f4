use bt_preview::preview_edit::{
    backspace, byte_at_column, column_of, command, delete_forward, display_lines, eol_of, insert,
    line_bounds, line_columns, line_starts, line_text, move_caret, normalize, offset_at, select_all,
    selected_columns, with_eol, EditCaret, EditCommand, Key, Modifiers, Motion, NamedKey, WrapLayout,
};

fn at(offset: usize) -> EditCaret {
    EditCaret { anchor: offset, caret: offset, desired_column: None, desired_x: None }
}

#[test]
fn a_line_wider_than_the_pane_folds_at_a_word_and_keeps_every_column() {
    let lines = vec!["the quick brown fox jumps".to_owned()];
    let wide = WrapLayout::wrapped(&lines, 25);
    assert_eq!(wide.rows(), 1, "a line that fits is one row");
    let narrow = WrapLayout::wrapped(&lines, 12);
    assert_eq!(narrow.rows(), 3, "and folds as the pane closes on it");
    let spans: Vec<(usize, usize, usize)> = (0..narrow.rows())
        .map(|row| narrow.row_span(row).expect("every row has a span"))
        .collect();
    let text = &lines[0];
    let piece = |from: usize, to: usize| {
        text[byte_at_column(text, from)..byte_at_column(text, to).min(text.len())].to_owned()
    };
    assert_eq!(piece(spans[0].1, spans[0].2), "the quick ");
    assert_eq!(piece(spans[1].1, spans[1].2), "brown fox ");
    assert_eq!(piece(spans[2].1, spans[2].2), "jumps");
    assert!(spans.iter().all(|(line, ..)| *line == 0));
    assert_eq!(spans[0].1, 0);
    for pair in spans.windows(2) {
        assert_eq!(pair[0].2, pair[1].1, "the rows tile with no gap and no overlap");
    }
    let long = vec!["antidisestablishmentarianism".to_owned()];
    let folded = WrapLayout::wrapped(&long, 10);
    assert_eq!(folded.rows(), 3);
    assert_eq!(folded.row_span(1), Some((0, 10, 20)));
    for row in 0..narrow.rows() {
        let (line, from, to) = narrow.row_span(row).unwrap();
        for column in from..to.min(line_columns(&lines[line])) {
            assert_eq!(narrow.row_of(line, column), (row, from), "column {column} belongs to row {row}");
        }
    }
    let plain = WrapLayout::unwrapped(&lines);
    assert!(!plain.wraps());
    assert_eq!(plain.rows(), 1);
    assert_eq!(plain.row_span(0), Some((0, 0, line_columns(&lines[0]) + 1)));
}

#[test]
fn a_fold_counts_the_cells_a_character_draws_in_not_the_characters() {
    let lines = vec!["一二三四五六七八九十".to_owned()];
    let wrapped = WrapLayout::wrapped(&lines, 10);
    assert_eq!(wrapped.rows(), 2);
    assert_eq!(wrapped.row_span(0), Some((0, 0, 10)));
    assert_eq!(wrapped.row_span(1), Some((0, 10, 21)));
}

#[test]
fn a_body_ending_in_a_break_has_a_line_after_it() {
    assert_eq!(line_starts(""), vec![0]);
    assert_eq!(line_starts("a"), vec![0]);
    assert_eq!(line_starts("a\n"), vec![0, 2]);
    assert_eq!(line_starts("a\nb\n"), vec![0, 2, 4]);
    assert_eq!(display_lines("a\n"), vec!["a".to_owned(), String::new()]);
    let content = "a\r\nb\r\n";
    let starts = line_starts(content);
    assert_eq!(line_text(content, &starts, 0), "a");
    assert_eq!(line_text(content, &starts, 1), "b");
    assert_eq!(line_text(content, &starts, 2), "");
}

#[test]
fn a_column_is_measured_in_the_cells_the_line_draws_as() {
    assert_eq!(column_of("\tx", 1), 4, "a leading tab is four cells");
    assert_eq!(column_of("ab\tx", 3), 4, "two in, two to go");
    assert_eq!(column_of("\u{4f60}x", 3), 2, "a wide character is two");
    assert_eq!(byte_at_column("\tx", 4), 1);
    assert_eq!(byte_at_column("\tx", 2), 1, "inside a tab rounds forward");
    assert_eq!(byte_at_column("abc", 99), 3, "past the end is the end");
    assert_eq!(line_columns("ab\tc"), 5);
}

#[test]
fn a_caret_never_stands_inside_a_break() {
    let content = "a\r\nb";
    assert_eq!(normalize(content, 2), 1, "between \\r and \\n is before it");
    assert_eq!(normalize(content, 1), 1);
    assert_eq!(normalize(content, 3), 3);
    assert_eq!(normalize("\u{4f60}", 1), 0, "mid-character is before it");
    assert_eq!(normalize("abc", 99), 3);
}

#[test]
fn backspace_at_a_line_start_joins_the_whole_break() {
    let mut content = "one\r\ntwo".to_owned();
    let mut caret = at(5);
    assert!(backspace(&mut content, &mut caret));
    assert_eq!(content, "onetwo");
    assert_eq!(caret.caret, 3);

    let mut content = "one\ntwo".to_owned();
    let mut caret = at(4);
    assert!(backspace(&mut content, &mut caret));
    assert_eq!(content, "onetwo");

    let mut caret = at(0);
    assert!(!backspace(&mut content, &mut caret));
    assert_eq!(content, "onetwo");
}

#[test]
fn enter_writes_the_break_the_file_already_uses() {
    assert_eq!(eol_of("a\r\nb"), "\r\n");
    assert_eq!(eol_of("a\nb"), "\n");
    assert_eq!(eol_of("no breaks at all"), "\n");
    assert_eq!(eol_of("\na"), "\n");

    let mut content = "a\r\nb".to_owned();
    let mut caret = at(4);
    let eol = eol_of(&content);
    assert!(insert(&mut content, &mut caret, eol));
    assert_eq!(content, "a\r\nb\r\n");
}

#[test]
fn a_vertical_run_keeps_the_column_it_started_in() {
    let content = "long line here\nsh\nlong line here";
    let mut caret = at(10);
    move_caret(content, &mut caret, Motion::Down, false, 10);
    assert_eq!(caret.caret, 17, "the short line's end");
    move_caret(content, &mut caret, Motion::Down, false, 10);
    assert_eq!(caret.caret, 28, "and back out to column ten");
    move_caret(content, &mut caret, Motion::Left, false, 10);
    assert_eq!(caret.desired_column, None);
}

#[test]
fn shift_extends_and_a_bare_arrow_collapses() {
    let content = "abcdef";
    let mut caret = at(2);
    move_caret(content, &mut caret, Motion::Right, true, 10);
    move_caret(content, &mut caret, Motion::Right, true, 10);
    assert_eq!(caret.range(), 2..4);
    assert_eq!(caret.selected(content), "cd");
    move_caret(content, &mut caret, Motion::Left, false, 10);
    assert_eq!(caret.caret, 2);
    assert!(caret.is_empty());
}

#[test]
fn the_editor_owns_every_key_it_is_handed() {
    let ch = |text: &str| Key::Character(text.to_owned());
    let none = Modifiers { control: false, alt: false, shift: false };
    let ctrl = Modifiers { control: true, alt: false, shift: false };
    let shift = Modifiers { control: false, alt: false, shift: true };
    let ctrl_alt = Modifiers { control: true, alt: true, shift: false };
    assert_eq!(command(&ch("a"), none), EditCommand::Insert("a".to_owned()), "a letter is typed, never encoded");
    assert_eq!(command(&ch("s"), ctrl), EditCommand::Save);
    assert_eq!(command(&ch("v"), ctrl), EditCommand::Paste);
    assert_eq!(command(&Key::Named(NamedKey::Escape), none), EditCommand::Release);
    assert_eq!(command(&Key::Named(NamedKey::Tab), none), EditCommand::Tab);
    assert_eq!(command(&Key::Named(NamedKey::Enter), none), EditCommand::Newline);
    assert_eq!(
        command(&Key::Named(NamedKey::ArrowUp), shift),
        EditCommand::Move { motion: Motion::Up, extend: true }
    );
    assert_eq!(
        command(&Key::Named(NamedKey::Home), ctrl),
        EditCommand::Move { motion: Motion::DocStart, extend: false }
    );
    assert_eq!(command(&ch("\u{20ac}"), ctrl_alt), EditCommand::Insert("\u{20ac}".to_owned()));
    assert_eq!(command(&Key::Named(NamedKey::Other), none), EditCommand::Ignore);
}

#[test]
fn a_selection_band_covers_the_break_of_every_line_inside_it() {
    let content = "one\ntwo\nthree";
    let starts = line_starts(content);
    let range = 1..9;
    assert_eq!(selected_columns(content, &starts, 0, &range), Some((1, 4)));
    assert_eq!(selected_columns(content, &starts, 1, &range), Some((0, 4)));
    assert_eq!(selected_columns(content, &starts, 2, &range), Some((0, 1)));
    let empty = 3..3;
    assert_eq!(selected_columns(content, &starts, 0, &empty), None);
    let inside = 1..2;
    assert_eq!(selected_columns(content, &starts, 1, &inside), None);
}

#[test]
fn a_paste_takes_the_files_own_break() {
    assert_eq!(with_eol("a\r\nb\rc\nd", "\n"), "a\nb\nc\nd");
    assert_eq!(with_eol("a\nb", "\r\n"), "a\r\nb");
    assert_eq!(with_eol("", "\r\n"), "");
    assert_eq!(with_eol("\r\n", "\n"), "\n");
}

#[test]
fn delete_forward_takes_a_whole_break_and_stops_at_the_end() {
    let mut content = "a\r\nb".to_owned();
    let mut caret = at(1);
    assert!(delete_forward(&mut content, &mut caret));
    assert_eq!(content, "ab");
    assert_eq!(caret.caret, 1);
    let mut caret = at(2);
    assert!(!delete_forward(&mut content, &mut caret));
    assert_eq!(content, "ab");
}

#[test]
fn select_all_reaches_from_the_first_byte_to_the_last() {
    let mut caret = at(3);
    select_all("hello", &mut caret);
    assert_eq!(caret.range(), 0..5);
    assert_eq!(caret.selected("hello"), "hello");
}

#[test]
fn a_click_past_the_last_line_lands_on_it() {
    assert_eq!(offset_at("ab\ncd", 1, 1), 4);
    assert_eq!(offset_at("ab\ncd", 9, 99), 5);
    assert_eq!(offset_at("ab\ncd", 0, 99), 2);
}

#[test]
fn the_row_a_column_is_on_is_the_row_whose_span_holds_it() {
    let lines = vec!["aaaa bbbb cccc".to_owned(), "dd".to_owned()];
    let layout = WrapLayout::wrapped(&lines, 5);
    for row in 0..layout.rows() {
        let (line, from, _) = layout.row_span(row).unwrap();
        assert_eq!(layout.row_of(line, from), (row, from));
        assert_eq!(layout.line_of_row(row), Some(line));
    }
    assert_eq!(layout.row_span(layout.rows()), None);
}

#[test]
fn a_line_is_read_by_whatever_starts_it_is_handed() {
    let content = "ab\r\ncd\nef";
    let coarse = [0usize, 7];
    assert_eq!(line_bounds(content, &coarse, 0), (0, 6));
    assert_eq!(line_text(content, &coarse, 0), "ab\r\ncd");
    assert_eq!(line_bounds(content, &coarse, 1), (7, 9));
    assert_eq!(line_text(content, &coarse, 1), "ef");
    assert_eq!(selected_columns(content, &coarse, 1, &(7..8)), Some((0, 1)));
}
