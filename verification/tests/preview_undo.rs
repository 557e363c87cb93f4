use bt_preview::preview_edit::{self, normalize, EditCaret};
use bt_preview::preview_undo::{Change, UndoLog};

fn collapsed(offset: usize) -> EditCaret {
    EditCaret { anchor: offset, caret: offset, desired_column: None, desired_x: None }
}

fn type_in(log: &mut UndoLog, content: &mut String, caret: &mut EditCaret, text: &str) {
    let was = content.clone();
    let before = *caret;
    preview_edit::insert(content, caret, text);
    if let Some(change) = Change::between(&was, content, before, *caret) {
        log.record(change);
    }
}

fn backspace(log: &mut UndoLog, content: &mut String, caret: &mut EditCaret) {
    let was = content.clone();
    let before = *caret;
    preview_edit::backspace(content, caret);
    if let Some(change) = Change::between(&was, content, before, *caret) {
        log.record(change);
    }
}

fn delete(log: &mut UndoLog, content: &mut String, caret: &mut EditCaret) {
    let was = content.clone();
    let before = *caret;
    preview_edit::delete_forward(content, caret);
    if let Some(change) = Change::between(&was, content, before, *caret) {
        log.record(change);
    }
}

fn typed(log: &mut UndoLog, content: &mut String, caret: &mut EditCaret, word: &str) {
    for glyph in word.chars() {
        type_in(log, content, caret, &glyph.to_string());
    }
}

#[test]
fn a_run_of_typing_is_one_entry() {
    let mut log = UndoLog::default();
    let mut content = String::new();
    let mut caret = EditCaret::default();
    typed(&mut log, &mut content, &mut caret, "hello");
    assert_eq!(content, "hello");
    assert_eq!(log.depth(), 1, "five keystrokes, one run");
    assert_eq!(log.undo(&mut content), Some(collapsed(0)));
    assert_eq!(content, "");
    assert!(!log.can_undo());
}

#[test]
fn a_caret_jump_starts_a_new_entry() {
    let mut log = UndoLog::default();
    let mut content = String::new();
    let mut caret = EditCaret::default();
    typed(&mut log, &mut content, &mut caret, "world");
    caret.place(&content, 0, false);
    typed(&mut log, &mut content, &mut caret, "hi");
    assert_eq!(content, "hiworld");
    assert_eq!(log.depth(), 2);
    log.undo(&mut content);
    assert_eq!(content, "world", "the second thought, and only it");
    log.undo(&mut content);
    assert_eq!(content, "");
}

#[test]
fn a_newline_stands_alone() {
    let mut log = UndoLog::default();
    let mut content = String::new();
    let mut caret = EditCaret::default();
    typed(&mut log, &mut content, &mut caret, "ab");
    type_in(&mut log, &mut content, &mut caret, "\n");
    typed(&mut log, &mut content, &mut caret, "cd");
    assert_eq!(content, "ab\ncd");
    assert_eq!(log.depth(), 3);
    log.undo(&mut content);
    assert_eq!(content, "ab\n");
    log.undo(&mut content);
    assert_eq!(content, "ab");
}

#[test]
fn a_change_of_direction_starts_a_new_entry() {
    let mut log = UndoLog::default();
    let mut content = String::new();
    let mut caret = EditCaret::default();
    typed(&mut log, &mut content, &mut caret, "abcd");
    backspace(&mut log, &mut content, &mut caret);
    backspace(&mut log, &mut content, &mut caret);
    assert_eq!(content, "ab");
    assert_eq!(log.depth(), 2, "the typing, then the taking back");
    typed(&mut log, &mut content, &mut caret, "xy");
    assert_eq!(log.depth(), 3, "and typing again is a third");

    let mut log = UndoLog::default();
    let mut content = "abcd".to_owned();
    let mut caret = collapsed(2);
    backspace(&mut log, &mut content, &mut caret);
    delete(&mut log, &mut content, &mut caret);
    assert_eq!(content, "ad");
    assert_eq!(log.depth(), 2);
}

#[test]
fn a_run_of_deletions_is_one_entry_in_either_direction() {
    let mut log = UndoLog::default();
    let mut content = "abcdef".to_owned();
    let mut caret = collapsed(6);
    for _ in 0..3 {
        backspace(&mut log, &mut content, &mut caret);
    }
    assert_eq!(content, "abc");
    assert_eq!(log.depth(), 1);
    assert_eq!(log.undo(&mut content), Some(collapsed(6)));
    assert_eq!(content, "abcdef");

    let mut log = UndoLog::default();
    let mut content = "abcdef".to_owned();
    let mut caret = collapsed(0);
    for _ in 0..3 {
        delete(&mut log, &mut content, &mut caret);
    }
    assert_eq!(content, "def");
    assert_eq!(log.depth(), 1);
    assert_eq!(log.undo(&mut content), Some(collapsed(0)));
    assert_eq!(content, "abcdef");
}

#[test]
fn a_paste_is_one_entry() {
    let mut log = UndoLog::default();
    let mut content = String::new();
    let mut caret = EditCaret::default();
    typed(&mut log, &mut content, &mut caret, "ab");
    type_in(&mut log, &mut content, &mut caret, "a whole clipboard");
    typed(&mut log, &mut content, &mut caret, "cd");
    assert_eq!(log.depth(), 3);
    log.undo(&mut content);
    assert_eq!(content, "aba whole clipboard");
    log.undo(&mut content);
    assert_eq!(content, "ab");
}

#[test]
fn undo_and_redo_round_trip_the_bytes_and_the_caret() {
    let mut log = UndoLog::default();
    let mut content = "one\n".to_owned();
    let mut caret = collapsed(4);
    typed(&mut log, &mut content, &mut caret, "two");
    type_in(&mut log, &mut content, &mut caret, "\n");
    typed(&mut log, &mut content, &mut caret, "three");
    backspace(&mut log, &mut content, &mut caret);
    let full = content.clone();
    let ended = caret;
    let mut states = Vec::new();
    while log.can_undo() {
        states.push(content.clone());
        log.undo(&mut content).expect("the log said there was one");
    }
    assert_eq!(content, "one\n", "back to the body it started from");
    while log.can_redo() {
        let caret = log.redo(&mut content).expect("the log said there was one");
        let wanted = states.pop().expect("one state per entry");
        assert_eq!(content, wanted, "the road back is the road out");
        if !log.can_redo() {
            assert_eq!(caret, ended, "and the caret the last keystroke left");
        }
    }
    assert!(states.is_empty(), "one redo per undo");
    assert_eq!(content, full);
}

#[test]
fn a_new_edit_after_an_undo_drops_the_redo_tail() {
    let mut log = UndoLog::default();
    let mut content = String::new();
    let mut caret = EditCaret::default();
    typed(&mut log, &mut content, &mut caret, "first");
    caret.place(&content, content.len(), false);
    type_in(&mut log, &mut content, &mut caret, "\n");
    typed(&mut log, &mut content, &mut caret, "second");
    assert_eq!(log.depth(), 3);
    log.undo(&mut content);
    log.undo(&mut content);
    assert_eq!(content, "first");
    assert!(log.can_redo());
    let mut caret = collapsed(content.len());
    typed(&mut log, &mut content, &mut caret, "!");
    assert_eq!(content, "first!");
    assert!(!log.can_redo(), "the branch nobody took is gone");
    assert_eq!(log.depth(), 2);
}

#[test]
fn the_dirty_bit_is_the_log_position_at_the_last_save() {
    let mut log = UndoLog::default();
    let mut content = "body\n".to_owned();
    let mut caret = collapsed(5);
    assert!(!log.is_dirty(), "a body just read is clean");
    typed(&mut log, &mut content, &mut caret, "more");
    assert!(log.is_dirty());
    log.undo(&mut content);
    assert!(!log.is_dirty(), "back where the disk left it");
    log.redo(&mut content);
    assert!(log.is_dirty());
    log.mark_saved();
    assert!(!log.is_dirty(), "and a save is the other way to be clean");
    let mut caret = collapsed(content.len());
    typed(&mut log, &mut content, &mut caret, "!");
    assert!(log.is_dirty());
    log.undo(&mut content);
    assert!(!log.is_dirty());
    log.undo(&mut content);
    assert!(log.is_dirty(), "before the save is not the save");
    let mut caret = collapsed(content.len());
    typed(&mut log, &mut content, &mut caret, "?");
    assert!(log.is_dirty());
    while log.can_undo() {
        log.undo(&mut content);
        assert!(log.is_dirty(), "the file's bytes are no longer in this log");
    }
}

#[test]
fn a_save_breaks_the_run() {
    let mut log = UndoLog::default();
    let mut content = String::new();
    let mut caret = EditCaret::default();
    typed(&mut log, &mut content, &mut caret, "ab");
    log.mark_saved();
    typed(&mut log, &mut content, &mut caret, "cd");
    assert_eq!(log.depth(), 2);
    log.undo(&mut content);
    assert_eq!(content, "ab");
    assert!(!log.is_dirty());
}

#[test]
fn typing_after_an_undo_starts_its_own_entry() {
    let mut log = UndoLog::default();
    let mut content = String::new();
    let mut caret = EditCaret::default();
    typed(&mut log, &mut content, &mut caret, "ab");
    caret.place(&content, content.len(), false);
    typed(&mut log, &mut content, &mut caret, "cd");
    assert_eq!(log.depth(), 1, "one uninterrupted run");
    log.undo(&mut content);
    assert_eq!(content, "");
    let mut caret = EditCaret::default();
    typed(&mut log, &mut content, &mut caret, "z");
    assert_eq!(log.depth(), 1, "the tail went, and this is the new head");
    assert_eq!(content, "z");
}

#[test]
fn the_disks_copy_empties_the_log() {
    let mut log = UndoLog::default();
    let mut content = "mine".to_owned();
    let mut caret = collapsed(4);
    typed(&mut log, &mut content, &mut caret, " and more");
    assert!(log.is_dirty());
    log.forget();
    assert_eq!(log.depth(), 0);
    assert!(!log.can_undo());
    assert!(!log.can_redo());
    assert!(!log.is_dirty(), "the body is the file's again");
}

#[test]
fn an_undo_over_crlf_never_lands_the_caret_inside_the_break() {
    let mut log = UndoLog::default();
    let mut content = "one\r\ntwo\r\n".to_owned();
    let mut caret = collapsed(3);
    typed(&mut log, &mut content, &mut caret, "xy");
    assert_eq!(content, "onexy\r\ntwo\r\n");
    let caret = log.undo(&mut content).expect("one entry");
    assert_eq!(content, "one\r\ntwo\r\n");
    assert_eq!(caret, collapsed(3));
    assert_eq!(caret.caret, normalize(&content, caret.caret));

    let mut log = UndoLog::default();
    let mut content = "one\r\ntwo".to_owned();
    let mut caret = collapsed(5);
    backspace(&mut log, &mut content, &mut caret);
    assert_eq!(content, "onetwo", "half a break is not a character");
    assert_eq!(caret.caret, 3);
    let caret = log.undo(&mut content).expect("one entry");
    assert_eq!(content, "one\r\ntwo");
    assert_eq!(caret.caret, 5, "where the hand was, and not 4");
    assert_eq!(caret.caret, normalize(&content, caret.caret));
}

#[test]
fn a_change_is_the_smallest_span_that_differs() {
    let change = Change::implied("hello", "hello").is_none();
    assert!(change, "identical bodies are not a change");
    let change = Change::implied("abcdef", "abcXef").expect("one letter moved");
    assert_eq!(change.at, 3);
    assert_eq!(change.removed, "d");
    assert_eq!(change.inserted, "X");
    assert_eq!(change.before, collapsed(4));
    assert_eq!(change.after, collapsed(4));
    let change = Change::implied("aé", "aê").expect("the accent moved");
    assert_eq!(change.at, 1, "the shared lead byte is not a boundary");
    assert_eq!(change.removed, "é");
    assert_eq!(change.inserted, "ê");
    let change = Change::implied("ac", "abc").expect("a letter arrived");
    assert_eq!((change.at, change.removed.as_str()), (1, ""));
    assert_eq!(change.inserted, "b");
}

#[test]
fn the_log_stops_at_its_cap_and_forgets_the_oldest_first() {
    let mut log = UndoLog::default();
    let mut content = String::new();
    let mut caret = EditCaret::default();
    for _ in 0..(UndoLog::DEPTH + 8) {
        let was = content.clone();
        let before = caret;
        preview_edit::insert(&mut content, &mut caret, "x\n");
        let change = Change::between(&was, &content, before, caret).expect("an edit");
        log.record(change);
    }
    assert_eq!(log.depth(), UndoLog::DEPTH);
    assert!(log.is_dirty());
    while log.can_undo() {
        log.undo(&mut content);
    }
    assert!(log.is_dirty(), "the saved state is out of reach");
    assert!(!content.is_empty(), "and the oldest lines stay in the body");
}

#[test]
fn a_sealed_run_takes_nothing_more() {
    let mut log = UndoLog::default();
    let mut content = String::new();
    let mut caret = EditCaret::default();
    typed(&mut log, &mut content, &mut caret, "ab");
    log.seal();
    typed(&mut log, &mut content, &mut caret, "cd");
    assert_eq!(log.depth(), 2);
}

#[test]
fn a_mixed_session_undoes_to_its_first_body_and_redoes_to_its_last() {
    let mut log = UndoLog::default();
    let mut content = String::from("x\n");
    let mut caret = collapsed(1);
    typed(&mut log, &mut content, &mut caret, "héllo");
    backspace(&mut log, &mut content, &mut caret);
    backspace(&mut log, &mut content, &mut caret);
    type_in(&mut log, &mut content, &mut caret, "p wörld\n");
    caret.place(&content, 1, false);
    delete(&mut log, &mut content, &mut caret);
    delete(&mut log, &mut content, &mut caret);
    let last = content.clone();
    let last_caret = caret;
    assert_eq!(last, "xlp wörld\n\n");
    let mut undos = 0;
    while log.undo(&mut content).is_some() {
        undos += 1;
    }
    assert_eq!(content, "x\n");
    assert_eq!(undos, log.depth());
    let mut answered = None;
    while let Some(c) = log.redo(&mut content) {
        answered = Some(c);
    }
    assert_eq!(content, last);
    assert_eq!(answered, Some(last_caret));
    assert_eq!(log.undo(&mut content).is_some(), true);
}
