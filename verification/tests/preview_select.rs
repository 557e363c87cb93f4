use bt_preview::markdown::{MarkdownBlock, Span};
use bt_preview::preview_select::{
    copy_text, piece_at, piece_in, piece_range, pieces, select_all, word_end, word_start, Grain, Piece, Place,
    Selection,
};

fn paragraph(text: &str) -> MarkdownBlock {
    MarkdownBlock::Paragraph(vec![Span::plain(text)])
}

fn table(rows: &[&[&str]]) -> MarkdownBlock {
    MarkdownBlock::Table {
        rows: rows.iter().map(|row| row.iter().map(|cell| vec![Span::plain(cell)]).collect()).collect(),
        alignments: Vec::new(),
    }
}

fn whole(pieces: &[Piece]) -> String {
    let Some(selection) = select_all(pieces) else {
        return String::new();
    };
    let (start, end) = selection.range(pieces);
    copy_text(pieces, start, end)
}

#[test]
fn a_place_sorts_in_the_order_the_page_is_read_in() {
    let mut places = vec![Place::new(1, 0, 3), Place::new(0, 2, 0), Place::new(1, 0, 0), Place::new(0, 0, 9)];
    places.sort_unstable();
    assert_eq!(
        places,
        vec![Place::new(0, 0, 9), Place::new(0, 2, 0), Place::new(1, 0, 0), Place::new(1, 0, 3)]
    );
}

#[test]
fn a_drag_that_ran_backwards_reads_the_same_way_round() {
    let blocks = vec![paragraph("alpha"), paragraph("beta")];
    let pieces = pieces(&blocks);
    let forward = Selection { anchor: Place::new(0, 0, 1), head: Place::new(1, 0, 2), grain: Grain::Character };
    let backward = Selection { anchor: Place::new(1, 0, 2), head: Place::new(0, 0, 1), grain: Grain::Character };
    assert_eq!(forward.range(&pieces), backward.range(&pieces));
    let (start, end) = forward.range(&pieces);
    assert_eq!(copy_text(&pieces, start, end), "lpha\n\nbe");
}

#[test]
fn blocks_are_parted_by_a_blank_line_and_rows_by_one() {
    let blocks = vec![
        MarkdownBlock::Heading { level: 2, spans: vec![Span::plain("Title")] },
        paragraph("Body."),
        MarkdownBlock::Quote(vec![vec![Span::plain("first")], vec![Span::plain("second")]]),
    ];
    let pieces = pieces(&blocks);
    assert_eq!(whole(&pieces), "Title\n\nBody.\n\nfirst\nsecond");
}

#[test]
fn a_table_copies_its_cells_by_tab_and_its_rows_by_break() {
    let blocks = vec![table(&[&["a", "b"], &["1", "2"]])];
    let pieces = pieces(&blocks);
    assert_eq!(whole(&pieces), "a\tb\n1\t2");
}

#[test]
fn a_drag_across_a_table_and_the_prose_under_it_keeps_document_order() {
    let blocks = vec![table(&[&["name", "size"], &["a.txt", "12"]]), paragraph("Everything above is a table.")];
    let pieces = pieces(&blocks);
    let selection = Selection { anchor: Place::new(0, 1, 0), head: Place::new(1, 0, 10), grain: Grain::Character };
    let (start, end) = selection.range(&pieces);
    assert_eq!(copy_text(&pieces, start, end), "size\na.txt\t12\n\nEverything");
}

#[test]
fn a_list_item_carries_its_own_mark_and_only_from_its_first_byte() {
    let blocks = vec![MarkdownBlock::List {
        ordered: None,
        items: vec![vec![Span::plain("one")], vec![Span::plain("two")]],
    }];
    let pieces = pieces(&blocks);
    assert_eq!(whole(&pieces), "- one\n- two");
    let (start, end) = (Place::new(0, 0, 1), Place::new(0, 1, 3));
    assert_eq!(copy_text(&pieces, start, end), "ne\n- two");
}

#[test]
fn a_numbered_list_counts_from_the_number_the_document_wrote() {
    let blocks = vec![MarkdownBlock::List {
        ordered: Some(3),
        items: vec![vec![Span::plain("three")], vec![Span::plain("four")]],
    }];
    assert_eq!(whole(&pieces(&blocks)), "3. three\n4. four");
}

#[test]
fn a_numbered_list_never_counts_past_the_largest_number() {
    let blocks = vec![MarkdownBlock::List {
        ordered: Some(u64::MAX),
        items: vec![vec![Span::plain("a")], vec![Span::plain("b")]],
    }];
    assert_eq!(whole(&pieces(&blocks)), "18446744073709551615. a\n18446744073709551615. b");
}

#[test]
fn a_heading_copies_without_its_hashes_and_a_quote_without_its_arrow() {
    let blocks = vec![
        MarkdownBlock::Heading { level: 3, spans: vec![Span::plain("Design")] },
        MarkdownBlock::Quote(vec![vec![Span::plain("quoted")]]),
    ];
    assert_eq!(whole(&pieces(&blocks)), "Design\n\nquoted");
}

#[test]
fn a_formula_is_an_atom_and_copies_as_its_own_source() {
    let blocks = vec![
        paragraph("before"),
        MarkdownBlock::Math { source: "a^2 + b^2".to_owned() },
        paragraph("after"),
    ];
    let pieces = pieces(&blocks);
    let selection = Selection { anchor: Place::new(1, 0, 4), head: Place::new(1, 0, 5), grain: Grain::Character };
    let (start, end) = selection.range(&pieces);
    assert_eq!(copy_text(&pieces, start, end), "$$a^2 + b^2$$");
}

#[test]
fn a_rule_is_a_line_and_pastes_as_nothing() {
    let blocks = vec![paragraph("above"), MarkdownBlock::Rule, paragraph("below")];
    assert_eq!(whole(&pieces(&blocks)), "above\n\nbelow");
}

#[test]
fn a_fence_copies_line_by_line_with_its_tabs_already_spent() {
    let blocks = vec![MarkdownBlock::Code {
        lang: Some("rust".to_owned()),
        text: "fn main() {\n\tprintln!();\n}".to_owned(),
    }];
    assert_eq!(whole(&pieces(&blocks)), "fn main() {\n    println!();\n}");
}

#[test]
fn a_fence_line_loses_its_carriage_return_and_the_last_break_makes_no_line() {
    let blocks = vec![MarkdownBlock::Code { lang: None, text: "a\r\nb\n".to_owned() }];
    let all = pieces(&blocks);
    assert_eq!(all.len(), 2);
    assert_eq!(all[0].text, "a");
    assert_eq!(all[1].text, "b");
}

#[test]
fn a_double_click_takes_the_word_it_landed_in_whichever_way_the_drag_goes() {
    let blocks = vec![paragraph("alpha beta gamma")];
    let pieces = pieces(&blocks);
    let forward = Selection { anchor: Place::new(0, 0, 7), head: Place::new(0, 0, 8), grain: Grain::Word };
    let (start, end) = forward.range(&pieces);
    assert_eq!(copy_text(&pieces, start, end), "beta");
    let backward = Selection { anchor: Place::new(0, 0, 8), head: Place::new(0, 0, 1), grain: Grain::Word };
    let (start, end) = backward.range(&pieces);
    assert_eq!(copy_text(&pieces, start, end), "alpha beta");
}

#[test]
fn a_triple_click_takes_the_whole_piece_and_not_one_fold_of_it() {
    let blocks = vec![paragraph("a paragraph long enough to fold somewhere")];
    let pieces = pieces(&blocks);
    let selection = Selection::collapsed(Place::new(0, 0, 12), Grain::Piece);
    let (start, end) = selection.range(&pieces);
    assert_eq!(copy_text(&pieces, start, end), "a paragraph long enough to fold somewhere");
}

#[test]
fn a_word_stops_at_the_punctuation_the_terminal_stops_at() {
    let text = "call(arg);";
    assert_eq!(&text[word_start(text, 6)..word_end(text, 6)], "arg");
    assert_eq!(&text[word_start(text, 4)..word_end(text, 4)], "(");
}

#[test]
fn a_word_runs_across_letters_outside_ascii() {
    let text = "voilà déjà";
    assert_eq!(&text[word_start(text, 2)..word_end(text, 2)], "voilà");
    assert_eq!(word_end(text, text.len()), text.len());
    assert_eq!(word_start("", 4), 0);
}

#[test]
fn a_click_that_never_travelled_selects_nothing() {
    let blocks = vec![paragraph("alpha")];
    let pieces = pieces(&blocks);
    let selection = Selection::collapsed(Place::new(0, 0, 2), Grain::Character);
    let (start, end) = selection.range(&pieces);
    assert_eq!(start, end, "two equal places take nothing");
    assert_eq!(copy_text(&pieces, start, end), "");
}

#[test]
fn select_all_reaches_the_last_byte_of_the_last_block() {
    let blocks = vec![paragraph("first"), table(&[&["x"]]), paragraph("last")];
    let pieces = pieces(&blocks);
    let selection = select_all(&pieces).expect("a document with text");
    assert_ne!(selection.anchor, selection.head);
    assert_eq!(whole(&pieces), "first\n\nx\n\nlast");
}

#[test]
fn a_document_with_nothing_in_it_has_nothing_to_select() {
    assert!(select_all(&pieces(&[MarkdownBlock::Rule])).is_none());
}

#[test]
fn the_shortcut_through_the_blocks_reads_the_same_range() {
    let blocks = vec![paragraph("alpha beta"), table(&[&["one", "two"]]), paragraph("gamma")];
    let all = pieces(&blocks);
    let selection = Selection { anchor: Place::new(2, 0, 2), head: Place::new(0, 0, 7), grain: Grain::Word };
    assert_eq!(selection.range_in(&blocks), selection.range(&all));
    assert_eq!(piece_in(&blocks, Place::new(1, 1, 0)).map(|p| p.text), Some("two".to_owned()));
    assert!(piece_at(&all, Place::new(9, 0, 0)).is_none());
    assert_eq!(piece_range(&all[1], Place::new(0, 0, 3), Place::new(1, 0, 2)), Some(0..2));
}
