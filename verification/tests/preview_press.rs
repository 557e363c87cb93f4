use std::ops::Range;

use bt_preview::preview_live::caret_seat;
use bt_preview::preview_press::{held_span, keeps_the_span, Pressed, Spend};
use bt_preview::preview_select::Grain;

const PAGE: &str = "# Title\n\nfirst paragraph\n\nsecond paragraph\n";

fn ranges() -> Vec<Range<usize>> {
    vec![0..8, 9..25, 26..43]
}

#[test]
fn a_click_spends_no_head_and_a_drag_spends_the_one_it_reached() {
    let pressed = Pressed::byte(12, Grain::Word, false);
    assert_eq!(
        pressed.spend(false, Some(13)),
        Spend::Caret { offset: 12, grain: Grain::Word, extend: false, head: None },
    );
    assert_eq!(
        pressed.spend(true, Some(13)),
        Spend::Caret { offset: 12, grain: Grain::Word, extend: false, head: Some(13) },
    );
    assert_eq!(
        pressed.spend(true, None),
        Spend::Caret { offset: 12, grain: Grain::Word, extend: false, head: None },
    );
    assert_eq!(Pressed::Ground.spend(true, Some(13)), Spend::Ground);
}

#[test]
fn a_shift_press_takes_single_characters_whatever_the_repeat_count() {
    assert_eq!(
        Pressed::byte(5, Grain::Piece, true),
        Pressed::Byte { offset: 5, grain: Grain::Character, extend: true }
    );
    assert_eq!(
        Pressed::byte(5, Grain::Piece, false),
        Pressed::Byte { offset: 5, grain: Grain::Piece, extend: false }
    );
}

#[test]
fn a_press_in_a_drawn_block_keeps_the_span_and_one_elsewhere_does_not() {
    let drawn = [1usize];
    let span = Some(&drawn[..]);
    assert!(keeps_the_span(PAGE, &ranges(), span, Some(12), 14), "inside the source block");
    assert!(!keeps_the_span(PAGE, &ranges(), span, Some(12), 3), "the heading is rendered");
    assert!(!keeps_the_span(PAGE, &ranges(), span, None, 12), "a page nobody entered keeps nothing");
    assert!(keeps_the_span(PAGE, &ranges(), None, Some(8), 8), "the caret's own gap");
    assert!(!keeps_the_span(PAGE, &ranges(), None, Some(8), 25), "another gap");
}

#[test]
fn a_gesture_in_flight_holds_the_span_it_began_on() {
    let standing = vec![0usize, 1];
    let held = held_span(true, Some(&standing), || Some(vec![2usize]));
    assert_eq!(held, Some(vec![0, 1]));
    let fresh = held_span(false, Some(&standing), || Some(vec![2usize]));
    assert_eq!(fresh, Some(vec![2]));
    let nothing: Option<Vec<usize>> = held_span(true, None, || Some(vec![2usize]));
    assert_eq!(nothing, None);
}

#[test]
fn with_nothing_selected_a_press_keeps_the_span_exactly_in_the_carets_own_seat() {
    let spans = ranges();
    for caret in 0..=PAGE.len() {
        let drawn: Option<Vec<usize>> = caret_seat(PAGE, &spans, caret).block().map(|block| vec![block]);
        for offset in 0..=PAGE.len() {
            let kept = keeps_the_span(PAGE, &spans, drawn.as_deref(), Some(caret), offset);
            let same = caret_seat(PAGE, &spans, offset) == caret_seat(PAGE, &spans, caret);
            assert_eq!(kept, same, "caret {caret}, press at {offset}");
        }
    }
}
