use bt_preview::preview_trace::{
    document, frame, picture_read, reflow, DocumentBuild, FrameEcho, PreviewTextFrame, ReflowBuild, ReflowCause,
    SourceFace,
};

fn micros(n: u128) -> u128 {
    n * 1_000
}

#[test]
fn a_reflow_line_names_the_flip_and_what_it_cost() {
    let first = reflow(&ReflowBuild {
        bytes: 53_000,
        blocks: 412,
        cause: ReflowCause {
            source: true,
            ..ReflowCause::default()
        },
        source: (Some(96), Some(101)),
        set: (1, 1),
        face: Some(SourceFace::Mono),
        realized: 2,
        math: micros(1_200),
        pictures: micros(300),
        reconcile: micros(2_500),
        realize: micros(4_000),
    });
    assert!(
        first.ends_with(
            "reflow bytes=53000 blocks=412 why=source source=96->101 set=1->1 face=mono realized=2 \
             math_us=1200 pictures_us=300 reconcile_us=2500 realize_us=4000 total_us=8000"
        ),
        "{first:?}"
    );
    let second = reflow(&ReflowBuild {
        bytes: 10,
        blocks: 1,
        cause: ReflowCause::default(),
        source: (None, None),
        set: (0, 0),
        face: None,
        realized: 0,
        math: micros(0),
        pictures: micros(0),
        reconcile: micros(0),
        realize: micros(0),
    });
    assert!(
        second.ends_with(
            "why=frame source=none->none set=0->0 face=none realized=0 \
             math_us=0 pictures_us=0 reconcile_us=0 realize_us=0 total_us=0"
        ),
        "{second:?}"
    );
    let third = reflow(&ReflowBuild {
        bytes: 53_000,
        blocks: 412,
        cause: ReflowCause {
            source: true,
            ..ReflowCause::default()
        },
        source: (Some(96), Some(96)),
        set: (1, 5),
        face: SourceFace::of(&[SourceFace::Prose, SourceFace::Mono, SourceFace::Prose]),
        realized: 4,
        math: micros(0),
        pictures: micros(0),
        reconcile: micros(0),
        realize: micros(0),
    });
    assert!(third.contains("source=96->96 set=1->5 face=mixed realized=4 "), "{third:?}");
    assert_eq!(
        SourceFace::of(&[SourceFace::Prose, SourceFace::Prose]),
        Some(SourceFace::Prose)
    );
    assert_eq!(SourceFace::of(&[]), None);
}

#[test]
fn a_reflow_names_every_part_of_the_key_that_moved() {
    let line = reflow(&ReflowBuild {
        bytes: 1,
        blocks: 1,
        cause: ReflowCause {
            source: true,
            width: true,
            art: true,
            font: true,
        },
        source: (Some(0), None),
        set: (2, 0),
        face: Some(SourceFace::Prose),
        realized: 1,
        math: 0,
        pictures: 0,
        reconcile: 0,
        realize: 0,
    });
    assert!(line.contains(" why=source+width+art+font "), "{line:?}");
    let line = reflow(&ReflowBuild {
        bytes: 1,
        blocks: 1,
        cause: ReflowCause {
            width: true,
            font: true,
            ..ReflowCause::default()
        },
        source: (None, Some(3)),
        set: (0, 1),
        face: Some(SourceFace::Mixed),
        realized: 1,
        math: 0,
        pictures: 0,
        reconcile: 0,
        realize: 0,
    });
    assert!(line.contains(" why=width+font source=none->3 "), "{line:?}");
    assert!(line.contains(" face=mixed "), "{line:?}");
}

#[test]
fn a_total_is_the_sum_before_it_is_cut_to_microseconds() {
    let line = document(&DocumentBuild {
        bytes: 64,
        blocks: 3,
        source: None,
        hits: 7,
        misses: 2,
        parse: 1_500,
        intrinsic: 1_500,
        layout: 999,
    });
    assert_eq!(
        line,
        "document bytes=64 blocks=3 source=none parse_us=1 intrinsic_us=1 layout_us=0 \
         total_us=3 hits=7 misses=2"
    );
    let line = document(&DocumentBuild {
        bytes: 0,
        blocks: 0,
        source: Some(12),
        hits: 0,
        misses: 18_446_744_073_709_551_615,
        parse: 0,
        intrinsic: 0,
        layout: 0,
    });
    assert!(line.contains(" source=12 "), "{line:?}");
    assert!(line.ends_with(" misses=18446744073709551615"), "{line:?}");
}

#[test]
fn a_picture_read_names_the_file() {
    assert_eq!(picture_read("C:\\docs\\a.png"), "picture read=C:\\docs\\a.png");
}

#[test]
fn a_single_face_is_that_face_and_a_mixed_one_stays_mixed() {
    assert_eq!(SourceFace::of(&[SourceFace::Mono]), Some(SourceFace::Mono));
    assert_eq!(
        SourceFace::of(&[SourceFace::Mono, SourceFace::Prose, SourceFace::Mono]),
        Some(SourceFace::Mixed)
    );
    assert_eq!(
        SourceFace::of(&[SourceFace::Mixed, SourceFace::Mixed]),
        Some(SourceFace::Mixed)
    );
}

fn sample(drawn: usize) -> PreviewTextFrame {
    PreviewTextFrame { bodies: 1, paragraphs: 8, quads: 2, drawn, prepared: true, ..PreviewTextFrame::default() }
}

#[test]
fn a_frame_that_says_nothing_new_writes_nothing() {
    let mut echo = FrameEcho::default();
    assert!(echo.changed(sample(8)), "the first frame is always news");
    assert!(!echo.changed(sample(8)));
    assert!(!echo.changed(sample(8)));
    assert!(echo.changed(sample(0)), "and the frame that stopped drawing its words is exactly the news");
    assert!(!echo.changed(sample(0)));
}

#[test]
fn a_frame_line_names_every_count() {
    let mut f = sample(3);
    f.layers = 2;
    f.layer_drawn = 1;
    f.refused = "none".to_string();
    assert_eq!(
        frame(&f),
        "frame bodies=1 paragraphs=8 quads=2 drawn=3 prepared=1 layers=2 layer_bodies=0 layer_labels=0 \
         layer_paragraphs=0 layer_drawn=1 layer_prepared=0 refused=none"
    );
    let mut echo = FrameEcho::default();
    assert!(echo.changed(f.clone()));
    f.refused = "atlas".to_string();
    assert!(echo.changed(f), "a different refusal is news");
}
