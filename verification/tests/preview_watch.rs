use bt_preview::preview_watch::{news, FileNews, PreviewWatch, Shown, Stamp};

#[test]
fn an_unchanged_file_is_no_news_and_keeps_its_record() {
    let mut recorded = Some(Stamp::new(Some(1_000), 10));
    assert_eq!(news("a.md", Some(Stamp::new(Some(1_000), 10)), &mut recorded), None);
    assert_eq!(recorded, Some(Stamp::new(Some(1_000), 10)));
}

#[test]
fn a_save_is_news_once() {
    let mut recorded = Some(Stamp::new(Some(1_000), 10));
    let fresh = Some(Stamp::new(Some(2_000), 11));
    assert_eq!(
        news("a.md", fresh, &mut recorded),
        Some(FileNews { path: "a.md".to_string(), present: true })
    );
    assert_eq!(recorded, fresh);
    assert_eq!(news("a.md", fresh, &mut recorded), None, "the answer was taken");
}

#[test]
fn a_file_that_disappears_and_returns_is_news_both_times() {
    let mut recorded = Some(Stamp::new(None, 10));
    assert_eq!(
        news("a.md", None, &mut recorded),
        Some(FileNews { path: "a.md".to_string(), present: false })
    );
    assert_eq!(recorded, None);
    assert_eq!(
        news("a.md", Some(Stamp::new(None, 12)), &mut recorded),
        Some(FileNews { path: "a.md".to_string(), present: true })
    );
}

#[test]
fn a_length_kept_with_a_new_time_is_still_news() {
    let mut recorded = Some(Stamp::new(Some(-5), 10));
    assert!(news("b.md", Some(Stamp::new(Some(7), 10)), &mut recorded).is_some());
    let mut unknown = None;
    assert_eq!(news("c.md", None, &mut unknown), None);
}

fn shown(path: &str, folder: &str) -> Shown {
    Shown { path: path.to_string(), folder: Some(folder.to_string()) }
}

#[test]
fn the_watch_follows_the_panes_one_folder_for_its_files() {
    let mut book = PreviewWatch::default();
    let wanted = vec![shown("d/a.md", "d"), shown("d/b.md", "d"), shown("e/c.md", "e")];
    let stamps = vec![Some(Stamp::new(Some(1), 1)), Some(Stamp::new(Some(2), 2)), None];
    let orders = book.sync(&wanted, &stamps);
    assert!(orders.changed);
    assert_eq!(orders.drop, Vec::<String>::new());
    assert_eq!(orders.open, vec!["d".to_string(), "e".to_string()]);
    book.opened("d".to_string(), true);
    book.opened("e".to_string(), false);
    assert_eq!(book.counts(), (3, 1));
    assert!(book.watching("d/b.md"));
    assert_eq!(book.unwatched(), vec!["e/c.md".to_string()]);

    let again = book.sync(&wanted, &[None, None, None]);
    assert!(!again.changed, "the same panes change nothing");
    assert!(again.open.is_empty());

    let fewer = vec![shown("d/b.md", "d")];
    let orders = book.sync(&fewer, &[None]);
    assert!(orders.changed);
    assert_eq!(orders.drop, Vec::<String>::new());
    assert!(orders.open.is_empty());
    assert_eq!(book.counts(), (1, 1));
    assert!(!book.watching("d/a.md"));
    assert!(book.unwatched().is_empty(), "the refused folder went with its file");

    let none: Vec<Shown> = Vec::new();
    let orders = book.sync(&none, &[]);
    assert!(orders.changed);
    assert_eq!(orders.drop, vec!["d".to_string()]);
    assert_eq!(book.counts(), (0, 0));
    let idle = book.sync(&none, &[]);
    assert!(!idle.changed);
}

#[test]
fn a_watched_file_is_judged_against_the_stamp_read_when_it_was_armed() {
    let mut book = PreviewWatch::default();
    let first = Some(Stamp::new(Some(10), 4));
    let orders = book.sync(&[shown("d/a.md", "d")], &[first]);
    assert!(orders.changed);
    assert_eq!(book.judge("d/a.md", first), None, "the seat's own read is the baseline");
    assert_eq!(
        book.judge("d/a.md", Some(Stamp::new(Some(11), 4))),
        Some(FileNews { path: "d/a.md".to_string(), present: true })
    );
    assert_eq!(book.judge("d/a.md", None), Some(FileNews { path: "d/a.md".to_string(), present: false }));
    assert_eq!(book.judge("d/other.md", None), None, "a file nobody watches is no news");
}
