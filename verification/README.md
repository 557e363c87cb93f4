# bt_preview

The text model behind a live Markdown preview editor, and the decisions of the
terminal settings page that offers a patched PSReadLine module — written in
Verus, with every function's behaviour stated as a contract and proved.

## Layout

- `src/` — the verified library.
  - `utf8_text`, `unicode` — strings as UTF-8 bytes, character boundaries, and
    grapheme clusters and their cells (segmentation from `unicode-segmentation`,
    widths from `unicode-width`).
  - `preview_edit` — lines, carets, one keystroke's edit, soft wrap, motion and
    the key table of the quick-edit surface.
  - `preview_text` — the line index kept up to date from replacements, and the
    one replacement operation an edit goes through.
  - `preview_live`, `preview_press`, `preview_select`, `preview_provenance` —
    where a caret stands on a rendered page, what a press and a drag do, what a
    selection takes, and which file byte every drawn byte came from.
  - `preview_undo` — the undo log, its save point and its depth.
  - `preview_viewport` — positions and blocks found again after edits.
  - `preview_trace`, `preview_watch` — the trace lines, and the watch list:
    which files and folders are watched, and the judgement of a file's stamp.
  - `psreadline` — versions, builds, the probe's answer, the row's state, the
    invitation, the press and the launch's replacement.
- `tests/` — the library's tests.
- `app/` — the window's side: keys from `winit`, the probe's process and the
  environment, the trace file, and the disk.

Run the verifier on `src/lib.rs`; `app/` is ordinary Rust built against the
library.
