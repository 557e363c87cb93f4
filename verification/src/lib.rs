//! The text model of a live Markdown preview editor: lines, carets, edits,
//! selection over rendered pieces, provenance of drawn bytes, undo, and the
//! PSReadLine module decisions of the terminal settings page.
pub mod utf8_text;
pub mod unicode;
pub mod preview_edit;
pub mod markdown;
pub mod preview_live;
pub mod preview_select;
pub mod preview_press;
pub mod preview_undo;
pub mod preview_provenance;
pub mod psreadline;
pub mod preview_text;
pub mod preview_trace;
pub mod preview_viewport;
pub mod preview_watch;
