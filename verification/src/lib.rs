//! Word-synced lyrics: an LRC parser with exact timing semantics, the
//! active-word lookup that drives the display, and the decisions of the
//! terminal front end.
pub mod text;
pub mod lyrics;
pub mod app;
pub mod player;
pub mod control;
pub mod screen;
pub mod kitty;
pub mod lrc_laws;
