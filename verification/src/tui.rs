//! Models behind the terminal UI's detail pane.

pub mod content;
pub mod content_law;
pub mod detail;
pub mod markdown;
pub mod pick;
pub mod keys;
pub mod overlay;
pub mod create_keys;
pub mod cache;
