//! Task files: frontmatter parsing and rendering, notes, config lookups, and
//! the pure halves of the store's edits.

pub mod notes;
pub mod notes_law;
pub mod list_law;
pub mod write;
pub mod read;
pub mod config;
pub mod layout;
pub mod time;
pub mod roundtrip;
pub mod herds;
pub mod herds_law;
pub mod init;

pub use notes::{append_note, note_head, parse_notes, split_note_head, NoteEntry};
