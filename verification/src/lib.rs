//! yaks: a filesystem-native task tracker's core logic, verified.

pub mod text;
pub mod model;
pub mod refs;
pub mod tui;
pub mod store;
pub mod filter;
pub mod farm;
pub mod rollup;
pub mod rollup_law;
pub mod skills;
pub mod stamp_law;
pub mod actor;
pub mod rows;
pub mod toque;
