//! Garbage-collects stale files from cargo target directories without invoking
//! the compiler.

pub mod age;
pub mod civil;
pub mod cli;
pub mod inventory;
pub mod laws;
pub mod listing;
pub mod listing_laws;
pub mod live_set;
pub mod name_laws;
pub mod names;
pub mod order;
pub mod plain;
pub mod plan;
pub mod project_laws;
pub mod report;
pub mod sweep;
pub mod sweep_laws;
pub mod target_dir;
pub mod text;
pub mod text_laws;
pub mod time_laws;
pub mod timestamp;
pub mod unit_laws;
pub mod units;
pub mod version;
