//! Verified core of a background game play-time tracker: game identifiers,
//! process matching, session bookkeeping, crash recovery, data-file edits
//! and the Windows PATH handling used by the installer.

pub mod text;
pub mod keyed;
pub mod models;
pub mod time;
pub mod sorting;
pub mod tracker;
pub mod process;
pub mod icon;
pub mod commands;
pub mod summary;
pub mod winpath;
pub mod hash;
pub mod store;
pub mod config;
