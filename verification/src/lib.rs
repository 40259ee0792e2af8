//! A small persistent store for shell-command aliases.
//!
//! An [`record::Alias`] names a shell command together with a free-text
//! description and two timestamps. The [`store::Database`] keeps such
//! records in a single SQLite table keyed by the alias name, and offers
//! insertion, update, removal, a listing sorted by alias name, and a
//! CSV text form of the listing for export and import.

pub mod csvtext;
pub mod error;
pub mod laws;
pub mod order;
pub mod record;
pub mod store;
pub mod timefmt;
