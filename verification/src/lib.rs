//! Core of an application launcher: a recovering parser for INI-like
//! descriptor documents, an index of launchable entries derived from parsed
//! documents, and a fuzzy-match ranking engine that orders candidate strings
//! against a live query.
//!
//! Parsing, indexing and ranking are pure computations with verified
//! contracts; terminal handling, file loading and process launching are left
//! to the embedding application.

pub mod text;
pub mod parser;
pub mod index;
pub mod ranking;
pub mod app_state;
