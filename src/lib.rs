//! Extraction of dictionary entries from EDICT-style flat lines and from
//! dictionary pages given as a markup tree.
pub mod entry;
pub mod flat;
pub mod markup;
pub mod text;
pub mod weblio_search;

pub use entry::DictionaryEntry;
