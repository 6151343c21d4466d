//! Decoder for a semicolon-delimited pronunciation dictionary.
//!
//! Each data line has the shape `word;/pronunciation/;#syllable#syllable#`,
//! where every syllable is a `_`-separated list of phone symbols. A file
//! starts with a fixed header, and is accepted only if every data line
//! decodes.

pub mod entry;
pub mod loader;
pub mod phones;
pub mod split;
pub mod strip;

pub use entry::{split_phones, split_syllables, DecodeError, WordEntry};
pub use loader::{parse_udtaleordbog, Diagnostic, LoadError, LoadReport, Loader, HEADER_LINES};
pub use phones::{phone_set, str_lt};
pub use split::split_at_char;
pub use strip::strip_both;
