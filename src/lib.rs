//! A parser for line-oriented INI text: a full parse into sections of
//! key-value entries, and a single-pass lookup of one key.
pub mod builders;
pub mod grammar;
pub mod laws;
pub mod models;
pub mod parser;
pub mod text;

pub use builders::{IniFileBuilder, IniSectionBuilder};
pub use models::{IniEntry, IniFile, IniSection, SectionId};
pub use parser::{ParseError, add_section_to_ini_builder, find, parse, unparsable_lines};
