//! A verified hex-dump library: renders byte sequences as formatted dump
//! lines (address, grouped numeric values, printable interpretation) and as
//! source-code array literals for several target languages.

pub mod digits;
pub mod dump;
pub mod generate;
pub mod text;
