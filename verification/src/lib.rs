//! A verified translator for the terra scripting language: each line of a
//! `.tr` script is checked against the grammar and turned into Rust source.
pub mod text;
pub mod ctx;
pub mod translate;
pub mod compile;
pub mod laws;
pub mod layout_laws;
pub mod semicolon_laws;
pub mod command_laws;
pub mod segment_laws;
pub mod exit_laws;
