//! Front end of a small command language: raw text is grouped into tokens,
//! tokens are grouped into commands, and each command is assembled into a
//! typed structure of channels, comparisons and variable declarations.
pub mod states;
pub mod types;
