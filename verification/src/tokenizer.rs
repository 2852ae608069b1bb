//! Lexical analysis: the scanner grammar over byte slices and the lazy,
//! restartable token stream built on it.

pub mod token;
pub mod tokenstream;
