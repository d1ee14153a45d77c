//! Renumbering of 128-bit identifiers embedded in trees of text files.
//!
//! The library has two verified halves. The mapping builder turns the text of
//! each descriptor file (a YAML document with a string-valued `guid` key) into
//! a pair of identifiers: the one the descriptor declares and a freshly drawn
//! replacement, both rendered in the fixed-width 32-character lowercase
//! hexadecimal form. The rewrite engine then substitutes, inside arbitrary
//! file contents, every occurrence of each old identifier by its replacement;
//! because the two forms are the same length, the substitution never moves a
//! byte. Directory traversal, logging and the command line stay outside.

pub mod descriptor;
pub mod ident;
pub mod ignore;
pub mod rewrite;

pub use ident::MappingEntry;
