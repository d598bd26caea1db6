//! A checklist of security advisories kept as plain text: read it, merge newly
//! found advisories into it, reorganise it, and write it back.
//!
//! The checklist is a text of three kinds of line: free text at its
//! beginning, header lines that open the section of a package, and items that
//! name an advisory and say whether it is dealt with. [`tokenize`] tells the
//! lines apart, [`parse`] builds the document from them, [`transform`] splits
//! a document by what is done or gathers its small sections into one, and
//! [`writer`] writes a document as text again. [`discover`] turns the rows of
//! an advisory listing into tokens and decides when enough pages of the
//! listing have been seen, and [`reformat`] holds the passes over a maintained
//! checklist. [`roundtrip`] proves that a document read from a text comes
//! back from its own text unchanged.
//!
//! Every function states what it returns over the characters of its
//! arguments, and is proved to return that.

pub mod discover;
pub mod parse;
pub mod reformat;
pub mod report;
pub mod roundtrip;
pub mod text;
pub mod tokenize;
pub mod transform;
pub mod writer;
