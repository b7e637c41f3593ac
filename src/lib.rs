//! A small text pipeline: split text into lines, count words, keep and
//! upper-case the non-blank lines, and render the results as text.
//!
//! Letters and case follow the ASCII rules, whitespace the Unicode
//! White_Space property: a token is a maximal run of non-whitespace, and a
//! word is a token stripped of leading and trailing non-letters, in lower
//! case.
pub mod chars;
pub mod words;
pub mod table;
pub mod document;
pub mod count;
pub mod transform;
pub mod lines;
pub mod processor;
