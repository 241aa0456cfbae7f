//! Kanji frequency analysis.
//!
//! The library counts the characters of a text, keeps the Han ideographs,
//! orders them by how often they occur, and joins them with a dictionary of
//! readings and meanings. What it finds becomes lines for a flashcard tool;
//! what the dictionary lacks is listed apart.
//!
//! - [`text`]: sequences of characters: search, removal, UTF-8 offsets.
//! - [`dictionary`]: the entries of the dictionary, read from its lines.
//! - [`frequency`]: the count of each character, and the order by count.
//! - [`han`]: which characters are Han ideographs.
//! - [`report`]: the join with the dictionary, and the lines written.
//! - [`analysis`]: all of it, from a text and a dictionary to the report.
//!
//! Every function states in its contract what it returns, over sequences of
//! characters, and Verus proves the body against it. What is taken on trust
//! is said where it stands: that the regular expression for the script Han
//! matches the ranges of that script, and how `std` writes a character in
//! quotes.

pub mod analysis;
pub mod dictionary;
pub mod frequency;
pub mod han;
pub mod report;
pub mod text;
