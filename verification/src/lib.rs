//! A vocabulary drill: word/definition pairs are read from loosely formatted
//! text, asked in random order, and asked again round after round until each
//! has been answered correctly once.
//!
//! - [`parser`] reads the pairs of a practice set from the text of its file.
//! - [`engine`] runs a practice session: it judges each reply and decides
//!   what is asked next.
//! - [`prompts`] holds what the menus decide: the name of a set in the list
//!   of sets, and what may be stored in a file.
//! - [`gui`] holds the state behind the window.
//! - [`text`] tells white space, trims and searches.
//! - [`random`] states what is relied on of the `rand` crate.
//!
//! The library reads no file and asks no one: the program around it does,
//! and hands over what it read and what was typed.

use vstd::prelude::*;

pub mod engine;
pub mod gui;
pub mod parser;
pub mod prompts;
pub mod random;
pub mod text;

verus! {

/// The name of the folder that holds the practice-set files.
pub const SOURCE_FOLDER_NAME: &'static str = "source";

/// What separates a word from its definition on a line of a practice-set file.
pub const SPLIT_DELIMITER: char = ';';

} // verus!
