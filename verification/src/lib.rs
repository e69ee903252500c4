//! Rules for sorting files into category directories.
//!
//! A small rule language says which files go where:
//!
//! ```text
//! EXT {
//!     pdf, doc => 'Documents' { DATE { 2020 => 'Archive'; } }
//!     mp3, wav => 'Music';
//! }
//! ```
//!
//! Its source text is tokenized by [`lexer`] and turned into a tree of
//! [`rules::Rule`] by [`parser`]; [`compile`], and with it
//! [`rules::Rule::from_src`], does both. [`eval`] applies a
//! tree to the metadata of a file and gives the directories that the file
//! goes into. [`defaults`] holds the rule set that is used where no source
//! is given, and [`render`] writes a tree back as source text.
//!
//! What holds of these together is proved in four modules. [`grammar`]
//! says what a source means and that every valid source compiles to it;
//! [`layout`] that blanks between tokens change nothing; [`round_trip`]
//! that a tree written as text and compiled again comes out unchanged;
//! [`soundness`] that every tree that compiles is one for which this holds.

pub mod args;
pub mod calendar;
pub mod chars;
pub mod compile;
pub mod defaults;
pub mod entry;
pub mod eval;
pub mod grammar;
pub mod layout;
pub mod lexer;
pub mod parser;
pub mod render;
pub mod round_trip;
pub mod rules;
pub mod soundness;
pub mod text;
pub mod token;
