//! Flashcard decks written as `.flash` text under version control, with note
//! identifiers that stay stable across the file's history.
//!
//! - `lexer` and `parser` read the `.flash` format into notes, checked against
//!   the note models, with diagnostics;
//! - `imports` inlines imported files and detects cycles;
//! - `ident` derives the host and note identifiers;
//! - `classify` finds the single class of change between two versions;
//! - `resolve` applies it to the identified note list;
//! - `history` folds a file's revisions into that list.
use vstd::prelude::*;

pub mod classify;
pub mod error;
pub mod export;
pub mod history;
pub mod ident;
pub mod imports;
pub mod lexer;
pub mod note;
pub mod parser;
pub mod resolve;
pub mod text;

verus! {

} // verus!
