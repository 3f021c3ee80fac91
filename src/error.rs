//! The errors of a deck load.
use vstd::prelude::*;
use crate::parser::Diagnostic;

verus! {

/// Everything that can stop a deck load, or one revision of it.
#[derive(Debug)]
pub enum DeckError {
    NoDeckFound,
    ModelNotFound(String),
    ModelConfigNotFound(String),
    FileNotInHistory(String),
    InvalidEntry,
    InvalidUtf8(String),
    Toml(String),
    VcsFailure(String),
    CircularImport(String),
    ImportUnreadable(String),
    ImportPathResolution(String),
    Parse(Vec<Diagnostic>),
    EmptyHistory,
    MixedChanges,
}

} // verus!
