//! Multi-pattern exact string matching with an Aho-Corasick automaton.
//!
//! A [`Builder`] collects pattern strings; [`Builder::build`] turns them into
//! an [`Automaton`]; [`Automaton::find`] scans a text once and returns the
//! identifiers of the patterns that end where the first match completes.
//! What is returned is stated over the definitions of [`model`].

pub mod automaton;
pub mod builder;
pub mod laws;
pub mod model;

pub use automaton::Automaton;
pub use builder::Builder;
