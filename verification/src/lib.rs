//! Parsing of bracket-delimited labeled-tree text (such as `(ROOT (S (NP ...)))`)
//! into a directed graph, together with structural queries over that graph.
//!
//! The pipeline is: raw text -> [`stanford::prettify_stanford_string`] (canonical
//! form) -> [`tree::build_tree`] (graph plus label index) -> [`query::dominates`].

use vstd::prelude::*;

pub mod digraph;
pub mod label_index;
pub mod parse_spec;
pub mod paths;
pub mod query;
pub mod scanner;
pub mod stanford;
pub mod tree;

verus! {

/// The failures this library reports.
#[derive(Clone, Copy, PartialEq, Eq, Structural, Debug)]
pub enum TreeError {
    /// Unbalanced delimiters, an empty or unterminated label span, an
    /// unexpected character outside a label, or an unterminated tree.
    MalformedInput,
    /// A queried label has no node carrying it.
    LabelNotFound,
}

} // verus!
