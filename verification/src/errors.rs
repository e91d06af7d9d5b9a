//! Error types of the tree pipeline.

use vstd::prelude::*;

verus! {

/// Errors of the generate / merge / compile pipeline over content trees.
#[derive(Debug, Clone, PartialEq, Eq)]
pub enum TreeError {
    /// An input that should have been readable was not, or a required part of
    /// the layout was missing; carries a description of the place.
    Io(String),
    /// A plain file was found where a namespace directory was expected.
    FileInNamespace(String),
    /// A plain file was found where a datapack directory was expected.
    FileInDatapack(String),
    /// Kept for callers that classify content themselves; the merge itself
    /// never produces it, since an unclassified leaf is overwritten like any
    /// other non-tag leaf.
    UnknownFormat(String),
    /// A leaf met an interior node (or the reverse) under the same key.
    MismatchType(String, String),
}

/// Errors of building one tree node from a raw directory entry.
#[derive(Debug, Clone, PartialEq, Eq)]
pub enum GenerateError {
    Io(String),
    /// The entry's file extension is denylisted (OS metadata noise).
    BlacklistExtension,
}

/// Errors of reading or writing archives.
#[derive(Debug, Clone, PartialEq, Eq)]
pub enum ZipperError {
    Io(String),
    UnableToConvertDatapack,
    UnknownFormat(String),
}

/// Top-level errors of a whole merge run.
#[derive(Debug, Clone, PartialEq, Eq)]
pub enum MergeError {
    Io(String),
    Tree(TreeError),
    Other(String),
    Cancel,
}

} // verus!
