pub mod apply;
pub mod auth;
pub mod cache;
pub mod filter;
pub mod history;
pub mod laws;
pub mod namespace;
pub mod opt;
pub mod parse;
pub mod repo;
pub mod route;
pub mod pattern;
pub mod tree;
pub mod view_maps;

use vstd::prelude::*;

verus! {

/// Error values surfaced by the filter engine.  Every operation returns a
/// result; there are no retries and no side effects on error.
#[derive(Debug, Clone)]
pub enum JoshError {
    /// A malformed filter spec or workspace file, with the character
    /// position at which parsing stopped and a description.
    Parse { pos: usize, msg: String },
    /// `unapply` was invoked on a filter that has no inverse.
    FilterNotReversible,
    /// A referenced id is missing from the object store.
    ObjectNotFound,
}

pub type JoshResult<T> = Result<T, JoshError>;

/// The outcome of inverting a filtered history back onto the original.
#[derive(Debug, Clone)]
pub enum UnapplyFilter {
    /// The new original tip produced by the inversion.
    Done(u64),
    /// A filtered merge commit whose sides differ outside the filter
    /// cannot be reconstructed unambiguously; carries the number of
    /// distinct candidate trees.
    RejectMerge(usize),
    /// The original base for the inversion is the null id.
    BranchDoesNotExist,
}

/// A short error value used where the original input position is unknown.
pub fn josh_error(msg: &str) -> (e: JoshError)
    ensures
        e matches JoshError::Parse { pos, msg: m } && pos == 0 && m@ == msg@,
{
    JoshError::Parse { pos: 0, msg: msg.to_owned() }
}

} // verus!
