//! The one error type of the library.

use vstd::prelude::*;

verus! {

/// What can go wrong, by the part of the system it comes from.
#[derive(Debug)]
pub enum MyError {
    /// The store refused a connection or a write; the text says why.
    Db(String),
    /// A message could not be decoded; the text names what was missing.
    Parse(&'static str),
    /// A required setting was absent; the text names it.
    DotEnv(String),
    /// Anything else, with its description.
    Other(String),
}

} // verus!
