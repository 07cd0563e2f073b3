//! Errors of the surrounding system's concerns; the core itself never fails.
use vstd::prelude::*;

verus! {

#[derive(Debug)]
pub enum MSErrors {
    DocumentNotFound,
    IndexingError(String),
    SearchError(String),
    StorageError(String),
    ParseError(String),
}

} // verus!
