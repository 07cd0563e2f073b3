//! Documents as the surrounding system hands them over.
use crate::errors::MSErrors;
use std::collections::HashMap;
use vstd::prelude::*;

verus! {

/// A source document: a stable id, its title and text, and free-form metadata.
pub struct Document {
    pub id: u64,
    pub title: String,
    pub content: String,
    pub metadata: HashMap<String, String>,
}

/// Turns raw input into documents; implemented by the embedding system.
pub trait DocumentParser {
    fn parse(&self, input: &str) -> Result<Document, MSErrors>;

    fn extract_text(&self, document: &Document) -> String;
}

} // verus!
