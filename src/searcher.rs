//! Query orchestration entry point. Query parsing, candidate lookup and
//! scoring belong to the embedding system; here they find nothing.
use crate::document::Document;
use crate::indexer::InvertedIndex;
use crate::tokenizer::Tokenizer;
use vstd::prelude::*;

verus! {

pub struct SearchEngine {
    index: InvertedIndex,
    tokenizer: Tokenizer,
}

/// A page of results.
pub struct SearchResults {
    pub documents: Vec<Document>,
    pub total_matches: usize,
    pub query_time_ms: u64,
}

impl SearchEngine {
    pub closed spec fn index_spec(&self) -> InvertedIndex {
        self.index
    }

    pub closed spec fn tokenizer_spec(&self) -> Tokenizer {
        self.tokenizer
    }

    pub fn new(index: InvertedIndex, tokenizer: Tokenizer) -> (r: SearchEngine)
        ensures
            r.index_spec() == index,
            r.tokenizer_spec() == tokenizer,
    {
        SearchEngine { index, tokenizer }
    }

    /// Runs a query: parse, find candidates, score, then rank and cut to
    /// `limit`. No stage is wired up, so the result is always empty.
    pub fn search(&self, query: &str, limit: usize) -> (r: SearchResults)
        ensures
            r.documents@.len() == 0,
            r.total_matches == 0,
            r.query_time_ms == 0,
    {
        let parsed_query = self.parse_query(query);
        let candidate_docs = self.find_candidates(&parsed_query);
        let scored_docs = self.score_documents(&candidate_docs, &parsed_query);
        self.rank_and_limit(scored_docs, limit)
    }

    fn parse_query(&self, query: &str) -> (r: Vec<String>)
        ensures
            r@.len() == 0,
    {
        Vec::new()
    }

    fn find_candidates(&self, terms: &Vec<String>) -> (r: Vec<u64>)
        ensures
            r@.len() == 0,
    {
        Vec::new()
    }

    fn score_documents(&self, doc_ids: &Vec<u64>, terms: &Vec<String>) -> (r: Vec<u64>)
        ensures
            r@.len() == 0,
    {
        Vec::new()
    }

    fn rank_and_limit(&self, scored_docs: Vec<u64>, limit: usize) -> (r: SearchResults)
        ensures
            r.documents@.len() == 0,
            r.total_matches == 0,
            r.query_time_ms == 0,
    {
        SearchResults { documents: Vec::new(), total_matches: 0, query_time_ms: 0 }
    }
}

} // verus!
