use minisearch::indexer::InvertedIndex;
use minisearch::rank::{distinct_terms, BM25Ranker, TermMatch};
use minisearch::tokenizer::{Language, Tokenizer};

fn corpus(docs: &[(usize, &str)]) -> BM25Ranker {
    let tokenizer = Tokenizer::new(Language::English);
    let index = InvertedIndex::new(tokenizer.clone());
    let mut ranker = BM25Ranker::new(tokenizer, index);
    for (id, text) in docs {
        ranker.index_document(*id, text);
    }
    ranker
}

#[test]
fn fox_jumps_reaches_first_two_documents() {
    let ranker = corpus(&[
        (1, "The quick fox jumps"),
        (2, "Fox jumps high"),
        (3, "Slow turtle walks"),
    ]);
    let stats = ranker.candidates("fox jumps");
    assert_eq!(stats.terms, vec!["fox".to_string(), "jump".to_string()]);
    let mut ids: Vec<usize> = stats.candidates.iter().map(|c| c.doc_id).collect();
    ids.sort();
    assert_eq!(ids, vec![1, 2]);
    for c in &stats.candidates {
        assert_eq!(c.doc_length, 3);
        assert_eq!(
            c.matches,
            vec![
                TermMatch { term_frequency: 1, document_frequency: 2 },
                TermMatch { term_frequency: 1, document_frequency: 2 },
            ]
        );
    }
}

#[test]
fn empty_query_reaches_nothing() {
    let ranker = corpus(&[(1, "The quick fox jumps"), (2, "Fox jumps high")]);
    let stats = ranker.candidates("");
    assert!(stats.terms.is_empty());
    assert!(stats.candidates.is_empty());
}

#[test]
fn absent_term_reaches_nothing() {
    let ranker = corpus(&[(1, "The quick fox")]);
    let stats = ranker.candidates("turtle");
    assert_eq!(stats.terms, vec!["turtl".to_string()]);
    assert!(stats.candidates.is_empty());
}

#[test]
fn corpus_statistics_track_lengths() {
    let ranker = corpus(&[(1, "The quick fox jumps"), (2, "Fox jumps high over the lazy dog"), (3, "the")]);
    assert_eq!(ranker.total_docs(), 3);
    assert_eq!(ranker.total_length(), 3 + 6 + 0);
}

#[test]
fn reindexing_replaces_the_length() {
    let mut ranker = corpus(&[(1, "one two three four")]);
    ranker.index_document(1, "five");
    assert_eq!(ranker.total_docs(), 2);
    assert_eq!(ranker.total_length(), 1);
}

#[test]
fn repeated_query_words_collapse() {
    let ranker = corpus(&[(1, "fox fox fox"), (2, "fox")]);
    let stats = ranker.candidates("fox Fox foxes");
    assert_eq!(stats.terms, vec!["fox".to_string()]);
    let mut by_id: Vec<(usize, usize, usize)> = stats
        .candidates
        .iter()
        .map(|c| (c.doc_id, c.doc_length, c.matches[0].term_frequency))
        .collect();
    by_id.sort();
    assert_eq!(by_id, vec![(1, 3, 3), (2, 1, 1)]);
}

#[test]
fn matches_report_zero_for_missing_terms() {
    let ranker = corpus(&[(1, "quick fox"), (2, "slow turtle")]);
    let stats = ranker.candidates("fox turtle");
    for c in &stats.candidates {
        let tf: Vec<usize> = c.matches.iter().map(|m| m.term_frequency).collect();
        if c.doc_id == 1 {
            assert_eq!(tf, vec![1, 0]);
        } else {
            assert_eq!(tf, vec![0, 1]);
        }
    }
}

#[test]
fn distinct_terms_keep_first_occurrence_order() {
    let tokens = Tokenizer::new(Language::English).tokenize("b a b c a");
    let terms = distinct_terms(&tokens);
    assert_eq!(terms, vec!["b".to_string(), "c".to_string()]);
}
