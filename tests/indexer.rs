use minisearch::indexer::{InvertedIndex, Posting};
use minisearch::tokenizer::{Language, Tokenizer};

#[test]
fn test_index_document() {
    let tokenizer = Tokenizer::new(Language::English);
    let mut index = InvertedIndex::new(tokenizer);

    let doc_id = 1;
    let text = "The quick fox jumps";
    index.index_document(doc_id, text);

    let postings = index.get_postings("quick").unwrap();
    assert_eq!(postings.len(), 1);
    assert_eq!(
        postings[0],
        Posting {
            doc_id: 1,
            positions: vec![0],
            offsets: vec![(4, 9)],
        }
    );

    let postings = index.get_postings("fox").unwrap();
    assert_eq!(postings.len(), 1);
    assert_eq!(
        postings[0],
        Posting {
            doc_id: 1,
            positions: vec![1],
            offsets: vec![(10, 13)],
        }
    );

    let postings = index.get_postings("jump").unwrap();
    assert_eq!(postings.len(), 1);
    assert_eq!(
        postings[0],
        Posting {
            doc_id: 1,
            positions: vec![2],
            offsets: vec![(14, 19)],
        }
    );

    assert_eq!(index.get_postings("the"), None);
}

#[test]
fn test_multiple_documents() {
    let tokenizer = Tokenizer::new(Language::English);
    let mut index = InvertedIndex::new(tokenizer);

    index.index_document(1, "The quick fox");
    index.index_document(2, "Fox jumps high");

    let postings = index.get_postings("fox").unwrap();
    assert_eq!(postings.len(), 2);
    assert_eq!(
        postings[0],
        Posting {
            doc_id: 1,
            positions: vec![1],
            offsets: vec![(10, 13)],
        }
    );
    assert_eq!(
        postings[1],
        Posting {
            doc_id: 2,
            positions: vec![0],
            offsets: vec![(0, 3)],
        }
    );

    let postings = index.get_postings("jump").unwrap();
    assert_eq!(postings.len(), 1);
    assert_eq!(
        postings[0],
        Posting {
            doc_id: 2,
            positions: vec![1],
            offsets: vec![(4, 9)],
        }
    );
}

#[test]
fn test_empty_document() {
    let tokenizer = Tokenizer::new(Language::English);
    let mut index = InvertedIndex::new(tokenizer);

    index.index_document(1, "");
    assert_eq!(index.terms().into_iter().count(), 0);
}

#[test]
fn fox_postings_follow_indexing_order() {
    let mut index = InvertedIndex::new(Tokenizer::new(Language::English));
    index.index_document(1, "The quick fox jumps");
    index.index_document(2, "Fox jumps high");
    let postings = index.get_postings("fox").unwrap();
    assert_eq!(postings.len(), 2);
    assert_eq!(postings[0].doc_id, 1);
    assert_eq!(postings[0].positions, vec![1]);
    assert_eq!(postings[1].doc_id, 2);
    assert_eq!(postings[1].positions, vec![0]);
}

#[test]
fn same_text_under_two_ids_gives_equal_postings() {
    let mut index = InvertedIndex::new(Tokenizer::new(Language::English));
    let text = "Runners run; the runner runs far, far away.";
    index.index_document(7, text);
    index.index_document(9, text);
    for term in index.terms() {
        let postings = index.get_postings(&term).unwrap();
        assert_eq!(postings.len(), 2);
        assert_eq!(postings[0].doc_id, 7);
        assert_eq!(postings[1].doc_id, 9);
        assert_eq!(postings[0].positions, postings[1].positions);
        assert_eq!(postings[0].offsets, postings[1].offsets);
    }
}

#[test]
fn repeated_term_collects_all_occurrences() {
    let mut index = InvertedIndex::new(Tokenizer::new(Language::English));
    index.index_document(3, "far, far away");
    let postings = index.get_postings("far").unwrap();
    assert_eq!(
        postings[0],
        Posting {
            doc_id: 3,
            positions: vec![0, 1],
            offsets: vec![(0, 3), (5, 8)],
        }
    );
}

#[test]
fn all_stopword_document_adds_nothing() {
    let mut index = InvertedIndex::new(Tokenizer::new(Language::English));
    index.index_document(1, "The and is");
    assert!(index.terms().is_empty());
    assert_eq!(index.get_postings("the"), None);
}

#[test]
fn vocabulary_lists_each_term_once() {
    let mut index = InvertedIndex::new(Tokenizer::new(Language::English));
    index.index_document(1, "quick fox");
    index.index_document(2, "fox quick slow");
    let mut terms = index.terms();
    terms.sort();
    assert_eq!(terms, vec!["fox".to_string(), "quick".to_string(), "slow".to_string()]);
}
