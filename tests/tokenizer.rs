use minisearch::tokenizer::{stop_words, Language, Token, Tokenizer};

#[test]
fn test_tokenize_basic() {
    let tokenizer = Tokenizer::new(Language::English);
    let text = "The quick foxes jump!";
    let tokens = tokenizer.tokenize(text);
    let expected = vec![
        Token {
            term: String::from("quick"),
            position: 0,
            offset: (4, 9),
        },
        Token {
            term: String::from("fox"),
            position: 1,
            offset: (10, 15),
        },
        Token {
            term: String::from("jump"),
            position: 2,
            offset: (16, 20),
        },
    ];
    assert_eq!(tokens, expected);
}

#[test]
fn test_tokenize_empty() {
    let tokenizer = Tokenizer::new(Language::English);
    let tokens = tokenizer.tokenize("");
    assert_eq!(tokens, vec![]);
}

#[test]
fn test_tokenize_stop_words() {
    let tokenizer = Tokenizer::new(Language::English);
    let text = "The and is";
    let tokens = tokenizer.tokenize(text);
    assert_eq!(tokens, vec![]);
}

#[test]
fn test_tokenize_punctuation() {
    let tokenizer = Tokenizer::new(Language::English);
    let text = "Hello, world!!!";
    let tokens = tokenizer.tokenize(text);
    let expected = vec![
        Token {
            term: String::from("hello"),
            position: 0,
            offset: (0, 5),
        },
        Token {
            term: String::from("world"),
            position: 1,
            offset: (7, 12),
        },
    ];
    assert_eq!(tokens, expected);
}

#[test]
fn quick_fox_jumps_tokens() {
    let tokens = Tokenizer::new(Language::English).tokenize("The quick fox jumps!");
    let terms: Vec<&str> = tokens.iter().map(|t| t.term.as_str()).collect();
    assert_eq!(terms, vec!["quick", "fox", "jump"]);
    let positions: Vec<usize> = tokens.iter().map(|t| t.position).collect();
    assert_eq!(positions, vec![0, 1, 2]);
    let offsets: Vec<(usize, usize)> = tokens.iter().map(|t| t.offset).collect();
    assert_eq!(offsets, vec![(4, 9), (10, 13), (14, 19)]);
}

#[test]
fn no_term_is_a_stopword() {
    let tokenizer = Tokenizer::new(Language::English);
    let stops = stop_words(Language::English);
    let text = "It was the best of times, it was the worst of times; he is at a loss for words.";
    let tokens = tokenizer.tokenize(text);
    assert!(!tokens.is_empty());
    for t in &tokens {
        assert!(!stops.contains(&t.term));
    }
}

#[test]
fn positions_are_dense_after_stopwords() {
    let tokens = Tokenizer::new(Language::English).tokenize("cats and dogs of the world");
    let positions: Vec<usize> = tokens.iter().map(|t| t.position).collect();
    assert_eq!(positions, vec![0, 1, 2]);
}

#[test]
fn offsets_are_bytes_of_the_written_word() {
    let text = "Ça va, naïve CAFÉ-Owner!";
    let tokens = Tokenizer::new(Language::English).tokenize(text);
    let surfaces: Vec<&str> = tokens.iter().map(|t| &text[t.offset.0..t.offset.1]).collect();
    assert_eq!(surfaces, vec!["Ça", "va", "naïve", "CAFÉ", "Owner"]);
    assert_eq!(tokens[0].offset, (0, 3));
    assert_eq!(tokens[2].offset, (8, 14));
    for t in &tokens {
        let folded: String = text[t.offset.0..t.offset.1]
            .chars()
            .filter(|c| c.is_alphabetic())
            .map(|c| c.to_ascii_lowercase())
            .collect();
        assert!(!folded.is_empty());
        assert!(t.offset.0 < t.offset.1 && t.offset.1 <= text.len());
    }
}

#[test]
fn stemming_changes_inflected_words() {
    let tokens = Tokenizer::new(Language::English).tokenize("Running jumps");
    assert_eq!(tokens[0].term, "run");
    assert_eq!(tokens[1].term, "jump");
    assert_eq!(tokens[1].offset, (8, 13));
}

#[test]
fn other_characters_stay_inside_a_word() {
    let tokens = Tokenizer::new(Language::English).tokenize("abc1def xyz");
    assert_eq!(tokens.len(), 2);
    assert_eq!(tokens[0].term, "abcdef");
    assert_eq!(tokens[0].offset, (0, 7));
    assert_eq!(tokens[1].offset, (8, 11));
}

#[test]
fn last_word_ends_at_text_length() {
    let text = "tab\tseparated\nlines";
    let tokens = Tokenizer::new(Language::English).tokenize(text);
    assert_eq!(tokens.last().unwrap().offset.1, text.len());
    assert_eq!(tokens[1].offset, (4, 13));
}

#[test]
fn english_stopword_list() {
    let stops = stop_words(Language::English);
    assert_eq!(stops.len(), 25);
    assert!(stops.contains(&"the".to_string()));
    assert!(!stops.contains(&"fox".to_string()));
}

#[test]
fn ideographic_space_separates_words_by_bytes() {
    let tokens = Tokenizer::new(Language::English).tokenize("quick\u{3000}fox");
    let expected = vec![
        Token {
            term: String::from("quick"),
            position: 0,
            offset: (0, 5),
        },
        Token {
            term: String::from("fox"),
            position: 1,
            offset: (8, 11),
        },
    ];
    assert_eq!(tokens, expected);
}

#[test]
fn one_stemmer_serves_many_texts() {
    let tokenizer = Tokenizer::new(Language::English);
    let mut stemmer = minisearch::stem::EnglishStemmer::new();
    let a = tokenizer.tokenize_with(&mut stemmer, "jumping foxes");
    let b = tokenizer.tokenize_with(&mut stemmer, "jumping foxes");
    assert_eq!(a, b);
    assert_eq!(a, tokenizer.tokenize("jumping foxes"));
    assert_eq!(a[0].term, "jump");
}
