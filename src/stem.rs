//! The English Snowball stemmer, reached through the `stemmer` crate.
use vstd::prelude::*;

verus! {

#[verifier::external_type_specification]
#[verifier::external_body]
pub struct ExStemmer(stemmer::Stemmer);

/// The Snowball English stem of a word.
pub uninterp spec fn english_stem(word: Seq<char>) -> Seq<char>;

/// Longest word, in characters, handed to the stemmer: its byte length is
/// passed to the C library as an `int`.
pub const MAX_WORD_CHARS: usize = 0x1FFF_FFFF;

/// A stemmer that always runs the English algorithm.
pub struct EnglishStemmer {
    inner: stemmer::Stemmer,
}

/// Relies on stemmer::Stemmer::new: documented to return `Some` for every
/// algorithm that the bundled C library has, and English is one of them.
#[verifier::external_body]
fn new_english() -> (r: Option<stemmer::Stemmer>)
    ensures
        r is Some,
{
    stemmer::Stemmer::new("english")
}

/// Relies on stemmer::Stemmer::stem: the stem depends on the word alone, for a
/// word without NUL whose byte length fits in a C `int`.
#[verifier::external_body]
fn stem_english(s: &mut stemmer::Stemmer, word: &Vec<char>) -> (r: String)
    requires
        word@.len() <= MAX_WORD_CHARS,
        forall|k: int| 0 <= k < word@.len() ==> word@[k] != '\0',
    ensures
        r@ == english_stem(word@),
{
    let w: String = word.iter().collect();
    s.stem(&w)
}

impl EnglishStemmer {
    /// Sets up the English stemmer.
    pub fn new() -> (r: EnglishStemmer) {
        EnglishStemmer { inner: new_english().unwrap() }
    }

    /// The English stem of a word.
    pub fn stem(&mut self, word: &Vec<char>) -> (r: String)
        requires
            word@.len() <= MAX_WORD_CHARS,
            forall|k: int| 0 <= k < word@.len() ==> word@[k] != '\0',
        ensures
            r@ == english_stem(word@),
    {
        stem_english(&mut self.inner, word)
    }
}

} // verus!
