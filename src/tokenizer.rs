//! Text to token stream: words are runs between separators, folded to lower
//! case, stemmed, and dropped when they are stopwords.
use crate::stem::{english_stem, EnglishStemmer, MAX_WORD_CHARS};
use crate::text::{
    lemma_encode_concat,
    alphabetic, byte_len, fold_char, is_alphabetic, is_ascii_punctuation, is_whitespace,
    lemma_byte_len_step, separator, to_ascii_lowercase, utf8_width,
};
use vstd::prelude::*;
use vstd::utf8::encode_utf8;

verus! {

/// Longest text, in characters, that can be tokenized: every word of it must
/// fit the stemmer's limit.
pub const MAX_TEXT_CHARS: usize = 0x1FFF_FFFF;

/// Language profiles; each one fixes a stopword list and a stemming algorithm.
#[derive(Debug, Clone, Copy, PartialEq, Eq, Structural)]
pub enum Language {
    English,
}

/// One emitted term, with its sequential position and the byte span of the
/// word as written in the input.
#[derive(Debug, PartialEq)]
pub struct Token {
    pub term: String,
    pub position: usize,
    pub offset: (usize, usize),
}

/// What a token says: (term, position, start byte, end byte).
pub type TokenModel = (Seq<char>, int, int, int);

impl View for Token {
    type V = TokenModel;

    open spec fn view(&self) -> TokenModel {
        (self.term@, self.position as int, self.offset.0 as int, self.offset.1 as int)
    }
}

pub open spec fn tokens_view(v: Seq<Token>) -> Seq<TokenModel> {
    v.map_values(|t: Token| t@)
}

/// The stopword list of a language.
pub open spec fn stop_list(language: Language) -> Seq<Seq<char>> {
    match language {
        Language::English => seq![
            "a"@, "an"@, "and"@, "are"@, "as"@, "at"@, "be"@, "by"@, "for"@, "from"@, "has"@,
            "he"@, "in"@, "is"@, "it"@, "its"@, "of"@, "on"@, "that"@, "the"@, "to"@, "was"@,
            "were"@, "will"@, "with"@,
        ],
    }
}

/// The lower-cased letters of a stretch of text; other characters are skipped.
pub open spec fn word_of(seg: Seq<char>) -> Seq<char>
    decreases seg.len(),
{
    if seg.len() == 0 {
        seq![]
    } else {
        let w = word_of(seg.drop_last());
        if alphabetic(seg.last()) {
            w.push(fold_char(seg.last()))
        } else {
            w
        }
    }
}

/// The term a word yields, if any: its stem, unless that is empty or a stopword.
pub open spec fn term_of(stops: Seq<Seq<char>>, word: Seq<char>) -> Option<Seq<char>> {
    if word.len() == 0 {
        None
    } else {
        let t = english_stem(word);
        if t.len() == 0 || stops.contains(t) {
            None
        } else {
            Some(t)
        }
    }
}

/// Start, as a character index, of the word that is open after `s[0..n)`.
pub open spec fn seg_start(s: Seq<char>, n: int) -> int
    decreases n,
{
    if n <= 0 {
        0
    } else if separator(s[n - 1]) {
        n
    } else {
        seg_start(s, n - 1)
    }
}

/// The token (none or one) of the word `s[i..j)`, at position `pos`.
pub open spec fn seg_tokens(stops: Seq<Seq<char>>, s: Seq<char>, i: int, j: int, pos: int) -> Seq<
    TokenModel,
> {
    match term_of(stops, word_of(s.subrange(i, j))) {
        Some(t) => seq![(t, pos, byte_len(s.take(i)), byte_len(s.take(j)))],
        None => seq![],
    }
}

/// Tokens of the words of `s[0..n)` that a separator has closed.
pub open spec fn closed_tokens(stops: Seq<Seq<char>>, s: Seq<char>, n: int) -> Seq<TokenModel>
    decreases n,
{
    if n <= 0 {
        seq![]
    } else {
        let d = closed_tokens(stops, s, n - 1);
        if separator(s[n - 1]) {
            d + seg_tokens(stops, s, seg_start(s, n - 1), n - 1, d.len() as int)
        } else {
            d
        }
    }
}

/// The tokens of a whole text: the closed words, then the word open at its end.
pub open spec fn text_tokens(stops: Seq<Seq<char>>, s: Seq<char>) -> Seq<TokenModel> {
    let d = closed_tokens(stops, s, s.len() as int);
    d + seg_tokens(stops, s, seg_start(s, s.len() as int), s.len() as int, d.len() as int)
}

/// Relies on str::chars: the characters of a string, in order.
#[verifier::external_body]
fn chars_of(text: &str) -> (r: Vec<char>)
    ensures
        r@ == text@,
{
    text.chars().collect()
}

/// The stopword list of a language, as owned strings.
pub fn stop_words(language: Language) -> (r: Vec<String>)
    ensures
        r@.map_values(|w: String| w@) == stop_list(language),
{
    let r = match language {
        Language::English => vec![
            String::from_str("a"),
            String::from_str("an"),
            String::from_str("and"),
            String::from_str("are"),
            String::from_str("as"),
            String::from_str("at"),
            String::from_str("be"),
            String::from_str("by"),
            String::from_str("for"),
            String::from_str("from"),
            String::from_str("has"),
            String::from_str("he"),
            String::from_str("in"),
            String::from_str("is"),
            String::from_str("it"),
            String::from_str("its"),
            String::from_str("of"),
            String::from_str("on"),
            String::from_str("that"),
            String::from_str("the"),
            String::from_str("to"),
            String::from_str("was"),
            String::from_str("were"),
            String::from_str("will"),
            String::from_str("with"),
        ],
    };
    assert(r@.map_values(|w: String| w@) =~= stop_list(language));
    r
}

/// Whether a term is in a list of stopwords.
pub fn contains_term(stops: &Vec<String>, term: &String) -> (r: bool)
    ensures
        r == stops@.map_values(|w: String| w@).contains(term@),
{
    let ghost sv = stops@.map_values(|w: String| w@);
    let mut k: usize = 0;
    while k < stops.len()
        invariant
            k <= stops@.len(),
            sv == stops@.map_values(|w: String| w@),
            forall|m: int| 0 <= m < k ==> stops@[m]@ != term@,
        decreases stops@.len() - k,
    {
        if term.eq(&stops[k]) {
            assert(sv[k as int] == term@);
            return true;
        }
        k = k + 1;
    }
    assert forall|m: int| 0 <= m < sv.len() implies sv[m] != term@ by {
        assert(sv[m] == stops@[m]@);
    }
    false
}

/// Turns text into terms for one language profile.
#[derive(Debug, Clone, Copy)]
pub struct Tokenizer {
    pub language: Language,
}

impl Tokenizer {
    /// The stopwords of this tokenizer's language.
    pub open spec fn stops(&self) -> Seq<Seq<char>> {
        stop_list(self.language)
    }

    pub fn new(language: Language) -> (r: Tokenizer)
        ensures
            r.language == language,
    {
        Tokenizer { language }
    }

    /// Emits the token of a closed word, if it yields a term.
    fn close_word(
        stops: &Vec<String>,
        stemmer: &mut EnglishStemmer,
        word: &Vec<char>,
        start: usize,
        end: usize,
        tokens: &mut Vec<Token>,
    )
        requires
            word@.len() <= MAX_WORD_CHARS,
            forall|k: int| 0 <= k < word@.len() ==> word@[k] != '\0',
            old(tokens)@.len() <= MAX_TEXT_CHARS,
        ensures
            final(tokens)@.len() <= old(tokens)@.len() + 1,
            tokens_view(final(tokens)@) == tokens_view(old(tokens)@) + match term_of(
                stops@.map_values(|w: String| w@),
                word@,
            ) {
                Some(t) => seq![(t, old(tokens)@.len() as int, start as int, end as int)],
                None => Seq::<TokenModel>::empty(),
            },
    {
        if word.len() == 0 {
            assert(tokens_view(tokens@) =~= tokens_view(tokens@) + Seq::<TokenModel>::empty());
            return ;
        }
        let term = stemmer.stem(word);
        if term.as_str().is_empty() || contains_term(stops, &term) {
            assert(tokens_view(tokens@) =~= tokens_view(tokens@) + Seq::<TokenModel>::empty());
            return ;
        }
        let position = tokens.len();
        tokens.push(Token { term, position, offset: (start, end) });
        assert(tokens_view(final(tokens)@) =~= tokens_view(old(tokens)@) + seq![
            (english_stem(word@), position as int, start as int, end as int),
        ]);
    }

    /// Tokenizes with a stemmer that the caller has set up.
    pub fn tokenize_with(&self, stemmer: &mut EnglishStemmer, text: &str) -> (tokens: Vec<Token>)
        requires
            text@.len() <= MAX_TEXT_CHARS,
        ensures
            tokens_view(tokens@) == text_tokens(self.stops(), text@),
    {
        let stops = stop_words(self.language);
        let ghost sv = self.stops();
        let cs = chars_of(text);
        let ghost s = text@;
        let n = cs.len();
        let mut tokens: Vec<Token> = Vec::new();
        let mut word: Vec<char> = Vec::new();
        let mut start: usize = 0;
        let mut start_byte: usize = 0;
        let mut byte: usize = 0;
        let mut i: usize = 0;
        assert(s.take(0) =~= Seq::<char>::empty());
        assert(s.subrange(0, 0) =~= Seq::<char>::empty());
        while i < n
            invariant
                cs@ == s,
                n == s.len(),
                n <= MAX_TEXT_CHARS,
                i <= n,
                stops@.map_values(|w: String| w@) == sv,
                start <= i,
                start as int == seg_start(s, i as int),
                start_byte as int == byte_len(s.take(start as int)),
                byte as int == byte_len(s.take(i as int)),
                byte <= 4 * i,
                word@ == word_of(s.subrange(start as int, i as int)),
                word@.len() <= i - start,
                forall|k: int| 0 <= k < word@.len() ==> word@[k] != '\0',
                tokens_view(tokens@) == closed_tokens(sv, s, i as int),
                tokens@.len() <= i,
            decreases n - i,
        {
            let c = cs[i];
            let w = utf8_width(c);
            proof {
                lemma_byte_len_step(s, i as int);
                assert(s.subrange(start as int, i + 1).drop_last() =~= s.subrange(
                    start as int,
                    i as int,
                ));
            }
            if is_alphabetic(c) {
                word.push(to_ascii_lowercase(c));
            } else if is_whitespace(c) || is_ascii_punctuation(c) {
                Self::close_word(&stops, stemmer, &word, start_byte, byte, &mut tokens);
                word = Vec::new();
                start = i + 1;
                start_byte = byte + w;
                assert(s.subrange(start as int, i + 1) =~= Seq::<char>::empty());
            }
            byte = byte + w;
            i = i + 1;
        }
        assert(s.take(n as int) =~= s);
        Self::close_word(&stops, stemmer, &word, start_byte, byte, &mut tokens);
        tokens
    }

    /// The tokens of a text: terms in emission order, positions counting from
    /// zero, and the byte span of each word as written.
    pub fn tokenize(&self, text: &str) -> (tokens: Vec<Token>)
        requires
            text@.len() <= MAX_TEXT_CHARS,
        ensures
            tokens_view(tokens@) == text_tokens(self.stops(), text@),
    {
        let mut stemmer = EnglishStemmer::new();
        self.tokenize_with(&mut stemmer, text)
    }
}

/// A token that a stretch `s[i..j)` of the text yields.
pub open spec fn from_span(stops: Seq<Seq<char>>, s: Seq<char>, t: TokenModel, i: int, j: int) -> bool {
    &&& 0 <= i <= j <= s.len()
    &&& t.2 == byte_len(s.take(i))
    &&& t.3 == byte_len(s.take(j))
    &&& t.0 == english_stem(word_of(s.subrange(i, j)))
    &&& word_of(s.subrange(i, j)).len() > 0
    &&& t.0.len() > 0
    &&& !stops.contains(t.0)
}

pub open spec fn well_formed_tokens(stops: Seq<Seq<char>>, s: Seq<char>, ts: Seq<TokenModel>) -> bool {
    forall|k: int|
        0 <= k < ts.len() ==> ts[k].1 == k && exists|i: int, j: int|
            from_span(stops, s, #[trigger] ts[k], i, j)
}

proof fn lemma_seg_start_bounds(s: Seq<char>, n: int)
    requires
        0 <= n,
    ensures
        0 <= seg_start(s, n) <= n,
    decreases n,
{
    if n > 0 {
        lemma_seg_start_bounds(s, n - 1);
    }
}

proof fn lemma_seg_tokens(stops: Seq<Seq<char>>, s: Seq<char>, i: int, j: int, ts: Seq<TokenModel>)
    requires
        0 <= i <= j <= s.len(),
        well_formed_tokens(stops, s, ts),
    ensures
        well_formed_tokens(stops, s, ts + seg_tokens(stops, s, i, j, ts.len() as int)),
{
    let r = ts + seg_tokens(stops, s, i, j, ts.len() as int);
    assert forall|k: int| 0 <= k < r.len() implies r[k].1 == k && exists|a: int, b: int|
        from_span(stops, s, #[trigger] r[k], a, b) by {
        if k < ts.len() {
            assert(r[k] == ts[k]);
        } else {
            assert(from_span(stops, s, r[k], i, j));
        }
    }
}

proof fn lemma_closed_tokens(stops: Seq<Seq<char>>, s: Seq<char>, n: int)
    requires
        0 <= n <= s.len(),
    ensures
        well_formed_tokens(stops, s, closed_tokens(stops, s, n)),
    decreases n,
{
    if n > 0 {
        lemma_closed_tokens(stops, s, n - 1);
        lemma_seg_start_bounds(s, n - 1);
        if separator(s[n - 1]) {
            lemma_seg_tokens(
                stops,
                s,
                seg_start(s, n - 1),
                n - 1,
                closed_tokens(stops, s, n - 1),
            );
        }
    }
}

/// Every token of a text comes from a stretch `s[i..j)` of it: the term is the
/// stem of that stretch's folded letters, never empty and never a stopword,
/// its offsets are the byte lengths of the prefixes `s[..i)` and `s[..j)`, and
/// its position is its index in the output.
pub proof fn lemma_text_tokens(stops: Seq<Seq<char>>, s: Seq<char>)
    ensures
        well_formed_tokens(stops, s, text_tokens(stops, s)),
{
    lemma_closed_tokens(stops, s, s.len() as int);
    lemma_seg_start_bounds(s, s.len() as int);
    lemma_seg_tokens(
        stops,
        s,
        seg_start(s, s.len() as int),
        s.len() as int,
        closed_tokens(stops, s, s.len() as int),
    );
}

/// No emitted term is a stopword.
pub proof fn lemma_no_stop_words(stops: Seq<Seq<char>>, s: Seq<char>)
    ensures
        forall|k: int|
            0 <= k < text_tokens(stops, s).len() ==> !stops.contains(
                #[trigger] text_tokens(stops, s)[k].0,
            ),
{
    lemma_text_tokens(stops, s);
    assert forall|k: int| 0 <= k < text_tokens(stops, s).len() implies !stops.contains(
        #[trigger] text_tokens(stops, s)[k].0,
    ) by {
        let t = text_tokens(stops, s)[k];
        let (i, j) = choose|i: int, j: int| from_span(stops, s, t, i, j);
    }
}

/// Positions are 0, 1, 2, ... in emission order.
pub proof fn lemma_dense_positions(stops: Seq<Seq<char>>, s: Seq<char>)
    ensures
        forall|k: int|
            0 <= k < text_tokens(stops, s).len() ==> #[trigger] text_tokens(stops, s)[k].1 == k,
{
    lemma_text_tokens(stops, s);
}

/// The bytes of a text between the byte lengths of two of its prefixes are the
/// encoding of the characters between them.
pub proof fn lemma_span_bytes(s: Seq<char>, i: int, j: int)
    requires
        0 <= i <= j <= s.len(),
    ensures
        encode_utf8(s).subrange(byte_len(s.take(i)), byte_len(s.take(j))) == encode_utf8(
            s.subrange(i, j),
        ),
{
    assert(s.take(j) =~= s.take(i) + s.subrange(i, j));
    assert(s =~= s.take(j) + s.skip(j));
    lemma_encode_concat(s.take(i), s.subrange(i, j));
    lemma_encode_concat(s.take(j), s.skip(j));
    assert(encode_utf8(s).subrange(byte_len(s.take(i)), byte_len(s.take(j))) =~= encode_utf8(
        s.subrange(i, j),
    ));
}

/// Offsets round-trip: the bytes of the text at a token's offsets encode
/// characters whose folded letters stem to the token's term.
pub proof fn lemma_offsets_round_trip(stops: Seq<Seq<char>>, s: Seq<char>, k: int)
    requires
        0 <= k < text_tokens(stops, s).len(),
    ensures
        ({
            let t = text_tokens(stops, s)[k];
            exists|i: int, j: int|
                0 <= i <= j <= s.len() && t.2 == byte_len(s.take(i)) && t.3 == byte_len(s.take(j))
                    && #[trigger] encode_utf8(s).subrange(t.2, t.3) == encode_utf8(
                    s.subrange(i, j),
                ) && t.0 == english_stem(word_of(#[trigger] s.subrange(i, j)))
        }),
{
    lemma_text_tokens(stops, s);
    let t = text_tokens(stops, s)[k];
    let (i, j) = choose|i: int, j: int| from_span(stops, s, t, i, j);
    lemma_span_bytes(s, i, j);
}

/// Byte lengths of prefixes grow with the prefix, strictly.
pub proof fn lemma_byte_len_mono(s: Seq<char>, a: int, b: int)
    requires
        0 <= a <= b <= s.len(),
    ensures
        byte_len(s.take(a)) <= byte_len(s.take(b)),
        a < b ==> byte_len(s.take(a)) < byte_len(s.take(b)),
    decreases b - a,
{
    if a < b {
        lemma_byte_len_mono(s, a, b - 1);
        lemma_byte_len_step(s, b - 1);
    }
}

proof fn lemma_seg_start_mono(s: Seq<char>, n: int, m: int)
    requires
        0 <= n <= m,
    ensures
        seg_start(s, n) <= seg_start(s, m),
    decreases m - n,
{
    if n < m {
        lemma_seg_start_mono(s, n, m - 1);
        lemma_seg_start_bounds(s, m - 1);
    }
}

/// Tokens whose spans are non-empty, in order, and end by byte `bound`.
pub open spec fn spans_ordered(ts: Seq<TokenModel>, bound: int) -> bool {
    &&& forall|k: int| 0 <= k < ts.len() ==> (#[trigger] ts[k]).2 < ts[k].3 <= bound
    &&& forall|k: int, m: int| 0 <= k < m < ts.len() ==> (#[trigger] ts[k]).3 <= (#[trigger] ts[m]).2
}

proof fn lemma_seg_tokens_ordered(
    stops: Seq<Seq<char>>,
    s: Seq<char>,
    i: int,
    j: int,
    b: int,
    ts: Seq<TokenModel>,
)
    requires
        0 <= i <= j <= b <= s.len(),
        spans_ordered(ts, byte_len(s.take(i))),
    ensures
        spans_ordered(ts + seg_tokens(stops, s, i, j, ts.len() as int), byte_len(s.take(b))),
{
    lemma_byte_len_mono(s, i, j);
    lemma_byte_len_mono(s, j, b);
    let r = ts + seg_tokens(stops, s, i, j, ts.len() as int);
    if seg_tokens(stops, s, i, j, ts.len() as int).len() > 0 {
        if i == j {
            assert(s.subrange(i, j) =~= Seq::<char>::empty());
        }
    }
    assert forall|k: int| 0 <= k < r.len() implies (#[trigger] r[k]).2 < r[k].3 <= byte_len(
        s.take(b),
    ) by {
        if k < ts.len() {
            assert(r[k] == ts[k]);
        }
    }
    assert forall|k: int, m: int| 0 <= k < m < r.len() implies (#[trigger] r[k]).3 <= (
    #[trigger] r[m]).2 by {
        assert(r[k] == ts[k]);
        if m < ts.len() {
            assert(r[m] == ts[m]);
        }
    }
}

proof fn lemma_closed_ordered(stops: Seq<Seq<char>>, s: Seq<char>, n: int)
    requires
        0 <= n <= s.len(),
    ensures
        spans_ordered(closed_tokens(stops, s, n), byte_len(s.take(seg_start(s, n)))),
    decreases n,
{
    lemma_seg_start_bounds(s, n);
    if n == 0 {
    } else {
        lemma_closed_ordered(stops, s, n - 1);
        lemma_seg_start_bounds(s, n - 1);
        lemma_seg_start_mono(s, n - 1, n);
        let d = closed_tokens(stops, s, n - 1);
        if separator(s[n - 1]) {
            lemma_seg_tokens_ordered(stops, s, seg_start(s, n - 1), n - 1, n, d);
        } else {
            lemma_byte_len_mono(s, seg_start(s, n - 1), seg_start(s, n));
        }
    }
}

/// Token offsets are non-empty byte spans within the text, in increasing
/// order and without overlap.
pub proof fn lemma_offsets_ordered(stops: Seq<Seq<char>>, s: Seq<char>)
    ensures
        spans_ordered(text_tokens(stops, s), byte_len(s)),
{
    let n = s.len() as int;
    lemma_closed_ordered(stops, s, n);
    lemma_seg_start_bounds(s, n);
    assert(s.take(n) =~= s);
    lemma_seg_tokens_ordered(stops, s, seg_start(s, n), n, n, closed_tokens(stops, s, n));
}

} // verus!
