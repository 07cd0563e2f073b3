//! Positional inverted index: for each term, one posting per document that
//! holds it, in the order the documents were indexed.
use crate::stem::EnglishStemmer;
use crate::tokenizer::{text_tokens, tokens_view, Token, TokenModel, Tokenizer, MAX_TEXT_CHARS};
use vstd::prelude::*;

verus! {

/// Identifier of a document.
pub type DocId = usize;

/// Per-document statistics of a term.
pub struct PostingsList {
    pub documents: Vec<DocumentPosting>,
    pub total_frequency: u64,
}

/// One document's entry in a `PostingsList`.
pub struct DocumentPosting {
    pub doc_id: u64,
    pub term_frequency: u32,
    pub positions: Vec<usize>,
}

/// The occurrences of one term in one document: token positions and the byte
/// spans of the words as written, in ascending, parallel order.
#[derive(Debug, PartialEq)]
pub struct Posting {
    pub doc_id: DocId,
    pub positions: Vec<usize>,
    pub offsets: Vec<(usize, usize)>,
}

/// What a posting says: (document, positions, offsets).
pub type PostingModel = (int, Seq<int>, Seq<(int, int)>);

impl View for Posting {
    type V = PostingModel;

    open spec fn view(&self) -> PostingModel {
        (
            self.doc_id as int,
            self.positions@.map_values(|p: usize| p as int),
            self.offsets@.map_values(|o: (usize, usize)| (o.0 as int, o.1 as int)),
        )
    }
}

pub open spec fn postings_view(v: Seq<Posting>) -> Seq<PostingModel> {
    v.map_values(|p: Posting| p@)
}

/// The strings of a sequence, as character sequences.
pub open spec fn term_views(v: Seq<String>) -> Seq<Seq<char>> {
    v.map_values(|s: String| s@)
}

/// Whether some token carries the term.
pub open spec fn has_term(ts: Seq<TokenModel>, t: Seq<char>) -> bool {
    exists|k: int| 0 <= k < ts.len() && (#[trigger] ts[k]).0 == t
}

/// Positions of the tokens that carry the term, in emission order.
pub open spec fn positions_of(ts: Seq<TokenModel>, t: Seq<char>) -> Seq<int>
    decreases ts.len(),
{
    if ts.len() == 0 {
        seq![]
    } else if ts.last().0 == t {
        positions_of(ts.drop_last(), t).push(ts.last().1)
    } else {
        positions_of(ts.drop_last(), t)
    }
}

/// Byte spans of the tokens that carry the term, in emission order.
pub open spec fn offsets_of(ts: Seq<TokenModel>, t: Seq<char>) -> Seq<(int, int)>
    decreases ts.len(),
{
    if ts.len() == 0 {
        seq![]
    } else if ts.last().0 == t {
        offsets_of(ts.drop_last(), t).push((ts.last().2, ts.last().3))
    } else {
        offsets_of(ts.drop_last(), t)
    }
}

/// The posting that a document with these tokens gets for a term.
pub open spec fn posting_of(doc: int, ts: Seq<TokenModel>, t: Seq<char>) -> PostingModel {
    (doc, positions_of(ts, t), offsets_of(ts, t))
}

/// A term's postings after a document with tokens `ts` was indexed.
pub open spec fn postings_after(
    before: Option<Seq<PostingModel>>,
    doc: int,
    ts: Seq<TokenModel>,
    t: Seq<char>,
) -> Option<Seq<PostingModel>> {
    if has_term(ts, t) {
        Some(
            match before {
                Some(p) => p,
                None => Seq::<PostingModel>::empty(),
            }.push(posting_of(doc, ts, t)),
        )
    } else {
        before
    }
}

/// Maps each term to the postings of the documents that hold it.
pub struct InvertedIndex {
    terms: Vec<String>,
    lists: Vec<Vec<Posting>>,
    tokenizer: Tokenizer,
}

impl InvertedIndex {
    pub closed spec fn term_seq(&self) -> Seq<Seq<char>> {
        term_views(self.terms@)
    }

    /// The postings of a term, `None` when it was never indexed.
    pub closed spec fn postings(&self, t: Seq<char>) -> Option<Seq<PostingModel>> {
        if exists|k: int| 0 <= k < self.terms@.len() && self.terms@[k]@ == t {
            let k = choose|k: int| 0 <= k < self.terms@.len() && self.terms@[k]@ == t;
            Some(postings_view(self.lists@[k]@))
        } else {
            None
        }
    }

    pub closed spec fn tokenizer_spec(&self) -> Tokenizer {
        self.tokenizer
    }

    /// Terms are distinct and each has a non-empty list of postings.
    pub closed spec fn wf(&self) -> bool {
        &&& self.terms@.len() == self.lists@.len()
        &&& forall|a: int, b: int|
            0 <= a < b < self.terms@.len() ==> self.terms@[a]@ != self.terms@[b]@
        &&& forall|k: int| 0 <= k < self.lists@.len() ==> self.lists@[k]@.len() > 0
    }

    pub fn new(tokenizer: Tokenizer) -> (r: InvertedIndex)
        ensures
            r.wf(),
            r.tokenizer_spec() == tokenizer,
            forall|t: Seq<char>| r.postings(t) is None,
    {
        InvertedIndex { terms: Vec::new(), lists: Vec::new(), tokenizer }
    }

    proof fn lemma_postings_at(&self, k: int)
        requires
            self.wf(),
            0 <= k < self.terms@.len(),
        ensures
            self.postings(self.terms@[k]@) == Some(postings_view(self.lists@[k]@)),
    {
        let t = self.terms@[k]@;
        assert(exists|m: int| 0 <= m < self.terms@.len() && self.terms@[m]@ == t);
        let m = choose|m: int| 0 <= m < self.terms@.len() && self.terms@[m]@ == t;
        assert(m == k);
    }

    proof fn lemma_postings_absent(&self, t: Seq<char>)
        requires
            forall|k: int| 0 <= k < self.terms@.len() ==> self.terms@[k]@ != t,
        ensures
            self.postings(t) is None,
    {
    }

    /// Adds one posting for a term: appended to its list, or a new list.
    fn add_posting(&mut self, term: String, posting: Posting)
        requires
            old(self).wf(),
        ensures
            final(self).wf(),
            final(self).tokenizer_spec() == old(self).tokenizer_spec(),
            final(self).postings(term@) == Some(
                match old(self).postings(term@) {
                    Some(p) => p,
                    None => Seq::<PostingModel>::empty(),
                }.push(posting@),
            ),
            forall|t: Seq<char>| t != term@ ==> final(self).postings(t) == old(self).postings(t),
    {
        let ghost pre = *self;
        let mut k: usize = 0;
        while k < self.terms.len()
            invariant
                *self == pre,
                pre == *old(self),
                pre.wf(),
                k <= self.terms@.len(),
                forall|m: int| 0 <= m < k ==> self.terms@[m]@ != term@,
            decreases self.terms@.len() - k,
        {
            if term.eq(&self.terms[k]) {
                proof {
                    pre.lemma_postings_at(k as int);
                }
                self.lists[k].push(posting);
                proof {
                    assert(self.lists@[k as int]@ == pre.lists@[k as int]@.push(posting));
                    assert(postings_view(self.lists@[k as int]@) =~= postings_view(
                        pre.lists@[k as int]@,
                    ).push(posting@));
                    self.lemma_postings_at(k as int);
                    assert forall|t: Seq<char>| t != term@ implies self.postings(t) == pre.postings(
                        t,
                    ) by {
                        if exists|m: int| 0 <= m < self.terms@.len() && self.terms@[m]@ == t {
                            let m = choose|m: int| 0 <= m < self.terms@.len() && self.terms@[m]@ == t;
                            self.lemma_postings_at(m);
                            pre.lemma_postings_at(m);
                        }
                    }
                }
                return ;
            }
            k = k + 1;
        }
        proof {
            pre.lemma_postings_absent(term@);
        }
        let ghost pv = posting@;
        self.terms.push(term);
        self.lists.push(vec![posting]);
        proof {
            let n = pre.terms@.len() as int;
            assert(postings_view(self.lists@[n]@) =~= seq![pv]);
            self.lemma_postings_at(n);
            assert forall|t: Seq<char>| t != self.terms@[n]@ implies self.postings(t)
                == pre.postings(t) by {
                if exists|m: int| 0 <= m < pre.terms@.len() && pre.terms@[m]@ == t {
                    let m = choose|m: int| 0 <= m < pre.terms@.len() && pre.terms@[m]@ == t;
                    self.lemma_postings_at(m);
                    pre.lemma_postings_at(m);
                } else {
                    assert forall|m: int| 0 <= m < self.terms@.len() implies self.terms@[m]@
                        != t by {
                        if m < n {
                            assert(self.terms@[m] == pre.terms@[m]);
                        }
                    }
                }
            }
        }
    }

    /// Adds one posting per distinct term of the tokens, for document `doc_id`.
    fn add_tokens(&mut self, doc_id: DocId, tokens: &Vec<Token>)
        requires
            old(self).wf(),
        ensures
            final(self).wf(),
            final(self).tokenizer_spec() == old(self).tokenizer_spec(),
            forall|t: Seq<char>|
                #![auto]
                final(self).postings(t) == postings_after(
                    old(self).postings(t),
                    doc_id as int,
                    tokens_view(tokens@),
                    t,
                ),
    {
        let ghost ts = tokens_view(tokens@);
        let (mut g_terms, mut g_pos, mut g_off) = group_tokens(tokens);
        let ghost pre = *self;
        while g_terms.len() > 0
            invariant
                self.wf(),
                pre.wf(),
                pre == *old(self),
                self.tokenizer_spec() == pre.tokenizer_spec(),
                ts == tokens_view(tokens@),
                groups_of(ts, g_terms@, g_pos@, g_off@),
                forall|t: Seq<char>|
                    #![auto]
                    self.postings(t) == if has_term(ts, t) && !term_views(g_terms@).contains(t) {
                        postings_after(pre.postings(t), doc_id as int, ts, t)
                    } else {
                        pre.postings(t)
                    },
            decreases g_terms@.len(),
        {
            let ghost gt = term_views(g_terms@);
            let term = g_terms.pop().unwrap();
            let positions = g_pos.pop().unwrap();
            let offsets = g_off.pop().unwrap();
            let ghost n = gt.len() - 1;
            let posting = Posting { doc_id, positions, offsets };
            proof {
                assert(gt[n] == term@);
                assert(posting@ =~= posting_of(doc_id as int, ts, term@));
                assert(gt.drop_last() =~= term_views(g_terms@));
                assert(!gt.drop_last().contains(term@)) by {
                    if gt.drop_last().contains(term@) {
                        let m = choose|m: int| 0 <= m < n && gt.drop_last()[m] == term@;
                        assert(gt[m] == gt[n]);
                    }
                }
                assert(gt.contains(term@)) by {
                    assert(gt[n] == term@);
                }
            }
            self.add_posting(term, posting);
            proof {
                let gl = term_views(g_terms@);
                assert forall|t: Seq<char>|
                    #![auto]
                    self.postings(t) == if has_term(ts, t) && !gl.contains(t) {
                        postings_after(pre.postings(t), doc_id as int, ts, t)
                    } else {
                        pre.postings(t)
                    } by {
                    if t != gt[n] {
                        if gl.contains(t) {
                            let m = choose|m: int| 0 <= m < gl.len() && gl[m] == t;
                            assert(gt[m] == t);
                        }
                        if gt.contains(t) && t != gt[n] {
                            let m = choose|m: int| 0 <= m < gt.len() && gt[m] == t;
                            assert(gl[m] == t);
                        }
                    }
                }
            }
        }
        proof {
            assert forall|t: Seq<char>|
                #![auto]
                self.postings(t) == postings_after(pre.postings(t), doc_id as int, ts, t) by {
                if has_term(ts, t) {
                    let gl = term_views(g_terms@);
                    assert(!gl.contains(t));
                }
            }
        }
    }

    /// Indexes a document, with a stemmer that the caller has set up: each
    /// distinct term of its tokens gets one posting more, holding that term's
    /// positions and offsets in emission order.
    pub fn index_document_with(&mut self, stemmer: &mut EnglishStemmer, doc_id: DocId, text: &str)
        requires
            old(self).wf(),
            text@.len() <= MAX_TEXT_CHARS,
        ensures
            final(self).wf(),
            final(self).tokenizer_spec() == old(self).tokenizer_spec(),
            forall|t: Seq<char>|
                #![auto]
                final(self).postings(t) == postings_after(
                    old(self).postings(t),
                    doc_id as int,
                    text_tokens(old(self).tokenizer_spec().stops(), text@),
                    t,
                ),
    {
        let tokens = self.tokenizer.tokenize_with(stemmer, text);
        self.add_tokens(doc_id, &tokens);
    }

    /// Indexes a document: each distinct term of its tokens gets one posting
    /// more, holding that term's positions and offsets in emission order.
    pub fn index_document(&mut self, doc_id: DocId, text: &str)
        requires
            old(self).wf(),
            text@.len() <= MAX_TEXT_CHARS,
        ensures
            final(self).wf(),
            final(self).tokenizer_spec() == old(self).tokenizer_spec(),
            forall|t: Seq<char>|
                #![auto]
                final(self).postings(t) == postings_after(
                    old(self).postings(t),
                    doc_id as int,
                    text_tokens(old(self).tokenizer_spec().stops(), text@),
                    t,
                ),
    {
        let mut stemmer = EnglishStemmer::new();
        self.index_document_with(&mut stemmer, doc_id, text);
    }

    /// The postings of a term, in the order its documents were indexed;
    /// `None` when the term was never indexed.
    pub fn get_postings(&self, term: &str) -> (r: Option<&Vec<Posting>>)
        requires
            self.wf(),
        ensures
            match r {
                Some(p) => self.postings(term@) == Some(postings_view(p@)) && p@.len() > 0,
                None => self.postings(term@) is None,
            },
    {
        let key = term.to_owned();
        let mut k: usize = 0;
        while k < self.terms.len()
            invariant
                k <= self.terms@.len(),
                self.wf(),
                key@ == term@,
                forall|m: int| 0 <= m < k ==> self.terms@[m]@ != key@,
            decreases self.terms@.len() - k,
        {
            if key.eq(&self.terms[k]) {
                proof {
                    self.lemma_postings_at(k as int);
                }
                return Some(&self.lists[k]);
            }
            k = k + 1;
        }
        None
    }

    /// The vocabulary: every indexed term once, in the order of first indexing.
    pub fn terms(&self) -> (r: Vec<String>)
        requires
            self.wf(),
        ensures
            forall|t: Seq<char>| term_views(r@).contains(t) <==> self.postings(t) is Some,
            forall|a: int, b: int| 0 <= a < b < r@.len() ==> r@[a]@ != r@[b]@,
    {
        let mut r: Vec<String> = Vec::new();
        let mut k: usize = 0;
        while k < self.terms.len()
            invariant
                k <= self.terms@.len(),
                self.wf(),
                term_views(r@) == term_views(self.terms@).take(k as int),
            decreases self.terms@.len() - k,
        {
            let ghost before = r@;
            assert(term_views(before).len() == before.len());
            assert(before.len() == k);
            r.push(self.terms[k].clone());
            proof {
                assert(r@ == before.push(self.terms@[k as int]));
                assert(term_views(r@)[k as int] == self.terms@[k as int]@);
                assert(term_views(r@) =~= term_views(self.terms@).take(k + 1));
            }
            k = k + 1;
        }
        proof {
            assert(term_views(r@) =~= term_views(self.terms@));
            assert forall|t: Seq<char>| term_views(r@).contains(t) <==> self.postings(t) is Some by {
                if term_views(r@).contains(t) {
                    let m = choose|m: int| 0 <= m < r@.len() && #[trigger] term_views(r@)[m] == t;
                    self.lemma_postings_at(m);
                }
                if self.postings(t) is Some {
                    let m = choose|m: int| 0 <= m < self.terms@.len() && self.terms@[m]@ == t;
                    assert(term_views(r@)[m] == t);
                }
            }
            assert forall|a: int, b: int| 0 <= a < b < r@.len() implies r@[a]@ != r@[b]@ by {
                assert(term_views(r@)[a] == self.terms@[a]@);
                assert(term_views(r@)[b] == self.terms@[b]@);
            }
        }
        r
    }
}

/// Indexing one text under two documents gives each term two postings in a
/// row that differ only in their document: positions and offsets are equal.
pub proof fn lemma_same_text_same_postings(
    before: Option<Seq<PostingModel>>,
    d1: int,
    d2: int,
    ts: Seq<TokenModel>,
    t: Seq<char>,
)
    requires
        has_term(ts, t),
    ensures
        ({
            let after = postings_after(postings_after(before, d1, ts, t), d2, ts, t)->0;
            let n = after.len();
            &&& n >= 2
            &&& after[n - 2].0 == d1
            &&& after[n - 1].0 == d2
            &&& after[n - 2].1 == after[n - 1].1
            &&& after[n - 2].2 == after[n - 1].2
        }),
{
}

/// Groups of tokens by term: distinct terms, and for each its positions and
/// offsets in emission order.
pub open spec fn groups_of(
    ts: Seq<TokenModel>,
    terms: Seq<String>,
    pos: Seq<Vec<usize>>,
    off: Seq<Vec<(usize, usize)>>,
) -> bool {
    &&& terms.len() == pos.len() == off.len()
    &&& forall|a: int, b: int| 0 <= a < b < terms.len() ==> terms[a]@ != terms[b]@
    &&& forall|m: int|
        #![auto]
        0 <= m < terms.len() ==> has_term(ts, terms[m]@) && pos[m]@.map_values(|p: usize| p as int)
            == positions_of(ts, terms[m]@) && off[m]@.map_values(
            |o: (usize, usize)| (o.0 as int, o.1 as int),
        ) == offsets_of(ts, terms[m]@)
}

proof fn lemma_absent_term(ts: Seq<TokenModel>, t: Seq<char>)
    requires
        !has_term(ts, t),
    ensures
        positions_of(ts, t) == Seq::<int>::empty(),
        offsets_of(ts, t) == Seq::<(int, int)>::empty(),
    decreases ts.len(),
{
    if ts.len() > 0 {
        assert(!has_term(ts.drop_last(), t)) by {
            if has_term(ts.drop_last(), t) {
                let k = choose|k: int| 0 <= k < ts.drop_last().len() && (#[trigger] ts.drop_last()[k]).0 == t;
                assert(ts[k] == ts.drop_last()[k]);
            }
        }
        assert(ts[ts.len() - 1].0 != t);
        lemma_absent_term(ts.drop_last(), t);
    }
}

fn group_tokens(tokens: &Vec<Token>) -> (r: (Vec<String>, Vec<Vec<usize>>, Vec<Vec<(usize, usize)>>))
    ensures
        groups_of(tokens_view(tokens@), r.0@, r.1@, r.2@),
        forall|t: Seq<char>|
            has_term(tokens_view(tokens@), t) ==> term_views(r.0@).contains(t),
{
    let ghost ts = tokens_view(tokens@);
    let mut terms: Vec<String> = Vec::new();
    let mut pos: Vec<Vec<usize>> = Vec::new();
    let mut off: Vec<Vec<(usize, usize)>> = Vec::new();
    let mut i: usize = 0;
    while i < tokens.len()
        invariant
            i <= tokens@.len(),
            ts == tokens_view(tokens@),
            groups_of(ts.take(i as int), terms@, pos@, off@),
            forall|t: Seq<char>|
                has_term(ts.take(i as int), t) ==> term_views(terms@).contains(t),
        decreases tokens@.len() - i,
    {
        let tok = &tokens[i];
        let ghost pre = ts.take(i as int);
        let ghost cur = ts.take(i + 1);
        proof {
            assert(cur.drop_last() =~= pre);
            assert(cur.last() == ts[i as int]);
            assert(ts[i as int] == tok@);
            assert forall|t: Seq<char>| t != tok.term@ implies has_term(cur, t) == has_term(pre, t) && positions_of(cur, t) == positions_of(pre, t) && offsets_of(cur, t) == offsets_of(pre, t) by {
                if has_term(cur, t) {
                    let k = choose|k: int| 0 <= k < cur.len() && (#[trigger] cur[k]).0 == t;
                    assert(pre[k] == cur[k]);
                }
                if has_term(pre, t) {
                    let k = choose|k: int| 0 <= k < pre.len() && (#[trigger] pre[k]).0 == t;
                    assert(pre[k] == cur[k]);
                }
            }
            assert(has_term(cur, tok.term@)) by {
                assert(cur[i as int].0 == tok.term@);
            }
        }
        let mut k: usize = 0;
        let mut found = false;
        while k < terms.len()
            invariant_except_break
                !found,
            invariant
                k <= terms@.len(),
                forall|m: int| 0 <= m < k ==> terms@[m]@ != tok.term@,
            ensures
                found ==> k < terms@.len() && terms@[k as int]@ == tok.term@,
                !found ==> forall|m: int| 0 <= m < terms@.len() ==> terms@[m]@ != tok.term@,
            decreases terms@.len() - k,
        {
            if tok.term.eq(&terms[k]) {
                found = true;
                break;
            }
            k = k + 1;
        }
        if found {
            let ghost old_pos = pos@;
            let ghost old_off = off@;
            pos[k].push(tok.position);
            off[k].push(tok.offset);
            proof {
                assert(pos@[k as int]@.map_values(|p: usize| p as int) =~= old_pos[k as int]@.map_values(|p: usize| p as int).push(tok.position as int));
                assert(off@[k as int]@.map_values(|o: (usize, usize)| (o.0 as int, o.1 as int)) =~= old_off[k as int]@.map_values(|o: (usize, usize)| (o.0 as int, o.1 as int)).push((tok.offset.0 as int, tok.offset.1 as int)));
                assert forall|m: int| #![auto] 0 <= m < terms@.len() && m != k implies pos@[m] == old_pos[m] && off@[m] == old_off[m] by {}
                assert forall|t: Seq<char>| has_term(cur, t) implies term_views(terms@).contains(t) by {
                    if t == tok.term@ {
                        assert(term_views(terms@)[k as int] == t);
                    }
                }
            }
        } else {
            proof {
                assert(!has_term(pre, tok.term@)) by {
                    if has_term(pre, tok.term@) {
                        assert(term_views(terms@).contains(tok.term@));
                        let m = choose|m: int| 0 <= m < terms@.len() && #[trigger] term_views(terms@)[m] == tok.term@;
                        assert(terms@[m]@ == tok.term@);
                    }
                }
                lemma_absent_term(pre, tok.term@);
            }
            let ghost old_terms = terms@;
            terms.push(tok.term.clone());
            pos.push(vec![tok.position]);
            off.push(vec![tok.offset]);
            proof {
                let n = old_terms.len() as int;
                assert(pos@[n]@.map_values(|p: usize| p as int) =~= seq![tok.position as int]);
                assert(off@[n]@.map_values(|o: (usize, usize)| (o.0 as int, o.1 as int)) =~= seq![(tok.offset.0 as int, tok.offset.1 as int)]);
                assert(positions_of(cur, tok.term@) =~= seq![tok.position as int]);
                assert(offsets_of(cur, tok.term@) =~= seq![(tok.offset.0 as int, tok.offset.1 as int)]);
                assert forall|t: Seq<char>| has_term(cur, t) implies term_views(terms@).contains(t) by {
                    if t == tok.term@ {
                        assert(term_views(terms@)[n] == t);
                    } else {
                        assert(has_term(pre, t));
                        assert(term_views(old_terms).contains(t));
                        let m = choose|m: int| 0 <= m < old_terms.len() && #[trigger] term_views(old_terms)[m] == t;
                        assert(terms@[m] == old_terms[m]);
                        assert(term_views(terms@)[m] == t);
                    }
                }
            }
        }
        i = i + 1;
    }
    assert(ts.take(tokens@.len() as int) =~= ts);
    (terms, pos, off)
}

/// Where tokens sit at positions 0, 1, 2, ..., each term's positions in a
/// posting strictly increase and stay below the token count.
pub proof fn lemma_positions_increase(ts: Seq<TokenModel>, t: Seq<char>)
    requires
        forall|k: int| 0 <= k < ts.len() ==> (#[trigger] ts[k]).1 == k,
    ensures
        forall|a: int, b: int|
            0 <= a < b < positions_of(ts, t).len() ==> positions_of(ts, t)[a] < positions_of(
                ts,
                t,
            )[b],
        forall|a: int|
            0 <= a < positions_of(ts, t).len() ==> 0 <= #[trigger] positions_of(ts, t)[a] < ts.len(),
    decreases ts.len(),
{
    if ts.len() > 0 {
        let p = ts.drop_last();
        assert forall|k: int| 0 <= k < p.len() implies (#[trigger] p[k]).1 == k by {
            assert(p[k] == ts[k]);
        }
        lemma_positions_increase(p, t);
        assert(ts.last().1 == ts.len() - 1);
        let q = positions_of(p, t);
        let r = positions_of(ts, t);
        assert forall|a: int| 0 <= a < r.len() implies 0 <= #[trigger] r[a] < ts.len() by {
            if a < q.len() {
                assert(r[a] == q[a]);
            }
        }
        assert forall|a: int, b: int| 0 <= a < b < r.len() implies r[a] < r[b] by {
            assert(r[a] == q[a]);
            if b < q.len() {
                assert(r[b] == q[b]);
            }
        }
    }
}

} // verus!
