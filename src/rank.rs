//! Corpus statistics and the integer inputs of BM25 scoring: which documents
//! a query reaches, their lengths, and per query term the term frequency and
//! document frequency. The floating-point score is computed from these by the
//! caller.
use crate::indexer::{has_term, DocId, InvertedIndex, Posting, PostingModel, postings_view, postings_after, term_views};
use crate::stem::EnglishStemmer;
use crate::tokenizer::{text_tokens, tokens_view, TokenModel, Tokenizer, MAX_TEXT_CHARS};
use vstd::prelude::*;

verus! {

/// Sum of the lengths in a list of (document, length) pairs.
pub open spec fn sum_lengths(s: Seq<(usize, usize)>) -> int
    decreases s.len(),
{
    if s.len() == 0 {
        0
    } else {
        sum_lengths(s.drop_last()) + s.last().1 as int
    }
}

proof fn lemma_sum_update(s: Seq<(usize, usize)>, k: int, v: (usize, usize))
    requires
        0 <= k < s.len(),
    ensures
        sum_lengths(s.update(k, v)) == sum_lengths(s) - s[k].1 + v.1,
    decreases s.len(),
{
    if k < s.len() - 1 {
        assert(s.update(k, v).drop_last() =~= s.drop_last().update(k, v));
        lemma_sum_update(s.drop_last(), k, v);
    } else {
        assert(s.update(k, v).drop_last() =~= s.drop_last());
    }
}

proof fn lemma_sum_nonneg(s: Seq<(usize, usize)>)
    ensures
        sum_lengths(s) >= 0,
    decreases s.len(),
{
    if s.len() > 0 {
        lemma_sum_nonneg(s.drop_last());
    }
}

/// Number of positions of the first posting of document `d`, 0 when it has none.
pub open spec fn term_frequency(ps: Seq<PostingModel>, d: int) -> int
    decreases ps.len(),
{
    if ps.len() == 0 {
        0
    } else if ps[0].0 == d {
        ps[0].1.len() as int
    } else {
        term_frequency(ps.drop_first(), d)
    }
}

/// Whether some posting is for document `d`.
pub open spec fn has_doc(ps: Seq<PostingModel>, d: int) -> bool {
    exists|k: int| 0 <= k < ps.len() && (#[trigger] ps[k]).0 == d
}

/// A query term's statistics for one document.
#[derive(Debug, Clone, Copy, PartialEq, Eq)]
pub struct TermMatch {
    /// Occurrences of the term in the document.
    pub term_frequency: usize,
    /// Number of postings of the term: the documents that hold it.
    pub document_frequency: usize,
}

/// A document that holds at least one query term, with what its score needs.
#[derive(Debug, Clone, PartialEq, Eq)]
pub struct Candidate {
    pub doc_id: DocId,
    /// Token count recorded for the document, 0 when none was.
    pub doc_length: usize,
    /// One entry per distinct query term, in the order of `query_terms`.
    pub matches: Vec<TermMatch>,
}

/// Tracks corpus statistics beside an inverted index.
pub struct BM25Ranker {
    tokenizer: Tokenizer,
    index: InvertedIndex,
    doc_lengths: Vec<(DocId, usize)>,
    total_docs: usize,
    total_length: usize,
}

impl BM25Ranker {
    pub closed spec fn index_spec(&self) -> InvertedIndex {
        self.index
    }

    pub closed spec fn tokenizer_spec(&self) -> Tokenizer {
        self.tokenizer
    }

    /// Recorded length of a document.
    pub closed spec fn length_of(&self, d: int) -> Option<int> {
        if exists|k: int| 0 <= k < self.doc_lengths@.len() && self.doc_lengths@[k].0 == d {
            let k = choose|k: int| 0 <= k < self.doc_lengths@.len() && self.doc_lengths@[k].0 == d;
            Some(self.doc_lengths@[k].1 as int)
        } else {
            None
        }
    }

    pub closed spec fn total_docs_spec(&self) -> int {
        self.total_docs as int
    }

    pub closed spec fn total_length_spec(&self) -> int {
        self.total_length as int
    }

    /// Documents are recorded once each, and the running sum is their total.
    pub closed spec fn wf(&self) -> bool {
        &&& self.index.wf()
        &&& forall|a: int, b: int|
            0 <= a < b < self.doc_lengths@.len() ==> self.doc_lengths@[a].0
                != self.doc_lengths@[b].0
        &&& self.total_length as int == sum_lengths(self.doc_lengths@)
    }

    pub fn new(tokenizer: Tokenizer, index: InvertedIndex) -> (r: BM25Ranker)
        requires
            index.wf(),
        ensures
            r.wf(),
            r.index_spec() == index,
            r.tokenizer_spec() == tokenizer,
            r.total_docs_spec() == 0,
            r.total_length_spec() == 0,
            forall|d: int| r.length_of(d) is None,
    {
        BM25Ranker { tokenizer, index, doc_lengths: Vec::new(), total_docs: 0, total_length: 0 }
    }

    /// Number of documents indexed.
    pub fn total_docs(&self) -> (r: usize)
        ensures
            r as int == self.total_docs_spec(),
    {
        self.total_docs
    }

    /// Sum of the recorded document lengths: the average document length is
    /// this over `total_docs`.
    pub fn total_length(&self) -> (r: usize)
        ensures
            r as int == self.total_length_spec(),
    {
        self.total_length
    }

    /// Records a document's length, replacing an earlier record of it.
    fn record_length(&mut self, doc_id: DocId, len: usize)
        requires
            old(self).wf(),
            old(self).total_length_spec() + len <= usize::MAX,
        ensures
            final(self).wf(),
            final(self).index == old(self).index,
            final(self).tokenizer == old(self).tokenizer,
            final(self).total_docs == old(self).total_docs,
            final(self).length_of(doc_id as int) == Some(len as int),
            forall|d: int| d != doc_id ==> final(self).length_of(d) == old(self).length_of(d),
            final(self).total_length_spec() == old(self).total_length_spec() + len - match old(
                self,
            ).length_of(doc_id as int) {
                Some(l) => l,
                None => 0,
            },
    {
        let ghost pre = *self;
        let mut k: usize = 0;
        while k < self.doc_lengths.len()
            invariant
                *self == pre,
                pre == *old(self),
                pre.wf(),
                pre.total_length as int + len as int <= usize::MAX,
                k <= self.doc_lengths@.len(),
                forall|m: int| 0 <= m < k ==> self.doc_lengths@[m].0 != doc_id,
            decreases self.doc_lengths@.len() - k,
        {
            if self.doc_lengths[k].0 == doc_id {
                let prev = self.doc_lengths[k].1;
                proof {
                    lemma_sum_update(pre.doc_lengths@, k as int, (doc_id, 0));
                    lemma_sum_nonneg(pre.doc_lengths@.update(k as int, (doc_id, 0)));
                    lemma_sum_update(pre.doc_lengths@, k as int, (doc_id, len));
                    lemma_sum_nonneg(pre.doc_lengths@.update(k as int, (doc_id, len)));
                    assert(pre.length_of(doc_id as int) == Some(prev as int));
                }
                assert(self.total_length as int + len as int <= usize::MAX);
                assert(prev <= self.total_length);
                self.doc_lengths.set(k, (doc_id, len));
                self.total_length = self.total_length - prev + len;
                proof {
                    assert(self.doc_lengths@ == pre.doc_lengths@.update(k as int, (doc_id, len)));
                    assert(self.doc_lengths@[k as int].0 == doc_id);
                    assert(self.length_of(doc_id as int) == Some(len as int)) by {
                        let j = choose|j: int| 0 <= j < self.doc_lengths@.len() && self.doc_lengths@[j].0 == doc_id as int;
                        assert(j == k);
                    }
                    assert forall|d: int| d != doc_id implies self.length_of(d) == pre.length_of(d) by {
                        if exists|j: int| 0 <= j < self.doc_lengths@.len() && self.doc_lengths@[j].0 == d {
                            let j = choose|j: int| 0 <= j < self.doc_lengths@.len() && self.doc_lengths@[j].0 == d;
                            assert(pre.doc_lengths@[j].0 == d);
                            let i = choose|i: int| 0 <= i < pre.doc_lengths@.len() && pre.doc_lengths@[i].0 == d;
                            assert(i == j);
                        } else {
                            assert forall|j: int| 0 <= j < pre.doc_lengths@.len() implies pre.doc_lengths@[j].0 != d by {
                                if j != k {
                                    assert(self.doc_lengths@[j] == pre.doc_lengths@[j]);
                                }
                            }
                        }
                    }
                }
                return ;
            }
            k = k + 1;
        }
        let ghost n = self.doc_lengths@.len() as int;
        self.doc_lengths.push((doc_id, len));
        self.total_length = self.total_length + len;
        proof {
            assert(self.doc_lengths@.drop_last() =~= pre.doc_lengths@);
            assert(self.doc_lengths@[n].0 == doc_id);
            assert forall|a: int, b: int|
                0 <= a < b < self.doc_lengths@.len() implies self.doc_lengths@[a].0
                    != self.doc_lengths@[b].0 by {
                if b < n {
                    assert(self.doc_lengths@[a] == pre.doc_lengths@[a]);
                    assert(self.doc_lengths@[b] == pre.doc_lengths@[b]);
                } else {
                    assert(self.doc_lengths@[a] == pre.doc_lengths@[a]);
                }
            }
            assert(self.length_of(doc_id as int) == Some(len as int)) by {
                let j = choose|j: int| 0 <= j < self.doc_lengths@.len() && self.doc_lengths@[j].0 == doc_id as int;
                assert(j == n);
            }
            assert forall|d: int| d != doc_id implies self.length_of(d) == pre.length_of(d) by {
                if exists|j: int| 0 <= j < self.doc_lengths@.len() && self.doc_lengths@[j].0 == d {
                    let j = choose|j: int| 0 <= j < self.doc_lengths@.len() && self.doc_lengths@[j].0 == d;
                    assert(j < n);
                    assert(pre.doc_lengths@[j].0 == d);
                    let i = choose|i: int| 0 <= i < pre.doc_lengths@.len() && pre.doc_lengths@[i].0 == d;
                    assert(self.doc_lengths@[i] == pre.doc_lengths@[i]);
                    assert(i == j);
                } else {
                    assert forall|j: int| 0 <= j < pre.doc_lengths@.len() implies pre.doc_lengths@[j].0 != d by {
                        assert(self.doc_lengths@[j] == pre.doc_lengths@[j]);
                    }
                }
            }
        }
    }

    /// Indexes a document with a stemmer that the caller has set up: records
    /// its token count as its length, counts it, and adds its postings.
    pub fn index_document_with(&mut self, stemmer: &mut EnglishStemmer, doc_id: DocId, text: &str)
        requires
            old(self).wf(),
            text@.len() <= MAX_TEXT_CHARS,
            old(self).total_docs_spec() < usize::MAX,
            old(self).total_length_spec() + text@.len() + 1 <= usize::MAX,
        ensures
            final(self).wf(),
            final(self).tokenizer_spec() == old(self).tokenizer_spec(),
            final(self).total_docs_spec() == old(self).total_docs_spec() + 1,
            final(self).length_of(doc_id as int) == Some(
                text_tokens(old(self).tokenizer_spec().stops(), text@).len() as int,
            ),
            forall|d: int| d != doc_id ==> final(self).length_of(d) == old(self).length_of(d),
            final(self).total_length_spec() == old(self).total_length_spec() + text_tokens(
                old(self).tokenizer_spec().stops(),
                text@,
            ).len() - match old(self).length_of(doc_id as int) {
                Some(l) => l,
                None => 0,
            },
            final(self).index_spec().tokenizer_spec() == old(self).index_spec().tokenizer_spec(),
            forall|t: Seq<char>|
                #![auto]
                final(self).index_spec().postings(t) == postings_after(
                    old(self).index_spec().postings(t),
                    doc_id as int,
                    text_tokens(old(self).index_spec().tokenizer_spec().stops(), text@),
                    t,
                ),
    {
        let tokens = self.tokenizer.tokenize_with(stemmer, text);
        proof {
            lemma_token_count(self.tokenizer.stops(), text@);
            assert(tokens@.len() == tokens_view(tokens@).len());
        }
        self.record_length(doc_id, tokens.len());
        self.total_docs = self.total_docs + 1;
        self.index.index_document_with(stemmer, doc_id, text);
    }

    /// Indexes a document: records its token count as its length, counts it,
    /// and adds its postings.
    pub fn index_document(&mut self, doc_id: DocId, text: &str)
        requires
            old(self).wf(),
            text@.len() <= MAX_TEXT_CHARS,
            old(self).total_docs_spec() < usize::MAX,
            old(self).total_length_spec() + text@.len() + 1 <= usize::MAX,
        ensures
            final(self).wf(),
            final(self).tokenizer_spec() == old(self).tokenizer_spec(),
            final(self).total_docs_spec() == old(self).total_docs_spec() + 1,
            final(self).length_of(doc_id as int) == Some(
                text_tokens(old(self).tokenizer_spec().stops(), text@).len() as int,
            ),
            forall|d: int| d != doc_id ==> final(self).length_of(d) == old(self).length_of(d),
            final(self).total_length_spec() == old(self).total_length_spec() + text_tokens(
                old(self).tokenizer_spec().stops(),
                text@,
            ).len() - match old(self).length_of(doc_id as int) {
                Some(l) => l,
                None => 0,
            },
            final(self).index_spec().tokenizer_spec() == old(self).index_spec().tokenizer_spec(),
            forall|t: Seq<char>|
                #![auto]
                final(self).index_spec().postings(t) == postings_after(
                    old(self).index_spec().postings(t),
                    doc_id as int,
                    text_tokens(old(self).index_spec().tokenizer_spec().stops(), text@),
                    t,
                ),
    {
        let mut stemmer = EnglishStemmer::new();
        self.index_document_with(&mut stemmer, doc_id, text);
    }

    /// The query's distinct terms, and every document that holds one of them
    /// with its recorded length and, per term, its term frequency and the
    /// term's document frequency. Documents that hold no query term are not
    /// listed.
    pub fn candidates_with(&self, stemmer: &mut EnglishStemmer, query: &str) -> (r: QueryStats)
        requires
            self.wf(),
            query@.len() <= MAX_TEXT_CHARS,
        ensures
            r.terms_match(text_tokens(self.tokenizer_spec().stops(), query@)),
            r.candidates_match(self),
    {
        let tokens = self.tokenizer.tokenize_with(stemmer, query);
        let terms = distinct_terms(&tokens);
        let ghost tv = term_views(terms@);
        let docs = self.reached_docs(&terms);
        let mut candidates: Vec<Candidate> = Vec::new();
        let mut i: usize = 0;
        while i < docs.len()
            invariant
                self.wf(),
                i <= docs@.len(),
                tv == term_views(terms@),
                candidates@.len() == i,
                forall|m: int|
                    #![auto]
                    0 <= m < i ==> candidates@[m].doc_id == docs@[m] && candidate_ok(
                        self,
                        tv,
                        candidates@[m],
                    ),
            decreases docs@.len() - i,
        {
            let c = self.candidate(&terms, docs[i]);
            candidates.push(c);
            i = i + 1;
        }
        let r = QueryStats { terms, candidates };
        proof {
            assert forall|a: int, b: int|
                0 <= a < b < r.candidates@.len() implies r.candidates@[a].doc_id
                    != r.candidates@[b].doc_id by {
                assert(r.candidates@[a].doc_id == docs@[a]);
                assert(r.candidates@[b].doc_id == docs@[b]);
            }
            assert forall|d: DocId|
                reaches(self.index_spec(), tv, d as int) implies exists|m: int|
                    0 <= m < r.candidates@.len() && (#[trigger] r.candidates@[m]).doc_id == d by {
                assert(docs@.contains(d));
                let m = choose|m: int| 0 <= m < docs@.len() && docs@[m] == d;
                assert(r.candidates@[m].doc_id == d);
            }
            assert forall|m: int| 0 <= m < r.candidates@.len() implies reaches(
                self.index_spec(),
                tv,
                (#[trigger] r.candidates@[m]).doc_id as int,
            ) && candidate_ok(self, tv, r.candidates@[m]) by {
                assert(docs@.contains(docs@[m]));
                assert(candidate_ok(self, tv, r.candidates@[m]));
            }
            assert(term_views(r.terms@) == tv);
        }
        r
    }

    /// The query's distinct terms and the documents they reach, as
    /// `candidates_with` with a stemmer of its own.
    pub fn candidates(&self, query: &str) -> (r: QueryStats)
        requires
            self.wf(),
            query@.len() <= MAX_TEXT_CHARS,
        ensures
            r.terms_match(text_tokens(self.tokenizer_spec().stops(), query@)),
            r.candidates_match(self),
    {
        let mut stemmer = EnglishStemmer::new();
        self.candidates_with(&mut stemmer, query)
    }

    /// Documents reached by the terms: each once, in order of discovery.
    fn reached_docs(&self, terms: &Vec<String>) -> (r: Vec<DocId>)
        requires
            self.wf(),
        ensures
            forall|a: int, b: int| 0 <= a < b < r@.len() ==> r@[a] != r@[b],
            forall|d: DocId| r@.contains(d) <==> reaches(self.index_spec(), term_views(terms@), d as int),
    {
        let ghost tv = term_views(terms@);
        let mut docs: Vec<DocId> = Vec::new();
        let mut j: usize = 0;
        while j < terms.len()
            invariant
                self.wf(),
                j <= terms@.len(),
                tv == term_views(terms@),
                forall|a: int, b: int| 0 <= a < b < docs@.len() ==> docs@[a] != docs@[b],
                forall|d: DocId| docs@.contains(d) <==> reaches(self.index_spec(), tv.take(j as int), d as int),
            decreases terms@.len() - j,
        {
            let ghost pe = postings_of_term(self.index_spec(), tv[j as int]);
            match self.index.get_postings(terms[j].as_str()) {
                Some(ps) => {
                    let mut k: usize = 0;
                    while k < ps.len()
                        invariant
                            k <= ps@.len(),
                            pe == postings_view(ps@),
                            forall|a: int, b: int| 0 <= a < b < docs@.len() ==> docs@[a] != docs@[b],
                            forall|e: DocId| docs@.contains(e) <==> (reaches(self.index_spec(), tv.take(j as int), e as int) || has_doc(pe.take(k as int), e as int)),
                        decreases ps@.len() - k,
                    {
                        let d = ps[k].doc_id;
                        let ghost before = docs@;
                        if !contains_doc(&docs, d) {
                            docs.push(d);
                            proof {
                                assert forall|a: int, b: int| 0 <= a < b < docs@.len() implies docs@[a] != docs@[b] by {
                                    if b == before.len() {
                                        assert(before[a] == docs@[a]);
                                    }
                                }
                            }
                        }
                        proof {
                            assert(pe[k as int].0 == d as int);
                            assert forall|e: DocId| docs@.contains(e) <==> (reaches(self.index_spec(), tv.take(j as int), e as int) || has_doc(pe.take(k + 1), e as int)) by {
                                assert(pe.take(k + 1)[k as int] == pe[k as int]);
                                if has_doc(pe.take(k as int), e as int) {
                                    let x = choose|x: int| 0 <= x < pe.take(k as int).len() && (#[trigger] pe.take(k as int)[x]).0 == e as int;
                                    assert(pe.take(k + 1)[x] == pe.take(k as int)[x]);
                                }
                                if has_doc(pe.take(k + 1), e as int) && e != d {
                                    let x = choose|x: int| 0 <= x < pe.take(k + 1).len() && (#[trigger] pe.take(k + 1)[x]).0 == e as int;
                                    assert(pe.take(k as int)[x] == pe.take(k + 1)[x]);
                                }
                                if docs@.contains(e) && !before.contains(e) {
                                    let x = choose|x: int| 0 <= x < docs@.len() && docs@[x] == e;
                                    if x < before.len() {
                                        assert(before[x] == docs@[x]);
                                    }
                                }
                                if before.contains(e) {
                                    let x = choose|x: int| 0 <= x < before.len() && before[x] == e;
                                    assert(docs@[x] == before[x]);
                                }
                                if e == d {
                                    if !before.contains(d) {
                                        assert(docs@[before.len() as int] == d);
                                    }
                                }
                            }
                        }
                        k = k + 1;
                    }
                    proof {
                        assert(pe.take(ps@.len() as int) =~= pe);
                    }
                },
                None => {
                    proof {
                        assert(pe.len() == 0);
                    }
                },
            }
            proof {
                assert forall|d: int| reaches(self.index_spec(), tv.take(j + 1), d) == (reaches(self.index_spec(), tv.take(j as int), d) || has_doc(pe, d)) by {
                    if reaches(self.index_spec(), tv.take(j + 1), d) {
                        let x = choose|x: int| 0 <= x < tv.take(j + 1).len() && has_doc(postings_of_term(self.index_spec(), #[trigger] tv.take(j + 1)[x]), d);
                        if x < j {
                            assert(tv.take(j as int)[x] == tv.take(j + 1)[x]);
                        }
                    }
                    if reaches(self.index_spec(), tv.take(j as int), d) {
                        let x = choose|x: int| 0 <= x < tv.take(j as int).len() && has_doc(postings_of_term(self.index_spec(), #[trigger] tv.take(j as int)[x]), d);
                        assert(tv.take(j as int)[x] == tv.take(j + 1)[x]);
                    }
                    if has_doc(pe, d) {
                        assert(tv.take(j + 1)[j as int] == tv[j as int]);
                    }
                }
            }
            j = j + 1;
        }
        proof {
            assert(tv.take(terms@.len() as int) =~= tv);
        }
        docs
    }

    /// The statistics of one document for each term.
    fn candidate(&self, terms: &Vec<String>, doc_id: DocId) -> (r: Candidate)
        requires
            self.wf(),
        ensures
            r.doc_id == doc_id,
            candidate_ok(self, term_views(terms@), r),
    {
        let ghost tv = term_views(terms@);
        let doc_length = self.length_or_zero(doc_id);
        let mut matches: Vec<TermMatch> = Vec::new();
        let mut j: usize = 0;
        while j < terms.len()
            invariant
                self.wf(),
                j <= terms@.len(),
                tv == term_views(terms@),
                matches@.len() == j,
                forall|m: int|
                    #![auto]
                    0 <= m < j ==> match_ok(
                        postings_of_term(self.index_spec(), tv[m]),
                        doc_id as int,
                        matches@[m],
                    ),
            decreases terms@.len() - j,
        {
            let ghost pe = postings_of_term(self.index_spec(), tv[j as int]);
            let m = match self.index.get_postings(terms[j].as_str()) {
                Some(ps) => TermMatch {
                    term_frequency: term_frequency_in(ps, doc_id),
                    document_frequency: ps.len(),
                },
                None => TermMatch { term_frequency: 0, document_frequency: 0 },
            };
            matches.push(m);
            j = j + 1;
        }
        Candidate { doc_id, doc_length, matches }
    }

    fn length_or_zero(&self, doc_id: DocId) -> (r: usize)
        requires
            self.wf(),
        ensures
            r as int == match self.length_of(doc_id as int) {
                Some(l) => l,
                None => 0,
            },
    {
        let mut k: usize = 0;
        while k < self.doc_lengths.len()
            invariant
                k <= self.doc_lengths@.len(),
                self.wf(),
                forall|m: int| 0 <= m < k ==> self.doc_lengths@[m].0 != doc_id,
            decreases self.doc_lengths@.len() - k,
        {
            if self.doc_lengths[k].0 == doc_id {
                proof {
                    let j = choose|j: int| 0 <= j < self.doc_lengths@.len() && self.doc_lengths@[j].0 == doc_id as int;
                    assert(j == k);
                }
                return self.doc_lengths[k].1;
            }
            k = k + 1;
        }
        0
    }
}

/// The postings of a term, empty when it was never indexed.
pub open spec fn postings_of_term(index: InvertedIndex, t: Seq<char>) -> Seq<PostingModel> {
    match index.postings(t) {
        Some(p) => p,
        None => Seq::<PostingModel>::empty(),
    }
}

/// Whether one of the terms has a posting for document `d`.
pub open spec fn reaches(index: InvertedIndex, terms: Seq<Seq<char>>, d: int) -> bool {
    exists|j: int| 0 <= j < terms.len() && has_doc(postings_of_term(index, #[trigger] terms[j]), d)
}

/// A term's statistics for document `d`, read from the term's postings.
pub open spec fn match_ok(ps: Seq<PostingModel>, d: int, m: TermMatch) -> bool {
    &&& m.term_frequency as int == term_frequency(ps, d)
    &&& m.document_frequency as int == ps.len()
}

pub open spec fn candidate_ok(ranker: &BM25Ranker, terms: Seq<Seq<char>>, c: Candidate) -> bool {
    &&& c.doc_length as int == match ranker.length_of(c.doc_id as int) {
        Some(l) => l,
        None => 0,
    }
    &&& c.matches@.len() == terms.len()
    &&& forall|m: int|
        #![auto]
        0 <= m < terms.len() ==> match_ok(
            postings_of_term(ranker.index_spec(), terms[m]),
            c.doc_id as int,
            c.matches@[m],
        )
}

/// What a query reaches: its distinct terms and the candidate documents.
pub struct QueryStats {
    pub terms: Vec<String>,
    pub candidates: Vec<Candidate>,
}

impl QueryStats {
    /// The terms are the distinct terms of the query's tokens.
    pub open spec fn terms_match(&self, qts: Seq<TokenModel>) -> bool {
        &&& forall|t: Seq<char>| term_views(self.terms@).contains(t) <==> has_term(qts, t)
        &&& forall|a: int, b: int| 0 <= a < b < self.terms@.len() ==> self.terms@[a]@ != self.terms@[b]@
    }

    /// The candidates are exactly the documents that a term reaches, each once,
    /// with its statistics.
    pub open spec fn candidates_match(&self, ranker: &BM25Ranker) -> bool {
        let tv = term_views(self.terms@);
        &&& forall|a: int, b: int|
            0 <= a < b < self.candidates@.len() ==> self.candidates@[a].doc_id != self.candidates@[b].doc_id
        &&& forall|d: DocId| reaches(ranker.index_spec(), tv, d as int) ==> exists|m: int|
            0 <= m < self.candidates@.len() && (#[trigger] self.candidates@[m]).doc_id == d
        &&& forall|m: int| 0 <= m < self.candidates@.len() ==> reaches(
            ranker.index_spec(),
            tv,
            (#[trigger] self.candidates@[m]).doc_id as int,
        ) && candidate_ok(ranker, tv, self.candidates@[m])
    }
}

fn contains_doc(v: &Vec<DocId>, d: DocId) -> (r: bool)
    ensures
        r == v@.contains(d),
{
    let mut k: usize = 0;
    while k < v.len()
        invariant
            k <= v@.len(),
            forall|m: int| 0 <= m < k ==> v@[m] != d,
        decreases v@.len() - k,
    {
        if v[k] == d {
            return true;
        }
        k = k + 1;
    }
    false
}

/// Number of positions of the first posting of document `d`, 0 when none.
fn term_frequency_in(ps: &Vec<Posting>, d: DocId) -> (r: usize)
    ensures
        r as int == term_frequency(postings_view(ps@), d as int),
{
    let ghost pv = postings_view(ps@);
    assert(pv.skip(0) =~= pv);
    let mut k: usize = 0;
    while k < ps.len()
        invariant
            k <= ps@.len(),
            pv == postings_view(ps@),
            term_frequency(pv, d as int) == term_frequency(pv.skip(k as int), d as int),
        decreases ps@.len() - k,
    {
        assert(pv.skip(k as int)[0] == pv[k as int]);
        assert(pv.skip(k as int).drop_first() =~= pv.skip(k + 1));
        if ps[k].doc_id == d {
            return ps[k].positions.len();
        }
        k = k + 1;
    }
    assert(pv.skip(k as int).len() == 0);
    0
}

/// The distinct terms of a token list, in order of first occurrence.
pub fn distinct_terms(tokens: &Vec<crate::tokenizer::Token>) -> (r: Vec<String>)
    ensures
        forall|t: Seq<char>| term_views(r@).contains(t) <==> has_term(tokens_view(tokens@), t),
        forall|a: int, b: int| 0 <= a < b < r@.len() ==> r@[a]@ != r@[b]@,
{
    let ghost ts = tokens_view(tokens@);
    let mut r: Vec<String> = Vec::new();
    let mut i: usize = 0;
    while i < tokens.len()
        invariant
            i <= tokens@.len(),
            ts == tokens_view(tokens@),
            forall|t: Seq<char>| term_views(r@).contains(t) <==> has_term(ts.take(i as int), t),
            forall|a: int, b: int| 0 <= a < b < r@.len() ==> r@[a]@ != r@[b]@,
        decreases tokens@.len() - i,
    {
        let ghost before = r@;
        let term = &tokens[i].term;
        proof {
            assert(ts[i as int].0 == term@);
        }
        let mut k: usize = 0;
        let mut seen = false;
        while k < r.len()
            invariant_except_break
                !seen,
            invariant
                k <= r@.len(),
                r@ == before,
                forall|m: int| 0 <= m < k ==> r@[m]@ != term@,
            ensures
                r@ == before,
                seen ==> term_views(r@).contains(term@),
                !seen ==> forall|m: int| 0 <= m < r@.len() ==> r@[m]@ != term@,
            decreases r@.len() - k,
        {
            if term.eq(&r[k]) {
                seen = true;
                proof {
                    assert(term_views(r@)[k as int] == term@);
                }
                break;
            }
            k = k + 1;
        }
        if !seen {
            r.push(term.clone());
            proof {
                assert forall|a: int, b: int| 0 <= a < b < r@.len() implies r@[a]@ != r@[b]@ by {
                    if b == before.len() {
                        assert(r@[a] == before[a]);
                    }
                }
            }
        }
        proof {
            let pre = ts.take(i as int);
            let cur = ts.take(i + 1);
            assert(ts.len() == tokens@.len());
            assert(pre.len() == i);
            assert(cur.len() == i + 1);
            assert forall|t: Seq<char>| term_views(r@).contains(t) <==> has_term(cur, t) by {
                if has_term(cur, t) {
                    let x = choose|x: int| 0 <= x < cur.len() && (#[trigger] cur[x]).0 == t;
                    if x < i {
                        assert(pre[x] == cur[x]);
                        assert(0 <= x < pre.len() && pre[x].0 == t);
                        assert(has_term(pre, t)) by {
                            assert(exists|k: int| 0 <= k < pre.len() && (#[trigger] pre[k]).0 == t);
                        }
                        assert(term_views(before).contains(t));
                        let y = choose|y: int| 0 <= y < before.len() && #[trigger] term_views(before)[y] == t;
                        assert(term_views(r@)[y] == t);
                    } else {
                        assert(cur[x] == ts[i as int]);
                        if !seen {
                            assert(term_views(r@)[before.len() as int] == t);
                        }
                    }
                }
                if term_views(r@).contains(t) {
                    let y = choose|y: int| 0 <= y < r@.len() && #[trigger] term_views(r@)[y] == t;
                    if y < before.len() {
                        assert(term_views(before)[y] == t);
                        assert(term_views(before).contains(t));
                        assert(has_term(pre, t));
                        let x = choose|x: int| 0 <= x < pre.len() && (#[trigger] pre[x]).0 == t;
                        assert(cur[x] == pre[x]);
                    } else {
                        assert(cur[i as int].0 == t);
                    }
                }
            }
        }
        i = i + 1;
    }
    assert(ts.take(tokens@.len() as int) =~= ts);
    r
}

proof fn lemma_closed_count(stops: Seq<Seq<char>>, s: Seq<char>, n: int)
    requires
        0 <= n,
    ensures
        crate::tokenizer::closed_tokens(stops, s, n).len() <= n,
    decreases n,
{
    if n > 0 {
        lemma_closed_count(stops, s, n - 1);
    }
}

/// A text has at most one token more than it has characters.
pub proof fn lemma_token_count(stops: Seq<Seq<char>>, s: Seq<char>)
    ensures
        text_tokens(stops, s).len() <= s.len() + 1,
{
    lemma_closed_count(stops, s, s.len() as int);
}

/// A query without words has no terms and reaches no document.
pub proof fn lemma_empty_query_reaches_nothing(
    ranker: &BM25Ranker,
    stats: &QueryStats,
    stops: Seq<Seq<char>>,
)
    requires
        stats.terms_match(text_tokens(stops, Seq::<char>::empty())),
        stats.candidates_match(ranker),
    ensures
        stats.terms@.len() == 0,
        stats.candidates@.len() == 0,
{
    let s = Seq::<char>::empty();
    assert(s.subrange(0, 0) =~= s);
    assert(text_tokens(stops, s) =~= Seq::<TokenModel>::empty());
    if stats.terms@.len() > 0 {
        assert(term_views(stats.terms@)[0] == stats.terms@[0]@);
        assert(has_term(text_tokens(stops, s), stats.terms@[0]@));
    }
    if stats.candidates@.len() > 0 {
        assert(reaches(ranker.index_spec(), term_views(stats.terms@), stats.candidates@[0].doc_id as int));
    }
}

/// A query whose terms were never indexed reaches no document.
pub proof fn lemma_unindexed_terms_reach_nothing(ranker: &BM25Ranker, stats: &QueryStats)
    requires
        stats.candidates_match(ranker),
        forall|j: int| 0 <= j < stats.terms@.len() ==> ranker.index_spec().postings(
            #[trigger] stats.terms@[j]@,
        ) is None,
    ensures
        stats.candidates@.len() == 0,
{
    if stats.candidates@.len() > 0 {
        let tv = term_views(stats.terms@);
        let d = stats.candidates@[0].doc_id as int;
        assert(reaches(ranker.index_spec(), tv, d));
        let j = choose|j: int| 0 <= j < tv.len() && has_doc(postings_of_term(ranker.index_spec(), #[trigger] tv[j]), d);
        assert(tv[j] == stats.terms@[j]@);
    }
}

} // verus!
