use crate::counts::{
    chars_eq, copy_chars, count_terms, distinct, doc_term_counts, doc_terms,
    lemma_distinct_concat, lemma_distinct_no_dups, lemma_doc_terms_distinct,
    lemma_occurrences_bound, lemma_occurrences_concat, occurrences,
    term_count, token_count, TermCounts,
};
use crate::tokenizer::{chars_of, token_runs, tokens_of};
use crate::table::{
    is_last_with, last_value, lemma_last_value_absent, lemma_last_value_at, lemma_last_value_push,
    lemma_last_value_some, lemma_last_value_update,
};
use vstd::prelude::*;

verus! {

/// What the dictionary holds for a term: its identifier and the number of
/// documents that contain it.
#[derive(Clone, Copy, Debug, PartialEq, Eq, Structural)]
pub struct TokenStat {
    pub id: u64,
    pub docs: u64,
}

/// Why an insert or a remove was refused. A refused operation changes nothing.
#[derive(Debug, PartialEq, Eq, Structural)]
pub enum FtsError {
    /// The key already has a document.
    DuplicateDocument,
    /// The key has no document.
    DocumentNotFound,
    /// The text does not match the one indexed under the key.
    ValueMismatch,
    /// The tables disagree with one another.
    ConsistencyViolation,
    /// A counter would leave its 64-bit range.
    CounterOverflow,
}

/// An inverted index over documents identified by byte keys.
///
/// Three tables: the document lengths, the token dictionary and the postings.
/// Each is a list of records; what a table holds for a key is its last record
/// with that key, and a removed entry is a record whose value is cleared.
/// The dictionary's empty token is the sentinel: its document count is the
/// number of documents in the corpus.
pub struct FTSTree {
    doc_keys: Vec<Vec<u8>>,
    doc_lens: Vec<Option<u64>>,
    token_keys: Vec<Vec<char>>,
    token_stats: Vec<TokenStat>,
    post_ids: Vec<u64>,
    post_docs: Vec<Vec<u8>>,
    post_freqs: Vec<Option<u64>>,
    total_len: u64,
    next_id: u64,
}

/// One posting met by a query: the document's key, how often the query holds the
/// term, how often the document holds it, how many documents hold it, and the
/// document's length (zero where the length table has none).
pub struct TermMatch {
    pub key: Vec<u8>,
    pub query_count: u64,
    pub term_frequency: u64,
    pub doc_frequency: u64,
    pub doc_length: u64,
}

/// What a document's score for a query is computed from: the corpus statistics
/// and every posting that the query's terms meet, in the order met.
pub struct QueryStats {
    pub num_documents: u64,
    pub total_length: u64,
    pub matches: Vec<TermMatch>,
}

impl View for TermMatch {
    type V = (Seq<u8>, u64, u64, u64, u64);

    open spec fn view(&self) -> Self::V {
        (self.key@, self.query_count, self.term_frequency, self.doc_frequency, self.doc_length)
    }
}

/// The matches as tuples of plain values.
pub open spec fn matches_view(v: Seq<TermMatch>) -> Seq<(Seq<u8>, u64, u64, u64, u64)> {
    v.map_values(|m: TermMatch| m@)
}

/// How a term's dictionary entry moves when a document holding it comes in.
pub open spec fn stat_added(before: Option<TokenStat>, after: TokenStat, fresh: u64) -> bool {
    match before {
        Some(b) => after.id == b.id && after.docs == b.docs + 1,
        None => after.id >= fresh && after.docs == 1,
    }
}

impl FTSTree {
    /// The length table as `(key, length)` records.
    pub closed spec fn doc_table(&self) -> Seq<(Seq<u8>, Option<u64>)> {
        Seq::new(self.doc_keys@.len(), |i: int| (self.doc_keys@[i]@, self.doc_lens@[i]))
    }

    /// The dictionary as `(term, entry)` records.
    pub closed spec fn token_table(&self) -> Seq<(Seq<char>, Option<TokenStat>)> {
        Seq::new(self.token_keys@.len(), |i: int| (self.token_keys@[i]@, Some(self.token_stats@[i])))
    }

    /// The postings as `((term id, key), occurrences)` records.
    pub closed spec fn posting_table(&self) -> Seq<((u64, Seq<u8>), Option<u64>)> {
        Seq::new(
            self.post_ids@.len(),
            |i: int| ((self.post_ids@[i], self.post_docs@[i]@), self.post_freqs@[i]),
        )
    }

    /// The token count of the document under `k`, if there is one.
    pub open spec fn doc_length(&self, k: Seq<u8>) -> Option<u64> {
        last_value(self.doc_table(), k)
    }

    /// The dictionary entry of `t`, if there is one.
    pub open spec fn token_stat(&self, t: Seq<char>) -> Option<TokenStat> {
        last_value(self.token_table(), t)
    }

    /// The occurrences of the term with identifier `id` in the document under `k`.
    pub open spec fn posting(&self, id: u64, k: Seq<u8>) -> Option<u64> {
        last_value(self.posting_table(), (id, k))
    }

    /// The sum of the lengths of all documents.
    pub closed spec fn total_length(&self) -> u64 {
        self.total_len
    }

    /// The identifier that the next new term receives.
    pub closed spec fn next_token_id(&self) -> u64 {
        self.next_id
    }

    /// The number of documents: the sentinel's document count.
    pub open spec fn num_documents(&self) -> u64 {
        match self.token_stat(Seq::empty()) {
            Some(s) => s.docs,
            None => 0,
        }
    }

    /// The tables are parallel lists, and the dictionary's identifiers are distinct
    /// and below the next one to be handed out.
    pub closed spec fn wf(&self) -> bool {
        &&& self.doc_keys@.len() == self.doc_lens@.len()
        &&& self.token_keys@.len() == self.token_stats@.len()
        &&& self.post_ids@.len() == self.post_docs@.len()
        &&& self.post_ids@.len() == self.post_freqs@.len()
        &&& forall|i: int| 0 <= i < self.token_stats@.len() ==> #[trigger] self.token_stats@[i].id < self.next_id
        &&& forall|i: int, j: int|
            0 <= i < self.token_stats@.len() && 0 <= j < self.token_stats@.len() && i != j
                ==> #[trigger] self.token_stats@[i].id != #[trigger] self.token_stats@[j].id
    }

    /// Inserting `text` under `k` keeps every counter in range.
    pub open spec fn insert_fits(&self, text: Seq<char>) -> bool {
        &&& self.total_length() + token_count(text) <= u64::MAX
        &&& self.next_token_id() + doc_terms(text).len() <= u64::MAX
        &&& forall|t: Seq<char>|
            doc_terms(text).contains(t) && #[trigger] self.token_stat(t) is Some
                ==> self.token_stat(t)->0.docs < u64::MAX
    }

    /// `self` is what a successful insert of `text` under `k` makes of `old`.
    pub open spec fn inserted(&self, old: &FTSTree, k: Seq<u8>, text: Seq<char>) -> bool {
        &&& self.doc_length(k) == Some(token_count(text) as u64)
        &&& forall|k2: Seq<u8>| k2 != k ==> #[trigger] self.doc_length(k2) == old.doc_length(k2)
        &&& self.total_length() == old.total_length() + token_count(text)
        &&& self.next_token_id() >= old.next_token_id()
        &&& forall|t: Seq<char>|
            !doc_terms(text).contains(t) ==> #[trigger] self.token_stat(t) == old.token_stat(t)
        &&& forall|t: Seq<char>|
            #![trigger self.token_stat(t)]
            doc_terms(text).contains(t) ==> {
                &&& self.token_stat(t) is Some
                &&& stat_added(old.token_stat(t), self.token_stat(t)->0, old.next_token_id())
                &&& self.posting(self.token_stat(t)->0.id, k) == Some(term_count(text, t) as u64)
            }
        &&& forall|id: u64, k2: Seq<u8>| k2 != k ==> #[trigger] self.posting(id, k2) == old.posting(id, k2)
        &&& forall|id: u64|
            (forall|t: Seq<char>| doc_terms(text).contains(t) ==> #[trigger] self.token_stat(t)->0.id != id)
                ==> #[trigger] self.posting(id, k) == old.posting(id, k)
    }

    /// Every term of `text` is in the dictionary and counts at least one document.
    pub open spec fn terms_present(&self, text: Seq<char>) -> bool {
        forall|t: Seq<char>|
            doc_terms(text).contains(t) ==> (#[trigger] self.token_stat(t) matches Some(s) && s.docs >= 1)
    }

    /// The postings of the document under `k` hold the count of every term of `text`.
    pub open spec fn postings_match(&self, k: Seq<u8>, text: Seq<char>) -> bool {
        forall|t: Seq<char>|
            doc_terms(text).contains(t) && #[trigger] self.token_stat(t) is Some ==> self.posting(
                self.token_stat(t)->0.id,
                k,
            ) == Some(term_count(text, t) as u64)
    }

    /// A remove of `text` under `k` finds all that the insert of it left.
    pub open spec fn remove_ok(&self, k: Seq<u8>, text: Seq<char>) -> bool {
        &&& self.doc_length(k) == Some(token_count(text) as u64)
        &&& self.total_length() >= token_count(text)
        &&& self.terms_present(text)
        &&& self.postings_match(k, text)
    }

    /// `self` is what a successful remove of `text` under `k` makes of `old`.
    pub open spec fn removed(&self, old: &FTSTree, k: Seq<u8>, text: Seq<char>) -> bool {
        &&& self.doc_length(k) is None
        &&& forall|k2: Seq<u8>| k2 != k ==> #[trigger] self.doc_length(k2) == old.doc_length(k2)
        &&& self.total_length() == old.total_length() - token_count(text)
        &&& self.next_token_id() == old.next_token_id()
        &&& forall|t: Seq<char>|
            !doc_terms(text).contains(t) ==> #[trigger] self.token_stat(t) == old.token_stat(t)
        &&& forall|t: Seq<char>|
            #![trigger self.token_stat(t)]
            doc_terms(text).contains(t) ==> {
                &&& self.token_stat(t) == Some(
                    TokenStat { id: old.token_stat(t)->0.id, docs: (old.token_stat(t)->0.docs - 1) as u64 },
                )
                &&& self.posting(old.token_stat(t)->0.id, k) is None
            }
        &&& forall|id: u64, k2: Seq<u8>| k2 != k ==> #[trigger] self.posting(id, k2) == old.posting(id, k2)
        &&& forall|id: u64|
            (forall|t: Seq<char>| doc_terms(text).contains(t) ==> #[trigger] old.token_stat(t)->0.id != id)
                ==> #[trigger] self.posting(id, k) == old.posting(id, k)
    }

    /// The length of the document under `k`, or zero.
    pub open spec fn length_or_zero(&self, k: Seq<u8>) -> u64 {
        match self.doc_length(k) {
            Some(l) => l,
            None => 0,
        }
    }

    /// The postings among the records `s` of the term `id`, in record order, as
    /// matches of a term that `df` documents and the query `qc` times hold.
    pub open spec fn scan_postings(
        &self,
        s: Seq<((u64, Seq<u8>), Option<u64>)>,
        id: u64,
        df: u64,
        qc: u64,
    ) -> Seq<(Seq<u8>, u64, u64, u64, u64)>
        decreases s.len(),
    {
        if s.len() == 0 {
            Seq::empty()
        } else {
            let prev = self.scan_postings(s.drop_last(), id, df, qc);
            let e = s.last();
            if e.0.0 == id && e.1 is Some {
                prev.push((e.0.1, qc, e.1->0, df, self.length_or_zero(e.0.1)))
            } else {
                prev
            }
        }
    }

    /// The matches of the term `t`, held `qc` times by a query.
    pub open spec fn term_matches(&self, t: Seq<char>, qc: u64) -> Seq<(Seq<u8>, u64, u64, u64, u64)> {
        match self.token_stat(t) {
            Some(st) => self.scan_postings(self.posting_table(), st.id, st.docs, qc),
            None => Seq::empty(),
        }
    }

    /// The matches of the terms `terms` in turn, each counted as often as `toks` holds it.
    pub open spec fn terms_matches(&self, terms: Seq<Seq<char>>, toks: Seq<Seq<char>>) -> Seq<
        (Seq<u8>, u64, u64, u64, u64),
    >
        decreases terms.len(),
    {
        if terms.len() == 0 {
            Seq::empty()
        } else {
            self.terms_matches(terms.drop_last(), toks) + self.term_matches(
                terms.last(),
                occurrences(toks, terms.last()) as u64,
            )
        }
    }

    /// The matches of the query `q`: those of its distinct tokens, in order of
    /// first occurrence.
    pub open spec fn query_matches(&self, q: Seq<char>) -> Seq<(Seq<u8>, u64, u64, u64, u64)> {
        self.terms_matches(distinct(tokens_of(q)), tokens_of(q))
    }

    /// An empty index.
    pub fn new() -> (r: FTSTree)
        ensures
            r.wf(),
            forall|k: Seq<u8>| #[trigger] r.doc_length(k) is None,
            forall|t: Seq<char>| #[trigger] r.token_stat(t) is None,
            forall|id: u64, k: Seq<u8>| #[trigger] r.posting(id, k) is None,
            r.total_length() == 0,
            r.num_documents() == 0,
    {
        let r = FTSTree {
            doc_keys: Vec::new(),
            doc_lens: Vec::new(),
            token_keys: Vec::new(),
            token_stats: Vec::new(),
            post_ids: Vec::new(),
            post_docs: Vec::new(),
            post_freqs: Vec::new(),
            total_len: 0,
            next_id: 0,
        };
        assert forall|k: Seq<u8>| #[trigger] r.doc_length(k) is None by {
            lemma_last_value_absent(r.doc_table(), k);
        }
        assert forall|t: Seq<char>| #[trigger] r.token_stat(t) is None by {
            lemma_last_value_absent(r.token_table(), t);
        }
        assert forall|id: u64, k: Seq<u8>| #[trigger] r.posting(id, k) is None by {
            lemma_last_value_absent(r.posting_table(), (id, k));
        }
        r
    }

    fn find_doc(&self, k: &Vec<u8>) -> (r: Option<usize>)
        requires
            self.wf(),
        ensures
            r matches Some(i) ==> is_last_with(self.doc_table(), i as int, k@) && self.doc_length(k@)
                == self.doc_lens@[i as int],
            r is None ==> self.doc_length(k@) is None,
    {
        let mut i = self.doc_keys.len();
        while i > 0
            invariant
                self.wf(),
                i <= self.doc_keys@.len(),
                forall|j: int| i <= j < self.doc_keys@.len() ==> #[trigger] self.doc_table()[j].0 != k@,
            decreases i,
        {
            i = i - 1;
            if bytes_eq(&self.doc_keys[i], k) {
                proof {
                    lemma_last_value_at(self.doc_table(), i as int, k@);
                }
                return Some(i);
            }
        }
        proof {
            lemma_last_value_absent(self.doc_table(), k@);
        }
        None
    }

    fn find_token(&self, t: &Vec<char>) -> (r: Option<usize>)
        requires
            self.wf(),
        ensures
            r matches Some(i) ==> is_last_with(self.token_table(), i as int, t@) && self.token_stat(t@)
                == Some(self.token_stats@[i as int]),
            r is None ==> self.token_stat(t@) is None,
    {
        let mut i = self.token_keys.len();
        while i > 0
            invariant
                self.wf(),
                i <= self.token_keys@.len(),
                forall|j: int| i <= j < self.token_keys@.len() ==> #[trigger] self.token_table()[j].0 != t@,
            decreases i,
        {
            i = i - 1;
            if chars_eq(&self.token_keys[i], t) {
                proof {
                    lemma_last_value_at(self.token_table(), i as int, t@);
                }
                return Some(i);
            }
        }
        proof {
            lemma_last_value_absent(self.token_table(), t@);
        }
        None
    }

    fn find_posting(&self, id: u64, k: &Vec<u8>) -> (r: Option<usize>)
        requires
            self.wf(),
        ensures
            r matches Some(i) ==> is_last_with(self.posting_table(), i as int, (id, k@)) && self.posting(id, k@)
                == self.post_freqs@[i as int],
            r is None ==> self.posting(id, k@) is None,
    {
        let mut i = self.post_ids.len();
        while i > 0
            invariant
                self.wf(),
                i <= self.post_ids@.len(),
                forall|j: int| i <= j < self.post_ids@.len() ==> #[trigger] self.posting_table()[j].0 != (id, k@),
            decreases i,
        {
            i = i - 1;
            if self.post_ids[i] == id && bytes_eq(&self.post_docs[i], k) {
                proof {
                    lemma_last_value_at(self.posting_table(), i as int, (id, k@));
                }
                return Some(i);
            }
        }
        proof {
            lemma_last_value_absent(self.posting_table(), (id, k@));
        }
        None
    }
}

impl FTSTree {
    /// Distinct terms of the dictionary have distinct identifiers.
    pub proof fn lemma_ids_distinct(&self, t1: Seq<char>, t2: Seq<char>)
        requires
            self.wf(),
            self.token_stat(t1) is Some,
            self.token_stat(t2) is Some,
            t1 != t2,
        ensures
            self.token_stat(t1)->0.id != self.token_stat(t2)->0.id,
            self.token_stat(t1)->0.id < self.next_token_id(),
    {
        lemma_last_value_some(self.token_table(), t1);
        lemma_last_value_some(self.token_table(), t2);
        let i = choose|i: int| is_last_with(self.token_table(), i, t1) && self.token_table()[i].1 == self.token_stat(t1);
        let j = choose|j: int| is_last_with(self.token_table(), j, t2) && self.token_table()[j].1 == self.token_stat(t2);
        assert(self.token_stats@[i].id != self.token_stats@[j].id);
    }

    /// Sets what the length table holds for `k`.
    fn set_doc_len(&mut self, k: &Vec<u8>, len: Option<u64>)
        requires
            old(self).wf(),
        ensures
            final(self).wf(),
            final(self).doc_length(k@) == len,
            forall|k2: Seq<u8>| k2 != k@ ==> #[trigger] final(self).doc_length(k2) == old(self).doc_length(k2),
            final(self).token_table() == old(self).token_table(),
            final(self).posting_table() == old(self).posting_table(),
            final(self).total_len == old(self).total_len,
            final(self).next_id == old(self).next_id,
    {
        let ghost before = self.doc_table();
        match self.find_doc(k) {
            Some(i) => {
                self.doc_lens.set(i, len);
                assert(self.doc_table() =~= before.update(i as int, (k@, len)));
                assert forall|k2: Seq<u8>| #[trigger] self.doc_length(k2) == if k@ == k2 { len } else { last_value(before, k2) } by {
                    lemma_last_value_update(before, i as int, (k@, len), k2);
                }
            },
            None => {
                self.doc_keys.push(bytes_of(k.as_slice()));
                self.doc_lens.push(len);
                assert(self.doc_table() =~= before.push((k@, len)));
                assert forall|k2: Seq<u8>| #[trigger] self.doc_length(k2) == if k@ == k2 { len } else { last_value(before, k2) } by {
                    lemma_last_value_push(before, (k@, len), k2);
                }
            },
        }
    }

    /// Sets what the postings hold for the term `id` in the document `k`.
    fn set_posting(&mut self, id: u64, k: &Vec<u8>, f: Option<u64>)
        requires
            old(self).wf(),
        ensures
            final(self).wf(),
            final(self).posting(id, k@) == f,
            forall|id2: u64, k2: Seq<u8>|
                (id2, k2) != (id, k@) ==> #[trigger] final(self).posting(id2, k2) == old(self).posting(id2, k2),
            final(self).token_table() == old(self).token_table(),
            final(self).doc_table() == old(self).doc_table(),
            final(self).total_len == old(self).total_len,
            final(self).next_id == old(self).next_id,
    {
        let ghost before = self.posting_table();
        match self.find_posting(id, k) {
            Some(i) => {
                self.post_freqs.set(i, f);
                assert(self.posting_table() =~= before.update(i as int, ((id, k@), f)));
                assert forall|id2: u64, k2: Seq<u8>| #[trigger] self.posting(id2, k2) == if (id, k@) == (id2, k2) { f } else { last_value(before, (id2, k2)) } by {
                    lemma_last_value_update(before, i as int, ((id, k@), f), (id2, k2));
                }
            },
            None => {
                self.post_ids.push(id);
                self.post_docs.push(bytes_of(k.as_slice()));
                self.post_freqs.push(f);
                assert(self.posting_table() =~= before.push(((id, k@), f)));
                assert forall|id2: u64, k2: Seq<u8>| #[trigger] self.posting(id2, k2) == if (id, k@) == (id2, k2) { f } else { last_value(before, (id2, k2)) } by {
                    lemma_last_value_push(before, ((id, k@), f), (id2, k2));
                }
            },
        }
    }

    /// Counts one more document for the term `t`, giving it a fresh identifier if
    /// it is new; returns its identifier.
    fn add_term_doc(&mut self, t: &Vec<char>) -> (id: u64)
        requires
            old(self).wf(),
            old(self).token_stat(t@) matches Some(s) ==> s.docs < u64::MAX,
            old(self).token_stat(t@) is None ==> old(self).next_id < u64::MAX,
        ensures
            final(self).wf(),
            final(self).token_stat(t@) matches Some(s) && s.id == id && stat_added(
                old(self).token_stat(t@),
                s,
                old(self).next_id,
            ),
            old(self).token_stat(t@) is Some ==> final(self).next_id == old(self).next_id,
            old(self).token_stat(t@) is None ==> final(self).next_id == old(self).next_id + 1 && id
                == old(self).next_id,
            forall|t2: Seq<char>| t2 != t@ ==> #[trigger] final(self).token_stat(t2) == old(self).token_stat(t2),
            final(self).doc_table() == old(self).doc_table(),
            final(self).posting_table() == old(self).posting_table(),
            final(self).total_len == old(self).total_len,
    {
        let ghost before = self.token_table();
        match self.find_token(t) {
            Some(i) => {
                let st = self.token_stats[i];
                let ns = TokenStat { id: st.id, docs: st.docs + 1 };
                self.token_stats.set(i, ns);
                assert(self.token_table() =~= before.update(i as int, (t@, Some(ns))));
                assert forall|t2: Seq<char>| #[trigger] self.token_stat(t2) == if t@ == t2 { Some(ns) } else { last_value(before, t2) } by {
                    lemma_last_value_update(before, i as int, (t@, Some(ns)), t2);
                }
                st.id
            },
            None => {
                let ns = TokenStat { id: self.next_id, docs: 1 };
                self.token_keys.push(copy_chars(t));
                self.token_stats.push(ns);
                self.next_id = self.next_id + 1;
                assert(self.token_table() =~= before.push((t@, Some(ns))));
                assert forall|t2: Seq<char>| #[trigger] self.token_stat(t2) == if t@ == t2 { Some(ns) } else { last_value(before, t2) } by {
                    lemma_last_value_push(before, (t@, Some(ns)), t2);
                }
                ns.id
            },
        }
    }

    /// Counts one document less for the term `t`, which is in the dictionary.
    fn drop_term_doc(&mut self, t: &Vec<char>) -> (id: u64)
        requires
            old(self).wf(),
            old(self).token_stat(t@) matches Some(s) && s.docs >= 1,
        ensures
            final(self).wf(),
            final(self).token_stat(t@) == Some(TokenStat { id, docs: (old(self).token_stat(t@)->0.docs - 1) as u64 }),
            id == old(self).token_stat(t@)->0.id,
            forall|t2: Seq<char>| t2 != t@ ==> #[trigger] final(self).token_stat(t2) == old(self).token_stat(t2),
            final(self).doc_table() == old(self).doc_table(),
            final(self).posting_table() == old(self).posting_table(),
            final(self).total_len == old(self).total_len,
            final(self).next_id == old(self).next_id,
    {
        let ghost before = self.token_table();
        match self.find_token(t) {
            Some(i) => {
                let st = self.token_stats[i];
                let ns = TokenStat { id: st.id, docs: st.docs - 1 };
                self.token_stats.set(i, ns);
                assert(self.token_table() =~= before.update(i as int, (t@, Some(ns))));
                assert forall|t2: Seq<char>| #[trigger] self.token_stat(t2) == if t@ == t2 { Some(ns) } else { last_value(before, t2) } by {
                    lemma_last_value_update(before, i as int, (t@, Some(ns)), t2);
                }
                st.id
            },
            None => 0,
        }
    }
}

impl FTSTree {
    fn check_fits(&self, tc: &TermCounts, n: usize, Ghost(text): Ghost<Seq<char>>) -> (r: bool)
        requires
            self.wf(),
            tc.counts_text(text),
            n == token_count(text),
        ensures
            r == self.insert_fits(text),
    {
        let ghost terms = doc_terms(text);
        if self.total_len > u64::MAX - n as u64 {
            return false;
        }
        if self.next_id > u64::MAX - tc.terms.len() as u64 {
            return false;
        }
        for j in 0..tc.terms.len()
            invariant
                self.wf(),
                tc.counts_text(text),
                terms == doc_terms(text),
                forall|m: int|
                    0 <= m < j && #[trigger] self.token_stat(terms[m]) is Some ==> self.token_stat(terms[m])->0.docs
                        < u64::MAX,
        {
            match self.find_token(&tc.terms[j]) {
                Some(i) => {
                    if self.token_stats[i].docs == u64::MAX {
                        assert(terms[j as int] == tc.terms@[j as int]@);
                        assert(terms.contains(terms[j as int]));
                        return false;
                    }
                },
                None => {},
            }
        }
        assert forall|t: Seq<char>| terms.contains(t) && #[trigger] self.token_stat(t) is Some implies self.token_stat(t)->0.docs
            < u64::MAX by {
            let m = choose|m: int| 0 <= m < terms.len() && terms[m] == t;
            assert(self.token_stat(terms[m]) is Some);
        }
        true
    }

    /// Indexes `value` under `key`.
    ///
    /// Refused, with nothing changed, when `key` already has a document or when a
    /// counter would overflow. Otherwise the document's length is its token count,
    /// the total length grows by it, every term of the document (its distinct
    /// tokens and the sentinel) counts one more document, a new term receiving a
    /// fresh identifier, and the postings of the document hold each term's count.
    pub fn insert(&mut self, key: &[u8], value: &str) -> (r: Result<(), FtsError>)
        requires
            old(self).wf(),
        ensures
            final(self).wf(),
            old(self).doc_length(key@) is Some ==> r == Err::<(), FtsError>(FtsError::DuplicateDocument),
            old(self).doc_length(key@) is None && !old(self).insert_fits(value@) ==> r == Err::<(), FtsError>(
                FtsError::CounterOverflow,
            ),
            r is Ok <==> old(self).doc_length(key@) is None && old(self).insert_fits(value@),
            r is Err ==> *final(self) == *old(self),
            r is Ok ==> final(self).inserted(old(self), key@, value@),
    {
        let k = bytes_of(key);
        let (tc, n) = doc_term_counts(value);
        let ghost text = value@;
        let ghost terms = doc_terms(text);
        proof {
            lemma_doc_terms_distinct(text);
        }
        match self.find_doc(&k) {
            Some(i) => {
                if self.doc_lens[i].is_some() {
                    return Err(FtsError::DuplicateDocument);
                }
            },
            None => {},
        }
        if !self.check_fits(&tc, n, Ghost(text)) {
            return Err(FtsError::CounterOverflow);
        }
        let ghost start = *self;
        self.set_doc_len(&k, Some(n as u64));
        let ghost after_len = *self;
        self.total_len = self.total_len + n as u64;
        assert(self.doc_table() == after_len.doc_table());
        assert(self.token_table() == after_len.token_table());
        assert(self.posting_table() == after_len.posting_table());
        assert forall|k2: Seq<u8>| k2 != k@ implies #[trigger] self.doc_length(k2) == start.doc_length(k2) by {
            assert(after_len.doc_length(k2) == start.doc_length(k2));
        }
        for j in 0..tc.terms.len()
            invariant
                self.wf(),
                tc.counts_text(text),
                terms == doc_terms(text),
                terms.no_duplicates(),
                start.wf(),
                start.insert_fits(text),
                k@ == key@,
                self.doc_length(k@) == Some(n as u64),
                forall|k2: Seq<u8>| k2 != k@ ==> #[trigger] self.doc_length(k2) == start.doc_length(k2),
                self.total_len == start.total_len + n,
                start.next_id <= self.next_id <= start.next_id + j,
                forall|t: Seq<char>|
                    (forall|m: int| 0 <= m < j ==> terms[m] != t) ==> #[trigger] self.token_stat(t)
                        == start.token_stat(t),
                forall|m: int|
                    #![trigger terms[m]]
                    0 <= m < j ==> {
                        &&& self.token_stat(terms[m]) is Some
                        &&& stat_added(start.token_stat(terms[m]), self.token_stat(terms[m])->0, start.next_id)
                        &&& self.posting(self.token_stat(terms[m])->0.id, k@) == Some(
                            term_count(text, terms[m]) as u64,
                        )
                    },
                forall|id: u64, k2: Seq<u8>| k2 != k@ ==> #[trigger] self.posting(id, k2) == start.posting(id, k2),
                forall|id: u64|
                    (forall|m: int| 0 <= m < j ==> #[trigger] self.token_stat(terms[m])->0.id != id)
                        ==> #[trigger] self.posting(id, k@) == start.posting(id, k@),
        {
            let ghost t = terms[j as int];
            let ghost mid = *self;
            assert(tc.terms@[j as int]@ == t);
            assert forall|m: int| 0 <= m < j implies terms[m] != t by {
                assert(terms[m] != terms[j as int]);
            }
            assert(terms.contains(t));
            let id = self.add_term_doc(&tc.terms[j]);
            let ghost mid2 = *self;
            self.set_posting(id, &k, Some(tc.counts[j] as u64));
            assert(self.doc_table() == mid.doc_table());
            assert(self.token_table() == mid2.token_table());
            assert forall|k2: Seq<u8>| k2 != k@ implies #[trigger] self.doc_length(k2) == start.doc_length(k2) by {
                assert(mid.doc_length(k2) == start.doc_length(k2));
            }
            assert forall|t2: Seq<char>| (forall|m: int| 0 <= m < j + 1 ==> terms[m] != t2) implies #[trigger] self.token_stat(t2)
                == start.token_stat(t2) by {
                assert(terms[j as int] != t2);
                assert(forall|m: int| 0 <= m < j ==> terms[m] != t2);
                assert(mid2.token_stat(t2) == mid.token_stat(t2));
                assert(mid.token_stat(t2) == start.token_stat(t2));
            }
            assert(mid.token_stat(t) == start.token_stat(t));
            assert(tc.counts@[j as int] == term_count(text, t));
            assert(mid2.posting_table() == mid.posting_table());
            assert forall|id2: u64, k2: Seq<u8>| k2 != k@ implies #[trigger] self.posting(id2, k2) == start.posting(id2, k2) by {
                assert(mid2.posting(id2, k2) == mid.posting(id2, k2));
                assert(mid.posting(id2, k2) == start.posting(id2, k2));
            }
            assert forall|id2: u64|
                (forall|m: int| 0 <= m < j + 1 ==> #[trigger] self.token_stat(terms[m])->0.id != id2)
                    implies #[trigger] self.posting(id2, k@) == start.posting(id2, k@) by {
                assert(self.token_stat(terms[j as int])->0.id == id);
                assert forall|m: int| 0 <= m < j implies #[trigger] mid.token_stat(terms[m])->0.id != id2 by {
                    assert(terms[m] != t);
                    assert(mid2.token_stat(terms[m]) == mid.token_stat(terms[m]));
                    assert(self.token_stat(terms[m])->0.id != id2);
                }
                assert(mid.posting(id2, k@) == start.posting(id2, k@));
                assert(mid2.posting(id2, k@) == mid.posting(id2, k@));
            }
            assert forall|m: int| #![trigger terms[m]] 0 <= m < j + 1 implies {
                &&& self.token_stat(terms[m]) is Some
                &&& stat_added(start.token_stat(terms[m]), self.token_stat(terms[m])->0, start.next_id)
                &&& self.posting(self.token_stat(terms[m])->0.id, k@) == Some(term_count(text, terms[m]) as u64)
            } by {
                if m < j {
                    assert(terms[m] != t);
                    assert(mid2.token_stat(terms[m]) == mid.token_stat(terms[m]));
                    mid2.lemma_ids_distinct(terms[m], t);
                    assert(self.posting(mid.token_stat(terms[m])->0.id, k@) == mid.posting(mid.token_stat(terms[m])->0.id, k@));
                }
            }
            assert forall|m: int| 0 <= m < j implies #[trigger] self.token_stat(terms[m])->0.id != id by {
                assert(terms[m] != t);
                mid2.lemma_ids_distinct(terms[m], t);
            }
        }
        assert forall|t: Seq<char>| !terms.contains(t) implies #[trigger] self.token_stat(t) == start.token_stat(t) by {
            assert forall|m: int| 0 <= m < terms.len() implies terms[m] != t by {
                assert(terms.contains(terms[m]));
            }
        }
        assert forall|t: Seq<char>| #![trigger self.token_stat(t)] terms.contains(t) implies {
            &&& self.token_stat(t) is Some
            &&& stat_added(start.token_stat(t), self.token_stat(t)->0, start.next_id)
            &&& self.posting(self.token_stat(t)->0.id, k@) == Some(term_count(text, t) as u64)
        } by {
            let m = choose|m: int| 0 <= m < terms.len() && terms[m] == t;
        }
        assert forall|id: u64|
            (forall|t: Seq<char>| terms.contains(t) ==> #[trigger] self.token_stat(t)->0.id != id)
                implies #[trigger] self.posting(id, k@) == start.posting(id, k@) by {
            assert forall|m: int| 0 <= m < terms.len() implies #[trigger] self.token_stat(terms[m])->0.id != id by {
                assert(terms.contains(terms[m]));
            }
        }
        Ok(())
    }
}

impl FTSTree {
    fn check_terms_present(&self, tc: &TermCounts, Ghost(text): Ghost<Seq<char>>) -> (r: bool)
        requires
            self.wf(),
            tc.counts_text(text),
        ensures
            r == self.terms_present(text),
    {
        let ghost terms = doc_terms(text);
        for j in 0..tc.terms.len()
            invariant
                self.wf(),
                tc.counts_text(text),
                terms == doc_terms(text),
                forall|m: int|
                    0 <= m < j ==> (#[trigger] self.token_stat(terms[m]) matches Some(s) && s.docs >= 1),
        {
            assert(terms[j as int] == tc.terms@[j as int]@);
            let ok = match self.find_token(&tc.terms[j]) {
                Some(i) => self.token_stats[i].docs >= 1,
                None => false,
            };
            if !ok {
                assert(terms.contains(terms[j as int]));
                return false;
            }
        }
        assert forall|t: Seq<char>| terms.contains(t) implies (#[trigger] self.token_stat(t) matches Some(s)
            && s.docs >= 1) by {
            let m = choose|m: int| 0 <= m < terms.len() && terms[m] == t;
        }
        true
    }

    fn check_postings(&self, k: &Vec<u8>, tc: &TermCounts, Ghost(text): Ghost<Seq<char>>) -> (r: bool)
        requires
            self.wf(),
            tc.counts_text(text),
            self.terms_present(text),
        ensures
            r == self.postings_match(k@, text),
    {
        let ghost terms = doc_terms(text);
        for j in 0..tc.terms.len()
            invariant
                self.wf(),
                tc.counts_text(text),
                terms == doc_terms(text),
                self.terms_present(text),
                forall|m: int|
                    0 <= m < j && #[trigger] self.token_stat(terms[m]) is Some ==> self.posting(
                        self.token_stat(terms[m])->0.id,
                        k@,
                    ) == Some(term_count(text, terms[m]) as u64),
        {
            assert(terms[j as int] == tc.terms@[j as int]@);
            assert(terms.contains(terms[j as int]));
            assert(tc.counts@[j as int] == term_count(text, terms[j as int]));
            let ok = match self.find_token(&tc.terms[j]) {
                Some(i) => match self.find_posting(self.token_stats[i].id, k) {
                    Some(p) => match self.post_freqs[p] {
                        Some(f) => f == tc.counts[j] as u64,
                        None => false,
                    },
                    None => false,
                },
                None => false,
            };
            if !ok {
                return false;
            }
        }
        assert forall|t: Seq<char>| terms.contains(t) && #[trigger] self.token_stat(t) is Some implies self.posting(
            self.token_stat(t)->0.id,
            k@,
        ) == Some(term_count(text, t) as u64) by {
            let m = choose|m: int| 0 <= m < terms.len() && terms[m] == t;
        }
        true
    }

    /// Removes the document `value` under `key`, which must be the text it was
    /// inserted with.
    ///
    /// Refused, with nothing changed: `DocumentNotFound` when `key` has no
    /// document; `ValueMismatch` when its length is not the token count of
    /// `value`; `ConsistencyViolation` when the total length is below it or a term
    /// of `value` is missing from the dictionary or counts no document;
    /// `ValueMismatch` when a posting of the document does not hold the count of
    /// its term. Otherwise the insert of `value` is undone: the document's length
    /// and postings are cleared, the total length shrinks by its token count and
    /// each of its terms counts one document less.
    pub fn remove(&mut self, key: &[u8], value: &str) -> (r: Result<(), FtsError>)
        requires
            old(self).wf(),
        ensures
            final(self).wf(),
            old(self).doc_length(key@) is None ==> r == Err::<(), FtsError>(FtsError::DocumentNotFound),
            old(self).doc_length(key@) matches Some(l) && l != token_count(value@) ==> r == Err::<
                (),
                FtsError,
            >(FtsError::ValueMismatch),
            old(self).doc_length(key@) == Some(token_count(value@) as u64) && (old(self).total_length()
                < token_count(value@) || !old(self).terms_present(value@)) ==> r == Err::<(), FtsError>(
                FtsError::ConsistencyViolation,
            ),
            old(self).doc_length(key@) == Some(token_count(value@) as u64) && old(self).total_length()
                >= token_count(value@) && old(self).terms_present(value@) && !old(self).postings_match(
                key@,
                value@,
            ) ==> r == Err::<(), FtsError>(FtsError::ValueMismatch),
            r is Ok <==> old(self).remove_ok(key@, value@),
            r is Err ==> *final(self) == *old(self),
            r is Ok ==> final(self).removed(old(self), key@, value@),
    {
        let k = bytes_of(key);
        let (tc, n) = doc_term_counts(value);
        let ghost text = value@;
        let ghost terms = doc_terms(text);
        proof {
            lemma_doc_terms_distinct(text);
        }
        let i = match self.find_doc(&k) {
            Some(i) => i,
            None => {
                return Err(FtsError::DocumentNotFound);
            },
        };
        match self.doc_lens[i] {
            Some(l) => {
                if l != n as u64 {
                    return Err(FtsError::ValueMismatch);
                }
            },
            None => {
                return Err(FtsError::DocumentNotFound);
            },
        }
        if self.total_len < n as u64 || !self.check_terms_present(&tc, Ghost(text)) {
            return Err(FtsError::ConsistencyViolation);
        }
        if !self.check_postings(&k, &tc, Ghost(text)) {
            return Err(FtsError::ValueMismatch);
        }
        let ghost start = *self;
        self.set_doc_len(&k, None);
        let ghost after_len = *self;
        self.total_len = self.total_len - n as u64;
        assert(self.doc_table() == after_len.doc_table());
        assert(self.token_table() == after_len.token_table());
        assert(self.posting_table() == after_len.posting_table());
        assert forall|k2: Seq<u8>| k2 != k@ implies #[trigger] self.doc_length(k2) == start.doc_length(k2) by {
            assert(after_len.doc_length(k2) == start.doc_length(k2));
        }
        for j in 0..tc.terms.len()
            invariant
                self.wf(),
                tc.counts_text(text),
                terms == doc_terms(text),
                terms.no_duplicates(),
                start.wf(),
                start.remove_ok(k@, text),
                k@ == key@,
                self.doc_length(k@) is None,
                forall|k2: Seq<u8>| k2 != k@ ==> #[trigger] self.doc_length(k2) == start.doc_length(k2),
                self.total_len == start.total_len - n,
                self.next_id == start.next_id,
                forall|t: Seq<char>|
                    (forall|m: int| 0 <= m < j ==> terms[m] != t) ==> #[trigger] self.token_stat(t)
                        == start.token_stat(t),
                forall|m: int|
                    #![trigger terms[m]]
                    0 <= m < j ==> {
                        &&& self.token_stat(terms[m]) == Some(
                            TokenStat {
                                id: start.token_stat(terms[m])->0.id,
                                docs: (start.token_stat(terms[m])->0.docs - 1) as u64,
                            },
                        )
                        &&& self.posting(start.token_stat(terms[m])->0.id, k@) is None
                    },
                forall|id: u64, k2: Seq<u8>| k2 != k@ ==> #[trigger] self.posting(id, k2) == start.posting(id, k2),
                forall|id: u64|
                    (forall|m: int| 0 <= m < j ==> #[trigger] start.token_stat(terms[m])->0.id != id)
                        ==> #[trigger] self.posting(id, k@) == start.posting(id, k@),
        {
            let ghost t = terms[j as int];
            let ghost mid = *self;
            assert(tc.terms@[j as int]@ == t);
            assert forall|m: int| 0 <= m < j implies terms[m] != t by {
                assert(terms[m] != terms[j as int]);
            }
            assert(terms.contains(t));
            assert(start.token_stat(t) matches Some(s) && s.docs >= 1);
            let id = self.drop_term_doc(&tc.terms[j]);
            let ghost mid2 = *self;
            self.set_posting(id, &k, None);
            assert(self.doc_table() == mid.doc_table());
            assert(self.token_table() == mid2.token_table());
            assert(mid2.posting_table() == mid.posting_table());
            assert forall|k2: Seq<u8>| k2 != k@ implies #[trigger] self.doc_length(k2) == start.doc_length(k2) by {
                assert(mid.doc_length(k2) == start.doc_length(k2));
            }
            assert forall|t2: Seq<char>| (forall|m: int| 0 <= m < j + 1 ==> terms[m] != t2) implies #[trigger] self.token_stat(t2)
                == start.token_stat(t2) by {
                assert(terms[j as int] != t2);
                assert(forall|m: int| 0 <= m < j ==> terms[m] != t2);
                assert(mid2.token_stat(t2) == mid.token_stat(t2));
                assert(mid.token_stat(t2) == start.token_stat(t2));
            }
            assert forall|id2: u64, k2: Seq<u8>| k2 != k@ implies #[trigger] self.posting(id2, k2) == start.posting(id2, k2) by {
                assert(mid2.posting(id2, k2) == mid.posting(id2, k2));
                assert(mid.posting(id2, k2) == start.posting(id2, k2));
            }
            assert forall|m: int| #![trigger terms[m]] 0 <= m < j + 1 implies {
                &&& self.token_stat(terms[m]) == Some(
                    TokenStat {
                        id: start.token_stat(terms[m])->0.id,
                        docs: (start.token_stat(terms[m])->0.docs - 1) as u64,
                    },
                )
                &&& self.posting(start.token_stat(terms[m])->0.id, k@) is None
            } by {
                if m < j {
                    assert(terms[m] != t);
                    assert(terms.contains(terms[m]));
                    assert(mid2.token_stat(terms[m]) == mid.token_stat(terms[m]));
                    start.lemma_ids_distinct(terms[m], t);
                    assert(self.posting(start.token_stat(terms[m])->0.id, k@) == mid.posting(start.token_stat(terms[m])->0.id, k@));
                }
            }
            assert forall|id2: u64|
                (forall|m: int| 0 <= m < j + 1 ==> #[trigger] start.token_stat(terms[m])->0.id != id2)
                    implies #[trigger] self.posting(id2, k@) == start.posting(id2, k@) by {
                assert(start.token_stat(terms[j as int])->0.id == id);
                assert(forall|m: int| 0 <= m < j ==> #[trigger] start.token_stat(terms[m])->0.id != id2);
                assert(mid.posting(id2, k@) == start.posting(id2, k@));
                assert(mid2.posting(id2, k@) == mid.posting(id2, k@));
            }
        }
        assert forall|t: Seq<char>| !terms.contains(t) implies #[trigger] self.token_stat(t) == start.token_stat(t) by {
            assert forall|m: int| 0 <= m < terms.len() implies terms[m] != t by {
                assert(terms.contains(terms[m]));
            }
        }
        assert forall|t: Seq<char>| #![trigger self.token_stat(t)] terms.contains(t) implies {
            &&& self.token_stat(t) == Some(
                TokenStat { id: start.token_stat(t)->0.id, docs: (start.token_stat(t)->0.docs - 1) as u64 },
            )
            &&& self.posting(start.token_stat(t)->0.id, k@) is None
        } by {
            let m = choose|m: int| 0 <= m < terms.len() && terms[m] == t;
        }
        assert forall|id: u64|
            (forall|t: Seq<char>| terms.contains(t) ==> #[trigger] start.token_stat(t)->0.id != id)
                implies #[trigger] self.posting(id, k@) == start.posting(id, k@) by {
            assert forall|m: int| 0 <= m < terms.len() implies #[trigger] start.token_stat(terms[m])->0.id != id by {
                assert(terms.contains(terms[m]));
            }
        }
        Ok(())
    }
}

impl FTSTree {
    fn length_of(&self, k: &Vec<u8>) -> (r: u64)
        requires
            self.wf(),
        ensures
            r == self.length_or_zero(k@),
    {
        match self.find_doc(k) {
            Some(i) => match self.doc_lens[i] {
                Some(l) => l,
                None => 0,
            },
            None => 0,
        }
    }

    /// The statistics that rank the documents for the query `value`: the number of
    /// documents, the total length, and for each distinct token of `value` in the
    /// dictionary, each of its postings.
    pub fn query(&self, value: &str) -> (r: QueryStats)
        requires
            self.wf(),
        ensures
            r.num_documents == self.num_documents(),
            r.total_length == self.total_length(),
            matches_view(r.matches@) == self.query_matches(value@),
    {
        let toks = token_runs(value);
        let ghost q = tokens_of(value@);
        assert forall|i: int| 0 <= i < toks@.len() implies toks.deep_view()[i] == q[i] by {
            assert(toks@[i]@ == q[i]);
        }
        assert(toks.deep_view() =~= q);
        let c = count_terms(&toks);
        let ghost d = distinct(q);
        let empty: Vec<char> = Vec::new();
        let num_documents = match self.find_token(&empty) {
            Some(i) => self.token_stats[i].docs,
            None => 0,
        };
        let ghost table = self.posting_table();
        let mut out: Vec<TermMatch> = Vec::new();
        for j in 0..c.terms.len()
            invariant
                self.wf(),
                c.counts_tokens(q),
                d == distinct(q),
                table == self.posting_table(),
                matches_view(out@) == self.terms_matches(d.take(j as int), q),
        {
            assert(d.take(j + 1).drop_last() == d.take(j as int));
            assert(c.terms@[j as int]@ == d[j as int]);
            let qc = c.counts[j] as u64;
            let ghost before = matches_view(out@);
            match self.find_token(&c.terms[j]) {
                Some(i) => {
                    let st = self.token_stats[i];
                    for p in 0..self.post_ids.len()
                        invariant
                            self.wf(),
                            table == self.posting_table(),
                            matches_view(out@) == before + self.scan_postings(table.take(p as int), st.id, st.docs, qc),
                    {
                        assert(table.take(p + 1).drop_last() == table.take(p as int));
                        assert(table.take(p + 1).last() == table[p as int]);
                        if self.post_ids[p] == st.id {
                            match self.post_freqs[p] {
                                Some(f) => {
                                    let dl = self.length_of(&self.post_docs[p]);
                                    let m = TermMatch {
                                        key: bytes_of(self.post_docs[p].as_slice()),
                                        query_count: qc,
                                        term_frequency: f,
                                        doc_frequency: st.docs,
                                        doc_length: dl,
                                    };
                                    let ghost prev = out@;
                                    out.push(m);
                                    assert(matches_view(out@) == matches_view(prev).push(m@));
                                },
                                None => {},
                            }
                        }
                    }
                    assert(table.take(table.len() as int) == table);
                },
                None => {
                    assert(self.term_matches(d[j as int], qc) == Seq::<(Seq<u8>, u64, u64, u64, u64)>::empty());
                    assert(before + Seq::<(Seq<u8>, u64, u64, u64, u64)>::empty() == before);
                },
            }
        }
        assert(d.take(d.len() as int) == d);
        QueryStats { num_documents, total_length: self.total_len, matches: out }
    }
}

impl FTSTree {
    /// The sum of the lengths of all documents.
    pub fn corpus_length(&self) -> (r: u64)
        ensures
            r == self.total_length(),
    {
        self.total_len
    }

    /// The number of documents in the index.
    pub fn corpus_documents(&self) -> (r: u64)
        requires
            self.wf(),
        ensures
            r == self.num_documents(),
    {
        let empty: Vec<char> = Vec::new();
        match self.find_token(&empty) {
            Some(i) => self.token_stats[i].docs,
            None => 0,
        }
    }

    /// The length of the document under `key`, if there is one.
    pub fn document_length(&self, key: &[u8]) -> (r: Option<u64>)
        requires
            self.wf(),
        ensures
            r == self.doc_length(key@),
    {
        let k = bytes_of(key);
        match self.find_doc(&k) {
            Some(i) => self.doc_lens[i],
            None => None,
        }
    }

    /// The dictionary entry of `token`, if there is one.
    pub fn token_entry(&self, token: &str) -> (r: Option<TokenStat>)
        requires
            self.wf(),
        ensures
            r == self.token_stat(token@),
    {
        let t = chars_of(token);
        match self.find_token(&t) {
            Some(i) => Some(self.token_stats[i]),
            None => None,
        }
    }

    /// The occurrences of the term with identifier `id` in the document under `key`.
    pub fn posting_count(&self, id: u64, key: &[u8]) -> (r: Option<u64>)
        requires
            self.wf(),
        ensures
            r == self.posting(id, key@),
    {
        let k = bytes_of(key);
        match self.find_posting(id, &k) {
            Some(i) => self.post_freqs[i],
            None => None,
        }
    }
}

/// After a document is inserted, removing it with the same text is accepted.
pub proof fn lemma_remove_after_insert(a: &FTSTree, b: &FTSTree, k: Seq<u8>, text: Seq<char>)
    requires
        a.wf(),
        b.inserted(a, k, text),
    ensures
        b.remove_ok(k, text),
{
    assert forall|t: Seq<char>| doc_terms(text).contains(t) implies (#[trigger] b.token_stat(t) matches Some(s)
        && s.docs >= 1) by {}
}

/// Inserting a document and then removing it with the same text gives back the
/// total length, the number of documents, the document's length entry and every
/// dictionary entry that was there before.
pub proof fn lemma_insert_remove_round_trip(
    a: &FTSTree,
    b: &FTSTree,
    c: &FTSTree,
    k: Seq<u8>,
    text: Seq<char>,
)
    requires
        a.wf(),
        a.doc_length(k) is None,
        b.inserted(a, k, text),
        c.removed(b, k, text),
    ensures
        c.total_length() == a.total_length(),
        c.num_documents() == a.num_documents(),
        forall|k2: Seq<u8>| #[trigger] c.doc_length(k2) == a.doc_length(k2),
        forall|t: Seq<char>| #[trigger] a.token_stat(t) is Some ==> c.token_stat(t) == a.token_stat(t),
{
    lemma_doc_terms_distinct(text);
    assert(doc_terms(text).contains(Seq::<char>::empty()));
    assert forall|t: Seq<char>| #[trigger] a.token_stat(t) is Some implies c.token_stat(t) == a.token_stat(t) by {
        if doc_terms(text).contains(t) {
            assert(b.token_stat(t) is Some);
        }
    }
    assert forall|k2: Seq<u8>| #[trigger] c.doc_length(k2) == a.doc_length(k2) by {
        if k2 != k {
            assert(b.doc_length(k2) == a.doc_length(k2));
        }
    }
}

proof fn lemma_terms_matches_unknown(s: &FTSTree, terms: Seq<Seq<char>>, toks: Seq<Seq<char>>)
    requires
        forall|m: int| 0 <= m < terms.len() ==> #[trigger] s.token_stat(terms[m]) is None,
    ensures
        s.terms_matches(terms, toks) == Seq::<(Seq<u8>, u64, u64, u64, u64)>::empty(),
    decreases terms.len(),
{
    if terms.len() > 0 {
        lemma_terms_matches_unknown(s, terms.drop_last(), toks);
        assert(s.token_stat(terms[terms.len() - 1]) is None);
        assert(Seq::<(Seq<u8>, u64, u64, u64, u64)>::empty() + Seq::<(Seq<u8>, u64, u64, u64, u64)>::empty()
            == Seq::<(Seq<u8>, u64, u64, u64, u64)>::empty());
    }
}

/// A query none of whose tokens is in the dictionary meets no posting.
pub proof fn lemma_query_unknown_tokens(s: &FTSTree, q: Seq<char>)
    requires
        forall|t: Seq<char>| tokens_of(q).contains(t) ==> #[trigger] s.token_stat(t) is None,
    ensures
        s.query_matches(q) == Seq::<(Seq<u8>, u64, u64, u64, u64)>::empty(),
{
    let d = distinct(tokens_of(q));
    lemma_distinct_no_dups(tokens_of(q));
    assert forall|m: int| 0 <= m < d.len() implies #[trigger] s.token_stat(d[m]) is None by {
        assert(d.contains(d[m]));
    }
    lemma_terms_matches_unknown(s, d, tokens_of(q));
}

proof fn lemma_scan_postings_has(
    s: &FTSTree,
    table: Seq<((u64, Seq<u8>), Option<u64>)>,
    i: int,
    id: u64,
    df: u64,
    qc: u64,
)
    requires
        0 <= i < table.len(),
        table[i].0.0 == id,
        table[i].1 is Some,
    ensures
        s.scan_postings(table, id, df, qc).contains(
            (table[i].0.1, qc, table[i].1->0, df, s.length_or_zero(table[i].0.1)),
        ),
    decreases table.len(),
{
    let prev = s.scan_postings(table.drop_last(), id, df, qc);
    if i == table.len() - 1 {
        assert(s.scan_postings(table, id, df, qc)[prev.len() as int] == (
            table[i].0.1,
            qc,
            table[i].1->0,
            df,
            s.length_or_zero(table[i].0.1),
        ));
    } else {
        lemma_scan_postings_has(s, table.drop_last(), i, id, df, qc);
        let e = (table[i].0.1, qc, table[i].1->0, df, s.length_or_zero(table[i].0.1));
        let j = choose|j: int| 0 <= j < prev.len() && prev[j] == e;
        assert(s.scan_postings(table, id, df, qc)[j] == e);
    }
}

proof fn lemma_terms_matches_has(
    s: &FTSTree,
    terms: Seq<Seq<char>>,
    toks: Seq<Seq<char>>,
    m: int,
    e: (Seq<u8>, u64, u64, u64, u64),
)
    requires
        0 <= m < terms.len(),
        s.term_matches(terms[m], occurrences(toks, terms[m]) as u64).contains(e),
    ensures
        s.terms_matches(terms, toks).contains(e),
    decreases terms.len(),
{
    let prev = s.terms_matches(terms.drop_last(), toks);
    let last = s.term_matches(terms.last(), occurrences(toks, terms.last()) as u64);
    if m == terms.len() - 1 {
        let j = choose|j: int| 0 <= j < last.len() && last[j] == e;
        assert((prev + last)[prev.len() + j] == e);
    } else {
        assert(terms.drop_last()[m] == terms[m]);
        lemma_terms_matches_has(s, terms.drop_last(), toks, m, e);
        let j = choose|j: int| 0 <= j < prev.len() && prev[j] == e;
        assert((prev + last)[j] == e);
    }
}

/// After `text` is inserted under `k`, a query holding one of its tokens meets
/// the document: among its matches is one with key `k`, held by the query and
/// by the document at least once each.
pub proof fn lemma_insert_then_query(a: &FTSTree, b: &FTSTree, k: Seq<u8>, text: Seq<char>, q: Seq<char>, t: Seq<char>)
    requires
        a.wf(),
        b.inserted(a, k, text),
        tokens_of(text).contains(t),
        tokens_of(q).contains(t),
        tokens_of(text).len() <= u64::MAX,
        tokens_of(q).len() <= u64::MAX,
    ensures
        exists|i: int|
            0 <= i < b.query_matches(q).len() && #[trigger] b.query_matches(q)[i].0 == k && b.query_matches(q)[i].1
                >= 1 && b.query_matches(q)[i].2 >= 1,
{
    lemma_doc_terms_distinct(text);
    assert(t.len() > 0) by {
        crate::counts::lemma_tokens_nonempty(text);
        let i = choose|i: int| 0 <= i < tokens_of(text).len() && tokens_of(text)[i] == t;
        assert(tokens_of(text)[i].len() > 0);
    }
    assert(doc_terms(text).contains(t));
    let st = b.token_stat(t)->0;
    let f = term_count(text, t);
    lemma_occurrences_bound(tokens_of(text), t);
    assert(b.posting(st.id, k) == Some(f as u64));
    lemma_last_value_some(b.posting_table(), (st.id, k));
    let table = b.posting_table();
    let i = choose|i: int| is_last_with(table, i, (st.id, k)) && table[i].1 == b.posting(st.id, k);
    let qc = occurrences(tokens_of(q), t) as u64;
    lemma_occurrences_bound(tokens_of(q), t);
    lemma_scan_postings_has(b, table, i, st.id, st.docs, qc);
    let e = (k, qc, f as u64, st.docs, b.length_or_zero(k));
    let d = distinct(tokens_of(q));
    lemma_distinct_no_dups(tokens_of(q));
    assert(d.contains(t));
    let m = choose|m: int| 0 <= m < d.len() && d[m] == t;
    lemma_terms_matches_has(b, d, tokens_of(q), m, e);
    let j = choose|j: int| 0 <= j < b.query_matches(q).len() && b.query_matches(q)[j] == e;
    assert(b.query_matches(q)[j].0 == k);
    assert(b.query_matches(q)[j].1 >= 1);
    assert(b.query_matches(q)[j].2 >= 1);
}

proof fn lemma_terms_matches_concat(s: &FTSTree, d1: Seq<Seq<char>>, d2: Seq<Seq<char>>, toks: Seq<Seq<char>>)
    ensures
        s.terms_matches(d1 + d2, toks) == s.terms_matches(d1, toks) + s.terms_matches(d2, toks),
    decreases d2.len(),
{
    if d2.len() == 0 {
        assert(d1 + d2 == d1);
        assert(s.terms_matches(d1, toks) + s.terms_matches(d2, toks) == s.terms_matches(d1, toks));
    } else {
        assert((d1 + d2).drop_last() == d1 + d2.drop_last());
        assert((d1 + d2).last() == d2.last());
        lemma_terms_matches_concat(s, d1, d2.drop_last(), toks);
        let a = s.terms_matches(d1, toks);
        let b = s.terms_matches(d2.drop_last(), toks);
        let c = s.term_matches(d2.last(), occurrences(toks, d2.last()) as u64);
        assert((a + b) + c == a + (b + c));
    }
}

/// Counting the terms `d` in `x + y` is counting them in `x` alone when none is in `y`.
proof fn lemma_terms_matches_extra(s: &FTSTree, d: Seq<Seq<char>>, x: Seq<Seq<char>>, y: Seq<Seq<char>>)
    requires
        forall|m: int| 0 <= m < d.len() ==> !y.contains(#[trigger] d[m]),
    ensures
        s.terms_matches(d, x + y) == s.terms_matches(d, x),
        s.terms_matches(d, y + x) == s.terms_matches(d, x),
    decreases d.len(),
{
    if d.len() > 0 {
        lemma_terms_matches_extra(s, d.drop_last(), x, y);
        let t = d.last();
        assert(!y.contains(d[d.len() - 1]));
        lemma_occurrences_concat(x, y, t);
        lemma_occurrences_concat(y, x, t);
        lemma_occurrences_bound(y, t);
    }
}

/// A query whose tokens are those of `q1` followed by those of `q2`, the two
/// sharing no token, meets the postings that `q1` meets followed by those that
/// `q2` meets, each with the same counts: its score for a document adds up the
/// contributions that the two queries give it.
pub proof fn lemma_query_concat(s: &FTSTree, q: Seq<char>, q1: Seq<char>, q2: Seq<char>)
    requires
        tokens_of(q) == tokens_of(q1) + tokens_of(q2),
        forall|t: Seq<char>| tokens_of(q1).contains(t) ==> !tokens_of(q2).contains(t),
    ensures
        s.query_matches(q) == s.query_matches(q1) + s.query_matches(q2),
{
    let x = tokens_of(q1);
    let y = tokens_of(q2);
    lemma_distinct_concat(x, y);
    lemma_distinct_no_dups(x);
    lemma_distinct_no_dups(y);
    let dx = distinct(x);
    let dy = distinct(y);
    lemma_terms_matches_concat(s, dx, dy, x + y);
    assert forall|m: int| 0 <= m < dx.len() implies !y.contains(#[trigger] dx[m]) by {
        assert(dx.contains(dx[m]));
    }
    assert forall|m: int| 0 <= m < dy.len() implies !x.contains(#[trigger] dy[m]) by {
        assert(dy.contains(dy[m]));
    }
    lemma_terms_matches_extra(s, dx, x, y);
    lemma_terms_matches_extra(s, dy, y, x);
}

pub fn bytes_eq(a: &Vec<u8>, b: &Vec<u8>) -> (r: bool)
    ensures
        r == (a@ == b@),
{
    if a.len() != b.len() {
        return false;
    }
    let mut i: usize = 0;
    while i < a.len()
        invariant
            a@.len() == b@.len(),
            i <= a@.len(),
            forall|j: int| 0 <= j < i ==> a@[j] == b@[j],
        decreases a@.len() - i,
    {
        if a[i] != b[i] {
            return false;
        }
        i = i + 1;
    }
    assert(a@ == b@);
    true
}

pub fn bytes_of(s: &[u8]) -> (r: Vec<u8>)
    ensures
        r@ == s@,
{
    let mut r: Vec<u8> = Vec::new();
    for i in 0..s.len()
        invariant
            r@ == s@.take(i as int),
    {
        r.push(s[i]);
        assert(r@ == s@.take(i + 1));
    }
    assert(s@.take(s@.len() as int) == s@);
    r
}

} // verus!
