//! The search index: document store, inverted index, and ranked retrieval.

use crate::alist::{
    al_find, al_get, al_has, al_idx, al_map, al_uniq, lemma_al_at, lemma_al_dom_len, lemma_al_push,
    lemma_al_set,
};
use crate::score::{contribution, sat_accumulate, sat_add_u64, spec_contribution};
use crate::tokenizer::{spec_tokenize, term_count, tokenize, views};
use vstd::prelude::*;
use vstd::seq_lib::*;
use vstd::set_lib::lemma_len_subset;

verus! {

/// Per-term record: how many documents contain the term, and how often it
/// occurs in each.
pub struct Posting {
    /// Number of distinct documents containing the term; always equal to the
    /// number of entries of `tfs`.
    pub df: usize,
    /// Document id, paired with the term's occurrence count in that document.
    pub tfs: Vec<(String, usize)>,
}

/// Spec-level reading of a posting.
pub ghost struct PostingView {
    /// Document frequency.
    pub df: nat,
    /// Document id to term frequency.
    pub tfs: Map<Seq<char>, nat>,
}

/// Spec-level reading of the whole index.
pub ghost struct IndexView {
    /// Term to posting.
    pub postings: Map<Seq<char>, PostingView>,
    /// Document id to token length.
    pub docs: Map<Seq<char>, nat>,
    /// Document id to stored original text.
    pub texts: Map<Seq<char>, Seq<char>>,
    /// Number of ingested documents.
    pub ndocs: nat,
}

/// Spec-level reading of one stored posting.
pub open spec fn posting_view(p: Posting) -> PostingView {
    PostingView {
        df: p.df as nat,
        tfs: Map::new(
            |d: Seq<char>| al_has(p.tfs@, d),
            |d: Seq<char>| al_get(p.tfs@, d) as nat,
        ),
    }
}

/// An in-memory inverted index over string documents with BM25-style
/// ranked retrieval.
pub struct KVIndex {
    inverted: Vec<(String, Posting)>,
    doc_lens: Vec<(String, usize)>,
    ndocs: usize,
    stored: Vec<(String, String)>,
}

impl View for KVIndex {
    type V = IndexView;

    closed spec fn view(&self) -> IndexView {
        IndexView {
            postings: Map::new(
                |t: Seq<char>| al_has(self.inverted@, t),
                |t: Seq<char>| posting_view(al_get(self.inverted@, t)),
            ),
            docs: Map::new(
                |d: Seq<char>| al_has(self.doc_lens@, d),
                |d: Seq<char>| al_get(self.doc_lens@, d) as nat,
            ),
            texts: Map::new(
                |d: Seq<char>| al_has(self.stored@, d),
                |d: Seq<char>| al_get(self.stored@, d)@,
            ),
            ndocs: self.ndocs as nat,
        }
    }
}

/// How one ingested document changes the postings: terms absent from the
/// document keep their posting; each term of the document gains (or starts)
/// a posting whose `tfs` acquires this document under its occurrence count
/// and whose document frequency grows by one.
pub open spec fn postings_updated(
    oldp: Map<Seq<char>, PostingView>,
    newp: Map<Seq<char>, PostingView>,
    doc_id: Seq<char>,
    toks: Seq<Seq<char>>,
) -> bool {
    &&& forall|t: Seq<char>|
        term_count(toks, t) == 0 ==> #[trigger] newp.contains_key(t) == oldp.contains_key(t) && (
        oldp.contains_key(t) ==> newp[t] == oldp[t])
    &&& forall|t: Seq<char>|
        term_count(toks, t) > 0 ==> #[trigger] newp.contains_key(t) && newp[t].tfs == (if oldp.contains_key(t) {
            oldp[t].tfs
        } else {
            Map::<Seq<char>, nat>::empty()
        }).insert(doc_id, term_count(toks, t)) && newp[t].df == (if oldp.contains_key(t) {
            oldp[t].df + 1
        } else {
            1nat
        })
}

/// The term frequency of `t` in document `d`, read off the postings map;
/// zero when the term or the document is absent.
pub open spec fn spec_term_tf(postings: Map<Seq<char>, PostingView>, t: Seq<char>, d: Seq<char>) -> int {
    if postings.contains_key(t) && postings[t].tfs.contains_key(d) {
        postings[t].tfs[d] as int
    } else {
        0
    }
}

/// The document frequency of term `t`; zero when the term is absent.
pub open spec fn spec_term_df(postings: Map<Seq<char>, PostingView>, t: Seq<char>) -> int {
    if postings.contains_key(t) {
        postings[t].df as int
    } else {
        0
    }
}

/// The saturating score of document `d` over the first `m` query terms.
pub open spec fn score_prefix(
    postings: Map<Seq<char>, PostingView>,
    q: Seq<Seq<char>>,
    m: int,
    d: Seq<char>,
    n: int,
    sum: int,
    dl: int,
) -> u64
    decreases m,
{
    if m <= 0 {
        0u64
    } else {
        sat_add_u64(
            score_prefix(postings, q, m - 1, d, n, sum, dl),
            spec_contribution(
                spec_term_tf(postings, q[m - 1], d),
                spec_term_df(postings, q[m - 1]),
                n,
                sum,
                dl,
            ),
        )
    }
}

/// Some string of `s` has character content `d`.
pub open spec fn in_seq_str(s: Seq<String>, d: Seq<char>) -> bool {
    exists|a: int| 0 <= a < s.len() && #[trigger] s[a]@ == d
}

/// Some pair of `s` carries a document id with character content `d`.
pub open spec fn in_pairs(s: Seq<(String, u64)>, d: Seq<char>) -> bool {
    exists|b: int| 0 <= b < s.len() && #[trigger] s[b].0@ == d
}

/// Document `d` appears under one of the first `m` query terms.
pub open spec fn hits_prefix(
    postings: Map<Seq<char>, PostingView>,
    q: Seq<Seq<char>>,
    m: int,
    d: Seq<char>,
) -> bool {
    exists|i: int|
        0 <= i < m && postings.contains_key(#[trigger] q[i]) && postings[q[i]].tfs.contains_key(d)
}

/// One of the first `m` entries of a posting list names document `d`.
pub open spec fn keys_prefix_has(s: Seq<(String, usize)>, m: int, d: Seq<char>) -> bool {
    exists|b: int| 0 <= b < m && #[trigger] s[b].0@ == d
}

/// The documents containing at least one query term.
pub open spec fn spec_candidates(postings: Map<Seq<char>, PostingView>, q: Seq<Seq<char>>) -> Set<
    Seq<char>,
> {
    Set::new(
        |d: Seq<char>|
            exists|i: int|
                0 <= i < q.len() && postings.contains_key(#[trigger] q[i])
                    && postings[q[i]].tfs.contains_key(d),
    )
}

/// A query none of whose terms is indexed has no candidates, so a search
/// for it returns the empty sequence.
pub proof fn lemma_no_matching_terms(postings: Map<Seq<char>, PostingView>, q: Seq<Seq<char>>)
    requires
        forall|i: int| 0 <= i < q.len() ==> !postings.contains_key(#[trigger] q[i]),
    ensures
        spec_candidates(postings, q) == Set::<Seq<char>>::empty(),
{
    assert(spec_candidates(postings, q) =~= Set::<Seq<char>>::empty()) by {
        assert forall|d: Seq<char>| !(#[trigger] spec_candidates(postings, q).contains(d)) by {
            if spec_candidates(postings, q).contains(d) {
                let i = choose|i: int|
                    0 <= i < q.len() && postings.contains_key(#[trigger] q[i])
                        && postings[q[i]].tfs.contains_key(d);
            }
        }
    }
}

/// An index with empty postings — freshly constructed, or just cleared —
/// has no candidates for any query, so every search on it returns the
/// empty sequence.
pub proof fn lemma_empty_index_has_no_candidates(q: Seq<Seq<char>>)
    ensures
        spec_candidates(Map::<Seq<char>, PostingView>::empty(), q) == Set::<Seq<char>>::empty(),
{
    lemma_no_matching_terms(Map::<Seq<char>, PostingView>::empty(), q);
}

/// The corpus token count, saturating at `u64::MAX`.
pub open spec fn sat_len_sum(s: Seq<(String, usize)>) -> u64
    decreases s.len(),
{
    if s.len() == 0 {
        0u64
    } else {
        sat_add_u64(sat_len_sum(s.drop_last()), s.last().1 as int)
    }
}

/// Each stored length is at most the saturating total.
proof fn lemma_sat_sum_element(s: Seq<(String, usize)>, i: int)
    requires
        0 <= i < s.len(),
    ensures
        s[i].1 <= sat_len_sum(s),
    decreases s.len(),
{
    if i == s.len() - 1 {
    } else {
        lemma_sat_sum_element(s.drop_last(), i);
        assert(s.drop_last()[i] == s[i]);
    }
}

/// A posting references at most as many documents as the store holds.
proof fn lemma_df_le_docs(p: &Posting, docs: Seq<(String, usize)>)
    requires
        KVIndex::posting_wf(*p, docs),
        al_uniq(docs),
    ensures
        p.tfs@.len() <= docs.len(),
{
    lemma_al_dom_len(p.tfs@);
    lemma_al_dom_len(docs);
    assert(al_map(p.tfs@).dom() <= al_map(docs).dom()) by {
        assert forall|k: Seq<char>| al_map(p.tfs@).dom().contains(k) implies al_map(
            docs,
        ).dom().contains(k) by {
            assert(al_has(p.tfs@, k));
            let b = choose|b: int| 0 <= b < p.tfs@.len() && p.tfs@[b].0@ == k;
            assert(al_has(docs, p.tfs@[b].0@));
        }
    }
    lemma_len_subset(al_map(p.tfs@).dom(), al_map(docs).dom());
}

/// Tests whether any string of `v` has the character content of `s`.
fn vec_has_str(v: &Vec<String>, s: &String) -> (r: bool)
    ensures
        r == in_seq_str(v@, s@),
{
    let mut a: usize = 0;
    while a < v.len()
        invariant
            a <= v@.len(),
            forall|b: int| 0 <= b < a ==> v@[b]@ != s@,
        decreases v@.len() - a,
    {
        if v[a] == *s {
            proof {
                assert(v@[a as int]@ == s@);
            }
            return true;
        }
        a = a + 1;
    }
    false
}

/// Growing the document store preserves a posting's well-formedness.
proof fn lemma_posting_docs_grow(p: &Posting, docs: Seq<(String, usize)>, docs2: Seq<(String, usize)>)
    requires
        KVIndex::posting_wf(*p, docs),
        forall|k: Seq<char>| #[trigger] al_has(docs, k) ==> al_has(docs2, k),
    ensures
        KVIndex::posting_wf(*p, docs2),
{
    assert forall|b: int|
        0 <= b < p.tfs@.len() implies al_has(docs2, (#[trigger] p.tfs@[b]).0@) && p.tfs@[b].1 >= 1
        by {
        let e = p.tfs@[b];
        assert(al_has(docs, e.0@) && e.1 >= 1);
    }
}

/// Appending an entry keeps every present key present.
proof fn lemma_al_push_has<V>(s: Seq<(String, V)>, e: (String, V))
    ensures
        forall|k: Seq<char>| #[trigger] al_has(s, k) ==> al_has(s.push(e), k),
{
    assert forall|k: Seq<char>| #[trigger] al_has(s, k) implies al_has(s.push(e), k) by {
        let a = choose|a: int| 0 <= a < s.len() && s[a].0@ == k;
        assert(s.push(e)[a].0@ == k);
    }
}

impl KVIndex {
    /// A posting is well formed when its keys are distinct document ids that
    /// all exist in the document store, each with a positive count, and `df`
    /// caches the entry count.
    pub open spec fn posting_wf(p: Posting, docs: Seq<(String, usize)>) -> bool {
        &&& al_uniq(p.tfs@)
        &&& p.df == p.tfs@.len()
        &&& forall|j: int|
            0 <= j < p.tfs@.len() ==> al_has(docs, (#[trigger] p.tfs@[j]).0@) && p.tfs@[j].1
                >= 1
    }

    /// Structural invariant of the index.
    pub closed spec fn wf(&self) -> bool {
        &&& al_uniq(self.inverted@)
        &&& al_uniq(self.doc_lens@)
        &&& al_uniq(self.stored@)
        &&& self.ndocs == self.doc_lens@.len()
        &&& forall|d: Seq<char>| al_has(self.stored@, d) == al_has(self.doc_lens@, d)
        &&& forall|i: int|
            0 <= i < self.inverted@.len() ==> Self::posting_wf(
                #[trigger] self.inverted@[i].1,
                self.doc_lens@,
            )
    }

    /// Constructs an empty index.
    pub fn new() -> (r: KVIndex)
        ensures
            r.wf(),
            r@.postings == Map::<Seq<char>, PostingView>::empty(),
            r@.docs == Map::<Seq<char>, nat>::empty(),
            r@.texts == Map::<Seq<char>, Seq<char>>::empty(),
            r@.ndocs == 0,
            r.total_len() == 0,
    {
        let r = KVIndex {
            inverted: Vec::new(),
            doc_lens: Vec::new(),
            ndocs: 0,
            stored: Vec::new(),
        };
        proof {
            assert(r@.postings =~= Map::<Seq<char>, PostingView>::empty());
            assert(r@.docs =~= Map::<Seq<char>, nat>::empty());
            assert(r@.texts =~= Map::<Seq<char>, Seq<char>>::empty());
        }
        r
    }

    /// Discards every document and posting, returning the index to its
    /// freshly constructed state.
    pub fn clear(&mut self)
        ensures
            final(self).wf(),
            final(self)@.postings == Map::<Seq<char>, PostingView>::empty(),
            final(self)@.docs == Map::<Seq<char>, nat>::empty(),
            final(self)@.texts == Map::<Seq<char>, Seq<char>>::empty(),
            final(self)@.ndocs == 0,
            final(self).total_len() == 0,
    {
        self.inverted.clear();
        self.doc_lens.clear();
        self.stored.clear();
        self.ndocs = 0;
        proof {
            assert(self@.postings =~= Map::<Seq<char>, PostingView>::empty());
            assert(self@.docs =~= Map::<Seq<char>, nat>::empty());
            assert(self@.texts =~= Map::<Seq<char>, Seq<char>>::empty());
        }
    }

    /// Ingests a document under `doc_id`. A duplicate id is ignored: the
    /// first write wins and the index is left untouched. Otherwise the text
    /// is tokenized, its token length and original text are recorded, the
    /// document count grows by one, and every distinct term of the text
    /// gains a posting entry for this document carrying its occurrence
    /// count.
    #[verifier::rlimit(100)]
    #[verifier::spinoff_prover]
    pub fn add_doc(&mut self, doc_id: String, text: String)
        requires
            old(self).wf(),
        ensures
            final(self).wf(),
            old(self)@.docs.contains_key(doc_id@) ==> *final(self) == *old(self),
            !old(self)@.docs.contains_key(doc_id@) ==> final(self)@.docs == old(self)@.docs.insert(doc_id@, spec_tokenize(text@).len() as nat),
            !old(self)@.docs.contains_key(doc_id@) ==> final(self)@.texts == old(self)@.texts.insert(doc_id@, text@),
            !old(self)@.docs.contains_key(doc_id@) ==> final(self)@.ndocs == old(self)@.ndocs + 1,
            !old(self)@.docs.contains_key(doc_id@) ==> final(self).total_len() == sat_add_u64(
                old(self).total_len(),
                spec_tokenize(text@).len() as int,
            ),
            !old(self)@.docs.contains_key(doc_id@) ==> postings_updated(
                old(self)@.postings,
                final(self)@.postings,
                doc_id@,
                spec_tokenize(text@),
            ),
    {
        if al_find(&self.doc_lens, &doc_id).is_some() {
            return ;
        }
        let ghost toks = spec_tokenize(text@);
        let ghost docs0 = self.doc_lens@;
        let ghost inv0 = self.inverted@;
        let ghost stored0 = self.stored@;
        let tokens = tokenize(text.as_str());
        // Count each distinct term's occurrences in this document.
        let mut counts: Vec<(String, usize)> = Vec::new();
        let mut i: usize = 0;
        proof {
            assert(toks.take(0) =~= Seq::<Seq<char>>::empty());
        }
        while i < tokens.len()
            invariant
                i <= tokens@.len(),
                views(tokens@) == toks,
                al_uniq(counts@),
                forall|t: Seq<char>|
                    #[trigger] al_has(counts@, t) == (term_count(toks.take(i as int), t) > 0),
                forall|j: int|
                    0 <= j < counts@.len() ==> #[trigger] counts@[j].1 == term_count(
                        toks.take(i as int),
                        counts@[j].0@,
                    ) && 1 <= counts@[j].1 <= i,
            decreases tokens@.len() - i,
        {
            let ghost prev = toks.take(i as int);
            proof {
                assert(toks.take(i + 1).drop_last() =~= prev);
                assert(toks.take(i + 1).last() == toks[i as int]);
                assert(toks[i as int] == tokens@[i as int]@);
            }
            let ghost cur = toks.take(i + 1);
            match al_find(&counts, &tokens[i]) {
                Some(j) => {
                    proof {
                        lemma_al_at(counts@, j as int);
                    }
                    let c = counts[j].1;
                    let keyc = counts[j].0.clone();
                    let ghost counts0 = counts@;
                    counts[j] = (keyc, c + 1);
                    proof {
                        assert(counts@ =~= counts0.update(j as int, (keyc, (c + 1) as usize)));
                        assert forall|t: Seq<char>| #[trigger]
                            al_has(counts@, t) == (term_count(cur, t) > 0) by {
                            assert(al_has(counts@, t) == al_has(counts0, t)) by {
                                if al_has(counts@, t) {
                                    let a = choose|a: int|
                                        0 <= a < counts@.len() && counts@[a].0@ == t;
                                    assert(counts0[a].0@ == t);
                                }
                                if al_has(counts0, t) {
                                    let a = choose|a: int|
                                        0 <= a < counts0.len() && counts0[a].0@ == t;
                                    assert(counts@[a].0@ == t);
                                }
                            }
                            if t == toks[i as int] {
                                assert(term_count(cur, t) > 0);
                                assert(al_has(counts0, t));
                            }
                        }
                    }
                },
                None => {
                    let keyc = tokens[i].clone();
                    let ghost counts0 = counts@;
                    counts.push((keyc, 1));
                    proof {
                        assert forall|t: Seq<char>| #[trigger]
                            al_has(counts@, t) == (term_count(cur, t) > 0) by {
                            if t == toks[i as int] {
                                assert(counts@[counts0.len() as int].0@ == t);
                                assert(al_has(counts@, t));
                            } else {
                                assert(al_has(counts@, t) == al_has(counts0, t)) by {
                                    if al_has(counts@, t) {
                                        let a = choose|a: int|
                                            0 <= a < counts@.len() && counts@[a].0@ == t;
                                        assert(a < counts0.len());
                                        assert(counts0[a].0@ == t);
                                    }
                                    if al_has(counts0, t) {
                                        let a = choose|a: int|
                                            0 <= a < counts0.len() && counts0[a].0@ == t;
                                        assert(counts@[a].0@ == t);
                                    }
                                }
                            }
                        }
                        assert(al_uniq(counts@)) by {
                            assert forall|a: int, b: int|
                                0 <= a < b < counts@.len() implies counts@[a].0@ != counts@[b].0@
                                by {
                                if b < counts0.len() {
                                    assert(counts0[a].0@ != counts0[b].0@);
                                } else {
                                    assert(counts@[b].0@ == toks[i as int]);
                                    if counts@[a].0@ == toks[i as int] {
                                        assert(al_has(counts0, toks[i as int]));
                                    }
                                }
                            }
                        }
                    }
                },
            }
            i = i + 1;
        }
        proof {
            assert(toks.take(tokens@.len() as int) =~= toks);
        }
        // Record the document itself.
        let n_tokens = tokens.len();
        let id_for_lens = doc_id.clone();
        proof {
            lemma_al_push(docs0, id_for_lens, n_tokens);
        }
        self.doc_lens.push((id_for_lens, n_tokens));
        self.ndocs = self.doc_lens.len();
        let id_for_store = doc_id.clone();
        proof {
            lemma_al_push(stored0, id_for_store, text);
        }
        self.stored.push((id_for_store, text));
        let ghost docs1 = self.doc_lens@;
        let ghost stored1 = self.stored@;
        let ghost nd1 = self.ndocs;
        proof {
            lemma_al_push_has(docs0, (id_for_lens, n_tokens));
            assert(docs1 == docs0.push((id_for_lens, n_tokens)));
            assert forall|ii: int|
                0 <= ii < self.inverted@.len() implies Self::posting_wf(
                #[trigger] self.inverted@[ii].1,
                docs1,
            ) by {
                assert(Self::posting_wf(self.inverted@[ii].1, docs0));
                lemma_posting_docs_grow(&self.inverted@[ii].1, docs0, docs1);
            }
        }
        // Fold this document's term counts into the postings.
        let mut j: usize = 0;
        #[verifier::loop_isolation(false)]
        while j < counts.len()
            invariant
                j <= counts@.len(),
                self.doc_lens@ == docs1,
                self.stored@ == stored1,
                self.ndocs == nd1,
                al_uniq(self.inverted@),
                al_uniq(counts@),
                forall|jj: int|
                    0 <= jj < counts@.len() ==> #[trigger] counts@[jj].1 == term_count(
                        toks,
                        counts@[jj].0@,
                    ) && 1 <= counts@[jj].1,
                forall|t: Seq<char>| #[trigger] al_has(counts@, t) == (term_count(toks, t) > 0),
                forall|ii: int|
                    0 <= ii < self.inverted@.len() ==> Self::posting_wf(
                        #[trigger] self.inverted@[ii].1,
                        docs1,
                    ),
                forall|jj: int|
                    0 <= jj < j ==> {
                        let t = #[trigger] counts@[jj].0@;
                        &&& al_has(self.inverted@, t)
                        &&& al_get(self.inverted@, t).tfs@ == (if al_has(inv0, t) {
                            al_get(inv0, t).tfs@
                        } else {
                            Seq::<(String, usize)>::empty()
                        }).push((doc_id, counts@[jj].1))
                        &&& al_get(self.inverted@, t).df == (if al_has(inv0, t) {
                            al_get(inv0, t).df + 1
                        } else {
                            1int
                        })
                    },
                forall|t: Seq<char>|
                    !(exists|jj: int| 0 <= jj < j && #[trigger] counts@[jj].0@ == t) ==> (
                    #[trigger] al_has(self.inverted@, t) == al_has(inv0, t) && (al_has(inv0, t)
                        ==> al_get(self.inverted@, t) == al_get(inv0, t))),
            decreases counts@.len() - j,
        {
            let ghost t = counts@[j as int].0@;
            let freq = counts[j].1;
            proof {
                // This document is new, so no existing posting lists it.
                assert(!al_has(docs0, doc_id@));
                if al_has(inv0, t) {
                    let a = al_idx(inv0, t);
                    lemma_al_at(inv0, a);
                    assert(Self::posting_wf(inv0[a].1, docs0));
                    if al_has(al_get(inv0, t).tfs@, doc_id@) {
                        let b = choose|b: int|
                            0 <= b < al_get(inv0, t).tfs@.len() && al_get(inv0, t).tfs@[b].0@
                                == doc_id@;
                        assert(al_has(docs0, doc_id@));
                    }
                }
            }
            let ghost invpre = self.inverted@;
            match al_find(&self.inverted, &counts[j].0) {
                Some(idx) => {
                    proof {
                        lemma_al_at(invpre, idx as int);
                        assert(al_has(inv0, t));
                        assert(al_get(invpre, t) == al_get(inv0, t));
                    }
                    let id_for_posting = doc_id.clone();
                    self.inverted[idx].1.tfs.push((id_for_posting, freq));
                    let newdf = self.inverted[idx].1.tfs.len();
                    self.inverted[idx].1.df = newdf;
                    proof {
                        let updated = self.inverted@[idx as int].1;
                        assert(self.inverted@ =~= invpre.update(
                            idx as int,
                            (invpre[idx as int].0, updated),
                        ));
                        lemma_al_set(invpre, idx as int, invpre[idx as int].0, updated);
                        assert(updated.tfs@ == al_get(inv0, t).tfs@.push((doc_id, freq)));
                        assert(Self::posting_wf(updated, docs1)) by {
                            let oldp = al_get(inv0, t);
                            assert(al_uniq(updated.tfs@)) by {
                                assert forall|a: int, b: int|
                                    0 <= a < b < updated.tfs@.len() implies updated.tfs@[a].0@
                                    != updated.tfs@[b].0@ by {
                                    if b < oldp.tfs@.len() {
                                        assert(oldp.tfs@[a].0@ != oldp.tfs@[b].0@);
                                    } else {
                                        assert(updated.tfs@[b].0@ == doc_id@);
                                        if updated.tfs@[a].0@ == doc_id@ {
                                            assert(al_has(oldp.tfs@, doc_id@));
                                        }
                                    }
                                }
                            }
                            assert forall|b: int| 0 <= b < updated.tfs@.len() implies al_has(
                                docs1,
                                #[trigger] updated.tfs@[b].0@,
                            ) && updated.tfs@[b].1 >= 1 by {
                                if b < oldp.tfs@.len() {
                                    assert(al_has(docs0, oldp.tfs@[b].0@));
                                    let a = choose|a: int|
                                        0 <= a < docs0.len() && docs0[a].0@ == oldp.tfs@[b].0@;
                                    assert(docs1[a].0@ == oldp.tfs@[b].0@);
                                } else {
                                    assert(updated.tfs@[b].0@ == doc_id@);
                                    assert(docs1[docs0.len() as int].0@ == doc_id@);
                                }
                            }
                        }
                    }
                },
                None => {
                    proof {
                        assert(!al_has(inv0, t)) by {
                            if al_has(inv0, t) {
                                assert(al_has(invpre, t));
                            }
                        }
                    }
                    let key_for_posting = counts[j].0.clone();
                    let id_for_posting = doc_id.clone();
                    let mut tfs: Vec<(String, usize)> = Vec::new();
                    tfs.push((id_for_posting, freq));
                    let posting = Posting { df: 1, tfs };
                    proof {
                        lemma_al_push(invpre, key_for_posting, posting);
                        assert(Self::posting_wf(posting, docs1)) by {
                            assert(posting.tfs@[0].0@ == doc_id@);
                            assert(docs1[docs0.len() as int].0@ == doc_id@);
                        }
                    }
                    self.inverted.push((key_for_posting, posting));
                },
            }
            j = j + 1;
            proof {
                // Entries other than this one keep their posting.
                assert forall|tt: Seq<char>|
                    !(exists|jj: int| 0 <= jj < j && #[trigger] counts@[jj].0@ == tt) implies (
                #[trigger] al_has(self.inverted@, tt) == al_has(inv0, tt) && (al_has(inv0, tt)
                    ==> al_get(self.inverted@, tt) == al_get(inv0, tt))) by {
                    assert(counts@[j - 1].0@ == t);
                    assert(tt != t);
                    assert(!(exists|jj: int| 0 <= jj < j - 1 && #[trigger] counts@[jj].0@ == tt));
                    assert(al_has(invpre, tt) == al_has(inv0, tt));
                    assert(al_has(self.inverted@, tt) == al_has(invpre, tt));
                    if al_has(inv0, tt) {
                        assert(al_get(invpre, tt) == al_get(inv0, tt));
                        assert(al_get(self.inverted@, tt) == al_get(invpre, tt));
                    }
                }
            }
        }
        // Re-establish the contract's view-level description.
        proof {
            assert(self@.docs =~= old(self)@.docs.insert(doc_id@, toks.len() as nat)) by {
                assert(al_map(docs1) == al_map(docs0).insert(doc_id@, n_tokens));
                assert forall|d: Seq<char>| #[trigger]
                    al_has(docs1, d) == al_map(docs1).dom().contains(d) by {}
            }
            assert(self@.texts =~= old(self)@.texts.insert(doc_id@, text@)) by {
                assert(al_map(stored1) == al_map(stored0).insert(doc_id@, text));
            }
            assert forall|t: Seq<char>| term_count(toks, t) > 0 implies #[trigger]
                self@.postings.contains_key(t) && self@.postings[t].tfs == (if old(self)@.postings.contains_key(t) {
                old(self)@.postings[t].tfs
            } else {
                Map::<Seq<char>, nat>::empty()
            }).insert(doc_id@, term_count(toks, t)) && self@.postings[t].df == (if old(self)@.postings.contains_key(t) {
                old(self)@.postings[t].df + 1
            } else {
                1nat
            }) by {
                assert(al_has(counts@, t));
                let jj = al_idx(counts@, t);
                lemma_al_at(counts@, jj);
                assert(al_has(self.inverted@, t));
                let p = al_get(self.inverted@, t);
                let cnt = counts@[jj].1;
                assert(cnt == term_count(toks, t));
                if al_has(inv0, t) {
                    let oldtfs = al_get(inv0, t).tfs@;
                    assert(p.tfs@ == oldtfs.push((doc_id, cnt)));
                    assert(al_uniq(oldtfs) && !al_has(oldtfs, doc_id@)) by {
                        let a = al_idx(inv0, t);
                        lemma_al_at(inv0, a);
                        assert(Self::posting_wf(inv0[a].1, docs0));
                        if al_has(oldtfs, doc_id@) {
                            let b = choose|b: int|
                                0 <= b < oldtfs.len() && oldtfs[b].0@ == doc_id@;
                            assert(al_has(docs0, doc_id@));
                        }
                    }
                    lemma_al_push(oldtfs, doc_id, cnt);
                    assert(posting_view(p).tfs =~= posting_view(al_get(inv0, t)).tfs.insert(
                        doc_id@,
                        cnt as nat,
                    ));
                } else {
                    assert(p.tfs@ == Seq::<(String, usize)>::empty().push((doc_id, cnt)));
                    lemma_al_push(Seq::<(String, usize)>::empty(), doc_id, cnt);
                    assert(posting_view(p).tfs =~= Map::<Seq<char>, nat>::empty().insert(
                        doc_id@,
                        cnt as nat,
                    ));
                }
            }
            assert forall|t: Seq<char>| term_count(toks, t) == 0 implies #[trigger]
                self@.postings.contains_key(t) == old(self)@.postings.contains_key(t) && (old(self)@.postings.contains_key(t) ==> self@.postings[t] == old(self)@.postings[t]) by {
                assert(!al_has(counts@, t));
                assert(!(exists|jj: int|
                    0 <= jj < counts@.len() && #[trigger] counts@[jj].0@ == t));
                assert(al_has(self.inverted@, t) == al_has(inv0, t));
                if al_has(inv0, t) {
                    assert(al_get(self.inverted@, t) == al_get(inv0, t));
                }
            }
            assert(self@.ndocs == old(self)@.ndocs + 1);
            assert(self.total_len() == sat_add_u64(old(self).total_len(), toks.len() as int)) by {
                assert(docs1.drop_last() =~= docs0);
                assert(docs1.last().1 == n_tokens);
            }
            assert(self.wf());
            assert(postings_updated(old(self)@.postings, self@.postings, doc_id@, toks));
        }
    }

    /// The corpus token count used for length normalization, saturating at
    /// `u64::MAX`.
    pub closed spec fn total_len(&self) -> u64 {
        sat_len_sum(self.doc_lens@)
    }

    /// The score of document `d` for query tokens `q`, given the saturated
    /// corpus token count `sum`.
    pub open spec fn spec_score(iv: IndexView, sum: u64, q: Seq<Seq<char>>, d: Seq<char>) -> u64 {
        score_prefix(iv.postings, q, q.len() as int, d, iv.ndocs as int, sum as int, iv.docs[d] as int)
    }

    /// Ranked retrieval: tokenizes the query, scores every document that
    /// contains at least one query term, and returns the top `k` of them as
    /// `(document id, score in millionths)` pairs, best first. Ties keep
    /// the first-found candidate first.
    #[verifier::rlimit(100)]
    #[verifier::spinoff_prover]
    #[verifier::loop_isolation(false)]
    pub fn search(&self, query: String, k: usize) -> (r: Vec<(String, u64)>)
        requires
            self.wf(),
        ensures
            ({
                let q = spec_tokenize(query@);
                let cands = spec_candidates(self@.postings, q);
                &&& cands.finite()
                &&& r@.len() == (if k as int <= cands.len() as int {
                    k as int
                } else {
                    cands.len() as int
                })
                &&& forall|i: int|
                    0 <= i < r@.len() ==> cands.contains(#[trigger] r@[i].0@) && r@[i].1
                        == Self::spec_score(self@, self.total_len(), q, r@[i].0@)
                &&& forall|i: int, j: int| 0 <= i < j < r@.len() ==> r@[i].1 >= r@[j].1
                &&& forall|i: int, j: int| 0 <= i < j < r@.len() ==> r@[i].0@ != r@[j].0@
                &&& forall|d: Seq<char>|
                    cands.contains(d) && r@.len() > 0 && !(exists|i: int|
                        0 <= i < r@.len() && #[trigger] r@[i].0@ == d) ==> Self::spec_score(
                        self@,
                        self.total_len(),
                        q,
                        d,
                    ) <= r@[r@.len() - 1].1
            }),
    {
        let ghost q = spec_tokenize(query@);
        let ghost pv = self@.postings;
        let ghost cset = spec_candidates(pv, q);
        let q_vec = tokenize(query.as_str());
        // Gather the candidate documents, first occurrence first.
        let mut cands: Vec<String> = Vec::new();
        let mut qi: usize = 0;
        while qi < q_vec.len()
            invariant
                qi <= q_vec@.len(),
                forall|a: int, b: int| 0 <= a < b < cands@.len() ==> cands@[a]@ != cands@[b]@,
                forall|d: Seq<char>|
                    #[trigger] in_seq_str(cands@, d) == hits_prefix(pv, q, qi as int, d),
            decreases q_vec@.len() - qi,
        {
            let ghost t = q[qi as int];
            proof {
                assert(q_vec@[qi as int]@ == q[qi as int]);
            }
            match al_find(&self.inverted, &q_vec[qi]) {
                Some(ti) => {
                    proof {
                        lemma_al_at(self.inverted@, ti as int);
                        assert(pv.contains_key(t));
                        assert(pv[t] == posting_view(self.inverted@[ti as int].1));
                    }
                    let ghost tfsseq = self.inverted@[ti as int].1.tfs@;
                    let m = self.inverted[ti].1.tfs.len();
                    let mut di: usize = 0;
                    while di < m
                        invariant
                            di <= m,
                            forall|a: int, b: int|
                                0 <= a < b < cands@.len() ==> cands@[a]@ != cands@[b]@,
                            forall|d: Seq<char>|
                                #[trigger] in_seq_str(cands@, d) == (hits_prefix(pv, q, qi as int, d)
                                    || keys_prefix_has(tfsseq, di as int, d)),
                        decreases m - di,
                    {
                        let already = vec_has_str(&cands, &self.inverted[ti].1.tfs[di].0);
                        let ghost d0 = tfsseq[di as int].0@;
                        let ghost cands0 = cands@;
                        if !already {
                            cands.push(self.inverted[ti].1.tfs[di].0.clone());
                        }
                        proof {
                            assert forall|d: Seq<char>|
                                #[trigger] in_seq_str(cands@, d) == (hits_prefix(pv, q, qi as int, d)
                                    || keys_prefix_has(tfsseq, di + 1, d)) by {
                                if d == d0 {
                                    if already {
                                        assert(in_seq_str(cands0, d));
                                    } else {
                                        assert(cands@[cands@.len() - 1]@ == d);
                                    }
                                    assert(in_seq_str(cands@, d));
                                    assert(tfsseq[di as int].0@ == d);
                                    assert(keys_prefix_has(tfsseq, di + 1, d));
                                } else {
                                    assert(in_seq_str(cands@, d) == in_seq_str(cands0, d)) by {
                                        if in_seq_str(cands@, d) {
                                            let aa = choose|aa: int|
                                                0 <= aa < cands@.len() && cands@[aa]@ == d;
                                            assert(aa < cands0.len());
                                            assert(cands0[aa]@ == d);
                                        }
                                        if in_seq_str(cands0, d) {
                                            let aa = choose|aa: int|
                                                0 <= aa < cands0.len() && cands0[aa]@ == d;
                                            assert(cands@[aa]@ == d);
                                        }
                                    }
                                    assert(keys_prefix_has(tfsseq, di + 1, d) == keys_prefix_has(
                                        tfsseq,
                                        di as int,
                                        d,
                                    )) by {
                                        if keys_prefix_has(tfsseq, di + 1, d) {
                                            let bb = choose|bb: int|
                                                0 <= bb < di + 1 && tfsseq[bb].0@ == d;
                                            assert(bb != di);
                                            assert(tfsseq[bb].0@ == d && bb < di);
                                        }
                                    }
                                }
                            }
                        }
                        di = di + 1;
                    }
                    proof {
                        assert forall|d: Seq<char>|
                            #[trigger] in_seq_str(cands@, d) == hits_prefix(pv, q, qi + 1, d) by {
                            assert(keys_prefix_has(tfsseq, tfsseq.len() as int, d) == pv[
                                t].tfs.contains_key(d)) by {
                                if pv[t].tfs.contains_key(d) {
                                    assert(al_has(tfsseq, d));
                                    let bb = choose|bb: int|
                                        0 <= bb < tfsseq.len() && tfsseq[bb].0@ == d;
                                    assert(tfsseq[bb].0@ == d);
                                }
                                if keys_prefix_has(tfsseq, tfsseq.len() as int, d) {
                                    let bb = choose|bb: int|
                                        0 <= bb < tfsseq.len() && tfsseq[bb].0@ == d;
                                    assert(al_has(tfsseq, d));
                                }
                            }
                            assert(hits_prefix(pv, q, qi + 1, d) == (hits_prefix(pv, q, qi as int, d)
                                || pv[t].tfs.contains_key(d))) by {
                                if hits_prefix(pv, q, qi + 1, d) {
                                    let i = choose|i: int|
                                        0 <= i < qi + 1 && pv.contains_key(#[trigger] q[i])
                                            && pv[q[i]].tfs.contains_key(d);
                                    if i < qi {
                                        assert(hits_prefix(pv, q, qi as int, d));
                                    } else {
                                        assert(q[i] == t);
                                    }
                                }
                                if hits_prefix(pv, q, qi as int, d) {
                                    let i = choose|i: int|
                                        0 <= i < qi && pv.contains_key(#[trigger] q[i])
                                            && pv[q[i]].tfs.contains_key(d);
                                    assert(0 <= i < qi + 1 && pv.contains_key(q[i])
                                        && pv[q[i]].tfs.contains_key(d));
                                }
                                if pv[t].tfs.contains_key(d) {
                                    assert(pv.contains_key(q[qi as int])
                                        && pv[q[qi as int]].tfs.contains_key(d));
                                }
                            }
                        }
                    }
                },
                None => {
                    proof {
                        assert(!pv.contains_key(t));
                        assert forall|d: Seq<char>|
                            #[trigger] in_seq_str(cands@, d) == hits_prefix(pv, q, qi + 1, d) by {
                            assert(hits_prefix(pv, q, qi + 1, d) == hits_prefix(pv, q, qi as int, d))
                                by {
                                if hits_prefix(pv, q, qi + 1, d) {
                                    let i = choose|i: int|
                                        0 <= i < qi + 1 && pv.contains_key(#[trigger] q[i])
                                            && pv[q[i]].tfs.contains_key(d);
                                    assert(i != qi);
                                    assert(0 <= i < qi && pv.contains_key(q[i])
                                        && pv[q[i]].tfs.contains_key(d));
                                }
                                if hits_prefix(pv, q, qi as int, d) {
                                    let i = choose|i: int|
                                        0 <= i < qi && pv.contains_key(#[trigger] q[i])
                                            && pv[q[i]].tfs.contains_key(d);
                                    assert(0 <= i < qi + 1 && pv.contains_key(q[i])
                                        && pv[q[i]].tfs.contains_key(d));
                                }
                            }
                        }
                    }
                },
            }
            qi = qi + 1;
        }
        proof {
            assert(q_vec@.len() == q.len());
            assert forall|d: Seq<char>| #[trigger]
                cset.contains(d) == in_seq_str(cands@, d) by {
                assert(cset.contains(d) == hits_prefix(pv, q, q.len() as int, d)) by {
                    if cset.contains(d) {
                        let i = choose|i: int|
                            0 <= i < q.len() && pv.contains_key(#[trigger] q[i])
                                && pv[q[i]].tfs.contains_key(d);
                        assert(hits_prefix(pv, q, q.len() as int, d));
                    }
                    if hits_prefix(pv, q, q.len() as int, d) {
                        let i = choose|i: int|
                            0 <= i < q.len() && pv.contains_key(#[trigger] q[i])
                                && pv[q[i]].tfs.contains_key(d);
                        assert(cset.contains(d));
                    }
                }
            }
            assert(views(cands@).no_duplicates()) by {
                assert forall|a: int, b: int|
                    0 <= a < views(cands@).len() && 0 <= b < views(cands@).len() && a != b implies
                    views(cands@)[a] != views(cands@)[b] by {
                    if a < b {
                        assert(cands@[a]@ != cands@[b]@);
                    } else {
                        assert(cands@[b]@ != cands@[a]@);
                    }
                }
            }
            views(cands@).unique_seq_to_set();
            assert(cset =~= views(cands@).to_set()) by {
                assert forall|d: Seq<char>| #[trigger]
                    cset.contains(d) implies views(cands@).to_set().contains(d) by {
                    assert(in_seq_str(cands@, d));
                    let a = choose|a: int| 0 <= a < cands@.len() && #[trigger] cands@[a]@ == d;
                    assert(views(cands@)[a] == d);
                }
                assert forall|d: Seq<char>| #[trigger]
                    views(cands@).to_set().contains(d) implies cset.contains(d) by {
                    let a = choose|a: int| 0 <= a < views(cands@).len() && views(cands@)[a] == d;
                    assert(cands@[a]@ == d);
                    assert(in_seq_str(cands@, d));
                }
            }
            assert(cset.finite() && cset.len() == cands@.len());
        }
        // Saturating corpus token count for length normalization.
        let mut sum: u64 = 0;
        let mut si: usize = 0;
        proof {
            assert(self.doc_lens@.take(0) =~= Seq::<(String, usize)>::empty());
        }
        while si < self.doc_lens.len()
            invariant
                si <= self.doc_lens@.len(),
                sum == sat_len_sum(self.doc_lens@.take(si as int)),
            decreases self.doc_lens@.len() - si,
        {
            proof {
                assert(self.doc_lens@.take(si + 1).drop_last() =~= self.doc_lens@.take(si as int));
                assert(self.doc_lens@.take(si + 1).last() == self.doc_lens@[si as int]);
            }
            sum = sat_accumulate(sum, self.doc_lens[si].1 as u128);
            si = si + 1;
        }
        proof {
            assert(self.doc_lens@.take(self.doc_lens@.len() as int) =~= self.doc_lens@);
            assert(sum == self.total_len());
        }
        // Score every candidate.
        let mut scored: Vec<(String, u64)> = Vec::new();
        let mut ci: usize = 0;
        while ci < cands.len()
            invariant
                ci <= cands@.len(),
                scored@.len() == ci,
                forall|a: int|
                    0 <= a < ci ==> #[trigger] scored@[a].0@ == cands@[a]@ && scored@[a].1
                        == Self::spec_score(self@, sum, q, scored@[a].0@),
            decreases cands@.len() - ci,
        {
            let ghost d = cands@[ci as int]@;
            proof {
                assert(in_seq_str(cands@, d)) by {
                    assert(cands@[ci as int]@ == d);
                }
                assert(cset.contains(d));
            }
            let dl: usize = match al_find(&self.doc_lens, &cands[ci]) {
                Some(li) => {
                    proof {
                        lemma_al_at(self.doc_lens@, li as int);
                        lemma_sat_sum_element(self.doc_lens@, li as int);
                    }
                    self.doc_lens[li].1
                },
                None => {
                    proof {
                        let i = choose|i: int|
                            0 <= i < q.len() && pv.contains_key(#[trigger] q[i])
                                && pv[q[i]].tfs.contains_key(d);
                        let a = al_idx(self.inverted@, q[i]);
                        lemma_al_at(self.inverted@, a);
                        let p = self.inverted@[a].1;
                        assert(al_has(p.tfs@, d));
                        let b = choose|b: int| 0 <= b < p.tfs@.len() && p.tfs@[b].0@ == d;
                        assert(al_has(self.doc_lens@, p.tfs@[b].0@));
                        assert(false);
                    }
                    0
                },
            };
            proof {
                assert(dl as nat == self@.docs[d]);
                assert(dl <= sum);
            }
            let mut sc: u64 = 0;
            let mut ti: usize = 0;
            while ti < q_vec.len()
                invariant
                    ti <= q_vec@.len(),
                    sc == score_prefix(pv, q, ti as int, d, self.ndocs as int, sum as int, dl as int),
                decreases q_vec@.len() - ti,
            {
                let ghost t = q[ti as int];
                proof {
                    assert(q_vec@[ti as int]@ == q[ti as int]);
                }
                match al_find(&self.inverted, &q_vec[ti]) {
                    Some(ii) => {
                        proof {
                            lemma_al_at(self.inverted@, ii as int);
                            assert(pv.contains_key(t));
                            assert(pv[t] == posting_view(self.inverted@[ii as int].1));
                        }
                        match al_find(&self.inverted[ii].1.tfs, &cands[ci]) {
                            Some(bi) => {
                                proof {
                                    lemma_al_at(self.inverted@[ii as int].1.tfs@, bi as int);
                                    assert(cands@[ci as int]@ == d);
                                    assert(pv[t].tfs.contains_key(d));
                                }
                                let tf = self.inverted[ii].1.tfs[bi].1;
                                proof {
                                    assert(spec_term_tf(pv, t, d) == tf as int);
                                    assert(spec_term_df(pv, t) == self.inverted@[ii as int].1.df as int);
                                }
                                if tf == 0 {
                                    proof {
                                        assert(spec_contribution(
                                            spec_term_tf(pv, t, d),
                                            spec_term_df(pv, t),
                                            self.ndocs as int,
                                            sum as int,
                                            dl as int,
                                        ) == 0);
                                        assert(sat_add_u64(sc, 0) == sc);
                                    }
                                } else {
                                    let df = self.inverted[ii].1.df;
                                    proof {
                                        lemma_df_le_docs(
                                            &self.inverted@[ii as int].1,
                                            self.doc_lens@,
                                        );
                                        assert(1 <= df);
                                        assert(df <= self.ndocs);
                                        assert(self.ndocs >= 1);
                                    }
                                    let c = contribution(
                                        tf as u128,
                                        df as u128,
                                        self.ndocs as u128,
                                        sum as u128,
                                        dl as u128,
                                    );
                                    sc = sat_accumulate(sc, c);
                                }
                            },
                            None => {
                                proof {
                                    assert(!al_has(self.inverted@[ii as int].1.tfs@, d)) by {
                                        assert(cands@[ci as int]@ == d);
                                    }
                                    assert(!pv[t].tfs.contains_key(d));
                                    assert(spec_term_tf(pv, t, d) == 0);
                                    assert(sat_add_u64(sc, 0) == sc);
                                }
                            },
                        }
                    },
                    None => {
                        proof {
                            assert(!pv.contains_key(t));
                            assert(spec_term_tf(pv, t, d) == 0);
                            assert(sat_add_u64(sc, 0) == sc);
                        }
                    },
                }
                ti = ti + 1;
            }
            scored.push((cands[ci].clone(), sc));
            ci = ci + 1;
        }
        proof {
            assert forall|d: Seq<char>| #[trigger]
                cset.contains(d) == in_pairs(scored@, d) by {
                assert(in_seq_str(cands@, d) == in_pairs(scored@, d)) by {
                    if in_seq_str(cands@, d) {
                        let a = choose|a: int| 0 <= a < cands@.len() && cands@[a]@ == d;
                        assert(scored@[a].0@ == d);
                    }
                    if in_pairs(scored@, d) {
                        let a = choose|a: int| 0 <= a < scored@.len() && scored@[a].0@ == d;
                        assert(cands@[a]@ == d);
                    }
                }
            }
            assert forall|a: int, b: int|
                0 <= a < b < scored@.len() implies scored@[a].0@ != scored@[b].0@ by {
                assert(cands@[a]@ != cands@[b]@);
            }
        }
        // Select the top k, best first; the first-found candidate wins ties.
        let kk: usize = if k <= scored.len() {
            k
        } else {
            scored.len()
        };
        let ghost total = scored@.len();
        let mut out: Vec<(String, u64)> = Vec::new();
        while out.len() < kk
            invariant
                out@.len() + scored@.len() == total,
                out@.len() <= kk <= total,
                forall|a: int|
                    0 <= a < out@.len() ==> cset.contains(#[trigger] out@[a].0@) && out@[a].1
                        == Self::spec_score(self@, sum, q, out@[a].0@),
                forall|b: int|
                    0 <= b < scored@.len() ==> cset.contains(#[trigger] scored@[b].0@)
                        && scored@[b].1 == Self::spec_score(self@, sum, q, scored@[b].0@),
                forall|d: Seq<char>|
                    #[trigger] cset.contains(d) == (in_pairs(out@, d) || in_pairs(scored@, d)),
                forall|a: int, b: int| 0 <= a < b < out@.len() ==> out@[a].0@ != out@[b].0@,
                forall|a: int, b: int|
                    0 <= a < b < scored@.len() ==> scored@[a].0@ != scored@[b].0@,
                forall|a: int, b: int|
                    0 <= a < out@.len() && 0 <= b < scored@.len() ==> out@[a].0@ != scored@[b].0@,
                forall|a: int, b: int| 0 <= a < b < out@.len() ==> out@[a].1 >= out@[b].1,
                forall|a: int, b: int|
                    0 <= a < out@.len() && 0 <= b < scored@.len() ==> out@[a].1 >= scored@[b].1,
            decreases kk - out@.len(),
        {
            let mut best: usize = 0;
            let mut bi: usize = 1;
            while bi < scored.len()
                invariant
                    scored@.len() > 0,
                    best < bi <= scored@.len(),
                    forall|b: int| 0 <= b < bi ==> scored@[b].1 <= scored@[best as int].1,
                decreases scored@.len() - bi,
            {
                if scored[bi].1 > scored[best].1 {
                    best = bi;
                }
                bi = bi + 1;
            }
            let ghost scored0 = scored@;
            let chosen = scored.remove(best);
            let ghost out0 = out@;
            out.push(chosen);
            proof {
                assert(out@ =~= out0.push(chosen));
                assert(scored@ =~= scored0.remove(best as int));
                assert forall|d: Seq<char>|
                    #[trigger] cset.contains(d) == (in_pairs(out@, d) || in_pairs(scored@, d)) by {
                    if cset.contains(d) {
                        if in_pairs(out0, d) {
                            let a = choose|a: int| 0 <= a < out0.len() && out0[a].0@ == d;
                            assert(out@[a].0@ == d);
                            assert(in_pairs(out@, d));
                        } else {
                            assert(in_pairs(scored0, d));
                            let b = choose|b: int| 0 <= b < scored0.len() && scored0[b].0@ == d;
                            if b == best {
                                assert(out@[out@.len() - 1].0@ == d);
                                assert(in_pairs(out@, d));
                            } else if b < best {
                                assert(scored@[b].0@ == d);
                                assert(in_pairs(scored@, d));
                            } else {
                                assert(scored@[b - 1].0@ == d);
                                assert(in_pairs(scored@, d));
                            }
                        }
                    }
                    if in_pairs(out@, d) {
                        let a = choose|a: int| 0 <= a < out@.len() && out@[a].0@ == d;
                        if a < out0.len() {
                            assert(out0[a].0@ == d);
                            assert(in_pairs(out0, d));
                        } else {
                            assert(scored0[best as int].0@ == d);
                            assert(in_pairs(scored0, d));
                        }
                        assert(cset.contains(d));
                    }
                    if in_pairs(scored@, d) {
                        let b = choose|b: int| 0 <= b < scored@.len() && scored@[b].0@ == d;
                        if b < best {
                            assert(scored0[b].0@ == d);
                        } else {
                            assert(scored0[b + 1].0@ == d);
                        }
                        assert(in_pairs(scored0, d));
                        assert(cset.contains(d));
                    }
                }
            }
        }
        proof {
            assert(out@.len() == kk);
            assert forall|d: Seq<char>|
                cset.contains(d) && out@.len() > 0 && !(exists|i: int|
                    0 <= i < out@.len() && #[trigger] out@[i].0@ == d) implies Self::spec_score(
                self@,
                self.total_len(),
                q,
                d,
            ) <= out@[out@.len() - 1].1 by {
                assert(!in_pairs(out@, d)) by {
                    if in_pairs(out@, d) {
                        let a = choose|a: int| 0 <= a < out@.len() && out@[a].0@ == d;
                        assert(out@[a].0@ == d);
                    }
                }
                assert(in_pairs(scored@, d));
                let b = choose|b: int| 0 <= b < scored@.len() && scored@[b].0@ == d;
                assert(scored@[b].1 == Self::spec_score(self@, sum, q, d));
                assert(out@[out@.len() - 1].1 >= scored@[b].1);
            }
        }
        out
    }

    /// Document frequency invariant: for every term in the index, the
    /// stored document frequency equals the number of distinct documents in
    /// its term-frequency table, and every document a posting names exists
    /// in the document store.
    pub proof fn lemma_df_invariant(&self)
        requires
            self.wf(),
        ensures
            forall|t: Seq<char>| #[trigger]
                self@.postings.contains_key(t) ==> self@.postings[t].tfs.dom().finite()
                    && self@.postings[t].df == self@.postings[t].tfs.dom().len(),
            forall|t: Seq<char>, d: Seq<char>|
                self@.postings.contains_key(t) && #[trigger] self@.postings[t].tfs.contains_key(d)
                    ==> self@.docs.contains_key(d),
    {
        assert forall|t: Seq<char>| #[trigger]
            self@.postings.contains_key(t) implies self@.postings[t].tfs.dom().finite()
            && self@.postings[t].df == self@.postings[t].tfs.dom().len() by {
            let i = al_idx(self.inverted@, t);
            lemma_al_at(self.inverted@, i);
            let p = self.inverted@[i].1;
            assert(Self::posting_wf(p, self.doc_lens@));
            lemma_al_dom_len(p.tfs@);
            assert(self@.postings[t].tfs.dom() =~= al_map(p.tfs@).dom());
        }
        assert forall|t: Seq<char>, d: Seq<char>|
            self@.postings.contains_key(t) && #[trigger] self@.postings[t].tfs.contains_key(
                d,
            ) implies self@.docs.contains_key(d) by {
            let i = al_idx(self.inverted@, t);
            lemma_al_at(self.inverted@, i);
            let p = self.inverted@[i].1;
            assert(Self::posting_wf(p, self.doc_lens@));
            assert(al_has(p.tfs@, d));
            let b = choose|b: int| 0 <= b < p.tfs@.len() && p.tfs@[b].0@ == d;
            assert(al_has(self.doc_lens@, p.tfs@[b].0@));
        }
    }

    /// Returns the stored original text of `doc_id`, or `None` when no such
    /// document was ingested.
    pub fn get_doc(&self, doc_id: String) -> (r: Option<String>)
        requires
            self.wf(),
        ensures
            match r {
                Some(t) => self@.texts.contains_key(doc_id@) && t@ == self@.texts[doc_id@],
                None => !self@.texts.contains_key(doc_id@),
            },
    {
        match al_find(&self.stored, &doc_id) {
            Some(i) => {
                proof {
                    lemma_al_at(self.stored@, i as int);
                }
                Some(self.stored[i].1.clone())
            },
            None => None,
        }
    }
}

} // verus!
