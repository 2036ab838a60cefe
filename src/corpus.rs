//! The corpus: one term-frequency table per document, and the document
//! frequencies and inverse-document-frequency ratios derived from it.
use vstd::prelude::*;
use crate::frequency::{
    TermFreq, entry_views, has_key, keys_distinct, lemma_map_of_index, map_of, merged, term_count,
};
use crate::ranking::{ranked, sort_ranked};

verus! {

/// A document as its identifier and its term-frequency table.
pub type DocView = (Seq<char>, Map<Seq<char>, nat>);

/// No identifier stands in two documents.
pub open spec fn ids_distinct(d: Seq<DocView>) -> bool {
    forall|i: int, j: int| 0 <= i < j < d.len() ==> d[i].0 != d[j].0
}

/// Whether some document has the identifier `id`.
pub open spec fn has_doc(d: Seq<DocView>, id: Seq<char>) -> bool {
    exists|i: int| 0 <= i < d.len() && d[i].0 == id
}

/// Number of documents whose table holds `t`, whatever its count there.
pub open spec fn doc_frequency(d: Seq<DocView>, t: Seq<char>) -> nat
    decreases d.len(),
{
    if d.len() == 0 {
        0
    } else {
        doc_frequency(d.drop_last(), t) + if d.last().1.contains_key(t) {
            1nat
        } else {
            0nat
        }
    }
}

/// A term occurs in at most every document.
pub proof fn lemma_doc_frequency_bound(d: Seq<DocView>, t: Seq<char>)
    ensures
        doc_frequency(d, t) <= d.len(),
    decreases d.len(),
{
    if d.len() > 0 {
        lemma_doc_frequency_bound(d.drop_last(), t);
    }
}

/// A term has a positive document frequency exactly when some document's table holds it.
pub proof fn lemma_doc_frequency_positive(d: Seq<DocView>, t: Seq<char>)
    ensures
        doc_frequency(d, t) > 0 <==> exists|i: int| 0 <= i < d.len() && #[trigger] d[i].1.contains_key(t),
    decreases d.len(),
{
    if d.len() > 0 {
        lemma_doc_frequency_positive(d.drop_last(), t);
        if doc_frequency(d.drop_last(), t) > 0 {
            let i = choose|i: int| 0 <= i < d.drop_last().len() && #[trigger] d.drop_last()[i].1.contains_key(t);
            assert(d[i].1.contains_key(t));
        }
        if exists|i: int| 0 <= i < d.len() && #[trigger] d[i].1.contains_key(t) {
            let i = choose|i: int| 0 <= i < d.len() && #[trigger] d[i].1.contains_key(t);
            if i < d.len() - 1 {
                assert(d.drop_last()[i].1.contains_key(t));
            }
        }
    }
}

/// Document frequencies are bounded by the number of documents, and a term
/// that some table holds has a document frequency of at least one: so the
/// ratio of documents to document frequency is at least one, and its
/// logarithm, the inverse document frequency, is never negative.
pub proof fn lemma_idf_ratio_at_least_one(d: Seq<DocView>, t: Seq<char>)
    requires
        exists|i: int| 0 <= i < d.len() && #[trigger] d[i].1.contains_key(t),
    ensures
        1 <= doc_frequency(d, t) <= d.len(),
{
    lemma_doc_frequency_bound(d, t);
    lemma_doc_frequency_positive(d, t);
}

/// The counts of every term over all documents together.
pub open spec fn total_counts(d: Seq<DocView>) -> Map<Seq<char>, nat>
    decreases d.len(),
{
    if d.len() == 0 {
        Map::empty()
    } else {
        merged(total_counts(d.drop_last()), d.last().1)
    }
}

proof fn lemma_total_prefix_bound(d: Seq<DocView>, i: int, t: Seq<char>)
    requires
        0 <= i <= d.len(),
    ensures
        term_count(total_counts(d.subrange(0, i)), t) <= term_count(total_counts(d), t),
    decreases d.len() - i,
{
    if i == d.len() {
        assert(d.subrange(0, i) =~= d);
    } else {
        lemma_total_prefix_bound(d, i + 1, t);
        assert(d.subrange(0, i + 1).drop_last() =~= d.subrange(0, i));
    }
}

/// The weight of document `i` for the query `t`. Its relevance score is
/// `tf * ln(N / df)`: with `df < N` the logarithm is positive and the same for
/// every document, so scores order as the term counts do; with `df == N` it
/// is zero, and with `df == 0` every term count is zero, so every score is 0.
pub open spec fn relevance_weight(d: Seq<DocView>, i: int, t: Seq<char>) -> nat {
    if doc_frequency(d, t) < d.len() {
        term_count(d[i].1, t)
    } else {
        0
    }
}

/// The documents indexed so far.
pub struct Corpus {
    docs: Vec<(String, TermFreq)>,
}

impl View for Corpus {
    type V = Seq<DocView>;

    closed spec fn view(&self) -> Seq<DocView> {
        self.docs@.map_values(|p: (String, TermFreq)| (p.0@, p.1@))
    }
}

impl Corpus {
    /// Identifiers are distinct and every table is well formed.
    pub closed spec fn wf(&self) -> bool {
        &&& ids_distinct(self@)
        &&& forall|i: int| 0 <= i < self.docs@.len() ==> (#[trigger] self.docs@[i]).1.wf()
    }

    /// An empty corpus.
    pub fn new() -> (r: Corpus)
        ensures
            r.wf(),
            r@ == Seq::<DocView>::empty(),
    {
        let r = Corpus { docs: Vec::new() };
        assert(r@ =~= Seq::<DocView>::empty());
        r
    }

    /// Adds the table of document `id`, replacing the one it had.
    pub fn insert(&mut self, id: String, table: TermFreq)
        requires
            old(self).wf(),
            table.wf(),
        ensures
            final(self).wf(),
            forall|i: int|
                0 <= i < old(self)@.len() && old(self)@[i].0 == id@ ==> final(self)@ == old(self)@.update(
                    i,
                    (id@, table@),
                ),
            !has_doc(old(self)@, id@) ==> final(self)@ == old(self)@.push((id@, table@)),
    {
        let ghost d0 = self@;
        let mut j: usize = 0;
        while j < self.docs.len() && !(self.docs[j].0 == id)
            invariant
                j <= self.docs@.len(),
                d0 == self@,
                forall|i: int| 0 <= i < j ==> self.docs@[i].0@ != id@,
            decreases self.docs@.len() - j,
        {
            j = j + 1;
        }
        if j < self.docs.len() {
            assert(d0[j as int].0 == id@);
            assert(has_doc(d0, id@));
            self.docs.set(j, (id, table));
            assert(self@ =~= d0.update(j as int, (self.docs@[j as int].0@, table@)));
            assert forall|i: int|
                0 <= i < d0.len() && d0[i].0 == self.docs@[j as int].0@ implies i == j by {
                if i < j {
                    assert(d0[i].0 != d0[j as int].0);
                } else if i > j {
                    assert(d0[j as int].0 != d0[i].0);
                }
            }
            assert(ids_distinct(self@)) by {
                assert forall|a: int| 0 <= a < self@.len() implies #[trigger] self@[a].0 == d0[a].0 by {}
            }
        } else {
            let ghost key = id@;
            self.docs.push((id, table));
            assert(self@ =~= d0.push((key, table@)));
            assert forall|a: int, b: int| 0 <= a < b < self@.len() implies self@[a].0 != self@[b].0 by {
                if b == d0.len() {
                    assert(self.docs@[a].0@ != key);
                } else {
                    assert(d0[a].0 != d0[b].0);
                }
            }
            assert forall|i: int| 0 <= i < d0.len() implies d0[i].0 != key by {
                assert(self.docs@[i].0@ != key);
            }
        }
    }

    /// Number of documents.
    pub fn document_count(&self) -> (r: usize)
        ensures
            r == self@.len(),
    {
        self.docs.len()
    }

    /// The identifier and table of document `i`.
    pub fn document(&self, i: usize) -> (r: (&String, &TermFreq))
        requires
            self.wf(),
            i < self@.len(),
        ensures
            r.0@ == self@[i as int].0,
            r.1@ == self@[i as int].1,
            r.1.wf(),
    {
        (&self.docs[i].0, &self.docs[i].1)
    }

    /// Number of documents whose table holds `term`.
    pub fn document_frequency(&self, term: &str) -> (r: usize)
        requires
            self.wf(),
        ensures
            r == doc_frequency(self@, term@),
    {
        let mut n: usize = 0;
        let mut i: usize = 0;
        while i < self.docs.len()
            invariant
                i <= self.docs@.len(),
                self.wf(),
                n == doc_frequency(self@.subrange(0, i as int), term@),
            decreases self.docs@.len() - i,
        {
            proof {
                lemma_doc_frequency_bound(self@.subrange(0, i as int), term@);
                assert(self@.subrange(0, i + 1).drop_last() =~= self@.subrange(0, i as int));
            }
            let c = self.docs[i].1.get(term);
            if c > 0 {
                n = n + 1;
            }
            proof {
                let t = self.docs@[i as int].1;
                t.lemma_view();
                if t@.contains_key(term@) {
                    let k = choose|k: int|
                        0 <= k < t.entries_view().len() && t.entries_view()[k].0 == term@;
                    crate::frequency::lemma_map_of_index(t.entries_view(), k);
                }
            }
            i = i + 1;
        }
        assert(self@.subrange(0, i as int) =~= self@);
        n
    }

    /// The ratio behind the inverse document frequency of `term`: the number
    /// of documents and the term's document frequency, whose quotient's
    /// natural logarithm is the term's idf. `None` when no document holds the
    /// term, for which no idf is defined.
    pub fn idf_ratio(&self, term: &str) -> (r: Option<(usize, usize)>)
        requires
            self.wf(),
        ensures
            r is None <==> doc_frequency(self@, term@) == 0,
            r is Some ==> r == Some((self@.len() as usize, doc_frequency(self@, term@) as usize)),
            r is Some ==> 1 <= doc_frequency(self@, term@) <= self@.len(),
    {
        let df = self.document_frequency(term);
        proof {
            lemma_doc_frequency_bound(self@, term@);
        }
        if df == 0 {
            None
        } else {
            Some((self.docs.len(), df))
        }
    }

    /// The documents ranked for the query `term`: each document's identifier
    /// with its relevance weight, by descending relevance score and, among
    /// equal scores, by ascending identifier.
    pub fn rank_documents(&self, term: &str) -> (r: Vec<(String, usize)>)
        requires
            self.wf(),
        ensures
            r@.len() == self@.len(),
            ranked(entry_views(r@), false),
            forall|e: (Seq<char>, nat)|
                entry_views(r@).contains(e) <==> exists|i: int|
                    0 <= i < self@.len() && e == (self@[i].0, relevance_weight(self@, i, term@)),
    {
        let df = self.document_frequency(term);
        let n = self.docs.len();
        let mut v: Vec<(String, usize)> = Vec::new();
        let mut i: usize = 0;
        while i < n
            invariant
                n == self@.len(),
                self.wf(),
                df == doc_frequency(self@, term@),
                i <= n,
                entry_views(v@) =~= Seq::new(
                    i as nat,
                    |j: int| (self@[j].0, relevance_weight(self@, j, term@)),
                ),
            decreases n - i,
        {
            let ghost before = v@;
            let c = self.docs[i].1.get(term);
            let w = if df < n { c } else { 0 };
            v.push((self.docs[i].0.clone(), w));
            assert(entry_views(v@) =~= entry_views(before).push(
                (self@[i as int].0, relevance_weight(self@, i as int, term@)),
            ));
            i = i + 1;
        }
        let ghost ev = entry_views(v@);
        assert(keys_distinct(ev)) by {
            assert forall|a: int, b: int| 0 <= a < b < ev.len() implies ev[a].0 != ev[b].0 by {
                assert(self@[a].0 != self@[b].0);
            }
        }
        let r = sort_ranked(v, false);
        assert forall|e: (Seq<char>, nat)|
            ev.contains(e) <==> exists|i: int|
                0 <= i < self@.len() && e == (self@[i].0, relevance_weight(self@, i, term@)) by {
            if exists|i: int|
                0 <= i < self@.len() && e == (self@[i].0, relevance_weight(self@, i, term@)) {
                let i = choose|i: int|
                    0 <= i < self@.len() && e == (self@[i].0, relevance_weight(self@, i, term@));
                assert(ev[i] == e);
            }
        }
        r
    }

    /// Every term that some document holds, each once, with its document
    /// frequency: the table from which the inverse document frequencies
    /// `ln(N / df)` are computed.
    pub fn idf_table(&self) -> (r: Vec<(String, usize)>)
        requires
            self.wf(),
        ensures
            keys_distinct(entry_views(r@)),
            forall|i: int|
                0 <= i < r@.len() ==> (#[trigger] entry_views(r@)[i]).1 == doc_frequency(
                    self@,
                    entry_views(r@)[i].0,
                ) && 1 <= entry_views(r@)[i].1 <= self@.len(),
            forall|t: Seq<char>|
                doc_frequency(self@, t) > 0 <==> #[trigger] has_key(entry_views(r@), t),
    {
        let mut out: Vec<(String, usize)> = Vec::new();
        let mut i: usize = 0;
        while i < self.docs.len()
            invariant
                i <= self@.len(),
                self.wf(),
                keys_distinct(entry_views(out@)),
                forall|m: int|
                    0 <= m < out@.len() ==> (#[trigger] entry_views(out@)[m]).1 == doc_frequency(
                        self@,
                        entry_views(out@)[m].0,
                    ) && 1 <= entry_views(out@)[m].1 <= self@.len(),
                forall|a: int, t: Seq<char>|
                    0 <= a < i && #[trigger] self@[a].1.contains_key(t) ==> has_key(
                        entry_views(out@),
                        t,
                    ),
                forall|t: Seq<char>|
                    #[trigger] has_key(entry_views(out@), t) ==> doc_frequency(self@, t) > 0,
            decreases self@.len() - i,
        {
            let table = &self.docs[i].1;
            proof {
                table.lemma_view();
            }
            let mut j: usize = 0;
            while j < table.len()
                invariant
                    i < self@.len(),
                    self.wf(),
                    table@ == self@[i as int].1,
                    table.wf(),
                    j <= table.entries_view().len(),
                    keys_distinct(entry_views(out@)),
                    forall|m: int|
                        0 <= m < out@.len() ==> (#[trigger] entry_views(out@)[m]).1
                            == doc_frequency(self@, entry_views(out@)[m].0) && 1 <= entry_views(
                            out@,
                        )[m].1 <= self@.len(),
                    forall|a: int, t: Seq<char>|
                        0 <= a < i && #[trigger] self@[a].1.contains_key(t) ==> has_key(
                            entry_views(out@),
                            t,
                        ),
                    forall|m: int|
                        0 <= m < j ==> has_key(
                            entry_views(out@),
                            #[trigger] table.entries_view()[m].0,
                        ),
                    forall|t: Seq<char>|
                        #[trigger] has_key(entry_views(out@), t) ==> doc_frequency(self@, t) > 0,
                decreases table.entries_view().len() - j,
            {
                let (w, _c) = table.entry(j);
                let ghost ov = entry_views(out@);
                let mut p: usize = 0;
                while p < out.len() && !(out[p].0 == *w)
                    invariant
                        p <= out@.len(),
                        forall|m: int| 0 <= m < p ==> out@[m].0@ != w@,
                    decreases out@.len() - p,
                {
                    p = p + 1;
                }
                proof {
                    table.lemma_view();
                    lemma_map_of_index(table.entries_view(), j as int);
                    assert(self@[i as int].1.contains_key(w@));
                    lemma_idf_ratio_at_least_one(self@, w@);
                }
                if p == out.len() {
                    let df = self.document_frequency(w.as_str());
                    out.push((w.clone(), df));
                    let ghost nv = entry_views(out@);
                    assert(nv =~= ov.push((w@, df as nat)));
                    assert forall|t: Seq<char>| has_key(ov, t) implies has_key(nv, t) by {
                        let m = choose|m: int| 0 <= m < ov.len() && ov[m].0 == t;
                        assert(nv[m].0 == t);
                    }
                    assert(has_key(nv, w@)) by {
                        assert(nv[ov.len() as int].0 == w@);
                    }
                    assert forall|t: Seq<char>| has_key(nv, t) implies doc_frequency(self@, t) > 0 by {
                        let m = choose|m: int| 0 <= m < nv.len() && nv[m].0 == t;
                        if m < ov.len() {
                            assert(ov[m].0 == t);
                            assert(has_key(ov, t));
                        }
                    }
                    assert(keys_distinct(nv)) by {
                        assert forall|a: int, b: int| 0 <= a < b < nv.len() implies nv[a].0
                            != nv[b].0 by {
                            if b == ov.len() {
                                assert(out@[a].0@ != w@);
                            } else {
                                assert(ov[a].0 != ov[b].0);
                            }
                        }
                    }
                } else {
                    assert(has_key(ov, w@)) by {
                        assert(ov[p as int].0 == w@);
                    }
                }
                j = j + 1;
            }
            proof {
                assert forall|t: Seq<char>| #[trigger] self@[i as int].1.contains_key(t) implies has_key(
                    entry_views(out@),
                    t,
                ) by {
                    table.lemma_view();
                    let m = choose|m: int|
                        0 <= m < table.entries_view().len() && table.entries_view()[m].0 == t;
                    assert(has_key(entry_views(out@), table.entries_view()[m].0));
                }
            }
            i = i + 1;
        }
        assert forall|t: Seq<char>|
            doc_frequency(self@, t) > 0 <==> #[trigger] has_key(entry_views(out@), t) by {
            lemma_doc_frequency_positive(self@, t);
            if doc_frequency(self@, t) > 0 {
                let a = choose|a: int| 0 <= a < self@.len() && #[trigger] self@[a].1.contains_key(t);
                assert(self@[a].1.contains_key(t));
            }
        }
        out
    }

    /// The counts of every term over all documents together.
    pub fn total_counts(&self) -> (r: TermFreq)
        requires
            self.wf(),
            forall|t: Seq<char>| term_count(total_counts(self@), t) <= usize::MAX,
        ensures
            r.wf(),
            r@ == total_counts(self@),
    {
        let mut acc = TermFreq::new();
        let mut i: usize = 0;
        assert(self@.subrange(0, 0) =~= Seq::<DocView>::empty());
        while i < self.docs.len()
            invariant
                self.wf(),
                i <= self@.len(),
                acc.wf(),
                forall|t: Seq<char>| term_count(total_counts(self@), t) <= usize::MAX,
                acc@ == total_counts(self@.subrange(0, i as int)),
            decreases self@.len() - i,
        {
            let ghost next = self@.subrange(0, i + 1);
            assert(next.drop_last() =~= self@.subrange(0, i as int));
            assert forall|t: Seq<char>| term_count(acc@, t) + term_count(self.docs@[i as int].1@, t)
                <= usize::MAX by {
                lemma_total_prefix_bound(self@, i + 1, t);
            }
            acc.add_counts(&self.docs[i].1);
            i = i + 1;
        }
        assert(self@.subrange(0, i as int) =~= self@);
        acc
    }
}

} // verus!
