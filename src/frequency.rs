//! Term-frequency tables: how often each token occurs in one document.
use vstd::prelude::*;
use vstd::string::StringExecFns;
use crate::lexer::{tokenize, tokens_of, views};

verus! {

/// Number of occurrences of `w` in `s`.
pub open spec fn occurrences(s: Seq<Seq<char>>, w: Seq<char>) -> nat
    decreases s.len(),
{
    if s.len() == 0 {
        0
    } else {
        occurrences(s.drop_last(), w) + if s.last() == w {
            1nat
        } else {
            0nat
        }
    }
}

/// The term-frequency table of a token sequence: each token that occurs, with its count.
pub open spec fn frequencies(tokens: Seq<Seq<char>>) -> Map<Seq<char>, nat> {
    Map::new(|w: Seq<char>| occurrences(tokens, w) > 0, |w: Seq<char>| occurrences(tokens, w))
}

/// The entries of a table as words and counts.
pub open spec fn entry_views(e: Seq<(String, usize)>) -> Seq<(Seq<char>, nat)> {
    e.map_values(|p: (String, usize)| (p.0@, p.1 as nat))
}

/// How often `t` occurs in a table: its count, or 0 when absent.
pub open spec fn term_count(m: Map<Seq<char>, nat>, t: Seq<char>) -> nat {
    if m.contains_key(t) {
        m[t]
    } else {
        0
    }
}

/// Two tables added up: every word of either, with the sum of its counts.
pub open spec fn merged(a: Map<Seq<char>, nat>, b: Map<Seq<char>, nat>) -> Map<Seq<char>, nat> {
    Map::new(
        |t: Seq<char>| a.contains_key(t) || b.contains_key(t),
        |t: Seq<char>| term_count(a, t) + term_count(b, t),
    )
}

/// No word stands in two entries.
pub open spec fn keys_distinct(e: Seq<(Seq<char>, nat)>) -> bool {
    forall|i: int, j: int| 0 <= i < j < e.len() ==> e[i].0 != e[j].0
}

/// Whether some entry holds the word `w`.
pub open spec fn has_key(e: Seq<(Seq<char>, nat)>, w: Seq<char>) -> bool {
    exists|i: int| 0 <= i < e.len() && e[i].0 == w
}

/// The map that a sequence of entries with distinct words stands for.
pub open spec fn map_of(e: Seq<(Seq<char>, nat)>) -> Map<Seq<char>, nat> {
    Map::new(
        |w: Seq<char>| has_key(e, w),
        |w: Seq<char>| e[choose|i: int| 0 <= i < e.len() && e[i].0 == w].1,
    )
}

/// The entry at `i` is what the map holds for its word.
pub proof fn lemma_map_of_index(e: Seq<(Seq<char>, nat)>, i: int)
    requires
        keys_distinct(e),
        0 <= i < e.len(),
    ensures
        map_of(e).contains_key(e[i].0),
        map_of(e)[e[i].0] == e[i].1,
{
    assert(has_key(e, e[i].0));
    let j = choose|j: int| 0 <= j < e.len() && e[j].0 == e[i].0;
    if j != i {
        if j < i {
            assert(e[j].0 != e[i].0);
        } else {
            assert(e[i].0 != e[j].0);
        }
    }
}

proof fn lemma_map_of_push(e: Seq<(Seq<char>, nat)>, x: (Seq<char>, nat))
    requires
        keys_distinct(e),
        !has_key(e, x.0),
    ensures
        keys_distinct(e.push(x)),
        map_of(e.push(x)) == map_of(e).insert(x.0, x.1),
{
    let f = e.push(x);
    assert forall|i: int, j: int| 0 <= i < j < f.len() implies f[i].0 != f[j].0 by {
        if j == e.len() {
            assert(e[i].0 != x.0);
        } else {
            assert(e[i].0 != e[j].0);
        }
    }
    assert forall|w: Seq<char>| #[trigger] map_of(f).contains_key(w) == map_of(e).insert(x.0, x.1).contains_key(w)
        && (map_of(f).contains_key(w) ==> map_of(f)[w] == map_of(e).insert(x.0, x.1)[w]) by {
        if has_key(f, w) {
            let i = choose|i: int| 0 <= i < f.len() && f[i].0 == w;
            lemma_map_of_index(f, i);
            if i < e.len() {
                assert(e[i].0 == w);
                lemma_map_of_index(e, i);
            }
        }
        if has_key(e, w) {
            let i = choose|i: int| 0 <= i < e.len() && e[i].0 == w;
            assert(f[i].0 == w);
        }
        if w == x.0 {
            assert(f[e.len() as int].0 == w);
        }
    }
    assert(map_of(f) =~= map_of(e).insert(x.0, x.1));
}

proof fn lemma_map_of_update(e: Seq<(Seq<char>, nat)>, i: int, v: nat)
    requires
        keys_distinct(e),
        0 <= i < e.len(),
    ensures
        keys_distinct(e.update(i, (e[i].0, v))),
        map_of(e.update(i, (e[i].0, v))) == map_of(e).insert(e[i].0, v),
{
    let f = e.update(i, (e[i].0, v));
    assert forall|a: int| 0 <= a < f.len() implies #[trigger] f[a].0 == e[a].0 by {}
    assert(keys_distinct(f));
    assert forall|w: Seq<char>| #[trigger] map_of(f).contains_key(w) == map_of(e).insert(e[i].0, v).contains_key(w)
        && (map_of(f).contains_key(w) ==> map_of(f)[w] == map_of(e).insert(e[i].0, v)[w]) by {
        if has_key(f, w) {
            let k = choose|k: int| 0 <= k < f.len() && f[k].0 == w;
            lemma_map_of_index(f, k);
            assert(e[k].0 == w);
            lemma_map_of_index(e, k);
        }
        if has_key(e, w) {
            let k = choose|k: int| 0 <= k < e.len() && e[k].0 == w;
            assert(f[k].0 == w);
        }
    }
    assert(map_of(f) =~= map_of(e).insert(e[i].0, v));
}

/// A word occurs in a sequence at most as many times as the sequence is long.
pub proof fn lemma_occurrences_bound(s: Seq<Seq<char>>, w: Seq<char>)
    ensures
        occurrences(s, w) <= s.len(),
    decreases s.len(),
{
    if s.len() > 0 {
        lemma_occurrences_bound(s.drop_last(), w);
    }
}

/// A term-frequency table: each token of a document with its number of occurrences.
pub struct TermFreq {
    entries: Vec<(String, usize)>,
}

impl View for TermFreq {
    type V = Map<Seq<char>, nat>;

    closed spec fn view(&self) -> Map<Seq<char>, nat> {
        map_of(entry_views(self.entries@))
    }
}

impl TermFreq {
    /// The entries hold distinct words, each with a positive count.
    pub closed spec fn wf(&self) -> bool {
        &&& keys_distinct(entry_views(self.entries@))
        &&& forall|i: int| 0 <= i < self.entries@.len() ==> self.entries@[i].1 >= 1
    }

    /// The entries, as words and counts.
    pub closed spec fn entries_view(&self) -> Seq<(Seq<char>, nat)> {
        entry_views(self.entries@)
    }

    /// The view is the map of the entries, whose words are distinct.
    pub proof fn lemma_view(&self)
        requires
            self.wf(),
        ensures
            self@ == map_of(self.entries_view()),
            keys_distinct(self.entries_view()),
            forall|i: int| 0 <= i < self.entries_view().len() ==> self.entries_view()[i].1 >= 1,
            self@.len() == self.entries_view().len(),
    {
        let e = self.entries_view();
        let keys = e.map_values(|p: (Seq<char>, nat)| p.0);
        assert(keys.no_duplicates()) by {
            assert forall|i: int, j: int| 0 <= i < keys.len() && 0 <= j < keys.len() && i != j
                implies keys[i] != keys[j] by {
                if i < j {
                    assert(e[i].0 != e[j].0);
                } else {
                    assert(e[j].0 != e[i].0);
                }
            }
        }
        assert forall|w: Seq<char>| self@.dom().contains(w) <==> keys.to_set().contains(w) by {
            if has_key(e, w) {
                let i = choose|i: int| 0 <= i < e.len() && e[i].0 == w;
                assert(keys[i] == w);
            }
            if keys.contains(w) {
                let i = choose|i: int| 0 <= i < keys.len() && keys[i] == w;
                assert(e[i].0 == w);
            }
        }
        assert(self@.dom() =~= keys.to_set());
        keys.unique_seq_to_set();
        assert forall|i: int| 0 <= i < self.entries_view().len() implies self.entries_view()[i].1
            >= 1 by {
            assert(self.entries@[i].1 >= 1);
        }
    }

    /// Number of distinct words.
    pub fn len(&self) -> (r: usize)
        ensures
            r == self.entries_view().len(),
    {
        self.entries.len()
    }

    /// The word and count of entry `i`.
    pub fn entry(&self, i: usize) -> (r: (&String, usize))
        requires
            i < self.entries_view().len(),
        ensures
            r.0@ == self.entries_view()[i as int].0,
            r.1 == self.entries_view()[i as int].1,
    {
        (&self.entries[i].0, self.entries[i].1)
    }

    /// The entries, as (word, count) pairs in the table's own order.
    pub fn to_vec(&self) -> (r: Vec<(String, usize)>)
        ensures
            entry_views(r@) == self.entries_view(),
    {
        let mut out: Vec<(String, usize)> = Vec::new();
        let mut i: usize = 0;
        while i < self.entries.len()
            invariant
                i <= self.entries@.len(),
                entry_views(out@) =~= entry_views(self.entries@).subrange(0, i as int),
            decreases self.entries@.len() - i,
        {
            let ghost before = out@;
            let key = self.entries[i].0.clone();
            out.push((key, self.entries[i].1));
            assert(out@ == before.push((key, self.entries@[i as int].1)));
            assert(entry_views(out@) =~= entry_views(before).push(entry_views(self.entries@)[i as int]));
            assert(entry_views(out@) =~= entry_views(self.entries@).subrange(0, i + 1));
            i = i + 1;
        }
        assert(entry_views(self.entries@).subrange(0, i as int) =~= entry_views(self.entries@));
        out
    }

    /// How often `w` occurs: its count, or 0 when the table does not hold it.
    pub fn get(&self, w: &str) -> (r: usize)
        requires
            self.wf(),
        ensures
            r == if self@.contains_key(w@) { self@[w@] } else { 0 },
    {
        let ghost ev = entry_views(self.entries@);
        let ws = String::from_str(w);
        let mut j: usize = 0;
        while j < self.entries.len()
            invariant
                j <= self.entries@.len(),
                ev == entry_views(self.entries@),
                keys_distinct(ev),
                ws@ == w@,
                forall|i: int| 0 <= i < j ==> ev[i].0 != w@,
            decreases self.entries@.len() - j,
        {
            if self.entries[j].0 == ws {
                proof {
                    lemma_map_of_index(ev, j as int);
                }
                return self.entries[j].1;
            }
            j = j + 1;
        }
        assert(!has_key(ev, w@));
        0
    }

    /// An empty table.
    pub fn new() -> (r: TermFreq)
        ensures
            r.wf(),
            r@ == Map::<Seq<char>, nat>::empty(),
    {
        let r = TermFreq { entries: Vec::new() };
        assert(r@ =~= Map::<Seq<char>, nat>::empty());
        r
    }

    /// Adds the counts of `other` to this table.
    pub fn add_counts(&mut self, other: &TermFreq)
        requires
            old(self).wf(),
            other.wf(),
            forall|t: Seq<char>|
                term_count(old(self)@, t) + term_count(other@, t) <= usize::MAX,
        ensures
            final(self).wf(),
            final(self)@ == merged(old(self)@, other@),
    {
        let ghost a = self@;
        let ghost oe = other.entries_view();
        proof {
            other.lemma_view();
        }
        let mut j: usize = 0;
        assert(map_of(oe.subrange(0, 0)) =~= Map::<Seq<char>, nat>::empty());
        assert(self@ =~= merged(a, map_of(oe.subrange(0, 0))));
        while j < other.entries.len()
            invariant
                self.wf(),
                other.wf(),
                oe == other.entries_view(),
                keys_distinct(oe),
                other@ == map_of(oe),
                j <= oe.len(),
                forall|t: Seq<char>| term_count(a, t) + term_count(other@, t) <= usize::MAX,
                self@ == merged(a, map_of(oe.subrange(0, j as int))),
            decreases oe.len() - j,
        {
            let w = &other.entries[j].0;
            let d = other.entries[j].1;
            let ghost pj = oe.subrange(0, j as int);
            assert(oe.subrange(0, j + 1) =~= pj.push(oe[j as int]));
            assert(!has_key(pj, w@)) by {
                if has_key(pj, w@) {
                    let m = choose|m: int| 0 <= m < pj.len() && pj[m].0 == w@;
                    assert(oe[m].0 != oe[j as int].0);
                }
            }
            assert(keys_distinct(pj)) by {
                assert forall|x: int, y: int| 0 <= x < y < pj.len() implies pj[x].0 != pj[y].0 by {
                    assert(oe[x].0 != oe[y].0);
                }
            }
            proof {
                lemma_map_of_push(pj, oe[j as int]);
                lemma_map_of_index(oe, j as int);
            }
            let ghost se = entry_views(self.entries@);
            let mut i: usize = 0;
            while i < self.entries.len() && !(self.entries[i].0 == *w)
                invariant
                    i <= self.entries@.len(),
                    forall|m: int| 0 <= m < i ==> self.entries@[m].0@ != w@,
                decreases self.entries@.len() - i,
            {
                i = i + 1;
            }
            if i < self.entries.len() {
                proof {
                    lemma_map_of_index(se, i as int);
                }
                let c = self.entries[i].1;
                let key = self.entries[i].0.clone();
                self.entries.set(i, (key, c + d));
                proof {
                    lemma_map_of_update(se, i as int, (c + d) as nat);
                    assert(entry_views(self.entries@) =~= se.update(i as int, (se[i as int].0, (c + d) as nat)));
                    assert(map_of(se) == merged(a, map_of(pj)));
                    assert(c == term_count(a, w@));
                }
            } else {
                assert(!has_key(se, w@)) by {
                    if has_key(se, w@) {
                        let m = choose|m: int| 0 <= m < se.len() && se[m].0 == w@;
                        assert(self.entries@[m].0@ != w@);
                    }
                }
                proof {
                    lemma_map_of_push(se, (w@, d as nat));
                }
                self.entries.push((w.clone(), d));
                assert(entry_views(self.entries@) =~= se.push((w@, d as nat)));
                assert(map_of(se) == merged(a, map_of(pj)));
                assert(!map_of(se).contains_key(w@));
                assert(term_count(a, w@) == 0);
            }
            proof {
                let p0 = map_of(pj);
                let p1 = map_of(oe.subrange(0, j + 1));
                assert(p1 == p0.insert(w@, d as nat));
                assert(!p0.contains_key(w@));
                assert(self@ == map_of(se).insert(w@, (term_count(a, w@) + d) as nat));
                assert forall|t: Seq<char>| #[trigger] self@.contains_key(t) == merged(a, p1).contains_key(t)
                    && (self@.contains_key(t) ==> self@[t] == merged(a, p1)[t]) by {
                    if t != w@ {
                        assert(map_of(se).contains_key(t) == merged(a, p0).contains_key(t));
                    }
                }
                assert(self@ =~= merged(a, p1));
            }
            j = j + 1;
        }
        assert(oe.subrange(0, j as int) =~= oe);
    }

    /// The counts of a token sequence.
    pub fn from_tokens(tokens: &Vec<String>) -> (r: TermFreq)
        ensures
            r.wf(),
            r@ == frequencies(views(tokens@)),
    {
        let ghost all = views(tokens@);
        let mut entries: Vec<(String, usize)> = Vec::new();
        let mut k: usize = 0;
        while k < tokens.len()
            invariant
                k <= tokens@.len(),
                all == views(tokens@),
                keys_distinct(entry_views(entries@)),
                forall|i: int|
                    0 <= i < entries@.len() ==> #[trigger] entries@[i].1 as nat == occurrences(
                        all.subrange(0, k as int),
                        entries@[i].0@,
                    ) && entries@[i].1 >= 1,
                forall|w: Seq<char>|
                    occurrences(all.subrange(0, k as int), w) > 0 ==> has_key(
                        entry_views(entries@),
                        w,
                    ),
            decreases tokens@.len() - k,
        {
            let t = &tokens[k];
            let ghost prefix = all.subrange(0, k as int);
            let ghost next = all.subrange(0, k + 1);
            assert(next.drop_last() =~= prefix);
            assert(next.last() == t@);
            assert(forall|w: Seq<char>|
                #[trigger] occurrences(next, w) == occurrences(prefix, w) + if t@ == w {
                    1nat
                } else {
                    0nat
                });
            let mut j: usize = 0;
            while j < entries.len() && !(entries[j].0 == *t)
                invariant
                    j <= entries@.len(),
                    forall|i: int| 0 <= i < j ==> entries@[i].0@ != t@,
                decreases entries@.len() - j,
            {
                j = j + 1;
            }
            let ghost ev = entry_views(entries@);
            if j < entries.len() {
                proof {
                    lemma_occurrences_bound(next, t@);
                }
                let c = entries[j].1;
                let key = entries[j].0.clone();
                entries.set(j, (key, c + 1));
                assert(keys_distinct(entry_views(entries@))) by {
                    assert forall|a: int| 0 <= a < entries@.len() implies #[trigger] entry_views(
                        entries@,
                    )[a].0 == ev[a].0 by {}
                }
                assert forall|i: int| 0 <= i < entries@.len() implies #[trigger] entries@[i].1 as nat
                    == occurrences(next, entries@[i].0@) && entries@[i].1 >= 1 by {
                    if i != j {
                        if i < j {
                            assert(ev[i].0 != ev[j as int].0);
                        } else {
                            assert(ev[j as int].0 != ev[i].0);
                        }
                    }
                }
                assert forall|w: Seq<char>| occurrences(next, w) > 0 implies has_key(
                    entry_views(entries@),
                    w,
                ) by {
                    if w == t@ {
                        assert(entry_views(entries@)[j as int].0 == w);
                    } else {
                        assert(occurrences(prefix, w) > 0);
                        assert(has_key(ev, w));
                        let i = choose|i: int| 0 <= i < ev.len() && ev[i].0 == w;
                        assert(entry_views(entries@)[i].0 == w);
                    }
                }
            } else {
                entries.push((t.clone(), 1));
                assert forall|i: int| 0 <= i < entries@.len() implies #[trigger] entries@[i].1 as nat
                    == occurrences(next, entries@[i].0@) && entries@[i].1 >= 1 by {
                    if i < entries@.len() - 1 {
                        assert(entries@[i].0@ != t@);
                    } else {
                        assert(occurrences(prefix, t@) == 0) by {
                            if occurrences(prefix, t@) > 0 {
                                assert(has_key(ev, t@));
                                let m = choose|m: int| 0 <= m < ev.len() && ev[m].0 == t@;
                                assert(entries@[m].0@ != t@);
                            }
                        }
                    }
                }
                assert forall|w: Seq<char>| occurrences(next, w) > 0 implies has_key(
                    entry_views(entries@),
                    w,
                ) by {
                    if w == t@ {
                        assert(entry_views(entries@)[entries@.len() - 1].0 == w);
                    } else {
                        assert(occurrences(prefix, w) > 0);
                        assert(has_key(ev, w));
                        let i = choose|i: int| 0 <= i < ev.len() && ev[i].0 == w;
                        assert(entry_views(entries@)[i].0 == w);
                    }
                }
                assert(keys_distinct(entry_views(entries@))) by {
                    assert forall|a: int, b: int|
                        0 <= a < b < entries@.len() implies entry_views(entries@)[a].0
                        != entry_views(entries@)[b].0 by {
                        if b == entries@.len() - 1 {
                            assert(entries@[a].0@ != t@);
                        } else {
                            assert(ev[a].0 != ev[b].0);
                        }
                    }
                }
            }
            k = k + 1;
        }
        assert(all.subrange(0, k as int) =~= all);
        let r = TermFreq { entries };
        let ghost ev = entry_views(entries@);
        assert forall|w: Seq<char>| #[trigger] r@.contains_key(w) == frequencies(all).contains_key(w)
            && (r@.contains_key(w) ==> r@[w] == frequencies(all)[w]) by {
            if has_key(ev, w) {
                let i = choose|i: int| 0 <= i < ev.len() && ev[i].0 == w;
                lemma_map_of_index(ev, i);
            }
        }
        assert(r@ =~= frequencies(all));
        r
    }
}

/// The term-frequency table of a document's text.
pub fn process_buf(buf: &str) -> (r: TermFreq)
    ensures
        r.wf(),
        r@ == frequencies(tokens_of(buf@)),
{
    let tokens = tokenize(buf);
    TermFreq::from_tokens(&tokens)
}

} // verus!
