//! Orders used to rank terms and documents, and a sort that realises them.
use vstd::prelude::*;
use crate::frequency::{TermFreq, entry_views, keys_distinct, lemma_map_of_index};
use crate::text::chars_of;

verus! {

/// Lexicographic order of strings by code point (the order of `str`'s `<`).
pub open spec fn lex_lt(a: Seq<char>, b: Seq<char>) -> bool
    decreases a.len(),
{
    if a.len() == 0 {
        b.len() > 0
    } else if b.len() == 0 {
        false
    } else if a[0] != b[0] {
        (a[0] as int) < (b[0] as int)
    } else {
        lex_lt(a.drop_first(), b.drop_first())
    }
}

/// No string comes before itself, and of two strings at most one comes first.
pub proof fn lemma_lex_asymmetric(a: Seq<char>, b: Seq<char>)
    ensures
        !(lex_lt(a, b) && lex_lt(b, a)),
    decreases a.len(),
{
    if a.len() > 0 && b.len() > 0 && a[0] == b[0] {
        lemma_lex_asymmetric(a.drop_first(), b.drop_first());
    }
}

/// The lexicographic order is transitive.
pub proof fn lemma_lex_transitive(a: Seq<char>, b: Seq<char>, c: Seq<char>)
    requires
        lex_lt(a, b),
        lex_lt(b, c),
    ensures
        lex_lt(a, c),
    decreases a.len(),
{
    if a.len() > 0 && b.len() > 0 && c.len() > 0 && a[0] == b[0] && b[0] == c[0] {
        lemma_lex_transitive(a.drop_first(), b.drop_first(), c.drop_first());
    }
}

/// Of two different strings, one comes first.
pub proof fn lemma_lex_total(a: Seq<char>, b: Seq<char>)
    requires
        a != b,
    ensures
        lex_lt(a, b) || lex_lt(b, a),
    decreases a.len(),
{
    if a.len() == 0 && b.len() == 0 {
        assert(a =~= b);
    }
    if a.len() > 0 && b.len() > 0 {
        if a[0] == b[0] {
            if a.drop_first() == b.drop_first() {
                assert(a =~= seq![a[0]] + a.drop_first());
                assert(b =~= seq![b[0]] + b.drop_first());
            }
            lemma_lex_total(a.drop_first(), b.drop_first());
            assert(lex_lt(a, b) == lex_lt(a.drop_first(), b.drop_first()));
            assert(lex_lt(b, a) == lex_lt(b.drop_first(), a.drop_first()));
        } else {
            assert((a[0] as int) != (b[0] as int));
        }
    }
}

/// Whether `x` ranks before `y`: a higher count first; on equal counts, the
/// word that comes later first when `words_desc`, the word that comes earlier
/// first otherwise.
pub open spec fn ranks_before(x: (Seq<char>, nat), y: (Seq<char>, nat), words_desc: bool) -> bool {
    x.1 > y.1 || (x.1 == y.1 && if words_desc {
        lex_lt(y.0, x.0)
    } else {
        lex_lt(x.0, y.0)
    })
}

/// Every entry ranks before all entries after it.
pub open spec fn ranked(s: Seq<(Seq<char>, nat)>, words_desc: bool) -> bool {
    forall|i: int, j: int| 0 <= i < j < s.len() ==> ranks_before(s[i], s[j], words_desc)
}

proof fn lemma_ranks_transitive(
    x: (Seq<char>, nat),
    y: (Seq<char>, nat),
    z: (Seq<char>, nat),
    words_desc: bool,
)
    requires
        ranks_before(x, y, words_desc),
        ranks_before(y, z, words_desc),
    ensures
        ranks_before(x, z, words_desc),
{
    if x.1 == y.1 && y.1 == z.1 {
        if words_desc {
            lemma_lex_transitive(z.0, y.0, x.0);
        } else {
            lemma_lex_transitive(x.0, y.0, z.0);
        }
    }
}

proof fn lemma_ranks_total(x: (Seq<char>, nat), y: (Seq<char>, nat), words_desc: bool)
    requires
        x.0 != y.0,
    ensures
        ranks_before(x, y, words_desc) != ranks_before(y, x, words_desc),
{
    lemma_lex_total(x.0, y.0);
    lemma_lex_asymmetric(x.0, y.0);
}

/// Whether `a` comes before `b` lexicographically.
pub fn lex_less(a: &String, b: &String) -> (r: bool)
    ensures
        r == lex_lt(a@, b@),
{
    let x = chars_of(a.as_str());
    let y = chars_of(b.as_str());
    let mut i: usize = 0;
    assert(x@.subrange(0, x@.len() as int) =~= a@);
    assert(y@.subrange(0, y@.len() as int) =~= b@);
    while i < x.len() && i < y.len() && x[i] == y[i]
        invariant
            i <= x@.len(),
            i <= y@.len(),
            lex_lt(a@, b@) == lex_lt(x@.subrange(i as int, x@.len() as int), y@.subrange(i as int, y@.len() as int)),
        decreases x@.len() - i,
    {
        let ghost xs = x@.subrange(i as int, x@.len() as int);
        let ghost ys = y@.subrange(i as int, y@.len() as int);
        assert(xs.drop_first() =~= x@.subrange(i + 1, x@.len() as int));
        assert(ys.drop_first() =~= y@.subrange(i + 1, y@.len() as int));
        i = i + 1;
    }
    let ghost xs = x@.subrange(i as int, x@.len() as int);
    let ghost ys = y@.subrange(i as int, y@.len() as int);
    if i == x.len() {
        i < y.len()
    } else if i == y.len() {
        false
    } else {
        let c = x[i];
        let d = y[i];
        assert(xs[0] == c && ys[0] == d);
        c < d
    }
}

/// Whether `x` ranks before `y`.
fn ranks_before_fn(x: &(String, usize), y: &(String, usize), words_desc: bool) -> (r: bool)
    ensures
        r == ranks_before((x.0@, x.1 as nat), (y.0@, y.1 as nat), words_desc),
{
    if x.1 != y.1 {
        x.1 > y.1
    } else if words_desc {
        lex_less(&y.0, &x.0)
    } else {
        lex_less(&x.0, &y.0)
    }
}

proof fn lemma_insert_ranked(ov: Seq<(Seq<char>, nat)>, p: int, xv: (Seq<char>, nat), words_desc: bool)
    requires
        0 <= p <= ov.len(),
        ranked(ov, words_desc),
        forall|i: int| 0 <= i < p ==> !ranks_before(xv, ov[i], words_desc),
        p < ov.len() ==> ranks_before(xv, ov[p], words_desc),
        forall|i: int| 0 <= i < ov.len() ==> ov[i].0 != xv.0,
    ensures
        ranked(ov.insert(p, xv), words_desc),
{
    let nv = ov.insert(p, xv);
    ov.insert_ensures(p, xv);
    assert forall|i: int, j: int| 0 <= i < j < nv.len() implies ranks_before(
        nv[i],
        nv[j],
        words_desc,
    ) by {
        if j < p {
        } else if j == p {
            lemma_ranks_total(xv, ov[i], words_desc);
        } else if i == p {
            if j - 1 > p {
                assert(ranks_before(ov[p], ov[j - 1], words_desc));
                lemma_ranks_transitive(xv, ov[p], ov[j - 1], words_desc);
            }
        } else if i < p {
            assert(nv[j] == ov[j - 1]);
        } else {
            assert(nv[i] == ov[i - 1]);
            assert(nv[j] == ov[j - 1]);
        }
    }
}

proof fn lemma_insert_contains(ov: Seq<(Seq<char>, nat)>, p: int, xv: (Seq<char>, nat))
    requires
        0 <= p <= ov.len(),
    ensures
        forall|e: (Seq<char>, nat)| ov.insert(p, xv).contains(e) <==> (ov.contains(e) || e == xv),
{
    let nv = ov.insert(p, xv);
    ov.insert_ensures(p, xv);
    assert forall|e: (Seq<char>, nat)| nv.contains(e) implies ov.contains(e) || e == xv by {
        let i = choose|i: int| 0 <= i < nv.len() && nv[i] == e;
        if i < p {
            assert(ov[i] == e);
        } else if i > p {
            assert(ov[i - 1] == e);
        }
    }
    assert forall|e: (Seq<char>, nat)| ov.contains(e) || e == xv implies nv.contains(e) by {
        if e == xv {
            assert(nv[p] == e);
        } else {
            let i = choose|i: int| 0 <= i < ov.len() && ov[i] == e;
            if i < p {
                assert(nv[i] == e);
            } else {
                assert(nv[i + 1] == e);
            }
        }
    }
}

/// The entries of `v`, ranked: a permutation of `v` in which every entry
/// ranks before all that follow it.
pub fn sort_ranked(v: Vec<(String, usize)>, words_desc: bool) -> (r: Vec<(String, usize)>)
    requires
        keys_distinct(entry_views(v@)),
    ensures
        r@.len() == v@.len(),
        ranked(entry_views(r@), words_desc),
        forall|e: (Seq<char>, nat)| entry_views(r@).contains(e) <==> entry_views(v@).contains(e),
{
    let ghost ev = entry_views(v@);
    let mut out: Vec<(String, usize)> = Vec::new();
    let mut k: usize = 0;
    while k < v.len()
        invariant
            k <= v@.len(),
            ev == entry_views(v@),
            keys_distinct(ev),
            out@.len() == k,
            ranked(entry_views(out@), words_desc),
            forall|e: (Seq<char>, nat)|
                entry_views(out@).contains(e) <==> ev.subrange(0, k as int).contains(e),
        decreases v@.len() - k,
    {
        let x = &v[k];
        let ghost xv = ev[k as int];
        let ghost ov = entry_views(out@);
        let mut p: usize = 0;
        while p < out.len() && !ranks_before_fn(x, &out[p], words_desc)
            invariant
                p <= out@.len(),
                ov == entry_views(out@),
                xv == (x.0@, x.1 as nat),
                forall|i: int| 0 <= i < p ==> !ranks_before(xv, ov[i], words_desc),
            decreases out@.len() - p,
        {
            p = p + 1;
        }
        // The word of `x` differs from every word placed so far.
        assert forall|i: int| 0 <= i < ov.len() implies ov[i].0 != xv.0 by {
            assert(ov.contains(ov[i]));
            assert(ev.subrange(0, k as int).contains(ov[i]));
            let m = choose|m: int| 0 <= m < k && ev.subrange(0, k as int)[m] == ov[i];
            assert(ev[m] == ov[i]);
        }
        let item = (x.0.clone(), x.1);
        out.insert(p, item);
        let ghost nv = entry_views(out@);
        assert(nv =~= ov.insert(p as int, xv));
        proof {
            lemma_insert_ranked(ov, p as int, xv, words_desc);
            lemma_insert_contains(ov, p as int, xv);
            let ghost sk = ev.subrange(0, k as int);
            assert(ev.subrange(0, k + 1) =~= sk.push(xv));
            assert forall|e: (Seq<char>, nat)| nv.contains(e) <==> sk.push(xv).contains(e) by {
                vstd::seq_lib::lemma_seq_contains_after_push(sk, xv, e);
                assert(ov.contains(e) <==> sk.contains(e));
                assert(nv.contains(e) <==> (ov.contains(e) || e == xv));
            }
        }
        k = k + 1;
    }
    assert(ev.subrange(0, k as int) =~= ev);
    out
}

/// The `k` highest-ranked words of a table with their counts: a higher count
/// first and, among equal counts, the word that comes later first. All the
/// words when the table holds `k` or fewer.
pub fn top_terms(table: &TermFreq, k: usize) -> (r: Vec<(String, usize)>)
    requires
        table.wf(),
    ensures
        r@.len() == if k < table@.len() { k as nat } else { table@.len() },
        ranked(entry_views(r@), true),
        forall|i: int|
            0 <= i < r@.len() ==> table@.contains_key(#[trigger] entry_views(r@)[i].0)
                && table@[entry_views(r@)[i].0] == entry_views(r@)[i].1,
        forall|w: Seq<char>|
            #[trigger] table@.contains_key(w) ==> (exists|i: int|
                0 <= i < r@.len() && entry_views(r@)[i].0 == w) || (forall|i: int|
                0 <= i < r@.len() ==> ranks_before(entry_views(r@)[i], (w, table@[w]), true)),
{
    proof {
        table.lemma_view();
    }
    let all = table.to_vec();
    let mut sorted = sort_ranked(all, true);
    let ghost sv = entry_views(sorted@);
    let ghost ev = table.entries_view();
    sorted.truncate(k);
    let ghost rv = entry_views(sorted@);
    assert(rv =~= sv.subrange(0, rv.len() as int));
    assert forall|i: int| 0 <= i < rv.len() implies table@.contains_key(#[trigger] rv[i].0)
        && table@[rv[i].0] == rv[i].1 by {
        assert(sv.contains(sv[i]));
        assert(ev.contains(sv[i]));
        let j = choose|j: int| 0 <= j < ev.len() && ev[j] == sv[i];
        lemma_map_of_index(ev, j);
    }
    assert forall|w: Seq<char>| #[trigger] table@.contains_key(w) implies (exists|i: int|
        0 <= i < rv.len() && rv[i].0 == w) || (forall|i: int|
        0 <= i < rv.len() ==> ranks_before(rv[i], (w, table@[w]), true)) by {
        let j = choose|j: int| 0 <= j < ev.len() && ev[j].0 == w;
        lemma_map_of_index(ev, j);
        assert(ev.contains(ev[j]));
        assert(sv.contains(ev[j]));
        let m = choose|m: int| 0 <= m < sv.len() && sv[m] == ev[j];
        if m < rv.len() {
            assert(rv[m].0 == w);
        } else {
            assert forall|i: int| 0 <= i < rv.len() implies ranks_before(rv[i], (w, table@[w]), true) by {
                assert(sv[i] == rv[i]);
            }
        }
    }
    sorted
}

} // verus!
