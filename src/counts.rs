use crate::tokenizer::{scan_runs, token_flags, token_runs, tokens_of};
use vstd::prelude::*;

verus! {

/// How often `t` occurs in `toks`.
pub open spec fn occurrences(toks: Seq<Seq<char>>, t: Seq<char>) -> nat
    decreases toks.len(),
{
    if toks.len() == 0 {
        0
    } else {
        occurrences(toks.drop_last(), t) + if toks.last() == t {
            1nat
        } else {
            0nat
        }
    }
}

/// The distinct elements of `toks`, in order of first occurrence.
pub open spec fn distinct(toks: Seq<Seq<char>>) -> Seq<Seq<char>>
    decreases toks.len(),
{
    if toks.len() == 0 {
        Seq::empty()
    } else {
        let d = distinct(toks.drop_last());
        if d.contains(toks.last()) {
            d
        } else {
            d.push(toks.last())
        }
    }
}

/// The distinct terms of a text, in order of first occurrence, and beside each
/// the number of its occurrences.
pub struct TermCounts {
    pub terms: Vec<Vec<char>>,
    pub counts: Vec<usize>,
}

impl TermCounts {
    /// `terms` lists the distinct elements of `toks`, and `counts` how often each occurs.
    pub open spec fn counts_tokens(&self, toks: Seq<Seq<char>>) -> bool {
        &&& self.terms@.len() == distinct(toks).len()
        &&& self.counts@.len() == self.terms@.len()
        &&& forall|i: int| 0 <= i < self.terms@.len() ==> #[trigger] self.terms@[i]@ == distinct(toks)[i]
        &&& forall|i: int|
            0 <= i < self.terms@.len() ==> #[trigger] self.counts@[i] == occurrences(toks, distinct(toks)[i])
    }
}

pub proof fn lemma_distinct_no_dups(toks: Seq<Seq<char>>)
    ensures
        distinct(toks).no_duplicates(),
        forall|t: Seq<char>| #[trigger] distinct(toks).contains(t) <==> toks.contains(t),
    decreases toks.len(),
{
    if toks.len() > 0 {
        let pre = toks.drop_last();
        let d = distinct(pre);
        let x = toks.last();
        lemma_distinct_no_dups(pre);
        assert forall|t: Seq<char>| #[trigger] distinct(toks).contains(t) <==> toks.contains(t) by {
            if toks.contains(t) {
                let i = choose|i: int| 0 <= i < toks.len() && toks[i] == t;
                if i < toks.len() - 1 {
                    assert(pre[i] == t);
                    assert(pre.contains(t));
                    assert(d.contains(t));
                    let k = choose|k: int| 0 <= k < d.len() && d[k] == t;
                    if !d.contains(x) {
                        assert(d.push(x)[k] == t);
                    }
                } else {
                    if !d.contains(x) {
                        assert(d.push(x)[d.len() as int] == t);
                    }
                }
            }
            if distinct(toks).contains(t) {
                let k = choose|k: int| 0 <= k < distinct(toks).len() && distinct(toks)[k] == t;
                if k < d.len() {
                    assert(d[k] == t);
                    assert(d.contains(t));
                    assert(pre.contains(t));
                    let i = choose|i: int| 0 <= i < pre.len() && pre[i] == t;
                    assert(toks[i] == t);
                } else {
                    assert(toks[toks.len() - 1] == t);
                }
            }
        }
    }
}

pub proof fn lemma_occurrences_bound(toks: Seq<Seq<char>>, t: Seq<char>)
    ensures
        occurrences(toks, t) <= toks.len(),
        toks.contains(t) <==> occurrences(toks, t) >= 1,
    decreases toks.len(),
{
    if toks.len() > 0 {
        lemma_occurrences_bound(toks.drop_last(), t);
        if toks.drop_last().contains(t) {
            let i = choose|i: int| 0 <= i < toks.drop_last().len() && toks.drop_last()[i] == t;
            assert(toks[i] == t);
        }
        if toks.last() == t {
            assert(toks[toks.len() - 1] == t);
        }
        if toks.contains(t) && toks.last() != t {
            let i = choose|i: int| 0 <= i < toks.len() && toks[i] == t;
            assert(toks.drop_last()[i] == t);
        }
    }
}

pub fn chars_eq(a: &Vec<char>, b: &Vec<char>) -> (r: bool)
    ensures
        r == (a@ == b@),
{
    if a.len() != b.len() {
        return false;
    }
    let mut i: usize = 0;
    while i < a.len()
        invariant
            a@.len() == b@.len(),
            i <= a@.len(),
            forall|j: int| 0 <= j < i ==> a@[j] == b@[j],
        decreases a@.len() - i,
    {
        if a[i] != b[i] {
            return false;
        }
        i = i + 1;
    }
    assert(a@ == b@);
    true
}

pub fn copy_chars(v: &Vec<char>) -> (r: Vec<char>)
    ensures
        r@ == v@,
{
    let mut r: Vec<char> = Vec::new();
    for i in 0..v.len()
        invariant
            r@ == v@.take(i as int),
    {
        r.push(v[i]);
        assert(r@ == v@.take(i + 1));
    }
    assert(v@.take(v@.len() as int) == v@);
    r
}

fn find_term(terms: &Vec<Vec<char>>, x: &Vec<char>) -> (r: Option<usize>)
    ensures
        r matches Some(j) ==> j < terms@.len() && terms@[j as int]@ == x@,
        r is None ==> forall|m: int| 0 <= m < terms@.len() ==> terms@[m]@ != x@,
{
    for j in 0..terms.len()
        invariant
            forall|m: int| 0 <= m < j ==> terms@[m]@ != x@,
    {
        if chars_eq(&terms[j], x) {
            return Some(j);
        }
    }
    None
}

/// Counts the tokens of `toks`: one entry per distinct token, in order of first
/// occurrence, with the number of its occurrences.
pub fn count_terms(toks: &Vec<Vec<char>>) -> (r: TermCounts)
    ensures
        r.counts_tokens(toks.deep_view()),
{
    let mut terms: Vec<Vec<char>> = Vec::new();
    let mut counts: Vec<usize> = Vec::new();
    let mut i: usize = 0;
    while i < toks.len()
        invariant
            i <= toks@.len(),
            (TermCounts { terms, counts }).counts_tokens(toks.deep_view().take(i as int)),
        decreases toks@.len() - i,
    {
        let ghost pre = toks.deep_view().take(i as int);
        let ghost cur = toks.deep_view().take(i + 1);
        let ghost x = toks[i as int]@;
        assert(cur.drop_last() == pre);
        assert(cur.last() == x);
        proof {
            lemma_occurrences_bound(pre, x);
            lemma_distinct_no_dups(pre);
        }
        match find_term(&terms, &toks[i]) {
            Some(j) => {
                let c = counts[j];
                let ghost before = counts@;
                assert(distinct(pre)[j as int] == x);
                assert(c == occurrences(pre, x));
                counts.set(j, c + 1);
                assert forall|m: int| 0 <= m < terms@.len() implies #[trigger] counts@[m]
                    == occurrences(cur, distinct(cur)[m]) by {
                    assert(before[m] == occurrences(pre, distinct(pre)[m]));
                    if m != j {
                        assert(distinct(pre)[m] != distinct(pre)[j as int]);
                    }
                }
                assert(distinct(cur) == distinct(pre));
            },
            None => {
                assert forall|m: int| 0 <= m < distinct(pre).len() implies distinct(pre)[m] != x by {
                    assert(terms@[m]@ == distinct(pre)[m]);
                }
                assert(!distinct(pre).contains(x));
                let ghost before = counts@;
                terms.push(copy_chars(&toks[i]));
                counts.push(1);
                assert(distinct(cur) == distinct(pre).push(x));
                assert forall|m: int| 0 <= m < terms@.len() implies #[trigger] counts@[m]
                    == occurrences(cur, distinct(cur)[m]) by {
                    if m < before.len() {
                        assert(before[m] == occurrences(pre, distinct(pre)[m]));
                        assert(distinct(pre)[m] != x);
                    } else {
                        assert(occurrences(pre, x) == 0);
                    }
                }
            },
        }
        assert forall|m: int| 0 <= m < terms@.len() implies #[trigger] terms@[m]@ == distinct(cur)[m] by {}
        i = i + 1;
    }
    assert(toks.deep_view().take(toks@.len() as int) == toks.deep_view());
    TermCounts { terms, counts }
}

pub proof fn lemma_occurrences_concat(x: Seq<Seq<char>>, y: Seq<Seq<char>>, t: Seq<char>)
    ensures
        occurrences(x + y, t) == occurrences(x, t) + occurrences(y, t),
    decreases y.len(),
{
    if y.len() == 0 {
        assert(x + y == x);
    } else {
        assert((x + y).drop_last() == x + y.drop_last());
        assert((x + y).last() == y.last());
        lemma_occurrences_concat(x, y.drop_last(), t);
    }
}

/// With no element in common, the distinct elements of `x + y` are those of `x`
/// followed by those of `y`.
pub proof fn lemma_distinct_concat(x: Seq<Seq<char>>, y: Seq<Seq<char>>)
    requires
        forall|t: Seq<char>| x.contains(t) ==> !y.contains(t),
    ensures
        distinct(x + y) == distinct(x) + distinct(y),
    decreases y.len(),
{
    if y.len() == 0 {
        assert(x + y == x);
        assert(distinct(x) + distinct(y) == distinct(x));
    } else {
        let yp = y.drop_last();
        let e = y.last();
        assert((x + y).drop_last() == x + yp);
        assert((x + y).last() == e);
        assert forall|t: Seq<char>| x.contains(t) implies !yp.contains(t) by {
            if yp.contains(t) {
                let i = choose|i: int| 0 <= i < yp.len() && yp[i] == t;
                assert(y[i] == t);
            }
        }
        lemma_distinct_concat(x, yp);
        let dx = distinct(x);
        let dy = distinct(yp);
        lemma_distinct_no_dups(x);
        lemma_distinct_no_dups(yp);
        assert(y[y.len() - 1] == e);
        assert(y.contains(e));
        assert(!x.contains(e));
        assert(!dx.contains(e));
        if (dx + dy).contains(e) {
            let i = choose|i: int| 0 <= i < (dx + dy).len() && (dx + dy)[i] == e;
            if i < dx.len() {
                assert(dx[i] == e);
            } else {
                assert(dy[i - dx.len()] == e);
                assert(dy.contains(e));
            }
        }
        if dy.contains(e) {
            let i = choose|i: int| 0 <= i < dy.len() && dy[i] == e;
            assert((dx + dy)[dx.len() + i] == e);
            assert(distinct(x + y) == dx + dy);
        } else {
            assert((dx + dy).push(e) == dx + dy.push(e));
        }
    }
}

/// The terms under which a text is indexed: its distinct tokens, then the empty
/// sentinel term that every document holds once.
pub open spec fn doc_terms(text: Seq<char>) -> Seq<Seq<char>> {
    distinct(tokens_of(text)).push(Seq::empty())
}

/// How often the term `t` counts in `text`: its occurrences, or one for the sentinel.
pub open spec fn term_count(text: Seq<char>, t: Seq<char>) -> nat {
    if t.len() == 0 {
        1
    } else {
        occurrences(tokens_of(text), t)
    }
}

/// The length of a text: its number of tokens.
pub open spec fn token_count(text: Seq<char>) -> nat {
    tokens_of(text).len()
}

impl TermCounts {
    /// `terms` lists `doc_terms(text)` and `counts` the count of each.
    pub open spec fn counts_text(&self, text: Seq<char>) -> bool {
        &&& self.terms@.len() == doc_terms(text).len()
        &&& self.counts@.len() == self.terms@.len()
        &&& forall|i: int| 0 <= i < self.terms@.len() ==> #[trigger] self.terms@[i]@ == doc_terms(text)[i]
        &&& forall|i: int|
            0 <= i < self.terms@.len() ==> #[trigger] self.counts@[i] == term_count(text, doc_terms(text)[i])
    }
}

proof fn lemma_scan_nonempty(s: Seq<char>, f: Seq<bool>)
    ensures
        forall|i: int| 0 <= i < scan_runs(s, f).0.len() ==> #[trigger] scan_runs(s, f).0[i].len() > 0,
    decreases s.len(),
{
    if s.len() > 0 {
        let p = scan_runs(s.drop_last(), f.drop_last());
        lemma_scan_nonempty(s.drop_last(), f.drop_last());
        assert forall|i: int| 0 <= i < scan_runs(s, f).0.len() implies #[trigger] scan_runs(s, f).0[i].len() > 0 by {
            if i < p.0.len() {
                assert(scan_runs(s, f).0[i] == p.0[i]);
            } else {
                assert(scan_runs(s, f).0[i] == p.1);
            }
        }
    }
}

/// Every token is a non-empty run, so no token is the sentinel term.
pub proof fn lemma_tokens_nonempty(s: Seq<char>)
    ensures
        forall|i: int| 0 <= i < tokens_of(s).len() ==> #[trigger] tokens_of(s)[i].len() > 0,
        !tokens_of(s).contains(Seq::empty()),
{
    lemma_scan_nonempty(s, token_flags(s));
    if tokens_of(s).contains(Seq::<char>::empty()) {
        let i = choose|i: int| 0 <= i < tokens_of(s).len() && tokens_of(s)[i] == Seq::<char>::empty();
        assert(tokens_of(s)[i].len() > 0);
    }
}

/// The terms of a text are distinct.
pub proof fn lemma_doc_terms_distinct(text: Seq<char>)
    ensures
        doc_terms(text).no_duplicates(),
        forall|t: Seq<char>| #[trigger] doc_terms(text).contains(t) <==> (t.len() == 0 || tokens_of(text).contains(t)),
{
    let d = distinct(tokens_of(text));
    let e = Seq::<char>::empty();
    lemma_distinct_no_dups(tokens_of(text));
    lemma_tokens_nonempty(text);
    assert(!d.contains(e));
    assert forall|t: Seq<char>| #[trigger] doc_terms(text).contains(t) <==> (t.len() == 0 || tokens_of(text).contains(t)) by {
        if doc_terms(text).contains(t) {
            let k = choose|k: int| 0 <= k < doc_terms(text).len() && doc_terms(text)[k] == t;
            if k < d.len() {
                assert(d[k] == t);
                assert(d.contains(t));
            }
        }
        if t.len() == 0 {
            assert(t == e);
            assert(doc_terms(text)[d.len() as int] == t);
        } else if tokens_of(text).contains(t) {
            assert(d.contains(t));
            let k = choose|k: int| 0 <= k < d.len() && d[k] == t;
            assert(doc_terms(text)[k] == t);
        }
    }
}

/// Tokenizes and counts a text: its terms with their counts, and its token count.
pub fn doc_term_counts(text: &str) -> (r: (TermCounts, usize))
    ensures
        r.0.counts_text(text@),
        r.1 == token_count(text@),
{
    let toks = token_runs(text);
    assert forall|i: int| 0 <= i < toks@.len() implies toks.deep_view()[i] == tokens_of(text@)[i] by {
        assert(toks@[i]@ == tokens_of(text@)[i]);
    }
    assert(toks.deep_view() =~= tokens_of(text@));
    let c = count_terms(&toks);
    let n = toks.len();
    let mut terms = c.terms;
    let mut counts = c.counts;
    proof {
        lemma_tokens_nonempty(text@);
    }
    let ghost d = distinct(tokens_of(text@));
    assert forall|i: int| 0 <= i < d.len() implies d[i].len() > 0 by {
        lemma_distinct_no_dups(tokens_of(text@));
        assert(d.contains(d[i]));
        let k = choose|k: int| 0 <= k < tokens_of(text@).len() && tokens_of(text@)[k] == d[i];
    }
    terms.push(Vec::new());
    counts.push(1);
    let r = TermCounts { terms, counts };
    assert forall|i: int| 0 <= i < r.terms@.len() implies #[trigger] r.counts@[i] == term_count(
        text@,
        doc_terms(text@)[i],
    ) by {
        if i < d.len() {
            assert(doc_terms(text@)[i] == d[i]);
        }
    }
    (r, n)
}

} // verus!
