//! The ranking engine: a fuzzy similarity score for every entry's title,
//! a threshold filter, and a descending stable order on the results.
//!
//! Results carry the index of the scored entry in corpus order, so that
//! the contracts can speak about which entry a score belongs to.

use vstd::prelude::*;
use crate::model::{DocV, Docs};

verus! {

/// The score that the fuzzy matcher assigns to a (title, query) pair, or
/// `None` when the query is not a subsequence match of the title. The
/// matcher's algorithm is deterministic in its two inputs; this name
/// stands for its result.
pub uninterp spec fn skim_score(title: Seq<char>, query: Seq<char>) -> Option<i64>;

/// Relies on fuzzy_matcher's `SkimMatcherV2` in its case-insensitive
/// configuration: the returned score is a function of the title and the
/// query characters alone, and an empty query matches with score 0.
#[verifier::external_body]
fn fuzzy_score(title: &str, query: &str) -> (r: Option<i64>)
    ensures
        r == skim_score(title@, query@),
        query@.len() == 0 ==> r == Some(0i64),
{
    let matcher = fuzzy_matcher::skim::SkimMatcherV2::default().ignore_case();
    matcher.fuzzy(title, query, false).map(|p| p.0)
}

/// The (index, score) pairs of the first `n` entries that the matcher
/// accepts, in corpus order.
pub open spec fn scored_up_to(docs: Seq<DocV>, q: Seq<char>, n: int) -> Seq<(usize, i64)>
    decreases n,
{
    if n <= 0 {
        Seq::empty()
    } else {
        let pre = scored_up_to(docs, q, n - 1);
        match skim_score(docs[n - 1].meta.title, q) {
            Some(s) => pre.push(((n - 1) as usize, s)),
            None => pre,
        }
    }
}

pub open spec fn scored(docs: Seq<DocV>, q: Seq<char>) -> Seq<(usize, i64)> {
    scored_up_to(docs, q, docs.len() as int)
}

/// Scores are weakly decreasing along the sequence.
pub open spec fn sorted_desc(s: Seq<(usize, i64)>) -> bool {
    forall|k1: int, k2: int| 0 <= k1 < k2 < s.len() ==> (#[trigger] s[k1]).1 >= (#[trigger] s[k2]).1
}

/// Entries with equal scores keep their corpus order: their indices are
/// strictly increasing.
pub open spec fn ties_in_order(s: Seq<(usize, i64)>) -> bool {
    forall|k1: int, k2: int|
        0 <= k1 < k2 < s.len() && (#[trigger] s[k1]).1 == (#[trigger] s[k2]).1 ==> s[k1].0
            < s[k2].0
}

pub open spec fn strictly_increasing(s: Seq<(usize, i64)>) -> bool {
    forall|k1: int, k2: int| 0 <= k1 < k2 < s.len() ==> (#[trigger] s[k1]).0 < (#[trigger] s[k2]).0
}

/// Stable descending insertion: `x` goes after every element whose score
/// is at least as high.
pub open spec fn insert_desc(s: Seq<(usize, i64)>, x: (usize, i64)) -> Seq<(usize, i64)>
    decreases s.len(),
{
    if s.len() == 0 {
        seq![x]
    } else if s[0].1 >= x.1 {
        seq![s[0]] + insert_desc(s.drop_first(), x)
    } else {
        seq![x] + s
    }
}

/// Stable sort by descending score: insert each element, left to right,
/// after its equals.
pub open spec fn sort_desc(s: Seq<(usize, i64)>) -> Seq<(usize, i64)>
    decreases s.len(),
{
    if s.len() == 0 {
        Seq::empty()
    } else {
        insert_desc(sort_desc(s.drop_last()), s.last())
    }
}

/// What `search` returns: the scored entries, sorted, with every score
/// below the threshold dropped.
pub open spec fn search_spec(docs: Seq<DocV>, q: Seq<char>, threshold: i64) -> Seq<(usize, i64)> {
    sort_desc(scored(docs, q)).filter(|p: (usize, i64)| p.1 >= threshold)
}

proof fn lemma_scored_props(docs: Seq<DocV>, q: Seq<char>, n: int)
    requires
        n <= usize::MAX,
    ensures
        strictly_increasing(scored_up_to(docs, q, n)),
        forall|k: int|
            0 <= k < scored_up_to(docs, q, n).len() ==> (#[trigger] scored_up_to(docs, q, n)[k]).0
                < n,
    decreases n,
{
    if n > 0 {
        lemma_scored_props(docs, q, n - 1);
    }
}

/// Inserting at the first position whose score is lower is exactly
/// `insert_desc`.
proof fn lemma_insert_desc_at(s: Seq<(usize, i64)>, x: (usize, i64), j: int)
    requires
        0 <= j <= s.len(),
        forall|l: int| 0 <= l < j ==> (#[trigger] s[l]).1 >= x.1,
        j < s.len() ==> s[j].1 < x.1,
    ensures
        insert_desc(s, x) == s.insert(j, x),
    decreases s.len(),
{
    if j == 0 {
        if s.len() == 0 {
            assert(insert_desc(s, x) =~= s.insert(0, x));
        } else {
            assert(s[0].1 < x.1);
            assert(insert_desc(s, x) =~= s.insert(0, x));
        }
    } else {
        assert(s[0].1 >= x.1);
        let df = s.drop_first();
        lemma_insert_desc_at(df, x, j - 1);
        assert(insert_desc(s, x) =~= s.insert(j, x));
    }
}

proof fn lemma_insert_desc_contains(s: Seq<(usize, i64)>, x: (usize, i64), y: (usize, i64))
    ensures
        insert_desc(s, x).len() == s.len() + 1,
        insert_desc(s, x).contains(y) <==> (y == x || s.contains(y)),
    decreases s.len(),
{
    let r = insert_desc(s, x);
    if s.len() == 0 {
        assert(r =~= seq![x]);
        if r.contains(y) {
            let k = choose|k: int| 0 <= k < r.len() && r[k] == y;
            assert(y == x);
        }
        if y == x {
            assert(r[0] == y);
        }
    } else if s[0].1 >= x.1 {
        let df = s.drop_first();
        lemma_insert_desc_contains(df, x, y);
        let rr = insert_desc(df, x);
        assert(r =~= seq![s[0]] + rr);
        if r.contains(y) {
            let k = choose|k: int| 0 <= k < r.len() && r[k] == y;
            if k == 0 {
                assert(s[0] == y);
                assert(s.contains(y));
            } else {
                assert(rr[k - 1] == y);
                assert(rr.contains(y));
                if y != x {
                    let l = choose|l: int| 0 <= l < df.len() && df[l] == y;
                    assert(s[l + 1] == y);
                    assert(s.contains(y));
                }
            }
        }
        if y == x {
            assert(rr.contains(y));
            let l = choose|l: int| 0 <= l < rr.len() && rr[l] == y;
            assert(r[l + 1] == y);
            assert(r.contains(y));
        }
        if s.contains(y) {
            let k = choose|k: int| 0 <= k < s.len() && s[k] == y;
            if k == 0 {
                assert(r[0] == y);
            } else {
                assert(df[k - 1] == y);
                assert(df.contains(y));
                assert(rr.contains(y));
                let l = choose|l: int| 0 <= l < rr.len() && rr[l] == y;
                assert(r[l + 1] == y);
            }
            assert(r.contains(y));
        }
    } else {
        assert(r =~= seq![x] + s);
        if r.contains(y) {
            let k = choose|k: int| 0 <= k < r.len() && r[k] == y;
            if k == 0 {
            } else {
                assert(s[k - 1] == y);
                assert(s.contains(y));
            }
        }
        if y == x {
            assert(r[0] == y);
        }
        if s.contains(y) {
            let k = choose|k: int| 0 <= k < s.len() && s[k] == y;
            assert(r[k + 1] == y);
        }
    }
}

proof fn lemma_insert_desc_props(s: Seq<(usize, i64)>, x: (usize, i64))
    requires
        sorted_desc(s),
        ties_in_order(s),
        forall|l: int| 0 <= l < s.len() ==> (#[trigger] s[l]).0 < x.0,
    ensures
        sorted_desc(insert_desc(s, x)),
        ties_in_order(insert_desc(s, x)),
    decreases s.len(),
{
    let r = insert_desc(s, x);
    if s.len() == 0 {
        assert(r =~= seq![x]);
    } else if s[0].1 >= x.1 {
        let df = s.drop_first();
        lemma_insert_desc_props(df, x);
        let rr = insert_desc(df, x);
        assert(r =~= seq![s[0]] + rr);
        assert forall|k1: int, k2: int| 0 <= k1 < k2 < r.len() implies (#[trigger] r[k1]).1 >= (
        #[trigger] r[k2]).1 && (r[k1].1 == r[k2].1 ==> r[k1].0 < r[k2].0) by {
            if k1 == 0 {
                assert(r[0] == s[0]);
                assert(rr[k2 - 1] == r[k2]);
                lemma_insert_desc_contains(df, x, rr[k2 - 1]);
                if rr[k2 - 1] == x {
                    assert(s[0].1 >= x.1);
                    if s[0].1 == x.1 {
                        assert(s[0].0 < x.0);
                    }
                } else {
                    assert(df.contains(rr[k2 - 1]));
                    let l = choose|l: int| 0 <= l < df.len() && df[l] == rr[k2 - 1];
                    assert(s[l + 1] == rr[k2 - 1]);
                    assert(s[0].1 >= s[l + 1].1);
                    if s[0].1 == s[l + 1].1 {
                        assert(s[0].0 < s[l + 1].0);
                    }
                }
            } else {
                assert(rr[k1 - 1] == r[k1] && rr[k2 - 1] == r[k2]);
            }
        }
    } else {
        assert(r =~= seq![x] + s);
        assert forall|k1: int, k2: int| 0 <= k1 < k2 < r.len() implies (#[trigger] r[k1]).1 >= (
        #[trigger] r[k2]).1 && (r[k1].1 == r[k2].1 ==> r[k1].0 < r[k2].0) by {
            if k1 == 0 {
                assert(r[0] == x);
                assert(r[k2] == s[k2 - 1]);
                if k2 - 1 > 0 {
                    assert(s[0].1 >= s[k2 - 1].1);
                }
                assert(x.1 > s[k2 - 1].1);
            } else {
                assert(s[k1 - 1] == r[k1] && s[k2 - 1] == r[k2]);
            }
        }
    }
}

proof fn lemma_sort_desc_props(s: Seq<(usize, i64)>)
    requires
        strictly_increasing(s),
    ensures
        sort_desc(s).len() == s.len(),
        sorted_desc(sort_desc(s)),
        ties_in_order(sort_desc(s)),
        forall|y: (usize, i64)| #[trigger] sort_desc(s).contains(y) <==> s.contains(y),
    decreases s.len(),
{
    let r = sort_desc(s);
    if s.len() == 0 {
        assert forall|y: (usize, i64)| #[trigger] r.contains(y) <==> s.contains(y) by {
            if r.contains(y) {
                let k = choose|k: int| 0 <= k < r.len() && r[k] == y;
            }
            if s.contains(y) {
                let k = choose|k: int| 0 <= k < s.len() && s[k] == y;
            }
        }
    } else {
        let dl = s.drop_last();
        let x = s.last();
        lemma_sort_desc_props(dl);
        let rr = sort_desc(dl);
        assert forall|l: int| 0 <= l < rr.len() implies (#[trigger] rr[l]).0 < x.0 by {
            assert(rr.contains(rr[l]));
            assert(dl.contains(rr[l]));
            let k = choose|k: int| 0 <= k < dl.len() && dl[k] == rr[l];
            assert(s[k] == rr[l]);
            assert(s[k].0 < s[s.len() - 1].0);
        }
        lemma_insert_desc_props(rr, x);
        assert forall|y: (usize, i64)| #[trigger] r.contains(y) <==> s.contains(y) by {
            lemma_insert_desc_contains(rr, x, y);
            if r.contains(y) {
                if y == x {
                    assert(s[s.len() - 1] == y);
                    assert(s.contains(y));
                } else {
                    assert(dl.contains(y));
                    let k = choose|k: int| 0 <= k < dl.len() && dl[k] == y;
                    assert(s[k] == y);
                    assert(s.contains(y));
                }
            }
            if s.contains(y) {
                let k = choose|k: int| 0 <= k < s.len() && s[k] == y;
                if k == s.len() - 1 {
                    assert(r.contains(y));
                } else {
                    assert(dl[k] == y);
                    assert(dl.contains(y));
                    assert(r.contains(y));
                }
            }
        }
        lemma_insert_desc_contains(rr, x, x);
    }
}

/// Every element of a filtered sequence is in the unfiltered one and satisfies
/// the predicate.
proof fn lemma_filter_subset(s: Seq<(usize, i64)>, pred: spec_fn((usize, i64)) -> bool, y: (usize, i64))
    requires
        s.filter(pred).contains(y),
    ensures
        s.contains(y),
        pred(y),
    decreases s.len(),
{
    reveal(Seq::filter);
    if s.len() > 0 {
        let dl = s.drop_last();
        if pred(s.last()) {
            if y == s.last() {
                assert(s[s.len() - 1] == y);
            } else {
                let f = s.filter(pred);
                let k = choose|k: int| 0 <= k < f.len() && f[k] == y;
                assert(k < f.len() - 1);
                assert(dl.filter(pred)[k] == y);
                assert(dl.filter(pred).contains(y));
                lemma_filter_subset(dl, pred, y);
                let l = choose|l: int| 0 <= l < dl.len() && dl[l] == y;
                assert(s[l] == y);
            }
        } else {
            lemma_filter_subset(dl, pred, y);
            let l = choose|l: int| 0 <= l < dl.len() && dl[l] == y;
            assert(s[l] == y);
        }
    }
}

/// Raising the threshold never adds a result: every result at threshold
/// `t2` is also a result at any threshold `t1 <= t2`.
pub proof fn lemma_threshold_monotonic(
    docs: Seq<DocV>,
    q: Seq<char>,
    t1: i64,
    t2: i64,
    x: (usize, i64),
)
    requires
        t1 <= t2,
        search_spec(docs, q, t2).contains(x),
    ensures
        search_spec(docs, q, t1).contains(x),
{
    let base = sort_desc(scored(docs, q));
    lemma_filter_subset(base, |p: (usize, i64)| p.1 >= t2, x);
    let k = choose|k: int| 0 <= k < base.len() && base[k] == x;
    base.filter_lemma(|p: (usize, i64)| p.1 >= t1);
}

/// The ranking is a function of the corpus and the query alone, its
/// scores are descending, and entries with equal scores keep their
/// corpus order.
pub proof fn lemma_ranking_stable(docs: Seq<DocV>, q: Seq<char>)
    requires
        docs.len() <= usize::MAX,
    ensures
        sort_desc(scored(docs, q)).len() == scored(docs, q).len(),
        sorted_desc(sort_desc(scored(docs, q))),
        ties_in_order(sort_desc(scored(docs, q))),
{
    lemma_scored_props(docs, q, docs.len() as int);
    lemma_sort_desc_props(scored(docs, q));
}

impl Docs {
    /// The (index, score) pair of every entry the matcher accepts for
    /// `query`, in corpus order.
    pub fn fuzzy_search(&self, query: &str) -> (r: Vec<(usize, i64)>)
        ensures
            r@ == scored(self.deep_view(), query@),
    {
        let mut out: Vec<(usize, i64)> = Vec::new();
        let n = self.0.len();
        for i in 0..n
            invariant
                n == self.0.len(),
                out@ == scored_up_to(self.deep_view(), query@, i as int),
        {
            proof {
                assert(self.deep_view()[i as int] == self.0@[i as int].deep_view());
            }
            match fuzzy_score(self.0[i].meta.title.as_str(), query) {
                Some(s) => {
                    out.push((i, s));
                },
                None => {},
            }
            proof {
                assert(out@ =~= scored_up_to(self.deep_view(), query@, i + 1));
            }
        }
        out
    }

    /// The scored entries sorted by descending score; entries with equal
    /// scores keep their corpus order (stable).
    pub fn fuzzy_search_sorted(&self, query: &str) -> (r: Vec<(usize, i64)>)
        ensures
            r@ == sort_desc(scored(self.deep_view(), query@)),
    {
        let items = self.fuzzy_search(query);
        let mut out: Vec<(usize, i64)> = Vec::new();
        let m = items.len();
        for k in 0..m
            invariant
                m == items@.len(),
                out@ == sort_desc(items@.take(k as int)),
        {
            let x = items[k];
            let mut j: usize = 0;
            while j < out.len() && out[j].1 >= x.1
                invariant
                    j <= out@.len(),
                    forall|l: int| 0 <= l < j ==> (#[trigger] out@[l]).1 >= x.1,
                decreases out@.len() - j,
            {
                j = j + 1;
            }
            let ghost pre = out@;
            out.insert(j, x);
            proof {
                lemma_insert_desc_at(pre, x, j as int);
                assert(items@.take(k + 1).drop_last() =~= items@.take(k as int));
                assert(items@.take(k + 1).last() == items@[k as int]);
                assert(out@ =~= insert_desc(sort_desc(items@.take(k as int)), items@[k as int]));
            }
        }
        proof {
            assert(items@.take(m as int) =~= items@);
        }
        out
    }

    /// Fuzzy search with a score threshold: the ranked results whose
    /// score is at least `threshold`, in ranked order.
    pub fn search(&self, query: &str, threshold: i64) -> (r: Vec<(usize, i64)>)
        ensures
            r@ == search_spec(self.deep_view(), query@, threshold),
    {
        let ranked = self.fuzzy_search_sorted(query);
        let mut out: Vec<(usize, i64)> = Vec::new();
        let m = ranked.len();
        proof {
            reveal_with_fuel(Seq::<(usize, i64)>::filter, 2);
        }
        for k in 0..m
            invariant
                m == ranked@.len(),
                out@ == ranked@.take(k as int).filter(|p: (usize, i64)| p.1 >= threshold),
        {
            let x = ranked[k];
            if x.1 >= threshold {
                out.push(x);
            }
            proof {
                reveal_with_fuel(Seq::<(usize, i64)>::filter, 2);
                let pred = |p: (usize, i64)| p.1 >= threshold;
                assert(ranked@.take(k + 1).drop_last() =~= ranked@.take(k as int));
                assert(ranked@.take(k + 1).last() == ranked@[k as int]);
                assert(out@ =~= ranked@.take(k + 1).filter(pred));
            }
        }
        proof {
            assert(ranked@.take(m as int) =~= ranked@);
        }
        out
    }
}

} // verus!
