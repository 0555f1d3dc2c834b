//! Laws that relate several searches.
use crate::exact::{
    all_found, ascending, exact_hits, exact_locs, exact_matches, exact_outcome, found_entries,
    phrase_locs, results_are, PageScore, PageSearchResult,
};
use crate::gather::{gathered, pages_of, postings};
use crate::index::SearchIndex;
use crate::ranked::{fuzzy_entries, result_pages, search_outcome, weight_sum, boosts};
use crate::gather::{concat_all, gathered_all};
use crate::locations::{collapse, sort_by_pos};
use crate::text::{is_blank, term_stems};
use vstd::prelude::*;

verus! {

/// Two ascending sequences that hold the same values are equal.
pub proof fn lemma_ascending_unique(a: Seq<usize>, b: Seq<usize>)
    requires
        ascending(a),
        ascending(b),
        a.to_set() == b.to_set(),
    ensures
        a == b,
    decreases a.len(),
{
    if a.len() == 0 {
        if b.len() > 0 {
            assert(b.to_set().contains(b[0]));
        }
        assert(a =~= b);
    } else {
        assert(a.to_set().contains(a[0]));
        assert(b.len() > 0);
        let x = a.last();
        let y = b.last();
        assert(b.to_set().contains(x));
        assert(a.to_set().contains(y));
        let i = choose|i: int| 0 <= i < b.len() && b[i] == x;
        let j = choose|j: int| 0 <= j < a.len() && a[j] == y;
        assert(x == y);
        let a2 = a.drop_last();
        let b2 = b.drop_last();
        assert(a2.to_set() =~= b2.to_set()) by {
            assert forall|v: usize| a2.to_set().contains(v) implies b2.to_set().contains(v) by {
                let k = choose|k: int| 0 <= k < a2.len() && a2[k] == v;
                assert(a.to_set().contains(v));
                let m = choose|m: int| 0 <= m < b.len() && b[m] == v;
                assert(m != b.len() - 1);
                assert(b2[m] == v);
            }
            assert forall|v: usize| b2.to_set().contains(v) implies a2.to_set().contains(v) by {
                let k = choose|k: int| 0 <= k < b2.len() && b2[k] == v;
                assert(b.to_set().contains(v));
                let m = choose|m: int| 0 <= m < a.len() && a[m] == v;
                assert(m != a.len() - 1);
                assert(a2[m] == v);
            }
        }
        lemma_ascending_unique(a2, b2);
        assert(a =~= a2.push(x));
        assert(b =~= b2.push(y));
    }
}

/// Phrase search for stems one of which is not in the dictionary returns
/// nothing, whatever the filter.
pub proof fn lemma_exact_no_match(
    idx: &SearchIndex,
    st: Seq<Seq<char>>,
    f: Option<Set<usize>>,
    r: (Seq<usize>, Seq<PageSearchResult>),
    i: int,
)
    requires
        exact_outcome(idx, st, f, r),
        0 <= i < st.len(),
        crate::index::find_key(idx.words@, st[i]) is None,
    ensures
        r.0.len() == 0,
        r.1.len() == 0,
{
}

/// Ranked search with a filter returns exactly the pages that it returns
/// without one and that the filter holds.
pub proof fn lemma_filter_intersection(
    idx: &SearchIndex,
    st: Seq<Seq<char>>,
    f: Set<usize>,
    with_filter: (Seq<usize>, Seq<PageSearchResult>),
    without: (Seq<usize>, Seq<PageSearchResult>),
)
    requires
        search_outcome(idx, st, Some(f), with_filter),
        search_outcome(idx, st, None, without),
    ensures
        result_pages(with_filter.1).to_set() == result_pages(without.1).to_set().intersect(f),
{
}

/// The pages matched before filtering do not depend on the filter, for
/// ranked search.
pub proof fn lemma_search_unfiltered_independent(
    idx: &SearchIndex,
    st: Seq<Seq<char>>,
    f1: Option<Set<usize>>,
    f2: Option<Set<usize>>,
    r1: (Seq<usize>, Seq<PageSearchResult>),
    r2: (Seq<usize>, Seq<PageSearchResult>),
)
    requires
        search_outcome(idx, st, f1, r1),
        search_outcome(idx, st, f2, r2),
    ensures
        r1.0 == r2.0,
{
    lemma_ascending_unique(r1.0, r2.0);
}

/// The pages matched before filtering do not depend on the filter, for
/// phrase search.
pub proof fn lemma_exact_unfiltered_independent(
    idx: &SearchIndex,
    st: Seq<Seq<char>>,
    f1: Option<Set<usize>>,
    f2: Option<Set<usize>>,
    r1: (Seq<usize>, Seq<PageSearchResult>),
    r2: (Seq<usize>, Seq<PageSearchResult>),
)
    requires
        exact_outcome(idx, st, f1, r1),
        exact_outcome(idx, st, f2, r2),
    ensures
        r1.0 == r2.0,
{
    if st.len() != 0 && crate::exact::all_found(idx, st) {
        lemma_ascending_unique(r1.0, r2.0);
    } else {
        assert(r1.0 =~= r2.0);
    }
}

/// The empty query has no stems; ranked search for no stems and no filter
/// returns every page, in order, each with no locations and a score of zero.
pub proof fn lemma_empty_query(
    idx: &SearchIndex,
    stemmed: bool,
    r: (Seq<usize>, Seq<PageSearchResult>),
)
    requires
        search_outcome(idx, Seq::empty(), None, r),
    ensures
        term_stems(Seq::<char>::empty(), stemmed) == Seq::<Seq<char>>::empty(),
        r.0 == Seq::new(idx.pages@.len(), |i: int| i as usize),
        r.1.len() == idx.pages@.len(),
        forall|i: int|
            0 <= i < r.1.len() ==> {
                &&& (#[trigger] r.1[i]).page_index == i
                &&& r.1[i].word_locations@.len() == 0
                &&& r.1[i].page_score matches PageScore::Ranked {
                    weight_sum: w,
                    length_distances: d,
                    ..
                } && w == 0 && d@.len() == 0
            },
{
    assert(is_blank(Seq::<char>::empty()));
    assert(idx.pages.len() == idx.pages@.len());
    let all = Seq::new(idx.pages@.len(), |i: int| i as usize);
    let st = Seq::<Seq<char>>::empty();
    assert(all.to_set() =~= Set::new(|p: usize| p < idx.pages@.len())) by {
        assert forall|p: usize| p < idx.pages@.len() implies all.to_set().contains(p) by {
            assert(all[p as int] == p);
        }
    }
    assert(ascending(all)) by {
        assert forall|i: int, j: int| 0 <= i < j < all.len() implies all[i] < all[j] by {
            assert(all[i] == i as usize && all[j] == j as usize);
        }
    }
    lemma_ascending_unique(r.0, all);
    lemma_ascending_unique(result_pages(r.1), all);
    assert(fuzzy_entries(idx, st) =~= Seq::<usize>::empty());
    assert forall|i: int| 0 <= i < r.1.len() implies {
        &&& (#[trigger] r.1[i]).page_index == i
        &&& r.1[i].word_locations@.len() == 0
        &&& r.1[i].page_score matches PageScore::Ranked {
            weight_sum: w,
            length_distances: d,
            ..
        } && w == 0 && d@.len() == 0
    } by {
        assert(result_pages(r.1)[i] == all[i]);
        let p = r.1[i].page_index;
        assert(crate::ranked::ranked_result(
            idx,
            fuzzy_entries(idx, st),
            crate::ranked::fuzzy_distances(idx, st),
            p,
            r.1[i],
        ));
        assert(result_pages(r.1)[i] == r.1[i].page_index);
        assert(gathered_all(idx, Seq::<usize>::empty(), p) =~= Seq::empty());
        assert(concat_all(Seq::<Seq<(u8, u32)>>::empty()) =~= Seq::empty());
        assert(sort_by_pos(Seq::<(u8, u32)>::empty()) =~= Seq::empty());
        assert(collapse(Seq::<(u8, u32)>::empty()) =~= Seq::empty());
        assert(weight_sum(Seq::<(u8, u32)>::empty()) == 0);
        assert(boosts(idx, Seq::<usize>::empty(), Seq::<usize>::empty(), p, 0) =~= Seq::empty());
    }
}

/// No posting list names a page twice.
pub open spec fn postings_distinct(idx: &SearchIndex) -> bool {
    forall|e: int, a: int, b: int|
        0 <= e < idx.words@.len() && 0 <= a < b < idx.words@[e].1@.len() ==> (
        #[trigger] idx.words@[e].1@[a]).page != (#[trigger] idx.words@[e].1@[b]).page
}

proof fn lemma_gathered_len(ps: Seq<crate::index::PageWord>, p: usize)
    requires
        pages_of(ps).contains(p),
    ensures
        gathered(ps, p).len() >= 1,
        (forall|a: int, b: int| 0 <= a < b < ps.len() ==> ps[a].page != ps[b].page) ==> gathered(
            ps,
            p,
        ).len() == 1,
    decreases ps.len(),
{
    let d = ps.drop_last();
    if ps.last().page as usize == p {
        if forall|a: int, b: int| 0 <= a < b < ps.len() ==> ps[a].page != ps[b].page {
            lemma_gathered_none(d, p);
        }
    } else {
        let j = choose|j: int| 0 <= j < ps.len() && (#[trigger] ps[j]).page as usize == p;
        assert(d[j] == ps[j]);
        lemma_gathered_len(d, p);
    }
}

proof fn lemma_gathered_none(ps: Seq<crate::index::PageWord>, p: usize)
    requires
        forall|j: int| 0 <= j < ps.len() ==> ps[j].page as usize != p,
    ensures
        gathered(ps, p).len() == 0,
    decreases ps.len(),
{
    if ps.len() > 0 {
        lemma_gathered_none(ps.drop_last(), p);
    }
}

proof fn lemma_gathered_all_len(idx: &SearchIndex, es: Seq<usize>, p: usize)
    requires
        exact_hits(idx, es).contains(p),
        forall|i: int| 0 <= i < es.len() ==> (#[trigger] es[i]) < idx.words@.len(),
    ensures
        gathered_all(idx, es, p).len() >= es.len(),
        postings_distinct(idx) ==> gathered_all(idx, es, p).len() == es.len(),
    decreases es.len(),
{
    if es.len() > 0 {
        let d = es.drop_last();
        assert(exact_hits(idx, d).contains(p)) by {
            assert forall|i: int| 0 <= i < d.len() implies pages_of(postings(idx, #[trigger] d[i])).contains(p) by {
                assert(d[i] == es[i]);
            }
        }
        lemma_gathered_all_len(idx, d, p);
        let e = es.last();
        assert(pages_of(postings(idx, es[es.len() - 1])).contains(p));
        lemma_gathered_len(postings(idx, e), p);
        if postings_distinct(idx) {
            assert forall|a: int, b: int| 0 <= a < b < postings(idx, e).len() implies postings(idx, e)[a].page
                != postings(idx, e)[b].page by {
                assert(idx.words@[e as int].1@[a] == postings(idx, e)[a]);
                assert(idx.words@[e as int].1@[b] == postings(idx, e)[b]);
            }
        }
    }
}

proof fn lemma_exact_matches(idx: &SearchIndex, es: Seq<usize>, l: Seq<usize>)
    ensures
        forall|i: int|
            0 <= i < exact_matches(idx, es, l).len() ==> l.contains(
                (#[trigger] exact_matches(idx, es, l)[i]).0,
            ) && exact_locs(gathered_all(idx, es, exact_matches(idx, es, l)[i].0)) == Some(
                exact_matches(idx, es, l)[i].1,
            ),
    decreases l.len(),
{
    if l.len() > 0 {
        let d = l.drop_last();
        lemma_exact_matches(idx, es, d);
        let m = exact_matches(idx, es, l);
        let md = exact_matches(idx, es, d);
        assert forall|i: int| 0 <= i < m.len() implies l.contains((#[trigger] m[i]).0) && exact_locs(
            gathered_all(idx, es, m[i].0),
        ) == Some(m[i].1) by {
            if i < md.len() {
                assert(m[i] == md[i]);
                let k = choose|k: int| 0 <= k < d.len() && d[k] == md[i].0;
                assert(l[k] == d[k]);
            } else {
                assert(l[l.len() - 1] == l.last());
            }
        }
    }
}

/// Each result of a phrase search for two or more stems reports consecutive
/// positions, each of weight one, at least one per stem; exactly one per
/// stem where no posting list names a page twice.
pub proof fn lemma_phrase_contiguity(
    idx: &SearchIndex,
    st: Seq<Seq<char>>,
    f: Option<Set<usize>>,
    r: (Seq<usize>, Seq<PageSearchResult>),
    i: int,
)
    requires
        idx.words_valid(),
        exact_outcome(idx, st, f, r),
        st.len() > 1,
        0 <= i < r.1.len(),
    ensures
        exists|pos: u32, n: nat|
            n >= st.len() && r.1[i].word_locations@ == #[trigger] phrase_locs(pos, n) && (
            postings_distinct(idx) ==> n == st.len()),
{
    let es = found_entries(idx, st);
    let hits = exact_hits(idx, es);
    let fin = match f {
        Some(s) => hits.intersect(s),
        None => hits,
    };
    let l = choose|l: Seq<usize>|
        ascending(l) && l.to_set() == fin && results_are(idx, r.1, exact_matches(idx, es, l));
    let m = exact_matches(idx, es, l);
    lemma_exact_matches(idx, es, l);
    assert(m[i] == m[i]);
    let p = m[i].0;
    assert(l.to_set().contains(p));
    assert forall|k: int| 0 <= k < es.len() implies (#[trigger] es[k]) < idx.words@.len() by {
        lemma_found_entry(idx, st, k);
    }
    lemma_gathered_all_len(idx, es, p);
    let ls = gathered_all(idx, es, p);
    let pos = crate::exact::first_run(ls, ls[0].len() as int)->0;
    assert(r.1[i].word_locations@ == phrase_locs(pos, ls.len()));
}

proof fn lemma_found_entry(idx: &SearchIndex, st: Seq<Seq<char>>, k: int)
    requires
        all_found(idx, st),
        0 <= k < st.len(),
    ensures
        found_entries(idx, st)[k] < idx.words@.len(),
{
    assert(crate::index::find_key(idx.words@, st[k]) is Some);
    crate::index::lemma_find_key(idx.words@, st[k]);
}

/// Every result of a ranked search reports strictly ascending positions, so
/// collapsing its locations again leaves them as they are.
pub proof fn lemma_result_positions_ascending(
    idx: &SearchIndex,
    st: Seq<Seq<char>>,
    f: Option<Set<usize>>,
    r: (Seq<usize>, Seq<PageSearchResult>),
    i: int,
)
    requires
        search_outcome(idx, st, f, r),
        0 <= i < r.1.len(),
    ensures
        crate::locations::strictly_by_position(r.1[i].word_locations@),
        collapse(r.1[i].word_locations@) == r.1[i].word_locations@,
{
    let es = fuzzy_entries(idx, st);
    assert(crate::ranked::ranked_result(idx, es, crate::ranked::fuzzy_distances(idx, st), r.1[i].page_index, r.1[i]));
    crate::locations::lemma_sorted_collapse_ascending(concat_all(gathered_all(idx, es, r.1[i].page_index)));
}

} // verus!
