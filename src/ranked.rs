//! Fuzzy search: extensions of each stem, set algebra over their pages, and
//! the parts of each page's score.
use crate::exact::{ascending, PageScore, PageSearchResult, filter_ids, lemma_postings_pages};
use crate::gather::{concat_all, concat_locations, entries_valid, gathered_all, pages_of, page_set_of, postings};
use crate::index::SearchIndex;
use crate::locations::{collapse, sort_by_pos, sorted_by_pos, unique_word_locations};
use crate::pageset::{
    common_ids, empty_set, ids, intersect_maps, set_contains, set_insert,
    set_intersect_with, set_to_vec, union_maps, PageSet,
};
use crate::text::{stems_from_term, term_stems, views};
use crate::words::{byte_len, lemma_word_extensions_bounded, word_extensions};
use vstd::prelude::*;

verus! {

/// `|a - b|`.
pub open spec fn distance(a: usize, b: usize) -> usize {
    if a >= b {
        (a - b) as usize
    } else {
        (b - a) as usize
    }
}

/// The dictionary entries that the stems resolve to, stem after stem.
pub open spec fn fuzzy_entries(idx: &SearchIndex, st: Seq<Seq<char>>) -> Seq<usize>
    decreases st.len(),
{
    if st.len() == 0 {
        Seq::empty()
    } else {
        fuzzy_entries(idx, st.drop_last()) + word_extensions(idx.keys(), st.last())
    }
}

/// For each entry of `fuzzy_entries`, how far its word's length is from its stem's.
pub open spec fn fuzzy_distances(idx: &SearchIndex, st: Seq<Seq<char>>) -> Seq<usize>
    decreases st.len(),
{
    if st.len() == 0 {
        Seq::empty()
    } else {
        fuzzy_distances(idx, st.drop_last()) + word_extensions(idx.keys(), st.last()).map_values(
            |e: usize| distance(byte_len(idx.keys()[e as int]), byte_len(st.last())),
        )
    }
}

/// The pages that some extension of stem `t` names.
pub open spec fn stem_pages(idx: &SearchIndex, t: Seq<char>) -> Set<usize> {
    let ext = word_extensions(idx.keys(), t);
    Set::new(
        |p: usize| exists|j: int| 0 <= j < ext.len() && pages_of(postings(idx, #[trigger] ext[j])).contains(p),
    )
}

/// The stem resolves to at least one dictionary entry.
pub open spec fn resolved(idx: &SearchIndex, t: Seq<char>) -> bool {
    word_extensions(idx.keys(), t).len() > 0
}

/// The pages that match the stems before any filter: every page where there
/// is no stem; none where no stem resolves; else the pages that each
/// resolved stem names through one of its entries.
pub open spec fn fuzzy_hits(idx: &SearchIndex, st: Seq<Seq<char>>) -> Set<usize> {
    if st.len() == 0 {
        Set::new(|p: usize| p < idx.pages@.len())
    } else {
        Set::new(
            |p: usize|
                (exists|i: int| 0 <= i < st.len() && resolved(idx, #[trigger] st[i])) && forall|i: int|
                    0 <= i < st.len() && resolved(idx, #[trigger] st[i]) ==> stem_pages(idx, st[i]).contains(p),
        )
    }
}

/// The distances of the entries among the first `n` that name page `p`.
pub open spec fn boosts(idx: &SearchIndex, es: Seq<usize>, ds: Seq<usize>, p: usize, n: int) -> Seq<usize>
    decreases n,
{
    if n <= 0 {
        Seq::empty()
    } else {
        let prev = boosts(idx, es, ds, p, n - 1);
        if pages_of(postings(idx, es[n - 1])).contains(p) {
            prev.push(ds[n - 1])
        } else {
            prev
        }
    }
}

/// The sum of the weights.
pub open spec fn weight_sum(s: Seq<(u8, u32)>) -> nat
    decreases s.len(),
{
    if s.len() == 0 {
        0
    } else {
        weight_sum(s.drop_last()) + s.last().0 as nat
    }
}

/// The locations of page `p` over the entries `es`: gathered, sorted by
/// position, and collapsed.
pub open spec fn page_locations(idx: &SearchIndex, es: Seq<usize>, p: usize) -> Seq<(u8, u32)> {
    collapse(sort_by_pos(concat_all(gathered_all(idx, es, p))))
}

/// `r` is the ranked result for page `p`.
pub open spec fn ranked_result(
    idx: &SearchIndex,
    es: Seq<usize>,
    ds: Seq<usize>,
    p: usize,
    r: PageSearchResult,
) -> bool {
    let locs = page_locations(idx, es, p);
    &&& r.page_index == p
    &&& p < idx.pages@.len()
    &&& r.page@ == idx.pages@[p as int].hash@
    &&& r.word_locations@ == locs
    &&& r.page_score matches PageScore::Ranked { weight_sum: w, word_count: c, length_distances: d }
        && w == weight_sum(locs) && c == idx.pages@[p as int].word_count && d@ == boosts(
        idx,
        es,
        ds,
        p,
        es.len() as int,
    )
}

/// The page of each result.
pub open spec fn result_pages(rs: Seq<PageSearchResult>) -> Seq<usize> {
    rs.map_values(|r: PageSearchResult| r.page_index)
}

/// What a ranked search for the stems `st` returns, with the pages of the
/// filter where there is one (before the results are ordered by score).
pub open spec fn search_outcome(
    idx: &SearchIndex,
    st: Seq<Seq<char>>,
    filter: Option<Set<usize>>,
    r: (Seq<usize>, Seq<PageSearchResult>),
) -> bool {
    let es = fuzzy_entries(idx, st);
    let ds = fuzzy_distances(idx, st);
    let hits = fuzzy_hits(idx, st);
    let fin = match filter {
        Some(f) => hits.intersect(f),
        None => hits,
    };
    &&& ascending(r.0)
    &&& r.0.to_set() == hits
    &&& ascending(result_pages(r.1))
    &&& result_pages(r.1).to_set() == fin
    &&& forall|i: int| 0 <= i < r.1.len() ==> ranked_result(idx, es, ds, r.1[i].page_index, #[trigger] r.1[i])
}

/// Every page that the stems match is a page of a valid index.
pub proof fn lemma_hits_valid(idx: &SearchIndex, st: Seq<Seq<char>>, p: usize)
    requires
        idx.words_valid(),
        fuzzy_hits(idx, st).contains(p),
    ensures
        p < idx.pages@.len(),
{
    if st.len() > 0 {
        let i = choose|i: int| 0 <= i < st.len() && resolved(idx, #[trigger] st[i]);
        assert(stem_pages(idx, st[i]).contains(p));
        let ext = word_extensions(idx.keys(), st[i]);
        let j = choose|j: int| 0 <= j < ext.len() && pages_of(postings(idx, #[trigger] ext[j])).contains(p);
        lemma_word_extensions_bounded(idx.keys(), st[i]);
        assert(ext[j] < idx.keys().len());
        lemma_postings_pages(idx, ext[j], p);
    }
}

/// The sum of the weights of `s`.
fn sum_weights(s: &Vec<(u8, u32)>) -> (r: u128)
    ensures
        r == weight_sum(s@),
{
    let mut total: u128 = 0;
    let mut i: usize = 0;
    while i < s.len()
        invariant
            i <= s@.len(),
            total == weight_sum(s@.subrange(0, i as int)),
            total <= 255 * i,
        decreases s@.len() - i,
    {
        proof {
            assert(s@.subrange(0, i as int + 1).drop_last() =~= s@.subrange(0, i as int));
        }
        total = total + s[i].0 as u128;
        i += 1;
    }
    proof {
        assert(s@.subrange(0, i as int) =~= s@);
    }
    total
}

/// The set of the pages `0..n`.
fn all_pages(n: usize) -> (r: PageSet)
    ensures
        ids(r) == Set::new(|p: usize| p < n),
{
    let mut s = empty_set();
    let mut i: usize = 0;
    while i < n
        invariant
            i <= n,
            ids(s) == Set::new(|p: usize| p < i),
        decreases n - i,
    {
        set_insert(&mut s, i);
        i += 1;
        proof {
            assert(ids(s) =~= Set::new(|p: usize| p < i));
        }
    }
    s
}

impl SearchIndex {
    /// Ranked search for the stems `stems`. Each stem resolves to its
    /// extensions (or longest prefix); a page matches when every resolved stem
    /// names it through one of its words (every page when there is no stem,
    /// none when no stem resolves). The first part is the matching pages,
    /// ascending; the second holds, for each matching page in the filter, in
    /// ascending order, its collapsed locations and the parts of its score.
    pub fn search_stems(&self, stems: &Vec<String>, filter_results: Option<PageSet>) -> (r: (
        Vec<usize>,
        Vec<PageSearchResult>,
    ))
        requires
            self.words_valid(),
        ensures
            search_outcome(self, views(stems@), filter_ids(filter_results), (r.0@, r.1@)),
    {
        let ghost st = views(stems@);
        let mut es: Vec<usize> = Vec::new();
        let mut ds: Vec<usize> = Vec::new();
        let mut lm: Vec<PageSet> = Vec::new();
        let mut maps: Vec<PageSet> = Vec::new();
        let mut i: usize = 0;
        while i < stems.len()
            invariant
                i <= stems@.len(),
                st == views(stems@),
                self.words_valid(),
                es@ == fuzzy_entries(self, st.subrange(0, i as int)),
                ds@ == fuzzy_distances(self, st.subrange(0, i as int)),
                ds@.len() == es@.len(),
                lm@.len() == es@.len(),
                forall|k: int| 0 <= k < lm@.len() ==> ids(#[trigger] lm@[k]) == pages_of(postings(self, es@[k])),
                entries_valid(self, es@),
                maps@.len() == 0 <==> !(exists|k: int| 0 <= k < i && resolved(self, #[trigger] st[k])),
                common_ids(maps@) == Set::new(
                    |p: usize|
                        forall|k: int|
                            0 <= k < i && resolved(self, #[trigger] st[k]) ==> stem_pages(self, st[k]).contains(p),
                ),
            decreases stems@.len() - i,
        {
            let ghost t = st[i as int];
            proof {
                assert(t == stems@[i as int]@);
                lemma_word_extensions_bounded(self.keys(), t);
                assert(st.subrange(0, i as int + 1).drop_last() =~= st.subrange(0, i as int));
            }
            let ext = self.find_word_extensions(stems[i].as_str());
            let tlen = stems[i].as_str().len();
            let ghost es0 = es@;
            let ghost ds0 = ds@;
            let mut word_maps: Vec<PageSet> = Vec::new();
            let mut j: usize = 0;
            while j < ext.len()
                invariant
                    j <= ext@.len(),
                    ext@ == word_extensions(self.keys(), t),
                    forall|k: int| 0 <= k < ext@.len() ==> #[trigger] ext@[k] < self.keys().len(),
                    tlen == byte_len(t),
                    es@ == es0 + ext@.subrange(0, j as int),
                    ds@ == ds0 + ext@.subrange(0, j as int).map_values(
                        |e: usize| distance(byte_len(self.keys()[e as int]), byte_len(t)),
                    ),
                    ds0.len() == es0.len(),
                    lm@.len() == es@.len(),
                    forall|k: int| 0 <= k < lm@.len() ==> ids(#[trigger] lm@[k]) == pages_of(postings(self, es@[k])),
                    entries_valid(self, es@),
                    word_maps@.len() == j,
                    forall|k: int| 0 <= k < j ==> ids(#[trigger] word_maps@[k]) == pages_of(postings(self, ext@[k])),
                decreases ext@.len() - j,
            {
                let e = ext[j];
                proof {
                    assert(self.keys()[e as int] == self.words@[e as int].0@);
                }
                let wlen = self.words[e].0.as_str().len();
                let d = if wlen >= tlen {
                    wlen - tlen
                } else {
                    tlen - wlen
                };
                es.push(e);
                ds.push(d);
                lm.push(page_set_of(&self.words[e].1));
                word_maps.push(page_set_of(&self.words[e].1));
                j += 1;
                proof {
                    assert(es@ =~= es0 + ext@.subrange(0, j as int));
                    assert(ds@ =~= ds0 + ext@.subrange(0, j as int).map_values(
                        |e: usize| distance(byte_len(self.keys()[e as int]), byte_len(t)),
                    ));
                }
            }
            proof {
                assert(ext@.subrange(0, j as int) =~= ext@);
            }
            let ghost wm = word_maps@;
            let ghost before = common_ids(maps@);
            let ghost maps0 = maps@;
            match union_maps(word_maps) {
                Some(u) => {
                    proof {
                        assert(ids(u) =~= stem_pages(self, t)) by {
                            assert forall|p: usize| ids(u).contains(p) implies stem_pages(self, t).contains(p) by {
                                let k = choose|k: int| 0 <= k < wm.len() && ids(#[trigger] wm[k]).contains(p);
                                assert(pages_of(postings(self, ext@[k])).contains(p));
                            }
                            assert forall|p: usize| stem_pages(self, t).contains(p) implies ids(u).contains(p) by {
                                let k = choose|k: int| 0 <= k < ext@.len() && pages_of(postings(self, #[trigger] ext@[k])).contains(p);
                                assert(ids(wm[k]).contains(p));
                            }
                        }
                    }
                    maps.push(u);
                    proof {
                        assert(common_ids(maps@) =~= before.intersect(stem_pages(self, t))) by {
                            assert forall|p: usize| common_ids(maps@).contains(p) implies before.contains(p) by {
                                assert forall|k: int| 0 <= k < maps0.len() implies ids(#[trigger] maps0[k]).contains(p) by {
                                    assert(maps@[k] == maps0[k]);
                                }
                            }
                            assert forall|p: usize| before.contains(p) && stem_pages(self, t).contains(p) implies common_ids(maps@).contains(p) by {
                                assert forall|k: int| 0 <= k < maps@.len() implies ids(#[trigger] maps@[k]).contains(p) by {
                                    if k < maps0.len() {
                                        assert(maps@[k] == maps0[k]);
                                    }
                                }
                            }
                            assert forall|p: usize| common_ids(maps@).contains(p) implies stem_pages(self, t).contains(p) by {
                                assert(ids(maps@[maps0.len() as int]).contains(p));
                            }
                        }
                    }
                },
                None => {},
            }
            i += 1;
            proof {
                assert(common_ids(maps@) =~= Set::new(
                    |p: usize|
                        forall|k: int|
                            0 <= k < i && resolved(self, #[trigger] st[k]) ==> stem_pages(self, st[k]).contains(p),
                ));
                assert(es@ =~= fuzzy_entries(self, st.subrange(0, i as int)));
                assert(ds@ =~= fuzzy_distances(self, st.subrange(0, i as int)));
            }
        }
        proof {
            assert(st.subrange(0, i as int) =~= st);
        }
        let ghost hits_s = fuzzy_hits(self, st);
        let hits = if stems.len() == 0 {
            all_pages(self.pages.len())
        } else {
            if maps.len() == 0 {
                maps.push(empty_set());
            }
            let ghost maps_v = maps@;
            match intersect_maps(maps) {
                Some(h) => {
                    proof {
                        assert(ids(h) =~= hits_s) by {
                            if maps_v.len() == 1 && !(exists|k: int| 0 <= k < st.len() && resolved(self, #[trigger] st[k])) {
                                assert forall|p: usize| !ids(h).contains(p) by {
                                    assert(!ids(maps_v[0]).contains(p));
                                }
                            }
                        }
                    }
                    h
                },
                None => {
                    return (Vec::new(), Vec::new());
                },
            }
        };
        proof {
            assert(ids(hits) =~= hits_s);
        }
        let unfiltered = set_to_vec(&hits);
        let mut fin = hits;
        match filter_results {
            Some(f) => set_intersect_with(&mut fin, &f),
            None => {},
        }
        let l = set_to_vec(&fin);
        let ghost es_v = es@;
        let ghost ds_v = ds@;
        let mut out: Vec<PageSearchResult> = Vec::new();
        let mut k: usize = 0;
        while k < l.len()
            invariant
                k <= l@.len(),
                es@ == es_v,
                ds@ == ds_v,
                es_v == fuzzy_entries(self, st),
                ds_v == fuzzy_distances(self, st),
                ds@.len() == es@.len(),
                lm@.len() == es@.len(),
                forall|q: int| 0 <= q < lm@.len() ==> ids(#[trigger] lm@[q]) == pages_of(postings(self, es@[q])),
                entries_valid(self, es@),
                self.words_valid(),
                l@.to_set() == ids(fin),
                ids(fin).subset_of(hits_s),
                hits_s == fuzzy_hits(self, st),
                out@.len() == k,
                forall|q: int| 0 <= q < k ==> (#[trigger] out@[q]).page_index == l@[q],
                forall|q: int| 0 <= q < k ==> ranked_result(self, es_v, ds_v, l@[q], #[trigger] out@[q]),
            decreases l@.len() - k,
        {
            let p = l[k];
            proof {
                assert(l@.to_set().contains(p));
                lemma_hits_valid(self, st, p);
            }
            let ls = self.gather_locations(&es, p);
            let flat = concat_locations(&ls);
            let sorted = sorted_by_pos(&flat);
            let locs = unique_word_locations(&sorted);
            let w = sum_weights(&locs);
            let mut dl: Vec<usize> = Vec::new();
            let mut q: usize = 0;
            while q < lm.len()
                invariant
                    q <= lm@.len(),
                    lm@.len() == es@.len(),
                    ds@.len() == es@.len(),
                    forall|x: int| 0 <= x < lm@.len() ==> ids(#[trigger] lm@[x]) == pages_of(postings(self, es@[x])),
                    dl@ == boosts(self, es@, ds@, p, q as int),
                decreases lm@.len() - q,
            {
                if set_contains(&lm[q], p) {
                    dl.push(ds[q]);
                }
                q += 1;
            }
            let ghost prev = out@;
            out.push(
                PageSearchResult {
                    page: self.pages[p].hash.clone(),
                    page_index: p,
                    page_score: PageScore::Ranked {
                        weight_sum: w,
                        word_count: self.pages[p].word_count,
                        length_distances: dl,
                    },
                    word_locations: locs,
                },
            );
            proof {
                assert forall|x: int| 0 <= x < k + 1 implies ranked_result(self, es_v, ds_v, l@[x], #[trigger] out@[x]) by {
                    if x < k {
                        assert(out@[x] == prev[x]);
                    }
                }
            }
            k += 1;
        }
        proof {
            assert(result_pages(out@) =~= l@);
            let fin_s = match filter_ids(filter_results) {
                Some(f) => hits_s.intersect(f),
                None => hits_s,
            };
            assert(ids(fin) =~= fin_s);
        }
        (unfiltered, out)
    }

    /// Ranked search: `term` split on spaces and stemmed (by the stemmer that
    /// the stemming crate was built with, where there is one), then as
    /// `search_stems`.
    pub fn search_term(&self, term: &str, filter_results: Option<PageSet>) -> (r: (
        Vec<usize>,
        Vec<PageSearchResult>,
    ))
        requires
            self.words_valid(),
        ensures
            exists|stemmed: bool|
                search_outcome(
                    self,
                    #[trigger] term_stems(term@, stemmed),
                    filter_ids(filter_results),
                    (r.0@, r.1@),
                ),
    {
        let stems = stems_from_term(term);
        let ghost b = choose|b: bool| views(stems@) == term_stems(term@, b);
        self.search_stems(&stems, filter_results)
    }
}

} // verus!
