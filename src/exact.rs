//! Exact-phrase search.
use crate::gather::{entries_valid, gathered_all, list_views, pages_of, postings, page_set_of};
use crate::index::{find_key, lemma_find_key, lookup, SearchIndex};
use crate::pageset::{ids, intersect_maps, set_intersect_with, set_to_vec, PageSet};
use crate::text::{stems_from_term, term_stems, views};
use vstd::prelude::*;

verus! {

/// How a result scores.
pub enum PageScore {
    /// A phrase match, which scores one.
    Full,
    /// A ranked match, which scores
    /// `weight_sum / 24 / word_count` plus `1 / (d + 1)` for each `d` of
    /// `length_distances`.
    Ranked { weight_sum: u128, word_count: u32, length_distances: Vec<usize> },
}

/// One matching page.
pub struct PageSearchResult {
    pub page: String,
    pub page_index: usize,
    pub page_score: PageScore,
    pub word_locations: Vec<(u8, u32)>,
}

/// Strictly ascending.
pub open spec fn ascending(s: Seq<usize>) -> bool {
    forall|i: int, j: int| 0 <= i < j < s.len() ==> s[i] < s[j]
}

/// Every stem is a dictionary key.
pub open spec fn all_found(idx: &SearchIndex, st: Seq<Seq<char>>) -> bool {
    forall|i: int| 0 <= i < st.len() ==> (#[trigger] find_key(idx.words@, st[i])) is Some
}

/// The dictionary position of each stem.
pub open spec fn found_entries(idx: &SearchIndex, st: Seq<Seq<char>>) -> Seq<usize> {
    st.map_values(|s: Seq<char>| find_key(idx.words@, s)->0 as usize)
}

/// The pages that every entry of `es` names.
pub open spec fn exact_hits(idx: &SearchIndex, es: Seq<usize>) -> Set<usize> {
    Set::new(
        |p: usize| forall|i: int| 0 <= i < es.len() ==> pages_of(postings(idx, #[trigger] es[i])).contains(p),
    )
}

/// `l` holds a pair at position `t`.
pub open spec fn holds_pos(l: Seq<(u8, u32)>, t: int) -> bool {
    exists|q: int| 0 <= q < l.len() && (#[trigger] l[q]).1 as int == t
}

/// List `j` holds position `pos + j`, for every list after the first.
pub open spec fn run_from(ls: Seq<Seq<(u8, u32)>>, pos: int) -> bool {
    forall|j: int| 1 <= j < ls.len() ==> holds_pos(#[trigger] ls[j], pos + j)
}

/// Among the first `n` pairs of the first list, the position of the first
/// that starts a run.
pub open spec fn first_run(ls: Seq<Seq<(u8, u32)>>, n: int) -> Option<u32>
    decreases n,
{
    if n <= 0 {
        None
    } else {
        match first_run(ls, n - 1) {
            Some(p) => Some(p),
            None => if run_from(ls, ls[0][n - 1].1 as int) {
                Some(ls[0][n - 1].1)
            } else {
                None
            },
        }
    }
}

/// `k` consecutive positions from `pos`, each of weight one.
pub open spec fn phrase_locs(pos: u32, k: nat) -> Seq<(u8, u32)> {
    Seq::new(k, |j: int| (1u8, (pos + j) as u32))
}

/// The locations reported for a page whose location lists are `ls`.
pub open spec fn exact_locs(ls: Seq<Seq<(u8, u32)>>) -> Option<Seq<(u8, u32)>> {
    if ls.len() > 1 {
        match first_run(ls, ls[0].len() as int) {
            Some(pos) => Some(phrase_locs(pos, ls.len())),
            None => None,
        }
    } else if ls.len() == 1 {
        Some(ls[0])
    } else {
        None
    }
}

/// The matches among the pages `l`, with their locations, in order.
pub open spec fn exact_matches(idx: &SearchIndex, es: Seq<usize>, l: Seq<usize>) -> Seq<
    (usize, Seq<(u8, u32)>),
>
    decreases l.len(),
{
    if l.len() == 0 {
        Seq::empty()
    } else {
        let prev = exact_matches(idx, es, l.drop_last());
        match exact_locs(gathered_all(idx, es, l.last())) {
            Some(locs) => prev.push((l.last(), locs)),
            None => prev,
        }
    }
}

/// `rs` are the phrase results `m`.
pub open spec fn results_are(
    idx: &SearchIndex,
    rs: Seq<PageSearchResult>,
    m: Seq<(usize, Seq<(u8, u32)>)>,
) -> bool {
    &&& rs.len() == m.len()
    &&& forall|i: int|
        0 <= i < rs.len() ==> {
            &&& (#[trigger] rs[i]).page_index == m[i].0
            &&& m[i].0 < idx.pages@.len()
            &&& rs[i].page@ == idx.pages@[m[i].0 as int].hash@
            &&& rs[i].word_locations@ == m[i].1
            &&& rs[i].page_score is Full
        }
}

/// What a phrase search for the stems `st` returns, with the pages of the
/// filter where there is one.
pub open spec fn exact_outcome(
    idx: &SearchIndex,
    st: Seq<Seq<char>>,
    filter: Option<Set<usize>>,
    r: (Seq<usize>, Seq<PageSearchResult>),
) -> bool {
    if st.len() == 0 || !all_found(idx, st) {
        r.0.len() == 0 && r.1.len() == 0
    } else {
        let es = found_entries(idx, st);
        let hits = exact_hits(idx, es);
        let fin = match filter {
            Some(f) => hits.intersect(f),
            None => hits,
        };
        &&& ascending(r.0)
        &&& r.0.to_set() == hits
        &&& exists|l: Seq<usize>|
            ascending(l) && l.to_set() == fin && results_are(idx, r.1, exact_matches(idx, es, l))
    }
}

proof fn lemma_first_run_stable(ls: Seq<Seq<(u8, u32)>>, m: int, n: int)
    requires
        0 <= m <= n,
        first_run(ls, m) is Some,
    ensures
        first_run(ls, n) == first_run(ls, m),
    decreases n - m,
{
    if n > m {
        lemma_first_run_stable(ls, m, n - 1);
    }
}

proof fn lemma_first_run_is_run(ls: Seq<Seq<(u8, u32)>>, n: int)
    requires
        ls.len() > 0,
        n <= ls[0].len(),
    ensures
        first_run(ls, n) matches Some(p) ==> run_from(ls, p as int),
    decreases n,
{
    if n > 0 {
        lemma_first_run_is_run(ls, n - 1);
    }
}

/// The pages of a filter, where there is one.
pub open spec fn filter_ids(f: Option<PageSet>) -> Option<Set<usize>> {
    match f {
        Some(s) => Some(ids(s)),
        None => None,
    }
}

/// Every page of a posting list of a valid index is a page of it.
pub proof fn lemma_postings_pages(idx: &SearchIndex, e: usize, p: usize)
    requires
        idx.words_valid(),
        e < idx.words@.len(),
        pages_of(postings(idx, e)).contains(p),
    ensures
        p < idx.pages@.len(),
{
    let ps = postings(idx, e);
    let j = choose|j: int| 0 <= j < ps.len() && (#[trigger] ps[j]).page as usize == p;
    assert(idx.words@[e as int].1@[j] == ps[j]);
}

/// Whether `v` holds a pair at position `t`.
fn has_position(v: &Vec<(u8, u32)>, t: u64) -> (r: bool)
    ensures
        r == holds_pos(v@, t as int),
{
    let mut q: usize = 0;
    while q < v.len()
        invariant
            q <= v@.len(),
            forall|k: int| 0 <= k < q ==> (#[trigger] v@[k]).1 as int != t,
        decreases v@.len() - q,
    {
        if v[q].1 as u64 == t {
            return true;
        }
        q += 1;
    }
    false
}

/// The first position of the first list from which every later list holds
/// the next position.
fn phrase_start(ls: &Vec<Vec<(u8, u32)>>) -> (r: Option<u32>)
    requires
        ls@.len() > 1,
    ensures
        r == first_run(list_views(ls@), ls@[0]@.len() as int),
{
    let ghost lv = list_views(ls@);
    let first = &ls[0];
    let mut a: usize = 0;
    while a < first.len()
        invariant
            a <= first@.len(),
            lv == list_views(ls@),
            ls@.len() > 1,
            first@ == lv[0],
            first_run(lv, a as int) is None,
        decreases first@.len() - a,
    {
        let pos = first[a].1;
        let mut j: usize = 1;
        let mut ok = true;
        while j < ls.len()
            invariant
                1 <= j <= ls@.len(),
                lv == list_views(ls@),
                ok == forall|k: int| 1 <= k < j ==> holds_pos(#[trigger] lv[k], pos + k),
            decreases ls@.len() - j,
        {
            proof {
                assert(lv[j as int] == ls@[j as int]@);
            }
            let t: u64 = if j as u64 <= 0xffff_ffff {
                pos as u64 + j as u64
            } else {
                u64::MAX
            };
            let found = has_position(&ls[j], t);
            proof {
                if t == u64::MAX && !(j as u64 <= 0xffff_ffff) {
                    assert(!holds_pos(lv[j as int], pos + j));
                    assert(!holds_pos(lv[j as int], t as int));
                }
            }
            if !found {
                ok = false;
            }
            j += 1;
        }
        if ok {
            proof {
                assert(run_from(lv, pos as int));
                assert(first_run(lv, a as int + 1) == Some(pos));
                lemma_first_run_stable(lv, a as int + 1, first@.len() as int);
            }
            return Some(pos);
        }
        a += 1;
    }
    None
}

/// `k` consecutive positions from `pos`, each of weight one.
fn phrase_locations(pos: u32, k: usize) -> (r: Vec<(u8, u32)>)
    requires
        pos + k <= u32::MAX + 1,
    ensures
        r@ == phrase_locs(pos, k as nat),
{
    let mut out: Vec<(u8, u32)> = Vec::new();
    let mut j: usize = 0;
    while j < k
        invariant
            j <= k,
            pos + k <= u32::MAX + 1,
            out@ == phrase_locs(pos, j as nat),
        decreases k - j,
    {
        out.push((1u8, pos + j as u32));
        j += 1;
        proof {
            assert(out@ =~= phrase_locs(pos, j as nat));
        }
    }
    out
}

impl SearchIndex {
    /// Phrase search for the stems `stems`: no result where there is no stem
    /// or a stem is not in the dictionary; else the pages that hold every
    /// stem (ascending), and, among those in the filter, the pages where the
    /// stems stand at consecutive positions, with those positions.
    pub fn exact_stems(&self, stems: &Vec<String>, filter_results: Option<PageSet>) -> (r: (
        Vec<usize>,
        Vec<PageSearchResult>,
    ))
        requires
            self.words_valid(),
        ensures
            exact_outcome(self, views(stems@), filter_ids(filter_results), (r.0@, r.1@)),
    {
        let ghost st = views(stems@);
        if stems.len() == 0 {
            return (Vec::new(), Vec::new());
        }
        let mut es: Vec<usize> = Vec::new();
        let mut maps: Vec<PageSet> = Vec::new();
        let mut i: usize = 0;
        while i < stems.len()
            invariant
                i <= stems@.len(),
                st == views(stems@),
                es@ == found_entries(self, st.subrange(0, i as int)),
                all_found(self, st.subrange(0, i as int)),
                maps@.len() == i,
                es@.len() == i,
                entries_valid(self, es@),
                forall|k: int| 0 <= k < i ==> ids(#[trigger] maps@[k]) == pages_of(postings(self, es@[k])),
            decreases stems@.len() - i,
        {
            proof {
                assert(st[i as int] == stems@[i as int]@);
            }
            match lookup(&self.words, &stems[i]) {
                Some(e) => {
                    proof {
                        lemma_find_key(self.words@, st[i as int]);
                    }
                    let m = page_set_of(&self.words[e].1);
                    es.push(e);
                    maps.push(m);
                    proof {
                        let sub = st.subrange(0, i as int + 1);
                        assert(es@ =~= found_entries(self, sub));
                        assert forall|k: int| 0 <= k < sub.len() implies (#[trigger] find_key(self.words@, sub[k])) is Some by {
                            if k < i {
                                assert(sub[k] == st.subrange(0, i as int)[k]);
                            }
                        }
                    }
                },
                None => {
                    proof {
                        assert(find_key(self.words@, st[i as int]) is None);
                    }
                    return (Vec::new(), Vec::new());
                },
            }
            i += 1;
        }
        proof {
            assert(st.subrange(0, i as int) =~= st);
        }
        let ghost es_v = es@;
        let ghost hits_s = exact_hits(self, es_v);
        let ghost maps_v = maps@;
        let hits = match intersect_maps(maps) {
            Some(h) => h,
            None => return (Vec::new(), Vec::new()),
        };
        proof {
            assert forall|p: usize| ids(hits).contains(p) <==> hits_s.contains(p) by {
                if ids(hits).contains(p) {
                    assert forall|k: int| 0 <= k < es_v.len() implies pages_of(postings(self, #[trigger] es_v[k])).contains(p) by {
                        assert(ids(maps_v[k]).contains(p));
                    }
                }
                if hits_s.contains(p) {
                    assert forall|k: int| 0 <= k < maps_v.len() implies ids(#[trigger] maps_v[k]).contains(p) by {
                        assert(pages_of(postings(self, es_v[k])).contains(p));
                    }
                }
            }
            assert(ids(hits) =~= hits_s);
        }
        let unfiltered = set_to_vec(&hits);
        let mut fin = hits;
        match filter_results {
            Some(f) => set_intersect_with(&mut fin, &f),
            None => {},
        }
        let l = set_to_vec(&fin);
        let mut out: Vec<PageSearchResult> = Vec::new();
        let mut k: usize = 0;
        while k < l.len()
            invariant
                k <= l@.len(),
                es@ == es_v,
                es@.len() > 0,
                entries_valid(self, es@),
                self.words_valid(),
                l@.to_set() == ids(fin),
                ids(fin).subset_of(hits_s),
                hits_s == exact_hits(self, es_v),
                results_are(self, out@, exact_matches(self, es@, l@.subrange(0, k as int))),
            decreases l@.len() - k,
        {
            let p = l[k];
            proof {
                assert(l@.to_set().contains(p));
                assert(pages_of(postings(self, es@[0])).contains(p));
                lemma_postings_pages(self, es@[0], p);
                assert(l@.subrange(0, k as int + 1).drop_last() =~= l@.subrange(0, k as int));
            }
            let ls = self.gather_locations(&es, p);
            let ghost lv = list_views(ls@);
            let ghost prev = out@;
            if ls.len() > 1 {
                proof {
                    assert(lv[0] == ls@[0]@);
                }
                match phrase_start(&ls) {
                    Some(pos) => {
                        proof {
                            lemma_first_run_is_run(lv, lv[0].len() as int);
                            let last = ls@.len() - 1;
                            assert(holds_pos(lv[last], pos + last));
                            let q = choose|q: int| 0 <= q < lv[last].len() && (#[trigger] lv[last][q]).1 as int == pos + last;
                        }
                        let locs = phrase_locations(pos, ls.len());
                        out.push(
                            PageSearchResult {
                                page: self.pages[p].hash.clone(),
                                page_index: p,
                                page_score: PageScore::Full,
                                word_locations: locs,
                            },
                        );
                    },
                    None => {},
                }
            } else if ls.len() == 1 {
                let mut locs: Vec<(u8, u32)> = Vec::new();
                crate::gather::append_locs(&mut locs, &ls[0]);
                proof {
                    assert(locs@ =~= lv[0]);
                }
                out.push(
                    PageSearchResult {
                        page: self.pages[p].hash.clone(),
                        page_index: p,
                        page_score: PageScore::Full,
                        word_locations: locs,
                    },
                );
            }
            proof {
                let m = exact_matches(self, es@, l@.subrange(0, k as int + 1));
                assert(results_are(self, out@, m)) by {
                    assert forall|j: int| 0 <= j < out@.len() implies {
                        &&& (#[trigger] out@[j]).page_index == m[j].0
                        &&& m[j].0 < self.pages@.len()
                        &&& out@[j].page@ == self.pages@[m[j].0 as int].hash@
                        &&& out@[j].word_locations@ == m[j].1
                        &&& out@[j].page_score is Full
                    } by {
                        if j < prev.len() {
                            assert(out@[j] == prev[j]);
                        }
                    }
                }
            }
            k += 1;
        }
        proof {
            assert(l@.subrange(0, k as int) =~= l@);
            let fin_s = match filter_ids(filter_results) {
                Some(f) => hits_s.intersect(f),
                None => hits_s,
            };
            assert(ids(fin) =~= fin_s);
            assert(ascending(l@) && l@.to_set() == fin_s && results_are(
                self,
                out@,
                exact_matches(self, es_v, l@),
            ));
        }
        (unfiltered, out)
    }

    /// Phrase search: `term` split on spaces and stemmed (by the stemmer that
    /// the stemming crate was built with, where there is one), then as
    /// `exact_stems`.
    pub fn exact_term(&self, term: &str, filter_results: Option<PageSet>) -> (r: (
        Vec<usize>,
        Vec<PageSearchResult>,
    ))
        requires
            self.words_valid(),
        ensures
            exists|stemmed: bool|
                exact_outcome(
                    self,
                    #[trigger] term_stems(term@, stemmed),
                    filter_ids(filter_results),
                    (r.0@, r.1@),
                ),
    {
        let stems = stems_from_term(term);
        let ghost b = choose|b: bool| views(stems@) == term_stems(term@, b);
        self.exact_stems(&stems, filter_results)
    }
}

} // verus!
