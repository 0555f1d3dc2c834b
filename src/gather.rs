//! Gathering the word locations of one page from a run of dictionary entries.
use crate::index::{PageWord, SearchIndex};
use crate::pageset::{empty_set, ids, set_insert, PageSet};
use vstd::prelude::*;

verus! {

/// The pages that a posting list names.
pub open spec fn pages_of(ps: Seq<PageWord>) -> Set<usize> {
    Set::new(|p: usize| exists|j: int| 0 <= j < ps.len() && (#[trigger] ps[j]).page as usize == p)
}

/// The location lists of the postings of page `p`, in order.
pub open spec fn gathered(ps: Seq<PageWord>, p: usize) -> Seq<Seq<(u8, u32)>>
    decreases ps.len(),
{
    if ps.len() == 0 {
        Seq::empty()
    } else {
        let prev = gathered(ps.drop_last(), p);
        if ps.last().page as usize == p {
            prev.push(ps.last().locs@)
        } else {
            prev
        }
    }
}

/// The lists of `ls` one after another.
pub open spec fn concat_all(ls: Seq<Seq<(u8, u32)>>) -> Seq<(u8, u32)>
    decreases ls.len(),
{
    if ls.len() == 0 {
        Seq::empty()
    } else {
        concat_all(ls.drop_last()) + ls.last()
    }
}

/// Every position of `es` names a dictionary entry.
pub open spec fn entries_valid(idx: &SearchIndex, es: Seq<usize>) -> bool {
    forall|i: int| 0 <= i < es.len() ==> (#[trigger] es[i]) < idx.words@.len()
}

/// The postings of the dictionary entry at `e`.
pub open spec fn postings(idx: &SearchIndex, e: usize) -> Seq<PageWord> {
    idx.words@[e as int].1@
}

/// The location lists of page `p` over the postings of the entries `es`, in order.
pub open spec fn gathered_all(idx: &SearchIndex, es: Seq<usize>, p: usize) -> Seq<Seq<(u8, u32)>>
    decreases es.len(),
{
    if es.len() == 0 {
        Seq::empty()
    } else {
        gathered_all(idx, es.drop_last(), p) + gathered(postings(idx, es.last()), p)
    }
}

/// The lists of `v`, as sequences.
pub open spec fn list_views(v: Seq<Vec<(u8, u32)>>) -> Seq<Seq<(u8, u32)>> {
    v.map_values(|l: Vec<(u8, u32)>| l@)
}

/// Appends `v` to `out`.
pub fn append_locs(out: &mut Vec<(u8, u32)>, v: &Vec<(u8, u32)>)
    ensures
        final(out)@ == old(out)@ + v@,
{
    let mut i: usize = 0;
    while i < v.len()
        invariant
            i <= v@.len(),
            out@ == old(out)@ + v@.subrange(0, i as int),
        decreases v@.len() - i,
    {
        out.push(v[i]);
        i += 1;
        proof {
            assert(out@ =~= old(out)@ + v@.subrange(0, i as int));
        }
    }
    proof {
        assert(v@.subrange(0, i as int) =~= v@);
    }
}

/// The pages named by a posting list.
pub fn page_set_of(ps: &Vec<PageWord>) -> (r: PageSet)
    ensures
        ids(r) == pages_of(ps@),
{
    let mut s = empty_set();
    let mut j: usize = 0;
    while j < ps.len()
        invariant
            j <= ps@.len(),
            ids(s) == pages_of(ps@.subrange(0, j as int)),
        decreases ps@.len() - j,
    {
        set_insert(&mut s, ps[j].page as usize);
        j += 1;
        proof {
            let sub = ps@.subrange(0, j as int);
            assert(sub[j - 1] == ps@[j - 1]);
            assert(ids(s) =~= pages_of(sub)) by {
                assert forall|p: usize| pages_of(sub).contains(p) implies ids(s).contains(p) by {
                    let k = choose|k: int| 0 <= k < sub.len() && (#[trigger] sub[k]).page as usize == p;
                    if k < j - 1 {
                        assert(ps@.subrange(0, j - 1)[k] == sub[k]);
                    }
                }
                assert forall|p: usize| ids(s).contains(p) implies pages_of(sub).contains(p) by {
                    if p != ps@[j - 1].page as usize {
                        let k = choose|k: int|
                            0 <= k < j - 1 && (#[trigger] ps@.subrange(0, j - 1)[k]).page as usize
                                == p;
                        assert(sub[k] == ps@.subrange(0, j - 1)[k]);
                    }
                }
            }
        }
    }
    proof {
        assert(ps@.subrange(0, j as int) =~= ps@);
    }
    s
}

impl SearchIndex {
    /// The location lists of page `p` over the postings of the entries `es`.
    pub fn gather_locations(&self, es: &Vec<usize>, p: usize) -> (r: Vec<Vec<(u8, u32)>>)
        requires
            entries_valid(self, es@),
        ensures
            list_views(r@) == gathered_all(self, es@, p),
    {
        let mut out: Vec<Vec<(u8, u32)>> = Vec::new();
        let mut i: usize = 0;
        while i < es.len()
            invariant
                i <= es@.len(),
                entries_valid(self, es@),
                list_views(out@) == gathered_all(self, es@.subrange(0, i as int), p),
            decreases es@.len() - i,
        {
            let ps = &self.words[es[i]].1;
            let ghost base = list_views(out@);
            let mut j: usize = 0;
            while j < ps.len()
                invariant
                    j <= ps@.len(),
                    list_views(out@) == base + gathered(ps@.subrange(0, j as int), p),
                decreases ps@.len() - j,
            {
                proof {
                    assert(ps@.subrange(0, j as int + 1).drop_last() =~= ps@.subrange(0, j as int));
                }
                if ps[j].page as usize == p {
                    let mut l: Vec<(u8, u32)> = Vec::new();
                    append_locs(&mut l, &ps[j].locs);
                    let ghost prevout = list_views(out@);
                    out.push(l);
                    proof {
                        assert(list_views(out@) =~= prevout.push(ps@[j as int].locs@));
                        assert(ps@.subrange(0, j as int + 1).last() == ps@[j as int]);
                        assert(list_views(out@) =~= base + gathered(ps@.subrange(0, j as int + 1), p));
                    }
                }
                j += 1;
            }
            proof {
                assert(ps@.subrange(0, j as int) =~= ps@);
                assert(es@.subrange(0, i as int + 1).drop_last() =~= es@.subrange(0, i as int));
            }
            i += 1;
        }
        proof {
            assert(es@.subrange(0, i as int) =~= es@);
        }
        out
    }
}

/// All the lists of `ls`, one after another.
pub fn concat_locations(ls: &Vec<Vec<(u8, u32)>>) -> (r: Vec<(u8, u32)>)
    ensures
        r@ == concat_all(list_views(ls@)),
{
    let mut out: Vec<(u8, u32)> = Vec::new();
    let mut i: usize = 0;
    while i < ls.len()
        invariant
            i <= ls@.len(),
            out@ == concat_all(list_views(ls@.subrange(0, i as int))),
        decreases ls@.len() - i,
    {
        append_locs(&mut out, &ls[i]);
        proof {
            assert(list_views(ls@.subrange(0, i as int + 1)).drop_last() =~= list_views(
                ls@.subrange(0, i as int),
            ));
        }
        i += 1;
    }
    proof {
        assert(ls@.subrange(0, i as int) =~= ls@);
    }
    out
}

} // verus!
