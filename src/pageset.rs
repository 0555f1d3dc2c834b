//! Page-id sets, kept in `bit_set::BitSet`.
use bit_set::BitSet;
use vstd::prelude::*;

verus! {

/// A set of page ids. Verus does not accept a declaration of `BitSet`
/// (its block type is a defaulted parameter), so it is held here, out of
/// sight, and read through `ids`.
#[verifier::external_body]
pub struct PageSet {
    bits: BitSet,
}

/// The page ids that a set holds.
pub uninterp spec fn ids(s: PageSet) -> Set<usize>;

/// Relies on `BitSet::new`: a fresh set is empty.
#[verifier::external_body]
pub(crate) fn empty_set() -> (r: PageSet)
    ensures
        ids(r) == Set::<usize>::empty(),
{
    PageSet { bits: BitSet::new() }
}

/// Relies on `BitSet::insert`: the value is added, the others stay.
#[verifier::external_body]
pub(crate) fn set_insert(s: &mut PageSet, v: usize)
    ensures
        ids(*final(s)) == ids(*old(s)).insert(v),
{
    s.bits.insert(v);
}

/// Relies on `BitSet::contains`: membership.
#[verifier::external_body]
pub(crate) fn set_contains(s: &PageSet, v: usize) -> (r: bool)
    ensures
        r == ids(*s).contains(v),
{
    s.bits.contains(v)
}

/// Relies on `BitSet::intersect_with`: keeps the values that both sets hold.
#[verifier::external_body]
pub(crate) fn set_intersect_with(s: &mut PageSet, o: &PageSet)
    ensures
        ids(*final(s)) == ids(*old(s)).intersect(ids(*o)),
{
    s.bits.intersect_with(&o.bits);
}

/// Relies on `BitSet::union_with`: keeps the values that either set holds.
#[verifier::external_body]
pub(crate) fn set_union_with(s: &mut PageSet, o: &PageSet)
    ensures
        ids(*final(s)) == ids(*old(s)).union(ids(*o)),
{
    s.bits.union_with(&o.bits);
}

/// Relies on `BitSet::iter`: each value once, in ascending order.
#[verifier::external_body]
pub(crate) fn set_to_vec(s: &PageSet) -> (r: Vec<usize>)
    ensures
        r@.to_set() == ids(*s),
        forall|i: int, j: int| 0 <= i < j < r@.len() ==> r@[i] < r@[j],
{
    s.bits.iter().collect()
}

/// The ids that every set of `s` holds.
pub open spec fn common_ids(s: Seq<PageSet>) -> Set<usize> {
    Set::new(|p: usize| forall|i: int| 0 <= i < s.len() ==> ids(#[trigger] s[i]).contains(p))
}

/// The ids that some set of `s` holds.
pub open spec fn any_ids(s: Seq<PageSet>) -> Set<usize> {
    Set::new(|p: usize| exists|i: int| 0 <= i < s.len() && ids(#[trigger] s[i]).contains(p))
}

/// The intersection of all the sets; none where there is no set.
pub fn intersect_maps(maps: Vec<PageSet>) -> (r: Option<PageSet>)
    ensures
        r is None <==> maps@.len() == 0,
        r matches Some(s) ==> ids(s) == common_ids(maps@),
{
    let ghost orig = maps@;
    let mut maps = maps;
    let mut base = match maps.pop() {
        Some(b) => b,
        None => return None,
    };
    while maps.len() > 0
        invariant
            maps@ == orig.subrange(0, maps@.len() as int),
            maps@.len() < orig.len(),
            ids(base) == Set::new(
                |p: usize|
                    forall|i: int| maps@.len() <= i < orig.len() ==> ids(#[trigger] orig[i]).contains(p),
            ),
        decreases maps@.len(),
    {
        let ghost before = maps@.len();
        let m = maps.pop().unwrap();
        proof {
            assert(m == orig[before - 1]);
            assert(maps@ =~= orig.subrange(0, maps@.len() as int));
        }
        set_intersect_with(&mut base, &m);
        proof {
            assert(ids(base) =~= Set::new(
                |p: usize|
                    forall|i: int| maps@.len() <= i < orig.len() ==> ids(#[trigger] orig[i]).contains(p),
            ));
        }
    }
    proof {
        assert(ids(base) =~= common_ids(orig));
    }
    Some(base)
}

/// The union of all the sets; none where there is no set.
pub fn union_maps(maps: Vec<PageSet>) -> (r: Option<PageSet>)
    ensures
        r is None <==> maps@.len() == 0,
        r matches Some(s) ==> ids(s) == any_ids(maps@),
{
    let ghost orig = maps@;
    let mut maps = maps;
    let mut base = match maps.pop() {
        Some(b) => b,
        None => return None,
    };
    while maps.len() > 0
        invariant
            maps@ == orig.subrange(0, maps@.len() as int),
            maps@.len() < orig.len(),
            ids(base) == Set::new(
                |p: usize|
                    exists|i: int| maps@.len() <= i < orig.len() && ids(#[trigger] orig[i]).contains(p),
            ),
        decreases maps@.len(),
    {
        let ghost before = maps@.len();
        let m = maps.pop().unwrap();
        proof {
            assert(m == orig[before - 1]);
            assert(maps@ =~= orig.subrange(0, maps@.len() as int));
        }
        set_union_with(&mut base, &m);
        proof {
            assert(ids(base) =~= Set::new(
                |p: usize|
                    exists|i: int| maps@.len() <= i < orig.len() && ids(#[trigger] orig[i]).contains(p),
            ));
        }
    }
    proof {
        assert(ids(base) =~= any_ids(orig));
    }
    Some(base)
}

impl PageSet {
    /// A set holding exactly the given ids.
    pub fn from_ids(v: &Vec<usize>) -> (r: PageSet)
        ensures
            ids(r) == v@.to_set(),
    {
        let mut s = empty_set();
        let mut i: usize = 0;
        while i < v.len()
            invariant
                i <= v@.len(),
                ids(s) == v@.subrange(0, i as int).to_set(),
            decreases v@.len() - i,
        {
            proof {
                assert(v@.subrange(0, i as int + 1) =~= v@.subrange(0, i as int).push(v@[i as int]));
                v@.subrange(0, i as int).lemma_push_to_set_commute(v@[i as int]);
            }
            set_insert(&mut s, v[i]);
            i += 1;
        }
        proof {
            assert(v@.subrange(0, i as int) =~= v@);
        }
        s
    }

    /// The ids of the set, ascending.
    pub fn to_vec(&self) -> (r: Vec<usize>)
        ensures
            r@.to_set() == ids(*self),
            forall|i: int, j: int| 0 <= i < j < r@.len() ==> r@[i] < r@[j],
    {
        set_to_vec(self)
    }
}

} // verus!
