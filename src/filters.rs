//! Installing filters: decoded shards and synthetic filters.
use crate::cbor::{entry_views, parse_shard, read_shard};
use crate::index::{assoc_insert, find_key, insert_entry, keys_unique, lemma_find_key, SearchIndex};
use vstd::prelude::*;

verus! {

/// Where key `k` stands in an association list over sequences.
pub open spec fn find_view<U>(m: Seq<(Seq<char>, U)>, k: Seq<char>) -> Option<int>
    decreases m.len(),
{
    if m.len() == 0 {
        None
    } else {
        match find_view(m.drop_last(), k) {
            Some(i) => Some(i),
            None => if m.last().0 == k {
                Some(m.len() - 1)
            } else {
                None
            },
        }
    }
}

/// `m` with `k` bound to `v`: the entry of `k` replaced where there is one,
/// else a new entry at the end.
pub open spec fn put<U>(m: Seq<(Seq<char>, U)>, k: Seq<char>, v: U) -> Seq<(Seq<char>, U)> {
    match find_view(m, k) {
        Some(i) => m.update(i, (k, v)),
        None => m.push((k, v)),
    }
}

/// An association list with its keys as sequences.
pub open spec fn assoc_view<V, U>(m: Seq<(String, V)>, f: spec_fn(V) -> U) -> Seq<(Seq<char>, U)> {
    m.map_values(|e: (String, V)| (e.0@, f(e.1)))
}

pub(crate) proof fn lemma_find_view<V, U>(m: Seq<(String, V)>, f: spec_fn(V) -> U, k: Seq<char>)
    ensures
        find_view(assoc_view(m, f), k) == find_key(m, k),
    decreases m.len(),
{
    if m.len() > 0 {
        lemma_find_view(m.drop_last(), f, k);
        assert(assoc_view(m, f).drop_last() =~= assoc_view(m.drop_last(), f));
    }
}

pub(crate) proof fn lemma_assoc_insert_view<V, U>(m: Seq<(String, V)>, k: String, v: V, f: spec_fn(V) -> U)
    ensures
        assoc_view(assoc_insert(m, k, v), f) == put(assoc_view(m, f), k@, f(v)),
{
    lemma_find_view(m, f, k@);
    lemma_find_key(m, k@);
    assert(assoc_view(assoc_insert(m, k, v), f) =~= put(assoc_view(m, f), k@, f(v)));
}

/// The values of a filter, each bound to its pages, one put after another.
pub open spec fn value_map(es: Seq<(Seq<char>, Seq<u32>)>) -> Seq<(Seq<char>, Seq<u32>)>
    decreases es.len(),
{
    if es.len() == 0 {
        Seq::empty()
    } else {
        put(value_map(es.drop_last()), es.last().0, es.last().1)
    }
}

/// The filters, as sequences.
pub open spec fn filters_view(f: Seq<(String, Vec<(String, Vec<u32>)>)>) -> Seq<
    (Seq<char>, Seq<(Seq<char>, Seq<u32>)>),
> {
    assoc_view(f, |v: Vec<(String, Vec<u32>)>| entry_views(v@))
}

pub(crate) proof fn lemma_entry_views(m: Seq<(String, Vec<u32>)>)
    ensures
        entry_views(m) == assoc_view(m, |v: Vec<u32>| v@),
{
    assert(entry_views(m) =~= assoc_view(m, |v: Vec<u32>| v@));
}

/// Why a filter shard could not be decoded.
#[derive(Debug, PartialEq, Eq)]
pub struct FilterDecodeError {
    /// Where the item that could not be read, or had the wrong shape, starts.
    pub position: usize,
}

/// The values of a filter bound to their pages, later values replacing
/// earlier ones of the same name.
pub fn build_value_map(es: Vec<(String, Vec<u32>)>) -> (r: Vec<(String, Vec<u32>)>)
    ensures
        entry_views(r@) == value_map(entry_views(es@)),
        keys_unique(r@),
{
    let ghost orig = entry_views(es@);
    let mut es = es;
    let mut vm: Vec<(String, Vec<u32>)> = Vec::new();
    let mut i: usize = 0;
    proof {
        assert(entry_views(vm@) =~= value_map(orig.subrange(0, 0)));
        assert(es.len() == es@.len());
        assert(entry_views(es@) =~= orig.subrange(0, 0 + (es@.len() as int)));
    }
    while es.len() > 0
        invariant
            i + es@.len() == orig.len(),
            orig.len() <= usize::MAX,
            entry_views(es@) == orig.subrange(i as int, orig.len() as int),
            entry_views(vm@) == value_map(orig.subrange(0, i as int)),
            keys_unique(vm@),
        decreases es@.len(),
    {
        let ghost rest = entry_views(es@);
        let (k, v) = es.remove(0);
        proof {
            assert(rest[0] == orig[i as int]);
            assert(rest[0] == (k@, v@));
            assert(entry_views(es@) =~= rest.drop_first());
            lemma_entry_views(vm@);
            lemma_assoc_insert_view(vm@, k, v, |v: Vec<u32>| v@);
        }
        insert_entry(&mut vm, k, v);
        proof {
            lemma_entry_views(vm@);
            assert(orig.subrange(0, i as int + 1).drop_last() =~= orig.subrange(0, i as int));
            assert(entry_views(es@) =~= orig.subrange(i as int + 1, orig.len() as int));
        }
        i += 1;
    }
    proof {
        assert(orig.subrange(0, i as int) =~= orig);
    }
    vm
}

impl SearchIndex {
    /// Decodes one filter shard and binds its filter name to its values
    /// (replacing an earlier shard of that name). On error nothing changes,
    /// and the error gives where the shard goes wrong.
    pub fn decode_filter_index_chunk(&mut self, filter_bytes: &[u8]) -> (r: Result<
        (),
        FilterDecodeError,
    >)
        requires
            old(self).filters_valid(),
        ensures
            r is Ok <==> parse_shard(filter_bytes@) is Ok,
            r matches Err(e) ==> parse_shard(filter_bytes@) == Err::<
                (Seq<char>, Seq<(Seq<char>, Seq<u32>)>),
                int,
            >(e.position as int),
            r is Err ==> final(self).filters@ == old(self).filters@,
            final(self).pages@ == old(self).pages@,
            final(self).words@ == old(self).words@,
            final(self).filters_valid(),
            parse_shard(filter_bytes@) matches Ok((name, es)) ==> filters_view(final(self).filters@)
                == put(filters_view(old(self).filters@), name, value_map(es)),
    {
        let (name, es) = match read_shard(filter_bytes) {
            Ok(x) => x,
            Err(p) => return Err(FilterDecodeError { position: p }),
        };
        let vm = build_value_map(es);
        proof {
            lemma_assoc_insert_view(
                self.filters@,
                name,
                vm,
                |v: Vec<(String, Vec<u32>)>| entry_views(v@),
            );
            lemma_find_key(self.filters@, name@);
        }
        let ghost before = self.filters@;
        insert_entry(&mut self.filters, name, vm);
        proof {
            assert forall|i: int| 0 <= i < self.filters@.len() implies keys_unique(
                #[trigger] self.filters@[i].1@,
            ) by {
                if i < before.len() && self.filters@[i] == before[i] {
                } else {
                }
            }
        }
        Ok(())
    }
}

} // verus!
