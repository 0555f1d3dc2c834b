//! The in-memory search index.
use vstd::prelude::*;

verus! {

/// One indexed page.
pub struct Page {
    /// Stable identifier handed back to the host.
    pub hash: String,
    /// Number of words on the page, used in scoring.
    pub word_count: u32,
}

/// One posting: a page and the `(weight, position)` pairs of a word on it.
pub struct PageWord {
    pub page: u32,
    pub locs: Vec<(u8, u32)>,
}

/// The index: pages by dense id, the word dictionary with its postings in
/// dictionary order, and the filters (filter name to value to page ids).
pub struct SearchIndex {
    pub pages: Vec<Page>,
    pub words: Vec<(String, Vec<PageWord>)>,
    pub filters: Vec<(String, Vec<(String, Vec<u32>)>)>,
}

/// The keys of an association list.
pub open spec fn keys_of<V>(m: Seq<(String, V)>) -> Seq<Seq<char>> {
    m.map_values(|e: (String, V)| e.0@)
}

/// No key of an association list occurs twice.
pub open spec fn keys_unique<V>(m: Seq<(String, V)>) -> bool {
    forall|i: int, j: int| 0 <= i < j < m.len() ==> m[i].0@ != m[j].0@
}

/// The index of key `k` in an association list, if it is there.
pub open spec fn find_key<V>(m: Seq<(String, V)>, k: Seq<char>) -> Option<int>
    decreases m.len(),
{
    if m.len() == 0 {
        None
    } else {
        match find_key(m.drop_last(), k) {
            Some(i) => Some(i),
            None => if m.last().0@ == k {
                Some(m.len() - 1)
            } else {
                None
            },
        }
    }
}

pub proof fn lemma_find_key<V>(m: Seq<(String, V)>, k: Seq<char>)
    ensures
        find_key(m, k) matches Some(i) ==> 0 <= i < m.len() && m[i].0@ == k && forall|j: int|
            0 <= j < i ==> m[j].0@ != k,
        find_key(m, k) is None ==> forall|j: int| 0 <= j < m.len() ==> m[j].0@ != k,
    decreases m.len(),
{
    if m.len() > 0 {
        let d = m.drop_last();
        lemma_find_key(d, k);
        assert(forall|j: int| 0 <= j < d.len() ==> d[j] == m[j]);
    }
}

/// `m` with `k` bound to `v`: the entry of `k` replaced where there is one,
/// else a new entry at the end.
pub open spec fn assoc_insert<V>(m: Seq<(String, V)>, k: String, v: V) -> Seq<(String, V)> {
    match find_key(m, k@) {
        Some(i) => m.update(i, (k, v)),
        None => m.push((k, v)),
    }
}

/// Where `k` stands in `m`.
pub fn lookup<V>(m: &Vec<(String, V)>, k: &String) -> (r: Option<usize>)
    ensures
        r matches Some(i) ==> find_key(m@, k@) == Some(i as int),
        r is None ==> find_key(m@, k@) is None,
{
    proof {
        lemma_find_key(m@, k@);
    }
    let mut i: usize = 0;
    while i < m.len()
        invariant
            i <= m@.len(),
            find_key(m@, k@) matches Some(j) ==> j >= i && j < m@.len() && m@[j].0@ == k@,
            forall|j: int| 0 <= j < i ==> m@[j].0@ != k@,
        decreases m@.len() - i,
    {
        if m[i].0 == *k {
            proof {
                lemma_find_key(m@, k@);
            }
            return Some(i);
        }
        i += 1;
    }
    None
}

/// Binds `k` to `v` in `m`, replacing an earlier binding of `k`.
pub fn insert_entry<V>(m: &mut Vec<(String, V)>, k: String, v: V)
    ensures
        final(m)@ == assoc_insert(old(m)@, k, v),
        keys_unique(old(m)@) ==> keys_unique(final(m)@),
{
    proof {
        lemma_find_key(m@, k@);
    }
    match lookup(m, &k) {
        Some(i) => {
            m.set(i, (k, v));
        },
        None => {
            m.push((k, v));
        },
    }
}

impl SearchIndex {
    /// No word is held twice, and every page id that a posting holds names a page.
    pub open spec fn words_valid(&self) -> bool {
        &&& keys_unique(self.words@)
        &&& forall|i: int, j: int|
            0 <= i < self.words@.len() && 0 <= j < self.words@[i].1@.len() ==> (
            #[trigger] self.words@[i].1@[j]).page < self.pages@.len()
    }

    /// The filter names are distinct, and so are the values under each.
    pub open spec fn filters_valid(&self) -> bool {
        &&& keys_unique(self.filters@)
        &&& forall|i: int|
            0 <= i < self.filters@.len() ==> keys_unique(#[trigger] self.filters@[i].1@)
    }

    /// An empty index.
    pub fn new() -> (r: SearchIndex)
        ensures
            r.pages@.len() == 0,
            r.words@.len() == 0,
            r.filters@.len() == 0,
    {
        SearchIndex { pages: Vec::new(), words: Vec::new(), filters: Vec::new() }
    }
}

} // verus!
