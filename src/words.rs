//! Dictionary resolution: exact lookup, extensions and the longest prefix.
use crate::index::{keys_of, SearchIndex};
use crate::text::chars_of;
use vstd::prelude::*;

verus! {

/// `a` starts with `b`.
pub open spec fn starts_with(a: Seq<char>, b: Seq<char>) -> bool {
    b.len() <= a.len() && a.subrange(0, b.len() as int) == b
}

/// The UTF-8 length of a string, as `str::len` gives it.
pub open spec fn byte_len(s: Seq<char>) -> usize {
    vstd::utf8::encode_utf8(s).len() as usize
}

/// The positions among the first `n` keys of those that start with `t`, in order.
pub open spec fn extensions(keys: Seq<Seq<char>>, t: Seq<char>, n: int) -> Seq<usize>
    decreases n,
{
    if n <= 0 {
        Seq::empty()
    } else {
        let prev = extensions(keys, t, n - 1);
        if starts_with(keys[n - 1], t) {
            prev.push((n - 1) as usize)
        } else {
            prev
        }
    }
}

/// Among the first `n` keys that do not start with `t`, the first of the
/// longest (in bytes, and non-empty) that `t` starts with.
pub open spec fn longest_prefix(keys: Seq<Seq<char>>, t: Seq<char>, n: int) -> Option<usize>
    decreases n,
{
    if n <= 0 {
        None
    } else {
        let prev = longest_prefix(keys, t, n - 1);
        let k = keys[n - 1];
        let best: usize = match prev {
            Some(i) => byte_len(keys[i as int]),
            None => 0,
        };
        if !starts_with(k, t) && starts_with(t, k) && byte_len(k) > best {
            Some((n - 1) as usize)
        } else {
            prev
        }
    }
}

/// The dictionary entries that a stem resolves to: its extensions, or, where
/// it has none, the longest dictionary word that is a prefix of it.
pub open spec fn word_extensions(keys: Seq<Seq<char>>, t: Seq<char>) -> Seq<usize> {
    let e = extensions(keys, t, keys.len() as int);
    if e.len() == 0 && longest_prefix(keys, t, keys.len() as int) is Some {
        seq![longest_prefix(keys, t, keys.len() as int)->0]
    } else {
        e
    }
}

proof fn lemma_extensions_bounded(keys: Seq<Seq<char>>, t: Seq<char>, n: int)
    requires
        n <= keys.len(),
    ensures
        forall|j: int|
            0 <= j < extensions(keys, t, n).len() ==> #[trigger] extensions(keys, t, n)[j] < n,
        longest_prefix(keys, t, n) matches Some(i) ==> 0 <= i < n,
    decreases n,
{
    if n > 0 {
        lemma_extensions_bounded(keys, t, n - 1);
        let prev = extensions(keys, t, n - 1);
        assert forall|j: int|
            0 <= j < extensions(keys, t, n).len() implies #[trigger] extensions(keys, t, n)[j]
                < n by {
            if j < prev.len() {
                assert(prev[j] < n - 1);
            }
        }
    }
}

proof fn lemma_extensions_ascending(keys: Seq<Seq<char>>, t: Seq<char>, n: int)
    requires
        n <= keys.len(),
        keys.len() <= usize::MAX,
    ensures
        forall|i: int, j: int|
            0 <= i < j < extensions(keys, t, n).len() ==> extensions(keys, t, n)[i] < extensions(
                keys,
                t,
                n,
            )[j],
    decreases n,
{
    if n > 0 {
        lemma_extensions_ascending(keys, t, n - 1);
        lemma_extensions_bounded(keys, t, n - 1);
        let prev = extensions(keys, t, n - 1);
        let e = extensions(keys, t, n);
        if starts_with(keys[n - 1], t) {
            assert(e == prev.push((n - 1) as usize));
            assert forall|i: int, j: int| 0 <= i < j < e.len() implies e[i] < e[j] by {
                if j < prev.len() {
                    assert(e[i] == prev[i] && e[j] == prev[j]);
                } else {
                    assert(e[i] == prev[i]);
                    assert(prev[i] < n - 1);
                    assert(e[j] == n - 1);
                }
            }
        } else {
            assert(e == prev);
        }
    }
}

/// The entries that `word_extensions` gives are distinct dictionary positions.
pub proof fn lemma_word_extensions_distinct(keys: Seq<Seq<char>>, t: Seq<char>)
    requires
        keys.len() <= usize::MAX,
    ensures
        forall|i: int, j: int|
            0 <= i < j < word_extensions(keys, t).len() ==> word_extensions(keys, t)[i]
                != word_extensions(keys, t)[j],
{
    lemma_extensions_ascending(keys, t, keys.len() as int);
}

/// Every entry that `word_extensions` gives is a dictionary position.
pub proof fn lemma_word_extensions_bounded(keys: Seq<Seq<char>>, t: Seq<char>)
    ensures
        forall|j: int|
            0 <= j < word_extensions(keys, t).len() ==> #[trigger] word_extensions(keys, t)[j]
                < keys.len(),
{
    lemma_extensions_bounded(keys, t, keys.len() as int);
}

/// Whether `a` starts with `b`.
pub fn chars_start_with(a: &Vec<char>, b: &Vec<char>) -> (r: bool)
    ensures
        r == starts_with(a@, b@),
{
    if b.len() > a.len() {
        return false;
    }
    let mut i: usize = 0;
    while i < b.len()
        invariant
            b@.len() <= a@.len(),
            i <= b@.len(),
            forall|j: int| 0 <= j < i ==> a@[j] == b@[j],
        decreases b@.len() - i,
    {
        if a[i] != b[i] {
            proof {
                assert(a@.subrange(0, b@.len() as int)[i as int] != b@[i as int]);
            }
            return false;
        }
        i += 1;
    }
    proof {
        assert(a@.subrange(0, b@.len() as int) =~= b@);
    }
    true
}

impl SearchIndex {
    /// The dictionary keys, in dictionary order.
    pub open spec fn keys(&self) -> Seq<Seq<char>> {
        keys_of(self.words@)
    }

    /// The positions in `words` of the entries that `term` resolves to: every
    /// key that starts with `term`, in dictionary order; where there is none,
    /// the longest key that `term` starts with (the first of equal length).
    pub fn find_word_extensions(&self, term: &str) -> (r: Vec<usize>)
        requires
            self.words_valid(),
        ensures
            r@ == word_extensions(self.keys(), term@),
            forall|i: int| 0 <= i < r@.len() ==> #[trigger] r@[i] < self.words@.len(),
            forall|i: int, j: int|
                0 <= i < j < r@.len() ==> self.words@[r@[i] as int].0@ != self.words@[r@[j] as int].0@,
    {
        proof {
            lemma_word_extensions_bounded(self.keys(), term@);
            assert(self.words.len() == self.words@.len());
            assert(self.keys().len() == self.words@.len());
            lemma_word_extensions_distinct(self.keys(), term@);
        }
        let t = chars_of(term);
        let mut ext: Vec<usize> = Vec::new();
        let mut longest: Option<usize> = None;
        let mut longest_len: usize = 0;
        let mut i: usize = 0;
        while i < self.words.len()
            invariant
                i <= self.words@.len(),
                t@ == term@,
                ext@ == extensions(self.keys(), t@, i as int),
                longest == longest_prefix(self.keys(), t@, i as int),
                longest matches Some(j) ==> j < i,
                longest_len == (match longest {
                    Some(j) => byte_len(self.keys()[j as int]),
                    None => 0,
                }),
            decreases self.words@.len() - i,
        {
            proof {
                lemma_extensions_bounded(self.keys(), t@, i as int);
            }
            let key = &self.words[i].0;
            let k = chars_of(key.as_str());
            proof {
                assert(self.keys()[i as int] == k@);
            }
            if chars_start_with(&k, &t) {
                ext.push(i);
            } else if chars_start_with(&t, &k) && key.as_str().len() > longest_len {
                longest = Some(i);
                longest_len = key.as_str().len();
            }
            i += 1;
        }
        if ext.len() == 0 {
            if let Some(j) = longest {
                ext.push(j);
                proof {
                    assert(ext@ =~= seq![j]);
                }
            }
        }
        proof {
            let w = word_extensions(self.keys(), term@);
            assert forall|i: int| 0 <= i < ext@.len() implies #[trigger] ext@[i] < self.words@.len() by {
                assert(w[i] < self.keys().len());
            }
            assert forall|i: int, j: int| 0 <= i < j < ext@.len() implies self.words@[ext@[i] as int].0@
                != self.words@[ext@[j] as int].0@ by {
                assert(w[i] != w[j]);
                assert(w[i] < self.keys().len() && w[j] < self.keys().len());
            }
        }
        ext
    }
}

} // verus!
