//! Query tokenisation and stemming.
use pagefind_stem::Stemmer;
use vstd::prelude::*;

verus! {

#[verifier::external_type_specification]
#[verifier::external_body]
pub struct ExStemmer(Stemmer);

/// The stemmer of the algorithm that the stemming crate was built with; only
/// `default_stemmer` makes one.
pub struct DefaultStemmer {
    inner: Stemmer,
}

/// What the default stemmer makes of one word.
pub uninterp spec fn stem_of(w: Seq<char>) -> Seq<char>;

/// Relies on `Stemmer::try_create_default`: the stemmer of the algorithm the
/// stemming crate was built with, none where it was built with none.
#[verifier::external_body]
fn default_stemmer() -> (r: Option<DefaultStemmer>) {
    Stemmer::try_create_default().ok().map(|inner| DefaultStemmer { inner })
}

/// Relies on `Stemmer::stem`: with the default algorithm, the stem depends on
/// the word alone.
#[verifier::external_body]
fn stem_word(st: &DefaultStemmer, w: &str) -> (r: String)
    ensures
        r@ == stem_of(w@),
{
    st.inner.stem(w).into_owned()
}

/// Relies on `str::chars`: the characters of the string, in order.
#[verifier::external_body]
pub(crate) fn chars_of(s: &str) -> (r: Vec<char>)
    ensures
        r@ == s@,
{
    s.chars().collect()
}

/// Relies on `String::push`: appends one character.
#[verifier::external_body]
pub(crate) fn push_char(s: &mut String, c: char)
    ensures
        final(s)@ == old(s)@.push(c),
{
    s.push(c);
}

/// Unicode's White_Space property, which `char::is_whitespace` tests.
pub open spec fn is_white(c: char) -> bool {
    let u = c as u32;
    (0x9 <= u <= 0xd) || u == 0x20 || u == 0x85 || u == 0xa0 || u == 0x1680 || (0x2000 <= u
        <= 0x200a) || u == 0x2028 || u == 0x2029 || u == 0x202f || u == 0x205f || u == 0x3000
}

/// A string that is empty once trimmed.
pub open spec fn is_blank(s: Seq<char>) -> bool {
    forall|i: int| 0 <= i < s.len() ==> is_white(#[trigger] s[i])
}

/// Whether `c` is white space, as `char::is_whitespace` says.
pub fn white_char(c: char) -> (r: bool)
    ensures
        r == is_white(c),
{
    let u = c as u32;
    (0x9 <= u && u <= 0xd) || u == 0x20 || u == 0x85 || u == 0xa0 || u == 0x1680 || (0x2000 <= u
        && u <= 0x200a) || u == 0x2028 || u == 0x2029 || u == 0x202f || u == 0x205f || u == 0x3000
}

/// The pieces of `s` between single spaces, as `str::split(' ')` gives them:
/// an empty string gives one empty piece, and two spaces in a row an empty
/// piece between them.
pub open spec fn split_spaces(s: Seq<char>) -> Seq<Seq<char>>
    decreases s.len(),
{
    if s.len() == 0 {
        seq![Seq::<char>::empty()]
    } else {
        let prev = split_spaces(s.drop_last());
        if s.last() == ' ' {
            prev.push(Seq::<char>::empty())
        } else {
            prev.update(prev.len() - 1, prev.last().push(s.last()))
        }
    }
}

proof fn lemma_split_nonempty(s: Seq<char>)
    ensures
        split_spaces(s).len() >= 1,
    decreases s.len(),
{
    if s.len() > 0 {
        lemma_split_nonempty(s.drop_last());
    }
}

/// The stems of a query: none for a blank query, else each space-separated
/// piece stemmed (`stemmed`) or kept as it is (no stemmer).
pub open spec fn term_stems(t: Seq<char>, stemmed: bool) -> Seq<Seq<char>> {
    if is_blank(t) {
        Seq::empty()
    } else {
        split_spaces(t).map_values(|w: Seq<char>| if stemmed { stem_of(w) } else { w })
    }
}

pub open spec fn views(v: Seq<String>) -> Seq<Seq<char>> {
    v.map_values(|s: String| s@)
}

/// Splits `term` on single spaces.
pub fn split_term(term: &str) -> (r: Vec<String>)
    ensures
        views(r@) == split_spaces(term@),
{
    let cs = chars_of(term);
    let mut out: Vec<String> = Vec::new();
    let mut cur = String::new();
    let mut i: usize = 0;
    while i < cs.len()
        invariant
            i <= cs@.len(),
            cs@ == term@,
            views(out@).push(cur@) == split_spaces(cs@.subrange(0, i as int)),
        decreases cs@.len() - i,
    {
        let c = cs[i];
        proof {
            let p = cs@.subrange(0, i as int + 1);
            assert(p.drop_last() =~= cs@.subrange(0, i as int));
            lemma_split_nonempty(cs@.subrange(0, i as int));
        }
        if c == ' ' {
            let done = cur;
            out.push(done);
            cur = String::new();
            proof {
                assert(views(out@).push(cur@) =~= split_spaces(cs@.subrange(0, i as int + 1)));
            }
        } else {
            push_char(&mut cur, c);
            proof {
                assert(views(out@).push(cur@) =~= split_spaces(cs@.subrange(0, i as int + 1)));
            }
        }
        i += 1;
    }
    out.push(cur);
    proof {
        assert(cs@.subrange(0, i as int) =~= cs@);
        assert(views(out@) =~= split_spaces(term@));
    }
    out
}

/// The stems of `term`, stemmed by `stemmer` where there is one.
fn stems_with(term: &str, stemmer: &Option<DefaultStemmer>) -> (r: Vec<String>)
    ensures
        views(r@) == term_stems(term@, stemmer.is_some()),
{
    let cs = chars_of(term);
    let mut blank = true;
    let mut i: usize = 0;
    while i < cs.len()
        invariant
            i <= cs@.len(),
            cs@ == term@,
            blank == forall|j: int| 0 <= j < i ==> is_white(#[trigger] cs@[j]),
        decreases cs@.len() - i,
    {
        if !white_char(cs[i]) {
            blank = false;
        }
        i += 1;
    }
    if blank {
        return Vec::new();
    }
    let pieces = split_term(term);
    let mut out: Vec<String> = Vec::new();
    let mut k: usize = 0;
    while k < pieces.len()
        invariant
            k <= pieces@.len(),
            views(pieces@) == split_spaces(term@),
            views(out@) == split_spaces(term@).subrange(0, k as int).map_values(
                |w: Seq<char>| if stemmer.is_some() { stem_of(w) } else { w },
            ),
        decreases pieces@.len() - k,
    {
        let s = match stemmer {
            Some(st) => stem_word(st, pieces[k].as_str()),
            None => pieces[k].clone(),
        };
        proof {
            assert(views(pieces@)[k as int] == pieces@[k as int]@);
            assert(s@ == (if stemmer.is_some() {
                stem_of(split_spaces(term@)[k as int])
            } else {
                split_spaces(term@)[k as int]
            }));
        }
        let ghost prev = views(out@);
        out.push(s);
        k += 1;
        proof {
            assert(views(out@) =~= prev.push(s@));
            assert(views(out@) =~= split_spaces(term@).subrange(0, k as int).map_values(
                |w: Seq<char>| if stemmer.is_some() { stem_of(w) } else { w },
            ));
        }
    }
    proof {
        assert(split_spaces(term@).subrange(0, k as int) =~= split_spaces(term@));
        assert(views(out@) =~= term_stems(term@, stemmer.is_some()));
    }
    out
}

/// The stems of `term`: its space-separated pieces, stemmed by the default
/// stemmer where the stemming crate has one, else kept as they are.
pub fn stems_from_term(term: &str) -> (r: Vec<String>)
    ensures
        exists|stemmed: bool| views(r@) == #[trigger] term_stems(term@, stemmed),
{
    let stemmer = default_stemmer();
    let r = stems_with(term, &stemmer);
    proof {
        assert(views(r@) == term_stems(term@, stemmer.is_some()));
    }
    r
}

} // verus!
