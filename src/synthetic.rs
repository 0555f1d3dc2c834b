//! Synthetic filters: a JSON object of filter names to a value or a list of
//! values, each of which then tags every page.
use crate::cbor::entry_views;
use crate::filters::{
    filters_view, find_view, lemma_assoc_insert_view, lemma_entry_views, lemma_find_view, put,
};
use crate::index::{insert_entry, keys_unique, lemma_find_key, lookup, SearchIndex};
use microjson::{JSONValue, JSONValueType};
use vstd::prelude::*;

verus! {

/// A member value of a synthetic filter document, as the library reads it.
pub enum JsonItem {
    /// A string, with its text.
    Text(String),
    /// An array: the text of each string item, none for other items.
    List(Vec<Option<String>>),
    /// Any other value.
    Other,
}

/// A member value, as sequences.
pub enum JsonItemView {
    Text(Seq<char>),
    List(Seq<Option<Seq<char>>>),
    Other,
}

/// The members of a JSON document whose top level is an object, in order,
/// each with its value read as a `JsonItem`; none for a malformed document or
/// one whose top level is not an object.
pub uninterp spec fn json_members_of(doc: Seq<char>) -> Option<Seq<(Seq<char>, JsonItemView)>>;

/// The view of an optional text.
pub open spec fn opt_view(o: Option<String>) -> Option<Seq<char>> {
    match o {
        Some(t) => Some(t@),
        None => None,
    }
}

/// The view of a member value.
pub open spec fn item_view(i: JsonItem) -> JsonItemView {
    match i {
        JsonItem::Text(t) => JsonItemView::Text(t@),
        JsonItem::List(l) => JsonItemView::List(l@.map_values(|o: Option<String>| opt_view(o))),
        JsonItem::Other => JsonItemView::Other,
    }
}

/// The view of the members.
pub open spec fn member_views(m: Seq<(String, JsonItem)>) -> Seq<(Seq<char>, JsonItemView)> {
    m.map_values(|e: (String, JsonItem)| (e.0@, item_view(e.1)))
}

/// The lexical state after a character: inside a string, after a backslash
/// in a string, bracket depth, top-level value closed, and no fault yet.
pub type LexState = (bool, bool, int, bool, bool);

/// The state after character `i` of `s`. Outside strings, `t`, `f` and `n`
/// must begin `true`, `false` and `null`; once the top-level bracket closes,
/// only white space may follow.
pub open spec fn lex_step(st: LexState, s: Seq<char>, i: int) -> LexState {
    let (in_str, esc, depth, closed, ok) = st;
    let c = s[i];
    if !ok {
        st
    } else if closed {
        (in_str, esc, depth, closed, crate::text::is_white(c))
    } else if in_str {
        if esc {
            (true, false, depth, false, true)
        } else if c == '\\' {
            (true, true, depth, false, true)
        } else if c == '"' {
            (false, false, depth, false, true)
        } else {
            st
        }
    } else if c == '"' {
        (true, false, depth, false, true)
    } else if c == '{' || c == '[' {
        (false, false, depth + 1, false, true)
    } else if c == '}' || c == ']' {
        if depth > 0 {
            (false, false, depth - 1, depth == 1, true)
        } else {
            st
        }
    } else if c == 't' {
        (false, false, depth, false, i + 3 < s.len() && s[i + 1] == 'r' && s[i + 2] == 'u' && s[i + 3] == 'e')
    } else if c == 'f' {
        (false, false, depth, false, i + 4 < s.len() && s[i + 1] == 'a' && s[i + 2] == 'l' && s[i + 3] == 's' && s[i + 4] == 'e')
    } else if c == 'n' {
        (false, false, depth, false, i + 3 < s.len() && s[i + 1] == 'u' && s[i + 2] == 'l' && s[i + 3] == 'l')
    } else {
        st
    }
}

/// The lexical state after the first `n` characters of `s`.
pub open spec fn lex(s: Seq<char>, n: int) -> LexState
    decreases n,
{
    if n <= 0 {
        (false, false, 0, false, true)
    } else {
        lex_step(lex(s, n - 1), s, n - 1)
    }
}

/// A document that the JSON reader takes without fault: outside strings,
/// every `t`, `f` and `n` begins a whole `true`, `false` or `null`, and
/// nothing but white space follows the top-level value's closing bracket.
pub open spec fn json_safe(s: Seq<char>) -> bool {
    lex(s, s.len() as int).4
}

/// Whether the document is safe for the JSON reader.
pub fn json_safe_doc(doc: &str) -> (r: bool)
    ensures
        r == json_safe(doc@),
{
    let cs = crate::text::chars_of(doc);
    let n = cs.len();
    let mut in_str = false;
    let mut esc = false;
    let mut depth: usize = 0;
    let mut closed = false;
    let mut i: usize = 0;
    while i < n
        invariant
            i <= n,
            n == cs@.len(),
            cs@ == doc@,
            depth <= i,
            lex(cs@, i as int) == (in_str, esc, depth as int, closed, true),
            !in_str ==> !esc,
        decreases n - i,
    {
        let c = cs[i];
        let ghost st = lex(cs@, i as int);
        if closed {
            if !crate::text::white_char(c) {
                proof {
                    lemma_lex_fault(cs@, i as int + 1, n as int);
                }
                return false;
            }
        } else if in_str {
            if esc {
                esc = false;
            } else if c == '\\' {
                esc = true;
            } else if c == '"' {
                in_str = false;
            }
        } else if c == '"' {
            in_str = true;
        } else if c == '{' || c == '[' {
            depth = depth + 1;
        } else if c == '}' || c == ']' {
            if depth > 0 {
                depth = depth - 1;
                if depth == 0 {
                    closed = true;
                }
            }
        } else if c == 't' || c == 'f' || c == 'n' {
            let ok = if c == 't' {
                n - i > 3 && cs[i + 1] == 'r' && cs[i + 2] == 'u' && cs[i + 3] == 'e'
            } else if c == 'f' {
                n - i > 4 && cs[i + 1] == 'a' && cs[i + 2] == 'l' && cs[i + 3] == 's' && cs[i + 4] == 'e'
            } else {
                n - i > 3 && cs[i + 1] == 'u' && cs[i + 2] == 'l' && cs[i + 3] == 'l'
            };
            if !ok {
                proof {
                    lemma_lex_fault(cs@, i as int + 1, n as int);
                }
                return false;
            }
        }
        i += 1;
    }
    true
}

proof fn lemma_lex_fault(s: Seq<char>, m: int, n: int)
    requires
        0 <= m <= n,
        !lex(s, m).4,
    ensures
        !lex(s, n).4,
    decreases n - m,
{
    if n > m {
        lemma_lex_fault(s, m, n - 1);
    }
}

/// Relies on `JSONValue::load_and_verify`, `JSONValue::iter_object`,
/// `JSONValue::read_string` and `JSONValue::iter_array`: the members of the
/// document's top-level object, which depend on the document alone. The
/// reader slices a fixed four or five bytes for `true`, `false` and `null`,
/// and its object walk reads on past the closing brace, so it can panic on a
/// document that `json_safe` refuses.
#[verifier::external_body]
fn read_members(doc: &str) -> (r: Option<Vec<(String, JsonItem)>>)
    requires
        json_safe(doc@),
    ensures
        r matches Some(m) ==> json_members_of(doc@) == Some(member_views(m@)),
        r is None ==> json_members_of(doc@) is None,
{
    let obj = JSONValue::load_and_verify(doc).ok()?.iter_object().ok()?;
    Some(obj.filter_map(|m| m.ok()).map(|(k, v)| {
        let item = match v.value_type {
            JSONValueType::String => v.read_string().map(|t| JsonItem::Text(t.to_string())).unwrap_or(JsonItem::Other),
            JSONValueType::Array => JsonItem::List(v.iter_array().map(|a| a.map(|x| x.read_string().ok().map(|t| t.to_string())).collect()).unwrap_or_default()),
            _ => JsonItem::Other,
        };
        (k.to_string(), item)
    }).collect())
}

/// The texts among optional texts, in order.
pub open spec fn somes(l: Seq<Option<Seq<char>>>) -> Seq<Seq<char>>
    decreases l.len(),
{
    if l.len() == 0 {
        Seq::empty()
    } else {
        let prev = somes(l.drop_last());
        match l.last() {
            Some(t) => prev.push(t),
            None => prev,
        }
    }
}

/// The values that a member value assigns: its text, or the texts of its
/// list; none for any other value.
pub open spec fn texts_of(i: JsonItemView) -> Seq<Seq<char>> {
    match i {
        JsonItemView::Text(t) => seq![t],
        JsonItemView::List(l) => somes(l),
        JsonItemView::Other => Seq::empty(),
    }
}

/// The assignments of a document's members: each name with its values.
pub open spec fn assignments_of(m: Seq<(Seq<char>, JsonItemView)>) -> Seq<(Seq<char>, Seq<Seq<char>>)> {
    m.map_values(|e: (Seq<char>, JsonItemView)| (e.0, texts_of(e.1)))
}

/// The filter of name `name`, created empty where there is none.
pub open spec fn touch(
    fv: Seq<(Seq<char>, Seq<(Seq<char>, Seq<u32>)>)>,
    name: Seq<char>,
) -> Seq<(Seq<char>, Seq<(Seq<char>, Seq<u32>)>)> {
    if find_view(fv, name) is Some {
        fv
    } else {
        fv.push((name, Seq::empty()))
    }
}

/// Value `value` of filter `name` bound to the pages `all`.
pub open spec fn tag(
    fv: Seq<(Seq<char>, Seq<(Seq<char>, Seq<u32>)>)>,
    name: Seq<char>,
    value: Seq<char>,
    all: Seq<u32>,
) -> Seq<(Seq<char>, Seq<(Seq<char>, Seq<u32>)>)> {
    let t = touch(fv, name);
    put(t, name, put(t[find_view(t, name)->0].1, value, all))
}

/// The values of `vals` tagged under `name`, one after another.
pub open spec fn tag_all(
    fv: Seq<(Seq<char>, Seq<(Seq<char>, Seq<u32>)>)>,
    name: Seq<char>,
    vals: Seq<Seq<char>>,
    all: Seq<u32>,
) -> Seq<(Seq<char>, Seq<(Seq<char>, Seq<u32>)>)>
    decreases vals.len(),
{
    if vals.len() == 0 {
        fv
    } else {
        tag(tag_all(fv, name, vals.drop_last(), all), name, vals.last(), all)
    }
}

/// The assignments applied one after another.
pub open spec fn assign_all(
    fv: Seq<(Seq<char>, Seq<(Seq<char>, Seq<u32>)>)>,
    a: Seq<(Seq<char>, Seq<Seq<char>>)>,
    all: Seq<u32>,
) -> Seq<(Seq<char>, Seq<(Seq<char>, Seq<u32>)>)>
    decreases a.len(),
{
    if a.len() == 0 {
        fv
    } else {
        tag_all(assign_all(fv, a.drop_last(), all), a.last().0, a.last().1, all)
    }
}

/// The ids `0..n`.
pub open spec fn page_range(n: nat) -> Seq<u32> {
    Seq::new(n, |i: int| i as u32)
}

/// A copy of the ids.
fn copy_ids(v: &Vec<u32>) -> (r: Vec<u32>)
    ensures
        r@ == v@,
{
    let mut out: Vec<u32> = Vec::new();
    let mut i: usize = 0;
    while i < v.len()
        invariant
            i <= v@.len(),
            out@ == v@.subrange(0, i as int),
        decreases v@.len() - i,
    {
        out.push(v[i]);
        i += 1;
        proof {
            assert(out@ =~= v@.subrange(0, i as int));
        }
    }
    proof {
        assert(v@.subrange(0, i as int) =~= v@);
    }
    out
}

/// The filter names and values, as sequences.
pub open spec fn assignment_views(a: Seq<(String, Vec<String>)>) -> Seq<
    (Seq<char>, Seq<Seq<char>>),
> {
    a.map_values(|e: (String, Vec<String>)| (e.0@, crate::text::views(e.1@)))
}

/// The filters keep distinct names, and distinct values under each.
pub open spec fn filters_ok(f: Seq<(String, Vec<(String, Vec<u32>)>)>) -> bool {
    &&& keys_unique(f)
    &&& forall|i: int| 0 <= i < f.len() ==> keys_unique(#[trigger] f[i].1@)
}

/// Makes sure filter `name` exists; its position.
fn touch_filter(f: &mut Vec<(String, Vec<(String, Vec<u32>)>)>, name: &String) -> (r: usize)
    requires
        filters_ok(old(f)@),
    ensures
        filters_view(final(f)@) == touch(filters_view(old(f)@), name@),
        filters_ok(final(f)@),
        r < final(f)@.len(),
        find_view(filters_view(final(f)@), name@) == Some(r as int),
{
    let ghost f_view = |v: Vec<(String, Vec<u32>)>| entry_views(v@);
    proof {
        lemma_find_view(f@, f_view, name@);
        lemma_find_key(f@, name@);
    }
    match lookup(f, name) {
        Some(i) => i,
        None => {
            let ghost before = f@;
            let fresh: Vec<(String, Vec<u32>)> = Vec::new();
            f.push((name.clone(), fresh));
            proof {
                assert(entry_views(f@[before.len() as int].1@) =~= Seq::empty());
                assert(filters_view(f@) =~= filters_view(before).push((name@, Seq::empty())));
                lemma_find_view(f@, f_view, name@);
                lemma_find_key(f@, name@);
                assert forall|i: int| 0 <= i < f@.len() implies keys_unique(#[trigger] f@[i].1@) by {
                    if i < before.len() {
                        assert(f@[i] == before[i]);
                    }
                }
            }
            f.len() - 1
        },
    }
}

/// Binds value `value` of filter `name` to the pages `all`.
fn tag_value(
    f: &mut Vec<(String, Vec<(String, Vec<u32>)>)>,
    name: &String,
    value: String,
    all: &Vec<u32>,
)
    requires
        filters_ok(old(f)@),
    ensures
        filters_view(final(f)@) == tag(filters_view(old(f)@), name@, value@, all@),
        filters_ok(final(f)@),
{
    let ghost fv0 = filters_view(f@);
    let i = touch_filter(f, name);
    let ghost t = filters_view(f@);
    let ghost before = f@;
    let (k, mut vm) = f.remove(i);
    proof {
        assert(t[i as int] == (k@, entry_views(vm@)));
        lemma_find_view(before, |v: Vec<(String, Vec<u32>)>| entry_views(v@), name@);
        lemma_find_key(before, name@);
        lemma_entry_views(vm@);
    }
    let ids = copy_ids(all);
    proof {
        lemma_assoc_insert_view(vm@, value, ids, |v: Vec<u32>| v@);
    }
    insert_entry(&mut vm, value, ids);
    proof {
        lemma_entry_views(vm@);
    }
    f.insert(i, (k, vm));
    proof {
        assert(filters_view(f@) =~= t.update(i as int, (name@, entry_views(vm@))));
        assert forall|j: int| 0 <= j < f@.len() implies keys_unique(#[trigger] f@[j].1@) by {
            if j != i {
                assert(f@[j] == before[j]);
            }
        }
        assert forall|a: int, b: int| 0 <= a < b < f@.len() implies f@[a].0@ != f@[b].0@ by {
            assert(before[a].0@ != before[b].0@);
            if a != i {
                assert(f@[a] == before[a]);
            }
            if b != i {
                assert(f@[b] == before[b]);
            }
        }
    }
}

impl SearchIndex {
    /// Tags every page with each value under its filter name: for each
    /// assignment in order, each value is bound to all the pages under that
    /// name (the filter created where it is missing, the value's pages
    /// replaced where it was there). A name with no value changes nothing.
    pub fn apply_synthetic_filters(&mut self, assignments: Vec<(String, Vec<String>)>)
        requires
            old(self).filters_valid(),
            old(self).pages@.len() <= u32::MAX + 1,
        ensures
            final(self).filters_valid(),
            final(self).pages@ == old(self).pages@,
            final(self).words@ == old(self).words@,
            filters_view(final(self).filters@) == assign_all(
                filters_view(old(self).filters@),
                assignment_views(assignments@),
                page_range(old(self).pages@.len()),
            ),
    {
        let n = self.pages.len();
        let mut all: Vec<u32> = Vec::new();
        let mut p: usize = 0;
        while p < n
            invariant
                p <= n,
                n == self.pages@.len(),
                n <= u32::MAX + 1,
                all@ == page_range(p as nat),
            decreases n - p,
        {
            all.push(p as u32);
            p += 1;
            proof {
                assert(all@ =~= page_range(p as nat));
            }
        }
        let ghost a = assignment_views(assignments@);
        let ghost fv0 = filters_view(self.filters@);
        let mut i: usize = 0;
        while i < assignments.len()
            invariant
                i <= assignments@.len(),
                a == assignment_views(assignments@),
                all@ == page_range(self.pages@.len()),
                filters_ok(self.filters@),
                self.pages@ == old(self).pages@,
                self.words@ == old(self).words@,
                filters_view(self.filters@) == assign_all(fv0, a.subrange(0, i as int), all@),
            decreases assignments@.len() - i,
        {
            let name = &assignments[i].0;
            let vals = &assignments[i].1;
            let ghost base = filters_view(self.filters@);
            proof {
                assert(crate::text::views(vals@).subrange(0, 0) =~= Seq::empty());
            }
            let mut j: usize = 0;
            while j < vals.len()
                invariant
                    j <= vals@.len(),
                    filters_ok(self.filters@),
                    self.pages@ == old(self).pages@,
                    self.words@ == old(self).words@,
                    filters_view(self.filters@) == tag_all(base, name@, crate::text::views(vals@).subrange(0, j as int), all@),
                decreases vals@.len() - j,
            {
                let v = vals[j].clone();
                tag_value(&mut self.filters, name, v, &all);
                proof {
                    assert(crate::text::views(vals@).subrange(0, j as int + 1).drop_last() =~= crate::text::views(vals@).subrange(0, j as int));
                }
                j += 1;
            }
            proof {
                assert(crate::text::views(vals@).subrange(0, j as int) =~= crate::text::views(vals@));
                assert(a.subrange(0, i as int + 1).drop_last() =~= a.subrange(0, i as int));
                assert(a[i as int] == (name@, crate::text::views(vals@)));
            }
            i += 1;
        }
        proof {
            assert(a.subrange(0, i as int) =~= a);
        }
    }

    /// Reads a synthetic filter document, a JSON object of filter names to a
    /// string or a list of strings, and tags every page with those values
    /// (see `apply_synthetic_filters`). Other values, and items of a list
    /// that are not strings, are ignored; a document that is malformed (or
    /// that `json_safe` refuses) or not an object changes nothing.
    pub fn decode_synthetic_filter(&mut self, filter: &str)
        requires
            old(self).filters_valid(),
            old(self).pages@.len() <= u32::MAX + 1,
        ensures
            final(self).filters_valid(),
            final(self).pages@ == old(self).pages@,
            final(self).words@ == old(self).words@,
            !json_safe(filter@) ==> final(self).filters@ == old(self).filters@,
            json_safe(filter@) && json_members_of(filter@) is None ==> final(self).filters@ == old(
                self,
            ).filters@,
            json_safe(filter@) ==> (json_members_of(filter@) matches Some(m) ==> filters_view(
                final(self).filters@,
            ) == assign_all(
                filters_view(old(self).filters@),
                assignments_of(m),
                page_range(old(self).pages@.len()),
            )),
    {
        if !json_safe_doc(filter) {
            return ;
        }
        let members = match read_members(filter) {
            Some(m) => m,
            None => return ,
        };
        let ghost mv = member_views(members@);
        let mut assignments: Vec<(String, Vec<String>)> = Vec::new();
        let mut i: usize = 0;
        while i < members.len()
            invariant
                i <= members@.len(),
                mv == member_views(members@),
                assignment_views(assignments@) == assignments_of(mv.subrange(0, i as int)),
            decreases members@.len() - i,
        {
            let mut vals: Vec<String> = Vec::new();
            proof {
                assert(mv[i as int] == (members@[i as int].0@, item_view(members@[i as int].1)));
            }
            match &members[i].1 {
                JsonItem::Text(t) => {
                    vals.push(t.clone());
                    proof {
                        assert(crate::text::views(vals@) =~= seq![t@]);
                    }
                },
                JsonItem::List(l) => {
                    let ghost lv = l@.map_values(|o: Option<String>| opt_view(o));
                    let mut j: usize = 0;
                    proof {
                        assert(crate::text::views(vals@) =~= somes(lv.subrange(0, 0)));
                    }
                    while j < l.len()
                        invariant
                            j <= l@.len(),
                            lv == l@.map_values(|o: Option<String>| opt_view(o)),
                            crate::text::views(vals@) == somes(lv.subrange(0, j as int)),
                        decreases l@.len() - j,
                    {
                        proof {
                            assert(lv.subrange(0, j as int + 1).drop_last() =~= lv.subrange(0, j as int));
                            assert(lv[j as int] == opt_view(l@[j as int]));
                        }
                        match &l[j] {
                            Some(t) => {
                                let ghost before = crate::text::views(vals@);
                                vals.push(t.clone());
                                proof {
                                    assert(crate::text::views(vals@) =~= before.push(t@));
                                }
                            },
                            None => {},
                        }
                        j += 1;
                    }
                    proof {
                        assert(lv.subrange(0, j as int) =~= lv);
                    }
                },
                JsonItem::Other => {
                    proof {
                        assert(crate::text::views(vals@) =~= Seq::<Seq<char>>::empty());
                    }
                },
            }
            let ghost before = assignment_views(assignments@);
            assignments.push((members[i].0.clone(), vals));
            i += 1;
            proof {
                assert(assignment_views(assignments@) =~= before.push(
                    (members@[i - 1].0@, texts_of(mv[i - 1].1)),
                ));
                assert(assignments_of(mv.subrange(0, i as int)) =~= assignments_of(
                    mv.subrange(0, i - 1),
                ).push((members@[i - 1].0@, texts_of(mv[i - 1].1))));
            }
        }
        proof {
            assert(mv.subrange(0, i as int) =~= mv);
        }
        self.apply_synthetic_filters(assignments);
    }
}

} // verus!
