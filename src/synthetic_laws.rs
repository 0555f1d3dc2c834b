//! Applying the same synthetic filters twice changes nothing.
use crate::filters::{find_view, put};
use crate::synthetic::{assign_all, tag, tag_all, touch};
use vstd::prelude::*;

verus! {

proof fn lemma_find_view_props<U>(m: Seq<(Seq<char>, U)>, k: Seq<char>)
    ensures
        find_view(m, k) matches Some(i) ==> 0 <= i < m.len() && m[i].0 == k,
        find_view(m, k) is None ==> forall|j: int| 0 <= j < m.len() ==> m[j].0 != k,
    decreases m.len(),
{
    if m.len() > 0 {
        let d = m.drop_last();
        lemma_find_view_props(d, k);
        assert(forall|j: int| 0 <= j < d.len() ==> d[j] == m[j]);
    }
}

proof fn lemma_find_view_update<U>(m: Seq<(Seq<char>, U)>, i: int, v: U, k: Seq<char>)
    requires
        0 <= i < m.len(),
    ensures
        find_view(m.update(i, (m[i].0, v)), k) == find_view(m, k),
    decreases m.len(),
{
    let u = m.update(i, (m[i].0, v));
    if i == m.len() - 1 {
        assert(u.drop_last() =~= m.drop_last());
    } else {
        lemma_find_view_update(m.drop_last(), i, v, k);
        assert(u.drop_last() =~= m.drop_last().update(i, (m[i].0, v)));
    }
}

proof fn lemma_find_view_push<U>(m: Seq<(Seq<char>, U)>, e: (Seq<char>, U), k: Seq<char>)
    ensures
        find_view(m, k) is Some ==> find_view(m.push(e), k) == find_view(m, k),
        find_view(m, k) is None && e.0 == k ==> find_view(m.push(e), k) == Some(m.len() as int),
{
    assert(m.push(e).drop_last() =~= m);
}

/// Filter `n` binds value `v` to the pages `all`.
pub open spec fn bound(
    x: Seq<(Seq<char>, Seq<(Seq<char>, Seq<u32>)>)>,
    n: Seq<char>,
    v: Seq<char>,
    all: Seq<u32>,
) -> bool {
    match find_view(x, n) {
        Some(i) => match find_view(x[i].1, v) {
            Some(j) => x[i].1[j].1 == all,
            None => false,
        },
        None => false,
    }
}

proof fn lemma_touch(x: Seq<(Seq<char>, Seq<(Seq<char>, Seq<u32>)>)>, n: Seq<char>)
    ensures
        find_view(touch(x, n), n) is Some,
        forall|k: Seq<char>| find_view(x, k) is Some ==> #[trigger] find_view(touch(x, n), k) == find_view(x, k),
        touch(x, n).len() >= x.len(),
        forall|i: int| 0 <= i < x.len() ==> #[trigger] touch(x, n)[i] == x[i],
{
    if find_view(x, n) is None {
        lemma_find_view_push(x, (n, Seq::empty()), n);
        assert forall|k: Seq<char>| find_view(x, k) is Some implies #[trigger] find_view(touch(x, n), k) == find_view(x, k) by {
            lemma_find_view_push(x, (n, Seq::empty()), k);
        }
    }
}

proof fn lemma_tag_noop(x: Seq<(Seq<char>, Seq<(Seq<char>, Seq<u32>)>)>, n: Seq<char>, v: Seq<char>, all: Seq<u32>)
    requires
        bound(x, n, v, all),
    ensures
        tag(x, n, v, all) == x,
{
    let i = find_view(x, n)->0;
    lemma_find_view_props(x, n);
    let inner = x[i].1;
    lemma_find_view_props(inner, v);
    assert(touch(x, n) == x);
    assert(put(inner, v, all) =~= inner);
    assert(put(x, n, inner) =~= x);
}

proof fn lemma_tag_binds(x: Seq<(Seq<char>, Seq<(Seq<char>, Seq<u32>)>)>, n: Seq<char>, v: Seq<char>, all: Seq<u32>, n3: Seq<char>, v3: Seq<char>)
    ensures
        bound(tag(x, n, v, all), n, v, all),
        bound(x, n3, v3, all) ==> bound(tag(x, n, v, all), n3, v3, all),
{
    let t = touch(x, n);
    lemma_touch(x, n);
    let i2 = find_view(t, n)->0;
    lemma_find_view_props(t, n);
    let inner2 = t[i2].1;
    let ni = put(inner2, v, all);
    let r = tag(x, n, v, all);
    assert(r == t.update(i2, (t[i2].0, ni)));
    lemma_find_view_update(t, i2, ni, n);
    lemma_find_view_update(t, i2, ni, n3);
    lemma_find_view_props(inner2, v);
    match find_view(inner2, v) {
        Some(j) => {
            lemma_find_view_update(inner2, j, all, v);
            lemma_find_view_update(inner2, j, all, v3);
            assert(ni == inner2.update(j, (inner2[j].0, all)));
        },
        None => {
            lemma_find_view_push(inner2, (v, all), v);
            lemma_find_view_push(inner2, (v, all), v3);
        },
    }
    if bound(x, n3, v3, all) {
        let i = find_view(x, n3)->0;
        assert(find_view(t, n3) == Some(i));
        lemma_find_view_props(x, n3);
        assert(t[i] == x[i]);
        assert(bound(t, n3, v3, all));
        if i == i2 {
            lemma_find_view_props(inner2, v3);
        }
    }
}

proof fn lemma_tag_all_binds(x: Seq<(Seq<char>, Seq<(Seq<char>, Seq<u32>)>)>, n: Seq<char>, vals: Seq<Seq<char>>, all: Seq<u32>, n3: Seq<char>, v3: Seq<char>)
    ensures
        forall|m: int| 0 <= m < vals.len() ==> bound(tag_all(x, n, vals, all), n, #[trigger] vals[m], all),
        bound(x, n3, v3, all) ==> bound(tag_all(x, n, vals, all), n3, v3, all),
    decreases vals.len(),
{
    if vals.len() > 0 {
        let d = vals.drop_last();
        let y = tag_all(x, n, d, all);
        lemma_tag_all_binds(x, n, d, all, n3, v3);
        lemma_tag_binds(y, n, vals.last(), all, n3, v3);
        assert forall|m: int| 0 <= m < vals.len() implies bound(tag_all(x, n, vals, all), n, #[trigger] vals[m], all) by {
            if m < d.len() {
                assert(d[m] == vals[m]);
                lemma_tag_binds(y, n, vals.last(), all, n, vals[m]);
            }
        }
    }
}

/// Every value of every assignment of `a` is bound in `x`.
pub open spec fn binds_all(
    x: Seq<(Seq<char>, Seq<(Seq<char>, Seq<u32>)>)>,
    a: Seq<(Seq<char>, Seq<Seq<char>>)>,
    all: Seq<u32>,
) -> bool {
    forall|k: int, m: int| 0 <= k < a.len() && 0 <= m < a[k].1.len() ==> bound(x, a[k].0, #[trigger] a[k].1[m], all)
}

proof fn lemma_assign_all_binds(x: Seq<(Seq<char>, Seq<(Seq<char>, Seq<u32>)>)>, a: Seq<(Seq<char>, Seq<Seq<char>>)>, all: Seq<u32>)
    ensures
        binds_all(assign_all(x, a, all), a, all),
    decreases a.len(),
{
    if a.len() > 0 {
        let d = a.drop_last();
        let y = assign_all(x, d, all);
        lemma_assign_all_binds(x, d, all);
        let l = a.last();
        assert forall|k: int, m: int| 0 <= k < a.len() && 0 <= m < a[k].1.len() implies bound(assign_all(x, a, all), a[k].0, #[trigger] a[k].1[m], all) by {
            lemma_tag_all_binds(y, l.0, l.1, all, a[k].0, a[k].1[m]);
            if k < d.len() {
                assert(d[k] == a[k]);
            }
        }
    }
}

proof fn lemma_tag_all_noop(y: Seq<(Seq<char>, Seq<(Seq<char>, Seq<u32>)>)>, n: Seq<char>, vals: Seq<Seq<char>>, all: Seq<u32>)
    requires
        forall|m: int| 0 <= m < vals.len() ==> bound(y, n, #[trigger] vals[m], all),
    ensures
        tag_all(y, n, vals, all) == y,
    decreases vals.len(),
{
    if vals.len() > 0 {
        let d = vals.drop_last();
        assert forall|m: int| 0 <= m < d.len() implies bound(y, n, #[trigger] d[m], all) by {
            assert(d[m] == vals[m]);
        }
        lemma_tag_all_noop(y, n, d, all);
        assert(bound(y, n, vals[vals.len() - 1], all));
        lemma_tag_noop(y, n, vals.last(), all);
    }
}

proof fn lemma_assign_all_noop(y: Seq<(Seq<char>, Seq<(Seq<char>, Seq<u32>)>)>, a: Seq<(Seq<char>, Seq<Seq<char>>)>, all: Seq<u32>)
    requires
        binds_all(y, a, all),
    ensures
        assign_all(y, a, all) == y,
    decreases a.len(),
{
    if a.len() > 0 {
        let d = a.drop_last();
        assert forall|k: int, m: int| 0 <= k < d.len() && 0 <= m < d[k].1.len() implies bound(y, d[k].0, #[trigger] d[k].1[m], all) by {
            assert(d[k] == a[k]);
        }
        lemma_assign_all_noop(y, d, all);
        let l = a.last();
        assert forall|m: int| 0 <= m < l.1.len() implies bound(y, l.0, #[trigger] l.1[m], all) by {
            assert(a[a.len() - 1] == l);
            assert(bound(y, a[a.len() - 1].0, a[a.len() - 1].1[m], all));
        }
        lemma_tag_all_noop(y, l.0, l.1, all);
    }
}

/// Applying the same assignments a second time changes nothing: so reading
/// the same synthetic filter document twice leaves the filters as once.
pub proof fn lemma_assign_twice(
    fv: Seq<(Seq<char>, Seq<(Seq<char>, Seq<u32>)>)>,
    a: Seq<(Seq<char>, Seq<Seq<char>>)>,
    all: Seq<u32>,
)
    ensures
        assign_all(assign_all(fv, a, all), a, all) == assign_all(fv, a, all),
{
    lemma_assign_all_binds(fv, a, all);
    lemma_assign_all_noop(assign_all(fv, a, all), a, all);
}

} // verus!
