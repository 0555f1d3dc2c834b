//! Word locations: ordering by position and collapsing shared positions.
use vstd::prelude::*;

verus! {

/// `x` placed into `s` after every pair whose position is at most its own.
pub open spec fn insert_by_pos(s: Seq<(u8, u32)>, x: (u8, u32)) -> Seq<(u8, u32)>
    decreases s.len(),
{
    if s.len() == 0 || s.last().1 <= x.1 {
        s.push(x)
    } else {
        insert_by_pos(s.drop_last(), x).push(s.last())
    }
}

/// `s` sorted by position, pairs of equal position kept in their order.
pub open spec fn sort_by_pos(s: Seq<(u8, u32)>) -> Seq<(u8, u32)>
    decreases s.len(),
{
    if s.len() == 0 {
        s
    } else {
        insert_by_pos(sort_by_pos(s.drop_last()), s.last())
    }
}

/// The working pair `w` after meeting `e`, when `e` has the same position:
/// the lower weight wins, and equal weights add up (at most 255).
pub open spec fn merge_weight(w: (u8, u32), e: (u8, u32)) -> (u8, u32) {
    if w.0 > e.0 {
        (e.0, w.1)
    } else if w.0 == e.0 {
        (if w.0 + e.0 > 255 { 255u8 } else { (w.0 + e.0) as u8 }, w.1)
    } else {
        w
    }
}

/// The walk over the first `n` pairs of `s`: the pairs already emitted, and
/// the working pair.
pub open spec fn walk(s: Seq<(u8, u32)>, n: int) -> (Seq<(u8, u32)>, (u8, u32))
    recommends
        1 <= n <= s.len(),
    decreases n,
{
    if n <= 1 {
        (Seq::empty(), s[0])
    } else {
        let (done, w) = walk(s, n - 1);
        let e = s[n - 1];
        if e.1 == w.1 {
            (done, merge_weight(w, e))
        } else {
            (done.push(w), e)
        }
    }
}

/// One pair per run of equal positions, as the left-to-right walk makes it.
pub open spec fn collapse(s: Seq<(u8, u32)>) -> Seq<(u8, u32)> {
    if s.len() == 0 {
        s
    } else {
        walk(s, s.len() as int).0.push(walk(s, s.len() as int).1)
    }
}

/// No two neighbours share a position.
pub open spec fn distinct_neighbours(s: Seq<(u8, u32)>) -> bool {
    forall|i: int| 0 <= i < s.len() - 1 ==> #[trigger] s[i].1 != s[i + 1].1
}

proof fn lemma_walk_shape(s: Seq<(u8, u32)>, n: int)
    requires
        1 <= n <= s.len(),
    ensures
        distinct_neighbours(walk(s, n).0.push(walk(s, n).1)),
        walk(s, n).1.1 == s[n - 1].1,
    decreases n,
{
    if n > 1 {
        lemma_walk_shape(s, n - 1);
        let (done, w) = walk(s, n - 1);
        let e = s[n - 1];
        if e.1 != w.1 {
            let t = done.push(w).push(e);
            assert forall|i: int| 0 <= i < t.len() - 1 implies #[trigger] t[i].1 != t[i + 1].1 by {
                if i < t.len() - 2 {
                    assert(t[i] == done.push(w)[i] && t[i + 1] == done.push(w)[i + 1]);
                }
            }
        } else {
            assert(done.push(merge_weight(w, e)) =~= done.push(w).update(done.len() as int, merge_weight(w, e)));
        }
    }
}

/// A collapsed list has no two neighbours at one position.
pub proof fn lemma_collapse_distinct(s: Seq<(u8, u32)>)
    ensures
        distinct_neighbours(collapse(s)),
{
    if s.len() > 0 {
        lemma_walk_shape(s, s.len() as int);
    }
}

proof fn lemma_walk_identity(s: Seq<(u8, u32)>, n: int)
    requires
        1 <= n <= s.len(),
        distinct_neighbours(s),
    ensures
        walk(s, n).0 == s.subrange(0, n - 1),
        walk(s, n).1 == s[n - 1],
    decreases n,
{
    if n > 1 {
        lemma_walk_identity(s, n - 1);
        assert(s[n - 2].1 != s[n - 1].1);
        assert(s.subrange(0, n - 2).push(s[n - 2]) =~= s.subrange(0, n - 1));
    } else {
        assert(s.subrange(0, 0) =~= Seq::<(u8, u32)>::empty());
    }
}

/// Collapsing a list whose neighbours never share a position leaves it as it is.
pub proof fn lemma_collapse_identity(s: Seq<(u8, u32)>)
    requires
        distinct_neighbours(s),
    ensures
        collapse(s) == s,
{
    if s.len() > 0 {
        lemma_walk_identity(s, s.len() as int);
        assert(s.subrange(0, s.len() - 1).push(s.last()) =~= s);
    }
}

/// Collapsing twice is collapsing once.
pub proof fn lemma_collapse_idempotent(s: Seq<(u8, u32)>)
    ensures
        collapse(collapse(s)) == collapse(s),
{
    lemma_collapse_distinct(s);
    lemma_collapse_identity(collapse(s));
}

/// Positions never decrease.
pub open spec fn by_position(s: Seq<(u8, u32)>) -> bool {
    forall|i: int, j: int| 0 <= i < j < s.len() ==> s[i].1 <= s[j].1
}

/// Positions strictly increase.
pub open spec fn strictly_by_position(s: Seq<(u8, u32)>) -> bool {
    forall|i: int, j: int| 0 <= i < j < s.len() ==> s[i].1 < s[j].1
}

proof fn lemma_insert_sorted(s: Seq<(u8, u32)>, x: (u8, u32))
    requires
        by_position(s),
    ensures
        by_position(insert_by_pos(s, x)),
        insert_by_pos(s, x).len() == s.len() + 1,
        forall|i: int| 0 <= i < insert_by_pos(s, x).len() ==> (#[trigger] insert_by_pos(s, x)[i] == x
            || s.contains(insert_by_pos(s, x)[i])),
    decreases s.len(),
{
    if s.len() > 0 && s.last().1 > x.1 {
        let d = s.drop_last();
        assert(by_position(d));
        lemma_insert_sorted(d, x);
        let r = insert_by_pos(s, x);
        let rd = insert_by_pos(d, x);
        assert forall|i: int| 0 <= i < r.len() implies (#[trigger] r[i] == x || s.contains(r[i])) by {
            if i < rd.len() {
                assert(r[i] == rd[i]);
                if rd[i] != x {
                    let k = choose|k: int| 0 <= k < d.len() && d[k] == rd[i];
                    assert(s[k] == d[k]);
                }
            } else {
                assert(s[s.len() - 1] == r[i]);
            }
        }
        assert forall|i: int, j: int| 0 <= i < j < r.len() implies r[i].1 <= r[j].1 by {
            if j < rd.len() {
                assert(r[i] == rd[i] && r[j] == rd[j]);
            } else {
                assert(r[i] == rd[i]);
                if rd[i] != x {
                    let k = choose|k: int| 0 <= k < d.len() && d[k] == rd[i];
                    assert(s[k] == d[k]);
                }
            }
        }
    } else if s.len() > 0 {
        let r = s.push(x);
        assert forall|i: int| 0 <= i < r.len() implies (#[trigger] r[i] == x || s.contains(r[i])) by {
            if i < s.len() {
                assert(r[i] == s[i]);
            }
        }
    } else {
        assert(s.push(x)[0] == x);
    }
}

proof fn lemma_sort_sorted(s: Seq<(u8, u32)>)
    ensures
        by_position(sort_by_pos(s)),
    decreases s.len(),
{
    if s.len() > 0 {
        lemma_sort_sorted(s.drop_last());
        lemma_insert_sorted(sort_by_pos(s.drop_last()), s.last());
    }
}

proof fn lemma_walk_sorted(s: Seq<(u8, u32)>, n: int)
    requires
        1 <= n <= s.len(),
        by_position(s),
    ensures
        by_position(walk(s, n).0.push(walk(s, n).1)),
        walk(s, n).1.1 == s[n - 1].1,
    decreases n,
{
    if n > 1 {
        lemma_walk_sorted(s, n - 1);
        let (done, w) = walk(s, n - 1);
        let e = s[n - 1];
        let t = done.push(w);
        assert(s[n - 2].1 <= s[n - 1].1);
        if e.1 != w.1 {
            let u = t.push(e);
            assert forall|i: int, j: int| 0 <= i < j < u.len() implies u[i].1 <= u[j].1 by {
                if j < t.len() {
                    assert(u[i] == t[i] && u[j] == t[j]);
                } else {
                    assert(u[i] == t[i]);
                    assert(t[i].1 <= t[t.len() - 1].1 || i == t.len() - 1);
                }
            }
        } else {
            let u = done.push(merge_weight(w, e));
            assert forall|i: int, j: int| 0 <= i < j < u.len() implies u[i].1 <= u[j].1 by {
                assert(u[i].1 == t[i].1 && u[j].1 == t[j].1);
            }
        }
    }
}

proof fn lemma_neighbours_strict(s: Seq<(u8, u32)>)
    requires
        by_position(s),
        distinct_neighbours(s),
    ensures
        strictly_by_position(s),
{
    assert forall|i: int, j: int| 0 <= i < j < s.len() implies s[i].1 < s[j].1 by {
        assert(s[i].1 <= s[i + 1].1);
        assert(s[i].1 != s[i + 1].1);
        assert(s[i + 1].1 <= s[j].1);
    }
}

/// Sorting by position and then collapsing gives strictly ascending
/// positions, so collapsing the result again leaves it as it is.
pub proof fn lemma_sorted_collapse_ascending(s: Seq<(u8, u32)>)
    ensures
        strictly_by_position(collapse(sort_by_pos(s))),
        collapse(collapse(sort_by_pos(s))) == collapse(sort_by_pos(s)),
{
    let t = sort_by_pos(s);
    lemma_sort_sorted(s);
    lemma_collapse_distinct(t);
    if t.len() > 0 {
        lemma_walk_sorted(t, t.len() as int);
    }
    lemma_neighbours_strict(collapse(t));
    lemma_collapse_idempotent(t);
}

/// Puts `x` into `v`, which holds pairs sorted by position, after every pair
/// of position at most its own.
pub fn insert_sorted(v: &mut Vec<(u8, u32)>, x: (u8, u32))
    ensures
        final(v)@ == insert_by_pos(old(v)@, x),
    decreases old(v)@.len(),
{
    let n = v.len();
    if n == 0 || v[n - 1].1 <= x.1 {
        v.push(x);
    } else {
        let last = v.pop().unwrap();
        proof {
            assert(v@ =~= old(v)@.drop_last());
        }
        insert_sorted(v, x);
        v.push(last);
    }
}

/// The pairs of `s` sorted by position; pairs of equal position keep their order.
pub fn sorted_by_pos(s: &Vec<(u8, u32)>) -> (r: Vec<(u8, u32)>)
    ensures
        r@ == sort_by_pos(s@),
{
    let mut out: Vec<(u8, u32)> = Vec::new();
    let mut i: usize = 0;
    while i < s.len()
        invariant
            i <= s@.len(),
            out@ == sort_by_pos(s@.subrange(0, i as int)),
        decreases s@.len() - i,
    {
        proof {
            assert(s@.subrange(0, i as int + 1).drop_last() =~= s@.subrange(0, i as int));
        }
        insert_sorted(&mut out, s[i]);
        i += 1;
    }
    proof {
        assert(s@.subrange(0, i as int) =~= s@);
    }
    out
}

/// One pair per run of equal positions in `s`: of unequal weights the lower
/// stays, equal weights are added up.
pub fn unique_word_locations(s: &Vec<(u8, u32)>) -> (r: Vec<(u8, u32)>)
    ensures
        r@ == collapse(s@),
{
    let mut out: Vec<(u8, u32)> = Vec::new();
    if s.len() == 0 {
        proof {
            assert(out@ =~= s@);
        }
        return out;
    }
    let mut w = s[0];
    let mut i: usize = 1;
    while i < s.len()
        invariant
            1 <= i <= s@.len(),
            (out@, w) == walk(s@, i as int),
        decreases s@.len() - i,
    {
        let e = s[i];
        if w.1 == e.1 {
            if w.0 > e.0 {
                w = (e.0, w.1);
            } else if w.0 == e.0 {
                w = (w.0.saturating_add(e.0), w.1);
            }
        } else {
            out.push(w);
            w = e;
        }
        i += 1;
    }
    out.push(w);
    out
}

} // verus!
