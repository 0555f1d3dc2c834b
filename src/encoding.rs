//! The shard format written out as bytes, and the law that reading a shard
//! back gives what was written.
use crate::cbor::{be_value, cbor_head, cbor_str, cbor_u32, parse_entries, parse_entry, parse_pages, parse_shard};
use vstd::arithmetic::div_mod::{lemma_fundamental_div_mod, lemma_multiply_divide_lt};
use vstd::prelude::*;
use vstd::utf8::{decode_utf8, encode_utf8, encode_utf8_decode_utf8, encode_utf8_valid_utf8};

verus! {

/// `256` to the power `k`.
pub open spec fn pow256(k: nat) -> nat
    decreases k,
{
    if k == 0 {
        1
    } else {
        256 * pow256((k - 1) as nat)
    }
}

/// The `k` big-endian bytes of `v`.
pub open spec fn be_bytes(v: nat, k: nat) -> Seq<u8>
    decreases k,
{
    if k == 0 {
        Seq::empty()
    } else {
        be_bytes(v / 256, (k - 1) as nat).push((v % 256) as u8)
    }
}

/// The head of an item of major type `major` with argument `n`, in its
/// shortest form.
pub open spec fn head_bytes(major: u8, n: nat) -> Seq<u8> {
    if n < 24 {
        seq![(major * 32 + n) as u8]
    } else if n < 0x100 {
        seq![(major * 32 + 24) as u8] + be_bytes(n, 1)
    } else if n < 0x1_0000 {
        seq![(major * 32 + 25) as u8] + be_bytes(n, 2)
    } else if n < 0x1_0000_0000 {
        seq![(major * 32 + 26) as u8] + be_bytes(n, 4)
    } else {
        seq![(major * 32 + 27) as u8] + be_bytes(n, 8)
    }
}

/// A text string.
pub open spec fn enc_text(s: Seq<char>) -> Seq<u8> {
    head_bytes(3, encode_utf8(s).len()) + encode_utf8(s)
}

/// The page ids, one unsigned integer each.
pub open spec fn enc_pages(ps: Seq<u32>) -> Seq<u8>
    decreases ps.len(),
{
    if ps.len() == 0 {
        Seq::empty()
    } else {
        enc_pages(ps.drop_last()) + head_bytes(0, ps.last() as nat)
    }
}

/// One `[value, [page, ...]]` entry.
pub open spec fn enc_entry(e: (Seq<char>, Seq<u32>)) -> Seq<u8> {
    head_bytes(4, 2) + enc_text(e.0) + head_bytes(4, e.1.len()) + enc_pages(e.1)
}

/// The entries, one after another.
pub open spec fn enc_entries(es: Seq<(Seq<char>, Seq<u32>)>) -> Seq<u8>
    decreases es.len(),
{
    if es.len() == 0 {
        Seq::empty()
    } else {
        enc_entries(es.drop_last()) + enc_entry(es.last())
    }
}

/// A whole shard, `[name, [[value, [page, ...]], ...]]`.
pub open spec fn enc_shard(name: Seq<char>, es: Seq<(Seq<char>, Seq<u32>)>) -> Seq<u8> {
    head_bytes(4, 2) + enc_text(name) + head_bytes(4, es.len()) + enc_entries(es)
}

/// `b` holds `x` from `pos`.
pub open spec fn at(b: Seq<u8>, pos: int, x: Seq<u8>) -> bool {
    &&& 0 <= pos
    &&& pos + x.len() <= b.len()
    &&& forall|i: int| 0 <= i < x.len() ==> b[pos + i] == #[trigger] x[i]
}

proof fn lemma_at_split(b: Seq<u8>, pos: int, x: Seq<u8>, y: Seq<u8>)
    requires
        at(b, pos, x + y),
    ensures
        at(b, pos, x),
        at(b, pos + x.len(), y),
{
    assert forall|i: int| 0 <= i < x.len() implies b[pos + i] == #[trigger] x[i] by {
        assert((x + y)[i] == x[i]);
    }
    assert forall|i: int| 0 <= i < y.len() implies b[pos + x.len() + i] == #[trigger] y[i] by {
        assert((x + y)[x.len() + i] == y[i]);
    }
}

proof fn lemma_be(b: Seq<u8>, start: int, v: nat, k: nat)
    requires
        v < pow256(k),
        at(b, start, be_bytes(v, k)),
    ensures
        be_value(b, start, k) == v,
    decreases k,
{
    if k > 0 {
        let h = be_bytes(v / 256, (k - 1) as nat);
        assert(be_bytes(v, k) == h.push((v % 256) as u8));
        assert(be_bytes(v, k).len() == k) by {
            lemma_be_len(v, k);
        }
        lemma_be_len(v / 256, (k - 1) as nat);
        lemma_multiply_divide_lt(v as int, 256, pow256((k - 1) as nat) as int);
        assert(at(b, start, h)) by {
            assert forall|i: int| 0 <= i < h.len() implies b[start + i] == #[trigger] h[i] by {
                assert(be_bytes(v, k)[i] == h[i]);
            }
        }
        lemma_be(b, start, v / 256, (k - 1) as nat);
        assert(b[start + k - 1] == be_bytes(v, k)[k - 1]);
        lemma_fundamental_div_mod(v as int, 256);
    }
}

proof fn lemma_be_len(v: nat, k: nat)
    ensures
        be_bytes(v, k).len() == k,
    decreases k,
{
    if k > 0 {
        lemma_be_len(v / 256, (k - 1) as nat);
    }
}

proof fn lemma_head(b: Seq<u8>, pos: int, major: u8, n: nat)
    requires
        major < 8,
        n < 0x1_0000_0000_0000_0000,
        at(b, pos, head_bytes(major, n)),
    ensures
        cbor_head(b, pos, major) == Some((Some(n as u64), pos + head_bytes(major, n).len())),
{
    reveal_with_fuel(pow256, 9);
    let h = head_bytes(major, n);
    assert(b[pos] == h[0]);
    if n >= 24 {
        let k: nat = if n < 0x100 {
            1
        } else if n < 0x1_0000 {
            2
        } else if n < 0x1_0000_0000 {
            4
        } else {
            8
        };
        let first = h[0];
        lemma_be_len(n, k);
        assert(h == seq![first] + be_bytes(n, k));
        lemma_at_split(b, pos, seq![first], be_bytes(n, k));
        lemma_be(b, pos + 1, n, k);
    }
}

proof fn lemma_text(b: Seq<u8>, pos: int, s: Seq<char>)
    requires
        encode_utf8(s).len() <= usize::MAX,
        at(b, pos, enc_text(s)),
    ensures
        cbor_str(b, pos) == Some((s, pos + enc_text(s).len())),
{
    let u = encode_utf8(s);
    let h = head_bytes(3, u.len());
    lemma_at_split(b, pos, h, u);
    lemma_head(b, pos, 3, u.len());
    let p = pos + h.len();
    assert(b.subrange(p, p + u.len()) =~= u) by {
        assert forall|i: int| 0 <= i < u.len() implies b.subrange(p, p + u.len())[i] == u[i] by {
            assert(b[p + i] == u[i]);
        }
    }
    encode_utf8_valid_utf8(s);
    encode_utf8_decode_utf8(s);
}

proof fn lemma_pages(b: Seq<u8>, pos: int, ps: Seq<u32>)
    requires
        at(b, pos, enc_pages(ps)),
    ensures
        parse_pages(b, pos, ps.len()) == Ok::<(Seq<u32>, int), int>((ps, pos + enc_pages(ps).len())),
    decreases ps.len(),
{
    if ps.len() == 0 {
        assert(ps =~= Seq::<u32>::empty());
    } else {
        let d = ps.drop_last();
        lemma_at_split(b, pos, enc_pages(d), head_bytes(0, ps.last() as nat));
        lemma_pages(b, pos, d);
        let p = pos + enc_pages(d).len();
        lemma_head(b, p, 0, ps.last() as nat);
        assert(cbor_u32(b, p) == Some((ps.last(), p + head_bytes(0, ps.last() as nat).len())));
        assert(d.push(ps.last()) =~= ps);
        assert((d.len() + 1) as nat == ps.len());
    }
}

/// Every string of the entries has a UTF-8 length that fits `usize`.
pub open spec fn texts_fit(es: Seq<(Seq<char>, Seq<u32>)>) -> bool {
    forall|i: int| 0 <= i < es.len() ==> encode_utf8((#[trigger] es[i]).0).len() <= usize::MAX
}

proof fn lemma_entry(b: Seq<u8>, pos: int, e: (Seq<char>, Seq<u32>))
    requires
        encode_utf8(e.0).len() <= usize::MAX,
        e.1.len() < 0x1_0000_0000_0000_0000,
        at(b, pos, enc_entry(e)),
    ensures
        parse_entry(b, pos) == Ok::<((Seq<char>, Seq<u32>), int), int>((e, pos + enc_entry(e).len())),
{
    let h2 = head_bytes(4, 2);
    let t = enc_text(e.0);
    let hn = head_bytes(4, e.1.len());
    let pg = enc_pages(e.1);
    assert(enc_entry(e) == ((h2 + t) + hn) + pg);
    lemma_at_split(b, pos, (h2 + t) + hn, pg);
    lemma_at_split(b, pos, h2 + t, hn);
    lemma_at_split(b, pos, h2, t);
    lemma_head(b, pos, 4, 2);
    lemma_text(b, pos + h2.len(), e.0);
    lemma_head(b, pos + h2.len() + t.len(), 4, e.1.len());
    lemma_pages(b, pos + h2.len() + t.len() + hn.len(), e.1);
}

proof fn lemma_entries(b: Seq<u8>, pos: int, es: Seq<(Seq<char>, Seq<u32>)>)
    requires
        texts_fit(es),
        forall|i: int| 0 <= i < es.len() ==> (#[trigger] es[i]).1.len() < 0x1_0000_0000_0000_0000,
        at(b, pos, enc_entries(es)),
    ensures
        parse_entries(b, pos, es.len()) == Ok::<(Seq<(Seq<char>, Seq<u32>)>, int), int>(
            (es, pos + enc_entries(es).len()),
        ),
    decreases es.len(),
{
    if es.len() == 0 {
        assert(es =~= Seq::<(Seq<char>, Seq<u32>)>::empty());
    } else {
        let d = es.drop_last();
        lemma_at_split(b, pos, enc_entries(d), enc_entry(es.last()));
        assert forall|i: int| 0 <= i < d.len() implies encode_utf8((#[trigger] d[i]).0).len() <= usize::MAX by {
            assert(d[i] == es[i]);
        }
        assert forall|i: int| 0 <= i < d.len() implies (#[trigger] d[i]).1.len() < 0x1_0000_0000_0000_0000 by {
            assert(d[i] == es[i]);
        }
        lemma_entries(b, pos, d);
        assert(es[es.len() - 1] == es.last());
        lemma_entry(b, pos + enc_entries(d).len(), es.last());
        assert(d.push(es.last()) =~= es);
        assert((d.len() + 1) as nat == es.len());
    }
}

/// Reading back a shard written in the format gives its filter name and its
/// entries, in order (for names and values whose UTF-8 length fits `usize`).
pub proof fn lemma_shard_round_trip(name: Seq<char>, es: Seq<(Seq<char>, Seq<u32>)>)
    requires
        encode_utf8(name).len() <= usize::MAX,
        texts_fit(es),
        es.len() <= usize::MAX,
        forall|i: int| 0 <= i < es.len() ==> (#[trigger] es[i]).1.len() <= usize::MAX,
    ensures
        parse_shard(enc_shard(name, es)) == Ok::<(Seq<char>, Seq<(Seq<char>, Seq<u32>)>), int>(
            (name, es),
        ),
{
    let b = enc_shard(name, es);
    let h2 = head_bytes(4, 2);
    let t = enc_text(name);
    let hn = head_bytes(4, es.len());
    let en = enc_entries(es);
    assert(b == ((h2 + t) + hn) + en);
    assert(at(b, 0, b));
    lemma_at_split(b, 0, (h2 + t) + hn, en);
    lemma_at_split(b, 0, h2 + t, hn);
    lemma_at_split(b, 0, h2, t);
    lemma_head(b, 0, 4, 2);
    lemma_text(b, h2.len() as int, name);
    lemma_head(b, (h2.len() + t.len()) as int, 4, es.len());
    lemma_entries(b, (h2.len() + t.len() + hn.len()) as int, es);
}

} // verus!
