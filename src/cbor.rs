//! The CBOR items that a filter shard is made of, read with `minicbor`.
use minicbor::Decoder;
use vstd::prelude::*;
use vstd::utf8::{decode_utf8, valid_utf8};

verus! {

/// The big-endian value of the `k` bytes of `b` from `start`.
pub open spec fn be_value(b: Seq<u8>, start: int, k: nat) -> nat
    decreases k,
{
    if k == 0 {
        0
    } else {
        be_value(b, start, (k - 1) as nat) * 256 + b[start + k - 1] as nat
    }
}

/// The head of an item of major type `major` at `pos`: its argument (none
/// for an indefinite length) and the position after the head.
pub open spec fn cbor_head(b: Seq<u8>, pos: int, major: u8) -> Option<(Option<u64>, int)> {
    if pos < 0 || pos >= b.len() || b[pos] / 32 != major {
        None
    } else {
        let info = b[pos] % 32;
        if info < 24 {
            Some((Some(info as u64), pos + 1))
        } else if info == 31 {
            Some((None, pos + 1))
        } else if 24 <= info <= 27 {
            let k: nat = if info == 24 {
                1
            } else if info == 25 {
                2
            } else if info == 26 {
                4
            } else {
                8
            };
            if pos + 1 + k <= b.len() {
                Some((Some(be_value(b, pos + 1, k) as u64), pos + 1 + k))
            } else {
                None
            }
        } else {
            None
        }
    }
}

/// An array head at `pos`: its length (none when indefinite) and the position after it.
pub open spec fn cbor_array(b: Seq<u8>, pos: int) -> Option<(Option<u64>, int)> {
    cbor_head(b, pos, 4)
}

/// An unsigned integer of at most 32 bits at `pos`, and the position after it.
pub open spec fn cbor_u32(b: Seq<u8>, pos: int) -> Option<(u32, int)> {
    match cbor_head(b, pos, 0) {
        Some((Some(v), p)) => if v <= u32::MAX {
            Some((v as u32, p))
        } else {
            None
        },
        _ => None,
    }
}

/// A text string of definite length at `pos`, and the position after it.
pub open spec fn cbor_str(b: Seq<u8>, pos: int) -> Option<(Seq<char>, int)> {
    match cbor_head(b, pos, 3) {
        Some((Some(n), p)) => if n <= usize::MAX && p + n <= b.len() && valid_utf8(
            b.subrange(p, p + n),
        ) {
            Some((decode_utf8(b.subrange(p, p + n)), p + n))
        } else {
            None
        },
        _ => None,
    }
}

/// Relies on `minicbor::Decoder::array` (from the position given by
/// `Decoder::set_position`): the array head, or an error where there is none.
#[verifier::external_body]
fn read_array(b: &[u8], pos: usize) -> (r: Option<(Option<u64>, usize)>)
    ensures
        r matches Some((n, p)) ==> cbor_array(b@, pos as int) == Some((n, p as int)),
        r is None ==> cbor_array(b@, pos as int) is None,
{
    let mut d = Decoder::new(b);
    d.set_position(pos);
    let n = d.array().ok()?;
    Some((n, d.position()))
}

/// Relies on `minicbor::Decoder::u32` (from the position given by
/// `Decoder::set_position`): an unsigned integer that fits 32 bits.
#[verifier::external_body]
fn read_u32(b: &[u8], pos: usize) -> (r: Option<(u32, usize)>)
    ensures
        r matches Some((v, p)) ==> cbor_u32(b@, pos as int) == Some((v, p as int)),
        r is None ==> cbor_u32(b@, pos as int) is None,
{
    let mut d = Decoder::new(b);
    d.set_position(pos);
    let v = d.u32().ok()?;
    Some((v, d.position()))
}

/// Relies on `minicbor::Decoder::str` (from the position given by
/// `Decoder::set_position`): a definite-length text string, checked as UTF-8.
#[verifier::external_body]
fn read_str(b: &[u8], pos: usize) -> (r: Option<(String, usize)>)
    ensures
        r matches Some((s, p)) ==> cbor_str(b@, pos as int) == Some((s@, p as int)),
        r is None ==> cbor_str(b@, pos as int) is None,
{
    let mut d = Decoder::new(b);
    d.set_position(pos);
    let s = d.str().ok()?.to_owned();
    Some((s, d.position()))
}

/// The page ids of a shard: `n` integers from `pos`, and the position after
/// them; or the position of the first that cannot be read.
pub open spec fn parse_pages(b: Seq<u8>, pos: int, n: nat) -> Result<(Seq<u32>, int), int>
    decreases n,
{
    if n == 0 {
        Ok((Seq::empty(), pos))
    } else {
        match parse_pages(b, pos, (n - 1) as nat) {
            Ok((ps, p)) => match cbor_u32(b, p) {
                Some((v, q)) => Ok((ps.push(v), q)),
                None => Err(p),
            },
            Err(e) => Err(e),
        }
    }
}

/// One `[value, [page, ...]]` entry at `pos`.
pub open spec fn parse_entry(b: Seq<u8>, pos: int) -> Result<((Seq<char>, Seq<u32>), int), int> {
    match cbor_array(b, pos) {
        Some((Some(2), q1)) => match cbor_str(b, q1) {
            Some((v, q2)) => match cbor_array(b, q2) {
                Some((Some(n), q3)) => match parse_pages(b, q3, n as nat) {
                    Ok((ps, q4)) => Ok(((v, ps), q4)),
                    Err(e) => Err(e),
                },
                _ => Err(q2),
            },
            None => Err(q1),
        },
        _ => Err(pos),
    }
}

/// `n` entries from `pos`.
pub open spec fn parse_entries(b: Seq<u8>, pos: int, n: nat) -> Result<
    (Seq<(Seq<char>, Seq<u32>)>, int),
    int,
>
    decreases n,
{
    if n == 0 {
        Ok((Seq::empty(), pos))
    } else {
        match parse_entries(b, pos, (n - 1) as nat) {
            Ok((es, p)) => match parse_entry(b, p) {
                Ok((e, q)) => Ok((es.push(e), q)),
                Err(x) => Err(x),
            },
            Err(x) => Err(x),
        }
    }
}

/// A whole shard, `[name, [[value, [page, ...]], ...]]`: the filter name and
/// its entries in order; or the position of the first item that cannot be
/// read or has the wrong shape.
pub open spec fn parse_shard(b: Seq<u8>) -> Result<(Seq<char>, Seq<(Seq<char>, Seq<u32>)>), int> {
    match cbor_array(b, 0) {
        Some((Some(2), q1)) => match cbor_str(b, q1) {
            Some((name, q2)) => match cbor_array(b, q2) {
                Some((Some(n), q3)) => match parse_entries(b, q3, n as nat) {
                    Ok((es, _)) => Ok((name, es)),
                    Err(e) => Err(e),
                },
                _ => Err(q2),
            },
            None => Err(q1),
        },
        _ => Err(0),
    }
}

proof fn lemma_pages_err(b: Seq<u8>, pos: int, m: nat, n: nat)
    requires
        m <= n,
        parse_pages(b, pos, m) is Err,
    ensures
        parse_pages(b, pos, n) == parse_pages(b, pos, m),
    decreases n - m,
{
    if n > m {
        lemma_pages_err(b, pos, m, (n - 1) as nat);
    }
}

proof fn lemma_entries_err(b: Seq<u8>, pos: int, m: nat, n: nat)
    requires
        m <= n,
        parse_entries(b, pos, m) is Err,
    ensures
        parse_entries(b, pos, n) == parse_entries(b, pos, m),
    decreases n - m,
{
    if n > m {
        lemma_entries_err(b, pos, m, (n - 1) as nat);
    }
}

/// Reads `n` page ids from `pos`.
pub fn read_pages(b: &[u8], pos: usize, n: u64) -> (r: Result<(Vec<u32>, usize), usize>)
    ensures
        r matches Ok((ps, p)) ==> parse_pages(b@, pos as int, n as nat) == Ok::<(Seq<u32>, int), int>((ps@, p as int)),
        r matches Err(e) ==> parse_pages(b@, pos as int, n as nat) == Err::<(Seq<u32>, int), int>(e as int),
{
    let mut ps: Vec<u32> = Vec::new();
    let mut p = pos;
    let mut c: u64 = 0;
    while c < n
        invariant
            c <= n,
            parse_pages(b@, pos as int, c as nat) == Ok::<(Seq<u32>, int), int>((ps@, p as int)),
        decreases n - c,
    {
        match read_u32(b, p) {
            Some((v, q)) => {
                ps.push(v);
                p = q;
            },
            None => {
                proof {
                    lemma_pages_err(b@, pos as int, (c + 1) as nat, n as nat);
                }
                return Err(p);
            },
        }
        c += 1;
    }
    Ok((ps, p))
}

/// Reads one `[value, [page, ...]]` entry at `pos`.
pub fn read_entry(b: &[u8], pos: usize) -> (r: Result<((String, Vec<u32>), usize), usize>)
    ensures
        r matches Ok((e, p)) ==> parse_entry(b@, pos as int) == Ok::<((Seq<char>, Seq<u32>), int), int>(((e.0@, e.1@), p as int)),
        r matches Err(x) ==> parse_entry(b@, pos as int) == Err::<((Seq<char>, Seq<u32>), int), int>(x as int),
{
    let q1 = match read_array(b, pos) {
        Some((Some(2), q1)) => q1,
        _ => return Err(pos),
    };
    let (v, q2) = match read_str(b, q1) {
        Some(x) => x,
        None => return Err(q1),
    };
    let (n, q3) = match read_array(b, q2) {
        Some((Some(n), q3)) => (n, q3),
        _ => return Err(q2),
    };
    match read_pages(b, q3, n) {
        Ok((ps, q4)) => Ok(((v, ps), q4)),
        Err(e) => Err(e),
    }
}

/// Reads `n` entries from `pos`.
pub fn read_entries(b: &[u8], pos: usize, n: u64) -> (r: Result<(Vec<(String, Vec<u32>)>, usize), usize>)
    ensures
        r matches Ok((es, p)) ==> parse_entries(b@, pos as int, n as nat) == Ok::<(Seq<(Seq<char>, Seq<u32>)>, int), int>((entry_views(es@), p as int)),
        r matches Err(e) ==> parse_entries(b@, pos as int, n as nat) == Err::<(Seq<(Seq<char>, Seq<u32>)>, int), int>(e as int),
{
    let mut es: Vec<(String, Vec<u32>)> = Vec::new();
    let mut p = pos;
    let mut c: u64 = 0;
    proof {
        assert(entry_views(es@) =~= Seq::empty());
    }
    while c < n
        invariant
            c <= n,
            parse_entries(b@, pos as int, c as nat) == Ok::<(Seq<(Seq<char>, Seq<u32>)>, int), int>((entry_views(es@), p as int)),
        decreases n - c,
    {
        match read_entry(b, p) {
            Ok((e, q)) => {
                let ghost before = entry_views(es@);
                es.push(e);
                proof {
                    assert(entry_views(es@) =~= before.push((e.0@, e.1@)));
                }
                p = q;
            },
            Err(x) => {
                proof {
                    lemma_entries_err(b@, pos as int, (c + 1) as nat, n as nat);
                }
                return Err(x);
            },
        }
        c += 1;
    }
    Ok((es, p))
}

/// The entries of a shard, as sequences.
pub open spec fn entry_views(es: Seq<(String, Vec<u32>)>) -> Seq<(Seq<char>, Seq<u32>)> {
    es.map_values(|e: (String, Vec<u32>)| (e.0@, e.1@))
}

/// Reads a whole shard: its filter name and its entries.
pub fn read_shard(b: &[u8]) -> (r: Result<(String, Vec<(String, Vec<u32>)>), usize>)
    ensures
        r matches Ok((name, es)) ==> parse_shard(b@) == Ok::<(Seq<char>, Seq<(Seq<char>, Seq<u32>)>), int>((name@, entry_views(es@))),
        r matches Err(e) ==> parse_shard(b@) == Err::<(Seq<char>, Seq<(Seq<char>, Seq<u32>)>), int>(e as int),
{
    let q1 = match read_array(b, 0) {
        Some((Some(2), q1)) => q1,
        _ => return Err(0),
    };
    let (name, q2) = match read_str(b, q1) {
        Some(x) => x,
        None => return Err(q1),
    };
    let (n, q3) = match read_array(b, q2) {
        Some((Some(n), q3)) => (n, q3),
        _ => return Err(q2),
    };
    match read_entries(b, q3, n) {
        Ok((es, _)) => Ok((name, es)),
        Err(e) => Err(e),
    }
}

} // verus!
