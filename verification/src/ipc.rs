//! The binary wire protocol.
//!
//! Frames are length-prefixed. A request payload is four lists in fixed
//! order: pages (integers), range (integers), terms (strings), keywords
//! (strings). Each list is `[marker byte][4-byte big-endian byte length]
//! [element payload]`; an integer element is `[marker][4-byte length]
//! [8-byte big-endian signed value]` and a string element is `[marker]
//! [4-byte length][UTF-8 bytes]`. Marker bytes are reserved and never
//! interpreted. A response frame is `[4-byte total length][marker]
//! [4-byte payload length][UTF-8 payload]` with total length equal to the
//! payload length plus five.

use vstd::prelude::*;
use vstd::utf8::{decode_utf8, encode_utf8, valid_utf8};

use crate::text::{bytes_len, string_from_utf8};

verus! {

/// Big-endian bytes of a 32-bit value.
pub open spec fn be32(x: u32) -> Seq<u8> {
    seq![
        ((x >> 24) & 0xff) as u8,
        ((x >> 16) & 0xff) as u8,
        ((x >> 8) & 0xff) as u8,
        (x & 0xff) as u8,
    ]
}

/// The 32-bit value of four big-endian bytes.
pub open spec fn be32_val(b: Seq<u8>) -> u32
    recommends
        b.len() == 4,
{
    ((b[0] as u32) << 24) | ((b[1] as u32) << 16) | ((b[2] as u32) << 8) | (b[3] as u32)
}

/// Big-endian bytes of a 64-bit value.
pub open spec fn be64(x: u64) -> Seq<u8> {
    seq![
        ((x >> 56) & 0xff) as u8,
        ((x >> 48) & 0xff) as u8,
        ((x >> 40) & 0xff) as u8,
        ((x >> 32) & 0xff) as u8,
        ((x >> 24) & 0xff) as u8,
        ((x >> 16) & 0xff) as u8,
        ((x >> 8) & 0xff) as u8,
        (x & 0xff) as u8,
    ]
}

/// The 64-bit value of eight big-endian bytes.
pub open spec fn be64_val(b: Seq<u8>) -> u64
    recommends
        b.len() == 8,
{
    ((b[0] as u64) << 56) | ((b[1] as u64) << 48) | ((b[2] as u64) << 40) | ((b[3] as u64) << 32)
        | ((b[4] as u64) << 24) | ((b[5] as u64) << 16) | ((b[6] as u64) << 8) | (b[7] as u64)
}

/// Two's-complement reading of a 64-bit value.
pub open spec fn i64_of_u64(u: u64) -> int {
    if u < 0x8000000000000000 {
        u as int
    } else {
        u as int - 0x10000000000000000
    }
}

/// Two's-complement image of a signed value.
pub open spec fn u64_of_i64(x: i64) -> u64 {
    if x >= 0 {
        x as u64
    } else {
        (x + 0x10000000000000000) as u64
    }
}

pub proof fn lemma_be32_roundtrip(x: u32)
    ensures
        be32_val(be32(x)) == x,
{
    assert((((((x >> 24) & 0xff) as u8) as u32) << 24) | (((((x >> 16) & 0xff) as u8) as u32)
        << 16) | (((((x >> 8) & 0xff) as u8) as u32) << 8) | (((x & 0xff) as u8) as u32) == x)
        by (bit_vector);
}

pub proof fn lemma_be64_roundtrip(x: u64)
    ensures
        be64_val(be64(x)) == x,
{
    assert((((((x >> 56) & 0xff) as u8) as u64) << 56) | (((((x >> 48) & 0xff) as u8) as u64)
        << 48) | (((((x >> 40) & 0xff) as u8) as u64) << 40) | (((((x >> 32) & 0xff) as u8) as u64)
        << 32) | (((((x >> 24) & 0xff) as u8) as u64) << 24) | (((((x >> 16) & 0xff) as u8) as u64)
        << 16) | (((((x >> 8) & 0xff) as u8) as u64) << 8) | (((x & 0xff) as u8) as u64) == x)
        by (bit_vector);
}

/// The two's-complement mappings invert each other.
pub proof fn lemma_i64_roundtrip(x: i64)
    ensures
        i64_of_u64(u64_of_i64(x)) == x as int,
{
}

/// Reads a big-endian 32-bit value at `pos`.
pub fn read_u32_be(raw: &[u8], pos: usize) -> (x: u32)
    requires
        pos + 4 <= raw@.len(),
    ensures
        x == be32_val(raw@.subrange(pos as int, pos + 4)),
{
    let x = ((raw[pos] as u32) << 24) | ((raw[pos + 1] as u32) << 16) | ((raw[pos + 2] as u32)
        << 8) | (raw[pos + 3] as u32);
    proof {
        let s = raw@.subrange(pos as int, pos + 4);
        assert(s[0] == raw@[pos as int]);
        assert(s[1] == raw@[pos + 1]);
        assert(s[2] == raw@[pos + 2]);
        assert(s[3] == raw@[pos + 3]);
    }
    x
}

/// Reads a big-endian 64-bit value at `pos`, as a signed integer.
pub fn read_i64_be(raw: &[u8], pos: usize) -> (x: i64)
    requires
        pos + 8 <= raw@.len(),
    ensures
        x as int == i64_of_u64(be64_val(raw@.subrange(pos as int, pos + 8))),
{
    let u = ((raw[pos] as u64) << 56) | ((raw[pos + 1] as u64) << 48) | ((raw[pos + 2] as u64)
        << 40) | ((raw[pos + 3] as u64) << 32) | ((raw[pos + 4] as u64) << 24) | ((raw[pos
        + 5] as u64) << 16) | ((raw[pos + 6] as u64) << 8) | (raw[pos + 7] as u64);
    proof {
        let s = raw@.subrange(pos as int, pos + 8);
        assert(s[0] == raw@[pos as int]);
        assert(s[1] == raw@[pos + 1]);
        assert(s[2] == raw@[pos + 2]);
        assert(s[3] == raw@[pos + 3]);
        assert(s[4] == raw@[pos + 4]);
        assert(s[5] == raw@[pos + 5]);
        assert(s[6] == raw@[pos + 6]);
        assert(s[7] == raw@[pos + 7]);
    }
    if u < 0x8000000000000000 {
        u as i64
    } else {
        ((u - 0x8000000000000000) as i64) + i64::MIN
    }
}

/// Appends the big-endian bytes of a 32-bit value.
pub fn push_u32_be(out: &mut Vec<u8>, x: u32)
    ensures
        final(out)@ == old(out)@ + be32(x),
{
    out.push(((x >> 24) & 0xff) as u8);
    out.push(((x >> 16) & 0xff) as u8);
    out.push(((x >> 8) & 0xff) as u8);
    out.push((x & 0xff) as u8);
    proof {
        assert(out@ =~= old(out)@ + be32(x));
    }
}

/// Appends the big-endian two's-complement bytes of a signed value.
pub fn push_i64_be(out: &mut Vec<u8>, x: i64)
    ensures
        final(out)@ == old(out)@ + be64(u64_of_i64(x)),
{
    let u: u64 = if x >= 0 {
        x as u64
    } else {
        ((x - i64::MIN) as u64) + 0x8000000000000000
    };
    proof {
        assert(u == u64_of_i64(x));
    }
    out.push(((u >> 56) & 0xff) as u8);
    out.push(((u >> 48) & 0xff) as u8);
    out.push(((u >> 40) & 0xff) as u8);
    out.push(((u >> 32) & 0xff) as u8);
    out.push(((u >> 24) & 0xff) as u8);
    out.push(((u >> 16) & 0xff) as u8);
    out.push(((u >> 8) & 0xff) as u8);
    out.push((u & 0xff) as u8);
    proof {
        assert(out@ =~= old(out)@ + be64(u));
    }
}

/// A malformed frame: a truncated list or element, a length that crosses a
/// boundary, or string bytes that are not UTF-8. Fatal to the connection.
#[derive(Clone, Copy, PartialEq, Eq, Structural, Debug)]
pub struct DecodeError;

/// The integer elements of a list payload: thirteen bytes each, the value
/// in the last eight.
pub open spec fn int_list_elems(p: Seq<u8>) -> Option<Seq<i64>>
    decreases p.len(),
{
    if p.len() == 0 {
        Some(seq![])
    } else if p.len() >= 13 {
        let v = i64_of_u64(be64_val(p.subrange(5, 13)));
        match int_list_elems(p.skip(13)) {
            Some(r) => Some(seq![v as i64] + r),
            None => None,
        }
    } else {
        None
    }
}

/// The string elements of a list payload: a five-byte header carrying the
/// byte length, then that many UTF-8 bytes.
pub open spec fn str_list_elems(p: Seq<u8>) -> Option<Seq<Seq<char>>>
    decreases p.len(),
{
    if p.len() == 0 {
        Some(seq![])
    } else if p.len() >= 5 {
        let n = be32_val(p.subrange(1, 5)) as int;
        if 5 + n <= p.len() {
            let bytes = p.subrange(5, 5 + n);
            if valid_utf8(bytes) {
                match str_list_elems(p.skip(5 + n)) {
                    Some(r) => Some(seq![decode_utf8(bytes)] + r),
                    None => None,
                }
            } else {
                None
            }
        } else {
            None
        }
    } else {
        None
    }
}

/// The element payload of the list at the head of `s`, and the bytes the
/// list occupies.
pub open spec fn list_payload(s: Seq<u8>) -> Option<(Seq<u8>, int)> {
    if s.len() >= 5 {
        let n = be32_val(s.subrange(1, 5)) as int;
        if 5 + n <= s.len() {
            Some((s.subrange(5, 5 + n), 5 + n))
        } else {
            None
        }
    } else {
        None
    }
}

/// The integer list at the head of `s`: its values and the bytes consumed.
pub open spec fn int_list_at(s: Seq<u8>) -> Option<(Seq<i64>, int)> {
    match list_payload(s) {
        Some((pl, used)) => match int_list_elems(pl) {
            Some(vs) => Some((vs, used)),
            None => None,
        },
        None => None,
    }
}

/// The string list at the head of `s`: its values and the bytes consumed.
pub open spec fn str_list_at(s: Seq<u8>) -> Option<(Seq<Seq<char>>, int)> {
    match list_payload(s) {
        Some((pl, used)) => match str_list_elems(pl) {
            Some(vs) => Some((vs, used)),
            None => None,
        },
        None => None,
    }
}

/// A decoded request payload: pages, range, terms and keywords, with the
/// empty strings that delimiter-splitting leaves behind filtered out of
/// the keywords.
pub open spec fn decode_params_spec(p: Seq<u8>) -> Option<
    (Seq<i64>, Seq<i64>, Seq<Seq<char>>, Seq<Seq<char>>),
> {
    match int_list_at(p) {
        Some((pages, u1)) => match int_list_at(p.skip(u1)) {
            Some((range, u2)) => match str_list_at(p.skip(u1 + u2)) {
                Some((terms, u3)) => match str_list_at(p.skip(u1 + u2 + u3)) {
                    Some((kws, _)) => Some((pages, range, terms, filter_keywords(kws))),
                    None => None,
                },
                None => None,
            },
            None => None,
        },
        None => None,
    }
}

/// Reads a frame's four-byte big-endian length prefix. A length of zero
/// signals end of stream, and the caller closes the connection.
pub fn extract_length(len_buf: &[u8]) -> (n: u32)
    requires
        len_buf@.len() == 4,
    ensures
        n == be32_val(len_buf@),
{
    let n = read_u32_be(len_buf, 0);
    proof {
        assert(len_buf@.subrange(0, 4) =~= len_buf@);
    }
    n
}

/// Parses one integer element of the list payload `[pos, end)`.
fn extract_integer(raw: &[u8], pos: usize, end: usize) -> (r: Result<(i64, usize), DecodeError>)
    requires
        pos <= end <= raw@.len(),
    ensures
        match r {
            Ok((v, p2)) => {
                &&& end - pos >= 13
                &&& v as int == i64_of_u64(
                    be64_val(raw@.subrange(pos as int, end as int).subrange(5, 13)),
                )
                &&& p2 == pos + 13
            },
            Err(_) => end - pos < 13,
        },
{
    if end - pos < 13 {
        return Err(DecodeError);
    }
    let v = read_i64_be(raw, pos + 5);
    proof {
        assert(raw@.subrange(pos as int, end as int).subrange(5, 13) =~= raw@.subrange(
            pos + 5,
            pos + 13,
        ));
    }
    Ok((v, pos + 13))
}

/// Parses one string element of the list payload `[pos, end)`.
fn extract_string(raw: &[u8], pos: usize, end: usize) -> (r: Result<(String, usize), DecodeError>)
    requires
        pos <= end <= raw@.len(),
    ensures
        match r {
            Ok((s, p2)) => {
                let sfx = raw@.subrange(pos as int, end as int);
                &&& sfx.len() >= 5
                &&& 5 + be32_val(sfx.subrange(1, 5)) <= sfx.len()
                &&& valid_utf8(sfx.subrange(5, 5 + be32_val(sfx.subrange(1, 5))))
                &&& s@ == decode_utf8(sfx.subrange(5, 5 + be32_val(sfx.subrange(1, 5))))
                &&& p2 == pos + 5 + be32_val(sfx.subrange(1, 5))
            },
            Err(_) => {
                let sfx = raw@.subrange(pos as int, end as int);
                sfx.len() < 5 || 5 + be32_val(sfx.subrange(1, 5)) > sfx.len() || !valid_utf8(
                    sfx.subrange(5, 5 + be32_val(sfx.subrange(1, 5))),
                )
            },
        },
{
    if end - pos < 5 {
        return Err(DecodeError);
    }
    let n = read_u32_be(raw, pos + 1) as usize;
    proof {
        assert(raw@.subrange(pos as int, end as int).subrange(1, 5) =~= raw@.subrange(
            pos + 1,
            pos + 5,
        ));
    }
    if n > end - (pos + 5) {
        return Err(DecodeError);
    }
    let mut bytes: Vec<u8> = Vec::new();
    let mut k: usize = pos + 5;
    while k < pos + 5 + n
        invariant
            pos + 5 <= k <= pos + 5 + n,
            pos + 5 + n <= end <= raw@.len(),
            bytes@ =~= raw@.subrange(pos + 5, k as int),
        decreases pos + 5 + n - k,
    {
        bytes.push(raw[k]);
        proof {
            assert(bytes@ =~= raw@.subrange(pos + 5, k + 1));
        }
        k = k + 1;
    }
    proof {
        assert(raw@.subrange(pos as int, end as int).subrange(
            5,
            5 + be32_val(raw@.subrange(pos as int, end as int).subrange(1, 5)),
        ) =~= raw@.subrange(pos + 5, pos + 5 + n));
    }
    match string_from_utf8(bytes) {
        Some(s) => Ok((s, pos + 5 + n)),
        None => Err(DecodeError),
    }
}

/// Parses the integer list whose marker byte stands at `pos`; returns the
/// values and the bytes the list consumed.
fn extract_integer_list(raw: &[u8], pos: usize) -> (r: Result<(Vec<i64>, usize), DecodeError>)
    requires
        pos <= raw@.len(),
    ensures
        match r {
            Ok((v, used)) => {
                &&& int_list_at(raw@.skip(pos as int)) == Some((v@, used as int))
                &&& pos + used <= raw@.len()
            },
            Err(_) => int_list_at(raw@.skip(pos as int)) is None,
        },
{
    let ghost s = raw@.skip(pos as int);
    let len = raw.len();
    if len - pos < 5 {
        return Err(DecodeError);
    }
    let n = read_u32_be(raw, pos + 1) as usize;
    proof {
        assert(s.subrange(1, 5) =~= raw@.subrange(pos + 1, pos + 5));
    }
    if n > len - (pos + 5) {
        return Err(DecodeError);
    }
    let endp = pos + 5 + n;
    let ghost pl = raw@.subrange(pos + 5, endp as int);
    proof {
        assert(s.subrange(5, 5 + n) =~= pl);
        assert(list_payload(s) == Some((pl, 5 + n as int)));
    }
    let mut vals: Vec<i64> = Vec::new();
    let mut cur = pos + 5;
    proof {
        assert(pl.skip(0) =~= pl);
        match int_list_elems(pl) {
            Some(t) => {
                assert(vals@ + t =~= t);
            },
            None => {},
        }
    }
    while cur < endp
        invariant
            pos + 5 <= cur <= endp,
            endp == pos + 5 + n,
            endp <= raw@.len(),
            pl == raw@.subrange(pos + 5, endp as int),
            list_payload(raw@.skip(pos as int)) == Some((pl, 5 + n as int)),
            int_list_elems(pl) == match int_list_elems(pl.skip(cur - (pos + 5))) {
                Some(t) => Some(vals@ + t),
                None => None::<Seq<i64>>,
            },
        decreases endp - cur,
    {
        let ghost off = cur - (pos + 5);
        let ghost sfx = pl.skip(off);
        proof {
            assert(sfx =~= raw@.subrange(cur as int, endp as int));
        }
        match extract_integer(raw, cur, endp) {
            Ok((v, nxt)) => {
                proof {
                    assert(sfx.subrange(5, 13) =~= raw@.subrange(cur as int, endp as int).subrange(
                        5,
                        13,
                    ));
                    assert(sfx.skip(13) =~= pl.skip(off + 13));
                }
                let ghost pre_vals = vals@;
                vals.push(v);
                proof {
                    match int_list_elems(pl.skip(off + 13)) {
                        Some(t) => {
                            assert(int_list_elems(sfx) == Some(seq![v] + t));
                            assert(pre_vals + (seq![v] + t) =~= vals@ + t);
                        },
                        None => {
                            assert(int_list_elems(sfx) is None);
                        },
                    }
                }
                cur = nxt;
            },
            Err(e) => {
                proof {
                    assert(sfx.len() > 0 && sfx.len() < 13);
                    assert(int_list_elems(sfx) is None);
                }
                return Err(e);
            },
        }
    }
    proof {
        assert(pl.skip(n as int) =~= Seq::<u8>::empty());
        assert(int_list_elems(pl.skip(n as int)) == Some(Seq::<i64>::empty()));
        assert(vals@ + Seq::<i64>::empty() =~= vals@);
        assert(int_list_at(s) == Some((vals@, 5 + n as int)));
    }
    Ok((vals, 5 + n))
}

/// Parses the string list whose marker byte stands at `pos`; returns the
/// values and the bytes the list consumed.
fn extract_string_list(raw: &[u8], pos: usize) -> (r: Result<(Vec<String>, usize), DecodeError>)
    requires
        pos <= raw@.len(),
    ensures
        match r {
            Ok((v, used)) => {
                &&& str_list_at(raw@.skip(pos as int)) == Some((v.deep_view(), used as int))
                &&& pos + used <= raw@.len()
            },
            Err(_) => str_list_at(raw@.skip(pos as int)) is None,
        },
{
    let ghost s = raw@.skip(pos as int);
    let len = raw.len();
    if len - pos < 5 {
        return Err(DecodeError);
    }
    let n = read_u32_be(raw, pos + 1) as usize;
    proof {
        assert(s.subrange(1, 5) =~= raw@.subrange(pos + 1, pos + 5));
    }
    if n > len - (pos + 5) {
        return Err(DecodeError);
    }
    let endp = pos + 5 + n;
    let ghost pl = raw@.subrange(pos + 5, endp as int);
    proof {
        assert(s.subrange(5, 5 + n) =~= pl);
        assert(list_payload(s) == Some((pl, 5 + n as int)));
    }
    let mut vals: Vec<String> = Vec::new();
    let mut cur = pos + 5;
    proof {
        assert(pl.skip(0) =~= pl);
        match str_list_elems(pl) {
            Some(t) => {
                assert(vals.deep_view() + t =~~= t);
            },
            None => {},
        }
    }
    while cur < endp
        invariant
            pos + 5 <= cur <= endp,
            endp == pos + 5 + n,
            endp <= raw@.len(),
            pl == raw@.subrange(pos + 5, endp as int),
            list_payload(raw@.skip(pos as int)) == Some((pl, 5 + n as int)),
            str_list_elems(pl) == match str_list_elems(pl.skip(cur - (pos + 5))) {
                Some(t) => Some(vals.deep_view() + t),
                None => None::<Seq<Seq<char>>>,
            },
        decreases endp - cur,
    {
        let ghost off = cur - (pos + 5);
        let ghost sfx = pl.skip(off);
        proof {
            assert(sfx =~= raw@.subrange(cur as int, endp as int));
        }
        match extract_string(raw, cur, endp) {
            Ok((st, nxt)) => {
                proof {
                    let m = be32_val(sfx.subrange(1, 5)) as int;
                    assert(sfx.subrange(1, 5) =~= raw@.subrange(cur as int, endp as int).subrange(
                        1,
                        5,
                    ));
                    assert(sfx.subrange(5, 5 + m) =~= raw@.subrange(cur as int, endp as int)
                        .subrange(5, 5 + m));
                    assert(sfx.skip(5 + m) =~= pl.skip(off + 5 + m));
                }
                let ghost pre_vals = vals.deep_view();
                let ghost stv = st@;
                vals.push(st);
                proof {
                    assert(vals.deep_view() =~~= pre_vals.push(stv));
                    let m = be32_val(sfx.subrange(1, 5)) as int;
                    match str_list_elems(pl.skip(off + 5 + m)) {
                        Some(t) => {
                            assert(str_list_elems(sfx) == Some(seq![stv] + t));
                            assert(pre_vals + (seq![stv] + t) =~~= vals.deep_view() + t);
                        },
                        None => {
                            assert(str_list_elems(sfx) is None);
                        },
                    }
                }
                cur = nxt;
            },
            Err(e) => {
                proof {
                    assert(str_list_elems(sfx) is None);
                }
                return Err(e);
            },
        }
    }
    proof {
        assert(pl.skip(n as int) =~= Seq::<u8>::empty());
        assert(str_list_elems(pl.skip(n as int)) == Some(Seq::<Seq<char>>::empty()));
        assert(vals.deep_view() + Seq::<Seq<char>>::empty() =~~= vals.deep_view());
        assert(str_list_at(s) == Some((vals.deep_view(), 5 + n as int)));
    }
    Ok((vals, 5 + n))
}

/// True for the keywords that decoding keeps: the non-empty ones.
pub open spec fn keyword_kept(s: Seq<char>) -> bool {
    s.len() != 0
}

/// The keywords with the empty entries dropped.
pub open spec fn filter_keywords(ss: Seq<Seq<char>>) -> Seq<Seq<char>> {
    ss.filter(|s: Seq<char>| keyword_kept(s))
}

pub proof fn lemma_filter_keywords_push(s: Seq<Seq<char>>, x: Seq<char>)
    ensures
        filter_keywords(s.push(x)) == if keyword_kept(x) {
            filter_keywords(s).push(x)
        } else {
            filter_keywords(s)
        },
{
    reveal(Seq::filter);
    assert(s.push(x).drop_last() =~~= s);
    assert(s.push(x).last() == x);
}

/// Decodes a request payload into its four parameter lists; empty keyword
/// entries are dropped. Any malformed payload is an error, and the caller
/// closes the connection.
pub fn extract_params(raw: &[u8]) -> (r: Result<
    (Vec<i64>, Vec<i64>, Vec<String>, Vec<String>),
    DecodeError,
>)
    ensures
        match r {
            Ok((pages, range, terms, q)) => decode_params_spec(raw@) == Some(
                (pages@, range@, terms.deep_view(), q.deep_view()),
            ),
            Err(_) => decode_params_spec(raw@) is None,
        },
{
    let len = raw.len();
    proof {
        assert(raw@.skip(0) =~= raw@);
        assert(raw@.len() == len);
    }
    let (pages, u1) = match extract_integer_list(raw, 0) {
        Ok(p) => p,
        Err(e) => {
            return Err(e);
        },
    };
    let (range, u2) = match extract_integer_list(raw, u1) {
        Ok(p) => p,
        Err(e) => {
            return Err(e);
        },
    };
    let (terms, u3) = match extract_string_list(raw, u1 + u2) {
        Ok(p) => p,
        Err(e) => {
            return Err(e);
        },
    };
    let (q_raw, _u4) = match extract_string_list(raw, u1 + u2 + u3) {
        Ok(p) => p,
        Err(e) => {
            return Err(e);
        },
    };
    let mut q: Vec<String> = Vec::new();
    let mut i: usize = 0;
    proof {
        assert(q_raw.deep_view().take(0) =~~= Seq::<Seq<char>>::empty());
        reveal(Seq::filter);
        assert(q.deep_view() =~~= filter_keywords(q_raw.deep_view().take(0)));
    }
    while i < q_raw.len()
        invariant
            i <= q_raw.len(),
            q.deep_view() == filter_keywords(q_raw.deep_view().take(i as int)),
        decreases q_raw.len() - i,
    {
        let ghost pre = q_raw.deep_view().take(i as int);
        proof {
            lemma_filter_keywords_push(pre, q_raw.deep_view()[i as int]);
            assert(pre.push(q_raw.deep_view()[i as int]) =~~= q_raw.deep_view().take(i + 1));
        }
        let s = &q_raw[i];
        if s.unicode_len() != 0 {
            let copy = s.clone();
            q.push(copy);
            proof {
                assert(q.deep_view() =~~= filter_keywords(q_raw.deep_view().take(i + 1)));
            }
        }
        i = i + 1;
    }
    proof {
        assert(q_raw.deep_view().take(q_raw@.len() as int) =~~= q_raw.deep_view());
    }
    Ok((pages, range, terms, q))
}

/// The encoded form of one integer element.
pub open spec fn enc_int_elem(v: i64) -> Seq<u8> {
    seq![0u8] + be32(8) + be64(u64_of_i64(v))
}

/// The encoded elements of an integer list.
pub open spec fn enc_int_list_payload(vs: Seq<i64>) -> Seq<u8>
    decreases vs.len(),
{
    if vs.len() == 0 {
        seq![]
    } else {
        enc_int_elem(vs[0]) + enc_int_list_payload(vs.drop_first())
    }
}

/// The encoded form of one string element.
pub open spec fn enc_str_elem(s: Seq<char>) -> Seq<u8> {
    seq![0u8] + be32(bytes_len(s) as u32) + encode_utf8(s)
}

/// The encoded elements of a string list.
pub open spec fn enc_str_list_payload(ss: Seq<Seq<char>>) -> Seq<u8>
    decreases ss.len(),
{
    if ss.len() == 0 {
        seq![]
    } else {
        enc_str_elem(ss[0]) + enc_str_list_payload(ss.drop_first())
    }
}

/// A list frame around an element payload.
pub open spec fn enc_list(payload: Seq<u8>) -> Seq<u8> {
    seq![0u8] + be32(payload.len() as u32) + payload
}

/// The encoded request payload: the four lists in fixed order.
pub open spec fn encode_params_spec(
    pages: Seq<i64>,
    range: Seq<i64>,
    terms: Seq<Seq<char>>,
    kws: Seq<Seq<char>>,
) -> Seq<u8> {
    enc_list(enc_int_list_payload(pages)) + enc_list(enc_int_list_payload(range)) + enc_list(
        enc_str_list_payload(terms),
    ) + enc_list(enc_str_list_payload(kws))
}

/// The sizes a request must stay under so that every length fits its
/// four-byte field.
pub open spec fn lists_encodable(
    pages: Seq<i64>,
    range: Seq<i64>,
    terms: Seq<Seq<char>>,
    kws: Seq<Seq<char>>,
) -> bool {
    &&& 13 * pages.len() <= u32::MAX
    &&& 13 * range.len() <= u32::MAX
    &&& enc_str_list_payload(terms).len() <= u32::MAX
    &&& enc_str_list_payload(kws).len() <= u32::MAX
    &&& forall|i: int| 0 <= i < terms.len() ==> bytes_len(#[trigger] terms[i]) <= u32::MAX
    &&& forall|i: int| 0 <= i < kws.len() ==> bytes_len(#[trigger] kws[i]) <= u32::MAX
}

pub proof fn lemma_enc_int_list_payload_len(vs: Seq<i64>)
    ensures
        enc_int_list_payload(vs).len() == 13 * vs.len(),
    decreases vs.len(),
{
    if vs.len() != 0 {
        lemma_enc_int_list_payload_len(vs.drop_first());
    }
}

/// Decoding inverts encoding, element by element, for integer lists.
pub proof fn lemma_int_elems_roundtrip(vs: Seq<i64>)
    ensures
        int_list_elems(enc_int_list_payload(vs)) == Some(vs),
    decreases vs.len(),
{
    let p = enc_int_list_payload(vs);
    if vs.len() == 0 {
        assert(p =~= Seq::<u8>::empty());
        assert(Some(Seq::<i64>::empty()) =~~= Some(vs));
    } else {
        let v0 = vs[0];
        let rest = enc_int_list_payload(vs.drop_first());
        lemma_enc_int_list_payload_len(vs.drop_first());
        assert(p.len() == 13 + rest.len());
        assert(p.subrange(5, 13) =~= be64(u64_of_i64(v0)));
        lemma_be64_roundtrip(u64_of_i64(v0));
        lemma_i64_roundtrip(v0);
        assert(p.skip(13) =~= rest);
        lemma_int_elems_roundtrip(vs.drop_first());
        assert(seq![v0] + vs.drop_first() =~= vs);
    }
}

/// Decoding inverts encoding, element by element, for string lists.
pub proof fn lemma_str_elems_roundtrip(ss: Seq<Seq<char>>)
    requires
        forall|i: int| 0 <= i < ss.len() ==> bytes_len(#[trigger] ss[i]) <= u32::MAX,
    ensures
        str_list_elems(enc_str_list_payload(ss)) == Some(ss),
    decreases ss.len(),
{
    broadcast use vstd::utf8::encode_utf8_valid_utf8, vstd::utf8::encode_utf8_decode_utf8;

    let p = enc_str_list_payload(ss);
    if ss.len() == 0 {
        assert(p =~= Seq::<u8>::empty());
        assert(Some(Seq::<Seq<char>>::empty()) =~~= Some(ss));
    } else {
        let s0 = ss[0];
        let nb = bytes_len(s0);
        let rest = enc_str_list_payload(ss.drop_first());
        assert(p.len() == 5 + nb + rest.len());
        assert(p.subrange(1, 5) =~= be32(nb as u32));
        lemma_be32_roundtrip(nb as u32);
        assert(be32_val(p.subrange(1, 5)) == nb);
        assert(p.subrange(5, 5 + nb) =~= encode_utf8(s0));
        assert(valid_utf8(encode_utf8(s0)));
        assert(decode_utf8(encode_utf8(s0)) == s0);
        assert(p.skip(5 + nb) =~= rest);
        assert forall|i: int| 0 <= i < ss.drop_first().len() implies bytes_len(
            #[trigger] ss.drop_first()[i],
        ) <= u32::MAX by {
            assert(ss.drop_first()[i] == ss[i + 1]);
        }
        lemma_str_elems_roundtrip(ss.drop_first());
        assert(seq![s0] + ss.drop_first() =~~= ss);
    }
}

/// The list at the head of an encoded list frame is its payload.
pub proof fn lemma_list_at(payload: Seq<u8>, rest: Seq<u8>)
    requires
        payload.len() <= u32::MAX,
    ensures
        list_payload(enc_list(payload) + rest) == Some(
            (payload, 5 + payload.len() as int),
        ),
        (enc_list(payload) + rest).skip(5 + payload.len() as int) == rest,
{
    let s = enc_list(payload) + rest;
    assert(s.subrange(1, 5) =~= be32(payload.len() as u32));
    lemma_be32_roundtrip(payload.len() as u32);
    assert(be32_val(s.subrange(1, 5)) == payload.len());
    assert(s.subrange(5, 5 + payload.len() as int) =~= payload);
    assert(s.skip(5 + payload.len() as int) =~= rest);
}

/// The wire codec round-trip: decoding an encoded request yields the
/// request back, with empty keyword entries filtered as decoding always
/// does.
pub proof fn lemma_request_roundtrip(
    pages: Seq<i64>,
    range: Seq<i64>,
    terms: Seq<Seq<char>>,
    kws: Seq<Seq<char>>,
)
    requires
        lists_encodable(pages, range, terms, kws),
    ensures
        decode_params_spec(encode_params_spec(pages, range, terms, kws)) == Some(
            (pages, range, terms, filter_keywords(kws)),
        ),
{
    let e1 = enc_list(enc_int_list_payload(pages));
    let e2 = enc_list(enc_int_list_payload(range));
    let e3 = enc_list(enc_str_list_payload(terms));
    let e4 = enc_list(enc_str_list_payload(kws));
    let s = encode_params_spec(pages, range, terms, kws);
    lemma_enc_int_list_payload_len(pages);
    lemma_enc_int_list_payload_len(range);
    assert(s =~= e1 + (e2 + (e3 + (e4 + Seq::<u8>::empty()))));
    lemma_list_at(enc_int_list_payload(pages), e2 + (e3 + (e4 + Seq::<u8>::empty())));
    lemma_int_elems_roundtrip(pages);
    let u1 = 5 + enc_int_list_payload(pages).len() as int;
    assert(int_list_at(s) == Some((pages, u1)));
    assert(s.skip(u1) == e2 + (e3 + (e4 + Seq::<u8>::empty())));
    lemma_list_at(enc_int_list_payload(range), e3 + (e4 + Seq::<u8>::empty()));
    lemma_int_elems_roundtrip(range);
    let u2 = 5 + enc_int_list_payload(range).len() as int;
    assert(int_list_at(s.skip(u1)) == Some((range, u2)));
    assert(s.skip(u1).skip(u2) =~= s.skip(u1 + u2));
    assert(s.skip(u1 + u2) == e3 + (e4 + Seq::<u8>::empty()));
    lemma_list_at(enc_str_list_payload(terms), e4 + Seq::<u8>::empty());
    lemma_str_elems_roundtrip(terms);
    let u3 = 5 + enc_str_list_payload(terms).len() as int;
    assert(str_list_at(s.skip(u1 + u2)) == Some((terms, u3)));
    assert(s.skip(u1 + u2).skip(u3) =~= s.skip(u1 + u2 + u3));
    assert(s.skip(u1 + u2 + u3) == e4 + Seq::<u8>::empty());
    lemma_list_at(enc_str_list_payload(kws), Seq::<u8>::empty());
    lemma_str_elems_roundtrip(kws);
    let u4 = 5 + enc_str_list_payload(kws).len() as int;
    assert(str_list_at(s.skip(u1 + u2 + u3)) == Some((kws, u4)));
}

/// Keywords that are all non-empty pass through decoding untouched.
pub proof fn lemma_filter_keywords_all_kept(kws: Seq<Seq<char>>)
    requires
        forall|i: int| 0 <= i < kws.len() ==> (#[trigger] kws[i]).len() != 0,
    ensures
        filter_keywords(kws) == kws,
    decreases kws.len(),
{
    reveal(Seq::filter);
    if kws.len() != 0 {
        assert forall|i: int| 0 <= i < kws.drop_last().len() implies (#[trigger] kws.drop_last()[
        i]).len() != 0 by {
            assert(kws.drop_last()[i] == kws[i]);
        }
        lemma_filter_keywords_all_kept(kws.drop_last());
        assert(kws.last().len() != 0);
        assert(filter_keywords(kws) =~~= kws.drop_last().push(kws.last()));
        assert(kws.drop_last().push(kws.last()) =~~= kws);
    }
}

/// The round trip with no empty keyword entries: decoding an encoded
/// request yields the request back exactly.
pub proof fn lemma_request_roundtrip_exact(
    pages: Seq<i64>,
    range: Seq<i64>,
    terms: Seq<Seq<char>>,
    kws: Seq<Seq<char>>,
)
    requires
        lists_encodable(pages, range, terms, kws),
        forall|i: int| 0 <= i < kws.len() ==> (#[trigger] kws[i]).len() != 0,
    ensures
        decode_params_spec(encode_params_spec(pages, range, terms, kws)) == Some(
            (pages, range, terms, kws),
        ),
{
    lemma_request_roundtrip(pages, range, terms, kws);
    lemma_filter_keywords_all_kept(kws);
}

pub proof fn lemma_enc_int_payload_snoc(vs: Seq<i64>, v: i64)
    ensures
        enc_int_list_payload(vs.push(v)) == enc_int_list_payload(vs) + enc_int_elem(v),
    decreases vs.len(),
{
    if vs.len() == 0 {
        assert(vs.push(v)[0] == v);
        assert(vs.push(v).drop_first() =~= Seq::<i64>::empty());
        assert(enc_int_list_payload(vs.push(v)) == enc_int_elem(v) + enc_int_list_payload(
            vs.push(v).drop_first(),
        ));
        assert(enc_int_list_payload(Seq::<i64>::empty()) =~= Seq::<u8>::empty());
        assert(enc_int_list_payload(vs) =~= Seq::<u8>::empty());
        assert(enc_int_list_payload(vs.push(v)) =~= enc_int_list_payload(vs) + enc_int_elem(v));
    } else {
        assert(vs.push(v)[0] == vs[0]);
        assert(vs.push(v).drop_first() =~= vs.drop_first().push(v));
        lemma_enc_int_payload_snoc(vs.drop_first(), v);
        assert(enc_int_list_payload(vs.push(v)) =~= enc_int_list_payload(vs) + enc_int_elem(v));
    }
}

pub proof fn lemma_enc_str_payload_snoc(ss: Seq<Seq<char>>, s: Seq<char>)
    ensures
        enc_str_list_payload(ss.push(s)) == enc_str_list_payload(ss) + enc_str_elem(s),
    decreases ss.len(),
{
    if ss.len() == 0 {
        assert(ss.push(s)[0] == s);
        assert(ss.push(s).drop_first() =~~= Seq::<Seq<char>>::empty());
        assert(enc_str_list_payload(ss.push(s)) == enc_str_elem(s) + enc_str_list_payload(
            ss.push(s).drop_first(),
        ));
        assert(enc_str_list_payload(Seq::<Seq<char>>::empty()) =~= Seq::<u8>::empty());
        assert(enc_str_list_payload(ss) =~= Seq::<u8>::empty());
        assert(enc_str_list_payload(ss.push(s)) =~= enc_str_list_payload(ss) + enc_str_elem(s));
    } else {
        assert(ss.push(s)[0] == ss[0]);
        assert(ss.push(s).drop_first() =~~= ss.drop_first().push(s));
        lemma_enc_str_payload_snoc(ss.drop_first(), s);
        assert(enc_str_list_payload(ss.push(s)) =~= enc_str_list_payload(ss) + enc_str_elem(s));
    }
}

/// Appends a byte slice.
fn push_bytes(out: &mut Vec<u8>, b: &[u8])
    ensures
        final(out)@ == old(out)@ + b@,
{
    let n = b.len();
    let mut k: usize = 0;
    while k < n
        invariant
            k <= n,
            n == b@.len(),
            out@ == old(out)@ + b@.take(k as int),
        decreases n - k,
    {
        out.push(b[k]);
        proof {
            assert(old(out)@ + b@.take(k as int) + seq![b@[k as int]] =~= old(out)@ + b@.take(
                k + 1,
            ));
        }
        k = k + 1;
    }
    proof {
        assert(old(out)@ + b@.take(n as int) =~= old(out)@ + b@);
    }
}

/// Appends an encoded integer list.
fn push_int_list(out: &mut Vec<u8>, vs: &Vec<i64>)
    requires
        13 * vs@.len() <= u32::MAX,
    ensures
        final(out)@ == old(out)@ + enc_list(enc_int_list_payload(vs@)),
{
    let mut payload: Vec<u8> = Vec::new();
    let mut i: usize = 0;
    proof {
        assert(vs@.take(0) =~= Seq::<i64>::empty());
        assert(payload@ =~= enc_int_list_payload(vs@.take(0)));
    }
    while i < vs.len()
        invariant
            i <= vs@.len(),
            payload@ == enc_int_list_payload(vs@.take(i as int)),
        decreases vs@.len() - i,
    {
        let ghost pre = payload@;
        payload.push(0u8);
        push_u32_be(&mut payload, 8);
        push_i64_be(&mut payload, vs[i]);
        proof {
            lemma_enc_int_payload_snoc(vs@.take(i as int), vs@[i as int]);
            assert(vs@.take(i as int).push(vs@[i as int]) =~= vs@.take(i + 1));
            assert(payload@ =~= pre + enc_int_elem(vs@[i as int]));
        }
        i = i + 1;
    }
    proof {
        assert(vs@.take(vs@.len() as int) =~= vs@);
        lemma_enc_int_list_payload_len(vs@);
    }
    let ghost pre_out = out@;
    out.push(0u8);
    let pl_len = payload.len();
    push_u32_be(out, pl_len as u32);
    push_bytes(out, payload.as_slice());
    proof {
        assert(out@ =~= pre_out + enc_list(enc_int_list_payload(vs@)));
    }
}

/// Appends an encoded string list.
fn push_str_list(out: &mut Vec<u8>, ss: &Vec<String>)
    requires
        enc_str_list_payload(ss.deep_view()).len() <= u32::MAX,
        forall|i: int|
            0 <= i < ss@.len() ==> bytes_len(#[trigger] ss.deep_view()[i]) <= u32::MAX,
    ensures
        final(out)@ == old(out)@ + enc_list(enc_str_list_payload(ss.deep_view())),
{
    let ghost ssv = ss.deep_view();
    let mut payload: Vec<u8> = Vec::new();
    let mut i: usize = 0;
    proof {
        assert(ssv.take(0) =~~= Seq::<Seq<char>>::empty());
        assert(payload@ =~= enc_str_list_payload(ssv.take(0)));
    }
    while i < ss.len()
        invariant
            i <= ssv.len(),
            ssv == ss.deep_view(),
            payload@ == enc_str_list_payload(ssv.take(i as int)),
            forall|k: int| 0 <= k < ssv.len() ==> bytes_len(#[trigger] ssv[k]) <= u32::MAX,
        decreases ssv.len() - i,
    {
        let ghost pre = payload@;
        let b = ss[i].as_str().as_bytes();
        let nb = b.len();
        proof {
            assert(b@ == encode_utf8(ssv[i as int]));
            assert(nb == bytes_len(ssv[i as int]));
        }
        payload.push(0u8);
        push_u32_be(&mut payload, nb as u32);
        push_bytes(&mut payload, b);
        proof {
            lemma_enc_str_payload_snoc(ssv.take(i as int), ssv[i as int]);
            assert(ssv.take(i as int).push(ssv[i as int]) =~~= ssv.take(i + 1));
            assert(payload@ =~= pre + enc_str_elem(ssv[i as int]));
        }
        i = i + 1;
    }
    proof {
        assert(ssv.take(ssv.len() as int) =~~= ssv);
    }
    let ghost pre_out = out@;
    out.push(0u8);
    let pl_len = payload.len();
    push_u32_be(out, pl_len as u32);
    push_bytes(out, payload.as_slice());
    proof {
        assert(out@ =~= pre_out + enc_list(enc_str_list_payload(ssv)));
    }
}

/// Encodes a request payload from its four parameter lists.
pub fn encode_params(
    pages: &Vec<i64>,
    range: &Vec<i64>,
    terms: &Vec<String>,
    keywords: &Vec<String>,
) -> (r: Vec<u8>)
    requires
        lists_encodable(pages@, range@, terms.deep_view(), keywords.deep_view()),
    ensures
        r@ == encode_params_spec(pages@, range@, terms.deep_view(), keywords.deep_view()),
{
    let mut out: Vec<u8> = Vec::new();
    push_int_list(&mut out, pages);
    push_int_list(&mut out, range);
    push_str_list(&mut out, terms);
    push_str_list(&mut out, keywords);
    proof {
        assert(out@ =~= encode_params_spec(
            pages@,
            range@,
            terms.deep_view(),
            keywords.deep_view(),
        ));
    }
    out
}

/// The encoded response frame around a result payload.
pub open spec fn encode_result_spec(s: Seq<char>) -> Seq<u8> {
    be32((bytes_len(s) + 5) as u32) + seq![0u8] + be32(bytes_len(s) as u32) + encode_utf8(s)
}

/// A decoded response frame: its payload text, when the frame is whole and
/// its total length is the payload length plus five.
pub open spec fn decode_result_spec(f: Seq<u8>) -> Option<Seq<char>> {
    if f.len() >= 9 {
        let total = be32_val(f.subrange(0, 4)) as int;
        let n = be32_val(f.subrange(5, 9)) as int;
        if total == n + 5 && 9 + n <= f.len() && valid_utf8(f.subrange(9, 9 + n)) {
            Some(decode_utf8(f.subrange(9, 9 + n)))
        } else {
            None
        }
    } else {
        None
    }
}

/// Encodes a response frame: total length, marker, payload length, payload.
pub fn encode_result(result: String) -> (r: Vec<u8>)
    requires
        bytes_len(result@) + 5 <= u32::MAX,
    ensures
        r@ == encode_result_spec(result@),
{
    let b = result.as_str().as_bytes();
    let n = b.len();
    proof {
        assert(n == bytes_len(result@));
    }
    let mut out: Vec<u8> = Vec::new();
    push_u32_be(&mut out, (n as u32) + 5);
    out.push(0u8);
    push_u32_be(&mut out, n as u32);
    push_bytes(&mut out, b);
    proof {
        assert(out@ =~= encode_result_spec(result@));
    }
    out
}

/// Decodes a response frame back into its payload text.
pub fn decode_result(frame: &[u8]) -> (r: Result<String, DecodeError>)
    ensures
        match r {
            Ok(s) => decode_result_spec(frame@) == Some(s@),
            Err(_) => decode_result_spec(frame@) is None,
        },
{
    let len = frame.len();
    if len < 9 {
        return Err(DecodeError);
    }
    let total = read_u32_be(frame, 0) as usize;
    let n = read_u32_be(frame, 5) as usize;
    if (total as u64) != (n as u64) + 5 {
        return Err(DecodeError);
    }
    if n > len - 9 {
        return Err(DecodeError);
    }
    let mut bytes: Vec<u8> = Vec::new();
    let mut k: usize = 9;
    while k < 9 + n
        invariant
            9 <= k <= 9 + n,
            9 + n <= len,
            len == frame@.len(),
            bytes@ =~= frame@.subrange(9, k as int),
        decreases 9 + n - k,
    {
        bytes.push(frame[k]);
        proof {
            assert(bytes@ =~= frame@.subrange(9, k + 1));
        }
        k = k + 1;
    }
    proof {
        assert(frame@.subrange(9, 9 + n as int) =~= bytes@);
    }
    match string_from_utf8(bytes) {
        Some(s) => Ok(s),
        None => Err(DecodeError),
    }
}

/// The response frame law: the first four bytes carry the payload length
/// plus five, and decoding an encoded frame yields the payload back.
pub proof fn lemma_response_roundtrip(s: Seq<char>)
    requires
        bytes_len(s) + 5 <= u32::MAX,
    ensures
        be32_val(encode_result_spec(s).subrange(0, 4)) == bytes_len(s) + 5,
        decode_result_spec(encode_result_spec(s)) == Some(s),
{
    broadcast use vstd::utf8::encode_utf8_valid_utf8, vstd::utf8::encode_utf8_decode_utf8;

    let f = encode_result_spec(s);
    let nb = bytes_len(s);
    assert(f.subrange(0, 4) =~= be32((nb + 5) as u32));
    lemma_be32_roundtrip((nb + 5) as u32);
    assert(f.subrange(5, 9) =~= be32(nb as u32));
    lemma_be32_roundtrip(nb as u32);
    assert(f.subrange(9, 9 + nb) =~= encode_utf8(s));
    assert(valid_utf8(encode_utf8(s)));
    assert(decode_utf8(encode_utf8(s)) == s);
}

} // verus!
