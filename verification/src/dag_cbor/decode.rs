//! The DAG-CBOR decoder.

use crate::cid::Cid;
use crate::codec::Error;
use crate::dag_cbor::format::{
    arg_floor, arg_width, be_value, cbor_arg, cbor_bytes, cbor_decoding, cbor_encodable,
    cbor_encoding, cbor_entries, cbor_items, cbor_link, cbor_simple, cbor_text, cbor_value,
    MAX_DEPTH,
};
use crate::dag_cbor::laws::lemma_encode_decode;
use crate::bytes::{key_order, slice_to_vec};
use crate::ipld::{list_view, map_view, Ipld, IpldView};
use vstd::prelude::*;
use vstd::slice::slice_subrange;
use vstd::utf8::{decode_utf8, encode_utf8, valid_utf8};

verus! {

/// 256 to the power `k`.
pub open spec fn pow256(k: nat) -> nat
    decreases k,
{
    if k == 0 {
        1
    } else {
        256 * pow256((k - 1) as nat)
    }
}

/// Bytes stand for a number below 256 to the power of their count.
pub proof fn lemma_be_value_bound(s: Seq<u8>)
    ensures
        be_value(s) < pow256(s.len()),
    decreases s.len(),
{
    if s.len() > 0 {
        lemma_be_value_bound(s.drop_last());
    }
}

/// `String::from_utf8`, with the error dropped: the string of exactly these
/// bytes where they are UTF-8, and none where they are not.
#[verifier::external_body]
fn string_from_utf8(bytes: Vec<u8>) -> (r: Option<String>)
    ensures
        r is Some <==> valid_utf8(bytes@),
        r is Some ==> encode_utf8(r->Some_0@) == bytes@,
{
    String::from_utf8(bytes).ok()
}

/// The number that the `width` bytes from `pos` on stand for, most
/// significant first.
fn read_be(bytes: &[u8], pos: usize, width: usize) -> (n: u64)
    requires
        width <= 8,
        pos + width <= bytes@.len(),
    ensures
        n == be_value(bytes@.subrange(pos as int, pos + width)),
{
    let len = bytes.len();
    let mut n: u64 = 0;
    let mut i: usize = 0;
    while i < width
        invariant
            i <= width <= 8,
            pos + width <= bytes@.len() == len,
            n == be_value(bytes@.subrange(pos as int, pos + i)),
        decreases width - i,
    {
        proof {
            let s = bytes@.subrange(pos as int, pos + i + 1);
            assert(s.drop_last() =~= bytes@.subrange(pos as int, pos + i));
            lemma_be_value_bound(s.drop_last());
            reveal_with_fuel(pow256, 9);
            lemma_pow256_monotonic(i as nat, 7);
        }
        n = n * 256 + bytes[pos + i] as u64;
        i += 1;
    }
    n
}

/// The powers of 256 ascend.
proof fn lemma_pow256_monotonic(a: nat, b: nat)
    requires
        a <= b,
    ensures
        pow256(a) <= pow256(b),
    decreases b,
{
    if a < b {
        lemma_pow256_monotonic(a, (b - 1) as nat);
    }
}

/// Reads the argument of the head at `pos`, which is not of major type 7:
/// the argument and the position behind the head.
fn decode_arg(bytes: &[u8], pos: usize) -> (res: Result<(u64, usize), Error>)
    requires
        pos < bytes@.len(),
    ensures
        match cbor_arg(bytes@.skip(pos as int)) {
            Ok((n, h)) => res == Ok::<(u64, usize), Error>((n as u64, (pos + h) as usize)) && n
                <= u64::MAX && pos + h <= bytes@.len() && h >= 1,
            Err(e) => res == Err::<(u64, usize), Error>(e),
        },
{
    let ghost s = bytes@.skip(pos as int);
    let first = bytes[pos];
    assert(s[0] == first);
    let major = first / 32;
    let info = first % 32;
    if info < 24 {
        return Ok((info as u64, pos + 1));
    }
    if info == 31 && 2 <= major && major <= 5 {
        return Err(Error::IndefiniteLengthNotAllowed);
    }
    if info >= 28 {
        return Err(Error::InvalidCborMajor);
    }
    let width: usize = if info == 24 {
        1
    } else if info == 25 {
        2
    } else if info == 26 {
        4
    } else {
        8
    };
    let floor: u64 = if info == 24 {
        24
    } else if info == 25 {
        0x100
    } else if info == 26 {
        0x1_0000
    } else {
        0x1_0000_0000
    };
    assert(width == arg_width(info as nat));
    assert(floor == arg_floor(info as nat));
    if bytes.len() - pos < 1 + width {
        return Err(Error::UnexpectedEof);
    }
    let n = read_be(bytes, pos + 1, width);
    assert(s.subrange(1, 1 + width) =~= bytes@.subrange(pos + 1, pos + 1 + width));
    if n < floor {
        return Err(Error::NonCanonical);
    }
    Ok((n, pos + 1 + width))
}

/// Reads the byte string at `pos`: where its bytes start and where they end.
fn decode_bytes(bytes: &[u8], pos: usize) -> (res: Result<(usize, usize), Error>)
    requires
        pos <= bytes@.len(),
    ensures
        match cbor_bytes(bytes@.skip(pos as int)) {
            Ok((b, n)) => res is Ok && res->Ok_0.0 <= res->Ok_0.1 == pos + n <= bytes@.len() && b
                == bytes@.subrange(res->Ok_0.0 as int, res->Ok_0.1 as int),
            Err(e) => res == Err::<(usize, usize), Error>(e),
        },
{
    let ghost s = bytes@.skip(pos as int);
    if pos >= bytes.len() {
        return Err(Error::UnexpectedEof);
    }
    assert(s[0] == bytes@[pos as int]);
    if bytes[pos] / 32 != 2 {
        return Err(Error::InvalidCborMajor);
    }
    let (n, start) = match decode_arg(bytes, pos) {
        Ok(x) => x,
        Err(e) => return Err(e),
    };
    if ((bytes.len() - start) as u64) < n {
        return Err(Error::UnexpectedEof);
    }
    let end = start + n as usize;
    assert(s.subrange(start - pos, end - pos) =~= bytes@.subrange(start as int, end as int));
    Ok((start, end))
}

/// Reads the text string at `pos`: the string and the position behind it.
fn decode_text(bytes: &[u8], pos: usize) -> (res: Result<(String, usize), Error>)
    requires
        pos <= bytes@.len(),
    ensures
        match cbor_text(bytes@.skip(pos as int)) {
            Ok((b, n)) => res is Ok && encode_utf8(res->Ok_0.0@) == b && res->Ok_0.0@
                == decode_utf8(b) && res->Ok_0.1 == pos + n <= bytes@.len(),
            Err(e) => res is Err && res->Err_0 == e,
        },
{
    let ghost s = bytes@.skip(pos as int);
    if pos >= bytes.len() {
        return Err(Error::UnexpectedEof);
    }
    assert(s[0] == bytes@[pos as int]);
    if bytes[pos] / 32 != 3 {
        return Err(Error::InvalidCborMajor);
    }
    let (n, start) = match decode_arg(bytes, pos) {
        Ok(x) => x,
        Err(e) => return Err(e),
    };
    if ((bytes.len() - start) as u64) < n {
        return Err(Error::UnexpectedEof);
    }
    let end = start + n as usize;
    assert(s.subrange(start - pos, end - pos) =~= bytes@.subrange(start as int, end as int));
    match string_from_utf8(slice_to_vec(slice_subrange(bytes, start, end))) {
        Some(text) => {
            proof {
                vstd::utf8::encode_utf8_decode_utf8(text@);
            }
            Ok((text, end))
        },
        None => Err(Error::InvalidUtf8),
    }
}

/// Reads the byte string at `pos`, which stands behind tag 42: the CID in
/// it and the position behind it.
fn decode_link(bytes: &[u8], pos: usize) -> (res: Result<(Cid, usize), Error>)
    requires
        pos <= bytes@.len(),
    ensures
        match cbor_link(bytes@.skip(pos as int)) {
            Ok((c, n)) => res is Ok && res->Ok_0.0@ == c && c.valid(64) && res->Ok_0.1 == pos + n
                <= bytes@.len(),
            Err(e) => res is Err && res->Err_0 == e,
        },
{
    let (start, end) = match decode_bytes(bytes, pos) {
        Ok(x) => x,
        Err(e) => return Err(e),
    };
    if start == end || bytes[start] != 0 {
        return Err(Error::InvalidCidBase);
    }
    let payload = slice_subrange(bytes, start + 1, end);
    assert(payload@ =~= bytes@.subrange(start as int, end as int).skip(1));
    match Cid::from_bytes(payload) {
        Ok(cid) => {
            let _ = cid.hash();
            Ok((cid, end))
        },
        Err(e) => Err(e),
    }
}

/// Reads the item of major type 7 at `pos`: its value and the position
/// behind it.
fn decode_simple(bytes: &[u8], pos: usize) -> (res: Result<(Ipld, usize), Error>)
    requires
        pos < bytes@.len(),
    ensures
        match cbor_simple(bytes@.skip(pos as int)) {
            Ok((v, n)) => res is Ok && res->Ok_0.0@ == v && res->Ok_0.1 == pos + n <= bytes@.len(),
            Err(e) => res is Err && res->Err_0 == e,
        },
{
    let ghost s = bytes@.skip(pos as int);
    assert(s[0] == bytes@[pos as int]);
    let info = bytes[pos] % 32;
    if info == 20 {
        Ok((Ipld::Bool(false), pos + 1))
    } else if info == 21 {
        Ok((Ipld::Bool(true), pos + 1))
    } else if info == 22 {
        Ok((Ipld::Null, pos + 1))
    } else if info == 25 || info == 26 {
        Err(Error::InvalidFloatWidth)
    } else if info != 27 {
        Err(Error::InvalidCborMajor)
    } else if bytes.len() - pos < 9 {
        Err(Error::UnexpectedEof)
    } else {
        let bits = read_be(bytes, pos + 1, 8);
        assert(s.subrange(1, 9) =~= bytes@.subrange(pos + 1, pos + 9));
        Ok((Ipld::Float(bits), pos + 9))
    }
}

/// Reads the value at `pos`, following containers `budget` levels deep: the
/// value and the position behind it.
pub fn decode_value(bytes: &[u8], pos: usize, budget: usize) -> (res: Result<(Ipld, usize), Error>)
    requires
        pos <= bytes@.len(),
    ensures
        match cbor_value(bytes@.skip(pos as int), budget as nat) {
            Ok((v, n)) => res is Ok && res->Ok_0.0@ == v && res->Ok_0.1 == pos + n <= bytes@.len(),
            Err(e) => res is Err && res->Err_0 == e,
        },
    decreases budget, 0nat,
{
    let ghost s = bytes@.skip(pos as int);
    if pos >= bytes.len() {
        return Err(Error::UnexpectedEof);
    }
    assert(s[0] == bytes@[pos as int]);
    let major = bytes[pos] / 32;
    if major == 7 {
        return decode_simple(bytes, pos);
    }
    if major == 2 {
        return match decode_bytes(bytes, pos) {
            Ok((start, end)) => Ok((Ipld::Bytes(slice_to_vec(slice_subrange(bytes, start, end))), end)),
            Err(e) => Err(e),
        };
    }
    if major == 3 {
        return match decode_text(bytes, pos) {
            Ok((text, end)) => Ok((Ipld::String(text), end)),
            Err(e) => Err(e),
        };
    }
    let (n, start) = match decode_arg(bytes, pos) {
        Ok(x) => x,
        Err(e) => return Err(e),
    };
    let ghost h = start - pos;
    assert(s.skip(h) =~= bytes@.skip(start as int));
    if major == 0 {
        return Ok((Ipld::Integer(n as i128), start));
    }
    if major == 1 {
        return Ok((Ipld::Integer(-1 - (n as i128)), start));
    }
    if major == 6 {
        if n != 42 {
            return Err(Error::UnknownTag(n));
        }
        return match decode_link(bytes, start) {
            Ok((cid, end)) => Ok((Ipld::Link(cid), end)),
            Err(e) => Err(e),
        };
    }
    if budget == 0 {
        return Err(Error::RecursionLimit);
    }
    if major == 4 {
        match decode_items(bytes, start, n, budget - 1) {
            Ok((items, end)) => Ok((Ipld::List(items), end)),
            Err(e) => Err(e),
        }
    } else {
        match decode_entries(bytes, start, n, budget - 1) {
            Ok((entries, end)) => Ok((Ipld::StringMap(entries), end)),
            Err(e) => Err(e),
        }
    }
}

/// Reads `n` items from `start` on: the items and the position behind them.
fn decode_items(bytes: &[u8], start: usize, n: u64, budget: usize) -> (res: Result<
    (Vec<Ipld>, usize),
    Error,
>)
    requires
        start <= bytes@.len(),
    ensures
        match cbor_items(bytes@.skip(start as int), n as nat, budget as nat) {
            Ok((xs, m)) => res is Ok && list_view(res->Ok_0.0@) == xs && res->Ok_0.1 == start + m
                <= bytes@.len(),
            Err(e) => res is Err && res->Err_0 == e,
        },
    decreases budget, 1nat,
{
    let mut items: Vec<Ipld> = Vec::new();
    let mut cur = start;
    let mut i: u64 = 0;
    assert(list_view(items@) =~= Seq::<IpldView>::empty());
    while i < n
        invariant
            i <= n,
            start <= cur <= bytes@.len(),
            match cbor_items(bytes@.skip(cur as int), (n - i) as nat, budget as nat) {
                Ok((vs, m)) => cbor_items(bytes@.skip(start as int), n as nat, budget as nat)
                    == Ok::<(Seq<IpldView>, nat), Error>(
                    (list_view(items@) + vs, (cur - start + m) as nat),
                ),
                Err(e) => cbor_items(bytes@.skip(start as int), n as nat, budget as nat) == Err::<
                    (Seq<IpldView>, nat),
                    Error,
                >(e),
            },
        decreases n - i,
    {
        let ghost had = list_view(items@);
        let (item, next) = match decode_value(bytes, cur, budget) {
            Ok(x) => x,
            Err(e) => return Err(e),
        };
        assert(bytes@.skip(cur as int).skip(next - cur) =~= bytes@.skip(next as int));
        items.push(item);
        proof {
            let rest = cbor_items(bytes@.skip(next as int), (n - i - 1) as nat, budget as nat);
            if let Ok((vs, m)) = rest {
                assert(list_view(items@) + vs =~= had + (seq![item@] + vs));
            }
        }
        cur = next;
        i += 1;
    }
    assert(list_view(items@) + Seq::<IpldView>::empty() =~= list_view(items@));
    Ok((items, cur))
}

/// Reads `n` entries from `start` on: the entries and the position behind
/// them.
#[verifier::rlimit(40)]
fn decode_entries(bytes: &[u8], start: usize, n: u64, budget: usize) -> (res: Result<
    (Vec<(String, Ipld)>, usize),
    Error,
>)
    requires
        start <= bytes@.len(),
    ensures
        match cbor_entries(bytes@.skip(start as int), n as nat, budget as nat, None) {
            Ok((es, m)) => res is Ok && map_view(res->Ok_0.0@) == es && res->Ok_0.1 == start + m
                <= bytes@.len(),
            Err(e) => res is Err && res->Err_0 == e,
        },
    decreases budget, 1nat,
{
    let mut entries: Vec<(String, Ipld)> = Vec::new();
    let mut cur = start;
    let mut i: u64 = 0;
    assert(map_view(entries@) =~= Seq::<(Seq<char>, IpldView)>::empty());
    while i < n
        invariant
            i <= n,
            start <= cur <= bytes@.len(),
            match cbor_entries(
                bytes@.skip(cur as int),
                (n - i) as nat,
                budget as nat,
                if entries@.len() == 0 {
                    None
                } else {
                    Some(encode_utf8(entries@.last().0@))
                },
            ) {
                Ok((es, m)) => cbor_entries(
                    bytes@.skip(start as int),
                    n as nat,
                    budget as nat,
                    None,
                ) == Ok::<(Seq<(Seq<char>, IpldView)>, nat), Error>(
                    (map_view(entries@) + es, (cur - start + m) as nat),
                ),
                Err(e) => cbor_entries(bytes@.skip(start as int), n as nat, budget as nat, None)
                    == Err::<(Seq<(Seq<char>, IpldView)>, nat), Error>(e),
            },
        decreases n - i,
    {
        let ghost had = map_view(entries@);
        let (key, mid) = match decode_text(bytes, cur) {
            Ok(x) => x,
            Err(e) => return Err(e),
        };
        if entries.len() > 0 {
            let order = key_order(
                entries[entries.len() - 1].0.as_str().as_bytes(),
                key.as_str().as_bytes(),
            );
            if order == 0 {
                return Err(Error::DuplicateKey);
            }
            if order != -1 {
                return Err(Error::NonCanonical);
            }
        }
        assert(bytes@.skip(cur as int).skip(mid - cur) =~= bytes@.skip(mid as int));
        let (value, next) = match decode_value(bytes, mid, budget) {
            Ok(x) => x,
            Err(e) => return Err(e),
        };
        assert(bytes@.skip(cur as int).skip(next - cur) =~= bytes@.skip(next as int));
        let ghost k = encode_utf8(key@);
        let ghost entry = (key@, value@);
        entries.push((key, value));
        proof {
            let rest = cbor_entries(
                bytes@.skip(next as int),
                (n - i - 1) as nat,
                budget as nat,
                Some(k),
            );
            if let Ok((es, m)) = rest {
                assert(map_view(entries@) + es =~= had + (seq![entry] + es));
            }
        }
        cur = next;
        i += 1;
    }
    assert(map_view(entries@) + Seq::<(Seq<char>, IpldView)>::empty() =~= map_view(entries@));
    Ok((entries, cur))
}

/// Decodes the whole of `bytes` as one value. What it returns is a value of
/// the data model whose encoding is the very bytes that were given.
///
/// Fails as the format says: among others with `UnexpectedEof` where the
/// input ends early, with `NonCanonical` where an argument is written wider
/// than need be or map keys descend, with `RecursionLimit` where containers
/// nest deeper than `MAX_DEPTH`, and with `TrailingBytes` where the input
/// goes on behind the value.
pub fn decode(bytes: &[u8]) -> (res: Result<Ipld, Error>)
    ensures
        match cbor_decoding(bytes@) {
            Ok(v) => res is Ok && res->Ok_0@ == v && v.valid() && cbor_encodable(v)
                && cbor_encoding(v) == bytes@,
            Err(e) => res is Err && res->Err_0 == e,
        },
{
    assert(bytes@.skip(0) =~= bytes@);
    proof {
        if cbor_decoding(bytes@) is Ok {
            lemma_encode_decode(bytes@);
        }
    }
    match decode_value(bytes, 0, MAX_DEPTH) {
        Ok((value, end)) => {
            if end < bytes.len() {
                Err(Error::TrailingBytes)
            } else {
                Ok(value)
            }
        },
        Err(e) => Err(e),
    }
}

} // verus!
