//! The DAG-CBOR wire format: what each IPLD value is written as, and what a
//! decoder makes of bytes.

use crate::cid::{cid_bytes, cid_from_bytes, CidView};
use crate::codec::Error;
use crate::bytes::bytes_lt;
use crate::ipld::IpldView;
use vstd::prelude::*;
use vstd::utf8::{decode_utf8, encode_utf8, valid_utf8};

verus! {

/// How deep a decoder follows nested containers.
pub const MAX_DEPTH: usize = 1024;

/// The `width` bytes of `n`, most significant first.
pub open spec fn be_bytes(n: nat, width: nat) -> Seq<u8>
    decreases width,
{
    if width == 0 {
        Seq::empty()
    } else {
        be_bytes(n / 256, (width - 1) as nat).push((n % 256) as u8)
    }
}

/// The number that bytes stand for, most significant first.
pub open spec fn be_value(s: Seq<u8>) -> nat
    decreases s.len(),
{
    if s.len() == 0 {
        0
    } else {
        256 * be_value(s.drop_last()) + s.last() as nat
    }
}

/// The head of an item: the major type with its argument `n` in the least
/// of the five widths that holds it.
pub open spec fn cbor_head(major: nat, n: nat) -> Seq<u8> {
    if n < 24 {
        seq![(major * 32 + n) as u8]
    } else if n < 0x100 {
        seq![(major * 32 + 24) as u8] + be_bytes(n, 1)
    } else if n < 0x1_0000 {
        seq![(major * 32 + 25) as u8] + be_bytes(n, 2)
    } else if n < 0x1_0000_0000 {
        seq![(major * 32 + 26) as u8] + be_bytes(n, 4)
    } else {
        seq![(major * 32 + 27) as u8] + be_bytes(n, 8)
    }
}

/// A text string: major type 3, the length of its UTF-8 bytes, the bytes.
pub open spec fn cbor_text_encoding(s: Seq<char>) -> Seq<u8> {
    cbor_head(3, encode_utf8(s).len()) + encode_utf8(s)
}

/// Whether DAG-CBOR can write `v`: every integer in it lies between `-2^64`
/// and `2^64 - 1`, and every length in it is a number of 64 bits.
pub open spec fn cbor_encodable(v: IpldView) -> bool
    decreases v,
{
    match v {
        IpldView::Integer(n) => -0x1_0000_0000_0000_0000 <= n < 0x1_0000_0000_0000_0000,
        IpldView::String(s) => encode_utf8(s).len() <= u64::MAX,
        IpldView::Bytes(b) => b.len() <= u64::MAX,
        IpldView::List(xs) => xs.len() <= u64::MAX && forall|i: int|
            0 <= i < xs.len() ==> cbor_encodable(#[trigger] xs[i]),
        IpldView::StringMap(m) => m.len() <= u64::MAX && forall|i: int|
            0 <= i < m.len() ==> cbor_encodable((#[trigger] m[i]).1) && encode_utf8(m[i].0).len()
                <= u64::MAX,
        _ => true,
    }
}

/// Whether `v` nests containers no deeper than `budget` levels.
pub open spec fn within_depth(v: IpldView, budget: nat) -> bool
    decreases v, 0nat,
{
    match v {
        IpldView::List(xs) => budget > 0 && items_within_depth(xs, (budget - 1) as nat),
        IpldView::StringMap(m) => budget > 0 && entries_within_depth(m, (budget - 1) as nat),
        _ => true,
    }
}

/// Whether each item nests containers no deeper than `budget` levels.
pub open spec fn items_within_depth(xs: Seq<IpldView>, budget: nat) -> bool
    decreases xs, 1nat,
{
    forall|i: int| 0 <= i < xs.len() ==> within_depth(#[trigger] xs[i], budget)
}

/// Whether each value of a map nests containers no deeper than `budget`
/// levels.
pub open spec fn entries_within_depth(m: Seq<(Seq<char>, IpldView)>, budget: nat) -> bool
    decreases m, 1nat,
{
    forall|i: int| 0 <= i < m.len() ==> within_depth((#[trigger] m[i]).1, budget)
}

/// The encoding of a value.
///
/// | value | bytes |
/// |---|---|
/// | null | `f6` |
/// | false, true | `f4`, `f5` |
/// | integer `n >= 0` | head of major type 0 with `n` |
/// | integer `n < 0` | head of major type 1 with `-1 - n` |
/// | float | `fb`, then its 8 bytes |
/// | byte string | head of major type 2 with the length, then the bytes |
/// | text string | head of major type 3 with the length, then the UTF-8 bytes |
/// | list | head of major type 4 with the count, then the items |
/// | map | head of major type 5 with the count, then each key and value |
/// | link | `d8 2a`, then a byte string of `00` and the CID's binary form |
pub open spec fn cbor_encoding(v: IpldView) -> Seq<u8>
    decreases v, 0nat, 0nat,
{
    match v {
        IpldView::Null => seq![0xf6u8],
        IpldView::Bool(b) => if b {
            seq![0xf5u8]
        } else {
            seq![0xf4u8]
        },
        IpldView::Integer(n) => if n >= 0 {
            cbor_head(0, n as nat)
        } else {
            cbor_head(1, (-1 - n) as nat)
        },
        IpldView::Float(bits) => seq![0xfbu8] + be_bytes(bits as nat, 8),
        IpldView::String(s) => cbor_text_encoding(s),
        IpldView::Bytes(b) => cbor_head(2, b.len()) + b,
        IpldView::List(xs) => cbor_head(4, xs.len()) + cbor_items_encoding(xs, 0),
        IpldView::StringMap(m) => cbor_head(5, m.len()) + cbor_entries_encoding(m, 0),
        IpldView::Link(c) => cbor_link_encoding(c),
    }
}

/// The encoding of a link: tag 42 on a byte string that holds the identity
/// multibase tag `00` and the CID's binary form.
pub open spec fn cbor_link_encoding(c: CidView) -> Seq<u8> {
    seq![0xd8u8, 0x2au8] + cbor_head(2, 1 + cid_bytes(c).len()) + seq![0u8] + cid_bytes(c)
}

/// The encodings of the items of a list from index `from` on, one behind
/// the other.
pub open spec fn cbor_items_encoding(xs: Seq<IpldView>, from: nat) -> Seq<u8>
    decreases xs, 1nat, xs.len() - from,
{
    if from >= xs.len() {
        Seq::empty()
    } else {
        cbor_encoding(xs[from as int]) + cbor_items_encoding(xs, from + 1)
    }
}

/// The encodings of the entries of a map from entry `from` on: each key as
/// a text string with its value behind it.
pub open spec fn cbor_entries_encoding(m: Seq<(Seq<char>, IpldView)>, from: nat) -> Seq<u8>
    decreases m, 1nat, m.len() - from,
{
    if from >= m.len() {
        Seq::empty()
    } else {
        cbor_text_encoding(m[from as int].0) + cbor_encoding(m[from as int].1)
            + cbor_entries_encoding(m, from + 1)
    }
}

/// How many bytes behind the first byte hold the argument, for the
/// additional information 24 to 27.
pub open spec fn arg_width(info: nat) -> nat {
    if info == 24 {
        1
    } else if info == 25 {
        2
    } else if info == 26 {
        4
    } else {
        8
    }
}

/// The least argument that the additional information 24 to 27 is the least
/// width for.
pub open spec fn arg_floor(info: nat) -> nat {
    if info == 24 {
        24
    } else if info == 25 {
        0x100
    } else if info == 26 {
        0x1_0000
    } else {
        0x1_0000_0000
    }
}

/// The argument of the head at the front of `s`, which is not empty and not
/// of major type 7, and the head's length.
///
/// The additional information 28 to 30 is an `InvalidCborMajor`; 31 is an
/// `IndefiniteLengthNotAllowed` on a string, list or map and an
/// `InvalidCborMajor` elsewhere. A head that the input cuts short is an
/// `UnexpectedEof`, and an argument that a narrower head holds is a
/// `NonCanonical`.
pub open spec fn cbor_arg(s: Seq<u8>) -> Result<(nat, nat), Error> {
    let major = s[0] / 32;
    let info = (s[0] % 32) as nat;
    if info < 24 {
        Ok((info, 1))
    } else if info == 31 && 2 <= major <= 5 {
        Err(Error::IndefiniteLengthNotAllowed)
    } else if info >= 28 {
        Err(Error::InvalidCborMajor)
    } else if s.len() < 1 + arg_width(info) {
        Err(Error::UnexpectedEof)
    } else if be_value(s.subrange(1, 1 + arg_width(info) as int)) < arg_floor(info) {
        Err(Error::NonCanonical)
    } else {
        Ok((be_value(s.subrange(1, 1 + arg_width(info) as int)), 1 + arg_width(info)))
    }
}

/// The byte string at the front of `s`: its bytes and the item's length.
/// An item of another major type is an `InvalidCborMajor`.
pub open spec fn cbor_bytes(s: Seq<u8>) -> Result<(Seq<u8>, nat), Error> {
    if s.len() == 0 {
        Err(Error::UnexpectedEof)
    } else if s[0] / 32 != 2 {
        Err(Error::InvalidCborMajor)
    } else {
        match cbor_arg(s) {
            Err(e) => Err(e),
            Ok((n, h)) => if s.len() < h + n {
                Err(Error::UnexpectedEof)
            } else {
                Ok((s.subrange(h as int, (h + n) as int), h + n))
            },
        }
    }
}

/// The text string at the front of `s`: its UTF-8 bytes and the item's
/// length. An item of another major type is an `InvalidCborMajor`, and
/// bytes that are not UTF-8 are an `InvalidUtf8`.
pub open spec fn cbor_text(s: Seq<u8>) -> Result<(Seq<u8>, nat), Error> {
    if s.len() == 0 {
        Err(Error::UnexpectedEof)
    } else if s[0] / 32 != 3 {
        Err(Error::InvalidCborMajor)
    } else {
        match cbor_arg(s) {
            Err(e) => Err(e),
            Ok((n, h)) => if s.len() < h + n {
                Err(Error::UnexpectedEof)
            } else if !valid_utf8(s.subrange(h as int, (h + n) as int)) {
                Err(Error::InvalidUtf8)
            } else {
                Ok((s.subrange(h as int, (h + n) as int), h + n))
            },
        }
    }
}

/// The CID in the byte string at the front of `s`, which stands behind tag
/// 42, and the byte string's length. A byte string that does not start with
/// `00` is an `InvalidCidBase`; the bytes behind that are read strictly.
pub open spec fn cbor_link(s: Seq<u8>) -> Result<(CidView, nat), Error> {
    match cbor_bytes(s) {
        Err(e) => Err(e),
        Ok((p, n)) => if p.len() == 0 || p[0] != 0 {
            Err(Error::InvalidCidBase)
        } else {
            match cid_from_bytes(p.skip(1), 64) {
                Err(e) => Err(e),
                Ok(c) => Ok((c, n)),
            }
        },
    }
}

/// The value of the item of major type 7 at the front of `s`, and the
/// item's length: false, true, null, or a double. A half or single float is
/// an `InvalidFloatWidth`, everything else an `InvalidCborMajor`.
pub open spec fn cbor_simple(s: Seq<u8>) -> Result<(IpldView, nat), Error> {
    let info = s[0] % 32;
    if info == 20 {
        Ok((IpldView::Bool(false), 1))
    } else if info == 21 {
        Ok((IpldView::Bool(true), 1))
    } else if info == 22 {
        Ok((IpldView::Null, 1))
    } else if info == 25 || info == 26 {
        Err(Error::InvalidFloatWidth)
    } else if info != 27 {
        Err(Error::InvalidCborMajor)
    } else if s.len() < 9 {
        Err(Error::UnexpectedEof)
    } else {
        Ok((IpldView::Float(be_value(s.subrange(1, 9)) as u64), 9))
    }
}

/// What a decoder makes of the front of `s` when it follows containers
/// `budget` levels deep: the value and the number of bytes it stands in, or
/// the error.
///
/// Empty input is an `UnexpectedEof`. A list or a map at a budget of 0 is a
/// `RecursionLimit`. A tag other than 42 is an `UnknownTag`.
pub open spec fn cbor_value(s: Seq<u8>, budget: nat) -> Result<(IpldView, nat), Error>
    decreases budget, 0nat,
{
    if s.len() == 0 {
        Err(Error::UnexpectedEof)
    } else if s[0] / 32 == 7 {
        cbor_simple(s)
    } else if s[0] / 32 == 2 {
        match cbor_bytes(s) {
            Err(e) => Err(e),
            Ok((b, n)) => Ok((IpldView::Bytes(b), n)),
        }
    } else if s[0] / 32 == 3 {
        match cbor_text(s) {
            Err(e) => Err(e),
            Ok((b, n)) => Ok((IpldView::String(decode_utf8(b)), n)),
        }
    } else {
        match cbor_arg(s) {
            Err(e) => Err(e),
            Ok((n, h)) => if s[0] / 32 == 0 {
                Ok((IpldView::Integer(n as int), h))
            } else if s[0] / 32 == 1 {
                Ok((IpldView::Integer(-1 - n), h))
            } else if s[0] / 32 == 6 {
                if n != 42 {
                    Err(Error::UnknownTag(n as u64))
                } else {
                    match cbor_link(s.skip(h as int)) {
                        Err(e) => Err(e),
                        Ok((c, m)) => Ok((IpldView::Link(c), h + m)),
                    }
                }
            } else if budget == 0 {
                Err(Error::RecursionLimit)
            } else if s[0] / 32 == 4 {
                match cbor_items(s.skip(h as int), n, (budget - 1) as nat) {
                    Err(e) => Err(e),
                    Ok((xs, m)) => Ok((IpldView::List(xs), h + m)),
                }
            } else {
                match cbor_entries(s.skip(h as int), n, (budget - 1) as nat, None) {
                    Err(e) => Err(e),
                    Ok((es, m)) => Ok((IpldView::StringMap(es), h + m)),
                }
            },
        }
    }
}

/// What a decoder makes of `count` items at the front of `s`.
pub open spec fn cbor_items(s: Seq<u8>, count: nat, budget: nat) -> Result<
    (Seq<IpldView>, nat),
    Error,
>
    decreases budget, count + 1,
{
    if count == 0 {
        Ok((Seq::empty(), 0))
    } else {
        match cbor_value(s, budget) {
            Err(e) => Err(e),
            Ok((v, n)) => match cbor_items(s.skip(n as int), (count - 1) as nat, budget) {
                Err(e) => Err(e),
                Ok((vs, m)) => Ok((seq![v] + vs, n + m)),
            },
        }
    }
}

/// What a decoder makes of `count` entries at the front of `s`, behind an
/// entry with the key `prev` if there is one.
///
/// Each key is a text string. A key equal to the one before it is a
/// `DuplicateKey`, and a key that comes before the one before it in the
/// order of their bytes is a `NonCanonical`.
pub open spec fn cbor_entries(s: Seq<u8>, count: nat, budget: nat, prev: Option<Seq<u8>>) -> Result<
    (Seq<(Seq<char>, IpldView)>, nat),
    Error,
>
    decreases budget, count + 1,
{
    if count == 0 {
        Ok((Seq::empty(), 0))
    } else {
        match cbor_text(s) {
            Err(e) => Err(e),
            Ok((k, n)) => if prev == Some(k) {
                Err(Error::DuplicateKey)
            } else if prev is Some && !bytes_lt(prev->Some_0, k) {
                Err(Error::NonCanonical)
            } else {
                match cbor_value(s.skip(n as int), budget) {
                    Err(e) => Err(e),
                    Ok((v, m)) => match cbor_entries(
                        s.skip((n + m) as int),
                        (count - 1) as nat,
                        budget,
                        Some(k),
                    ) {
                        Err(e) => Err(e),
                        Ok((es, l)) => Ok((seq![(decode_utf8(k), v)] + es, n + m + l)),
                    },
                }
            },
        }
    }
}

/// What a strict decoder makes of the whole of `s`: one value, nested no
/// deeper than `MAX_DEPTH`, with nothing behind it. Input that goes on
/// behind the value is a `TrailingBytes`.
pub open spec fn cbor_decoding(s: Seq<u8>) -> Result<IpldView, Error> {
    match cbor_value(s, MAX_DEPTH as nat) {
        Err(e) => Err(e),
        Ok((v, n)) => if n < s.len() {
            Err(Error::TrailingBytes)
        } else {
            Ok(v)
        },
    }
}

} // verus!
