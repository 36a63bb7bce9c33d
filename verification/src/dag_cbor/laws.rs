//! What holds of the DAG-CBOR format: decoding gives back what was encoded,
//! the decoder takes nothing but what the encoder writes, and no two values
//! are written alike.

use crate::cid::{
    cid_bytes, lemma_cid_bytes_canonical, lemma_cid_bytes_roundtrip, lemma_cid_bytes_shape,
    CidView,
};
use crate::codec::Error;
use crate::dag_cbor::decode::{lemma_be_value_bound, pow256};
use crate::dag_cbor::format::{
    arg_width, be_bytes, be_value, cbor_arg, cbor_bytes, cbor_decoding,
    cbor_encodable, cbor_encoding, cbor_entries, cbor_entries_encoding, cbor_head, cbor_items,
    cbor_items_encoding, cbor_link, cbor_link_encoding, cbor_simple, cbor_text,
    cbor_text_encoding, cbor_value, within_depth, MAX_DEPTH,
};
use crate::bytes::{bytes_lt, lemma_bytes_lt_irreflexive};
use crate::ipld::{keys_ascend, IpldView};
use vstd::prelude::*;
use vstd::utf8::{decode_utf8, encode_utf8, valid_utf8};

verus! {

/// The powers of 256 at the four widths of an argument.
proof fn lemma_pow256_values()
    ensures
        pow256(1) == 0x100,
        pow256(2) == 0x1_0000,
        pow256(4) == 0x1_0000_0000,
        pow256(8) == 0x1_0000_0000_0000_0000,
{
    reveal_with_fuel(pow256, 9);
}

/// The bytes of a number are as many as asked for.
pub proof fn lemma_be_len(n: nat, width: nat)
    ensures
        be_bytes(n, width).len() == width,
    decreases width,
{
    if width > 0 {
        lemma_be_len(n / 256, (width - 1) as nat);
    }
}

/// The bytes of a number that fits them stand for that number.
pub proof fn lemma_be_roundtrip(n: nat, width: nat)
    requires
        n < pow256(width),
    ensures
        be_value(be_bytes(n, width)) == n,
    decreases width,
{
    if width > 0 {
        lemma_be_roundtrip(n / 256, (width - 1) as nat);
        assert(be_bytes(n, width).drop_last() =~= be_bytes(n / 256, (width - 1) as nat));
    }
}

/// Bytes are the bytes of the number that they stand for.
pub proof fn lemma_be_canonical(s: Seq<u8>)
    ensures
        be_bytes(be_value(s), s.len()) == s,
    decreases s.len(),
{
    if s.len() > 0 {
        lemma_be_canonical(s.drop_last());
        let v = be_value(s);
        assert(v / 256 == be_value(s.drop_last()));
        assert(v % 256 == s.last());
        assert(be_bytes(v, s.len()) =~= s);
    } else {
        assert(be_bytes(be_value(s), 0) =~= s);
    }
}

/// A head is 1, 2, 3, 5 or 9 bytes long and starts with its major type.
pub proof fn lemma_head_shape(major: nat, n: nat)
    requires
        major < 8,
    ensures
        1 <= cbor_head(major, n).len() <= 9,
        cbor_head(major, n)[0] / 32 == major,
{
    lemma_be_len(n, 1);
    lemma_be_len(n, 2);
    lemma_be_len(n, 4);
    lemma_be_len(n, 8);
}

/// Reading a head gives its argument back.
pub proof fn lemma_head_roundtrip(major: nat, n: nat, rest: Seq<u8>)
    requires
        major < 7,
        n <= u64::MAX,
    ensures
        (cbor_head(major, n) + rest)[0] / 32 == major,
        cbor_arg(cbor_head(major, n) + rest) == Ok::<(nat, nat), Error>(
            (n, cbor_head(major, n).len()),
        ),
{
    let head = cbor_head(major, n);
    let s = head + rest;
    lemma_head_shape(major, n);
    lemma_pow256_values();
    assert(s[0] == head[0]);
    if n >= 24 {
        let info = (s[0] % 32) as nat;
        let w = arg_width(info);
        lemma_be_len(n, w);
        lemma_be_roundtrip(n, w);
        assert(s.subrange(1, 1 + w as int) =~= be_bytes(n, w));
    }
}

/// A head that a reader accepts is the head of its argument: the argument
/// stands in its least width.
pub proof fn lemma_head_canonical(s: Seq<u8>)
    requires
        s.len() > 0,
        s[0] / 32 != 7,
        cbor_arg(s) is Ok,
    ensures
        ({
            let (n, h) = cbor_arg(s)->Ok_0;
            &&& 1 <= h <= s.len()
            &&& n <= u64::MAX
            &&& s.take(h as int) == cbor_head((s[0] / 32) as nat, n)
        }),
{
    let (n, h) = cbor_arg(s)->Ok_0;
    let major = (s[0] / 32) as nat;
    let info = (s[0] % 32) as nat;
    lemma_pow256_values();
    if info < 24 {
        assert(s.take(1) =~= seq![s[0]]);
    } else {
        let w = arg_width(info);
        let sub = s.subrange(1, 1 + w as int);
        lemma_be_value_bound(sub);
        lemma_be_canonical(sub);
        assert(s.take(h as int) =~= seq![s[0]] + sub);
    }
}

/// No encoding is empty.
pub proof fn lemma_encoding_not_empty(v: IpldView)
    ensures
        cbor_encoding(v).len() >= 1,
{
    match v {
        IpldView::Integer(n) => {
            if n >= 0 {
                lemma_head_shape(0, n as nat);
            } else {
                lemma_head_shape(1, (-1 - n) as nat);
            }
        },
        IpldView::String(t) => {
            lemma_head_shape(3, encode_utf8(t).len());
        },
        IpldView::Bytes(b) => {
            lemma_head_shape(2, b.len());
        },
        IpldView::List(xs) => {
            lemma_head_shape(4, xs.len());
        },
        IpldView::StringMap(m) => {
            lemma_head_shape(5, m.len());
        },
        _ => {},
    }
}

/// Reading a byte string gives its bytes back.
pub proof fn lemma_bytes_roundtrip(b: Seq<u8>, rest: Seq<u8>)
    requires
        b.len() <= u64::MAX,
    ensures
        cbor_bytes(cbor_head(2, b.len()) + b + rest) == Ok::<(Seq<u8>, nat), Error>(
            (b, (cbor_head(2, b.len()) + b).len()),
        ),
{
    let head = cbor_head(2, b.len());
    let s = head + b + rest;
    assert(s =~= head + (b + rest));
    lemma_head_roundtrip(2, b.len(), b + rest);
    assert(s.subrange(head.len() as int, (head.len() + b.len()) as int) =~= b);
}

/// A byte string that a reader accepts is written as the encoder writes it.
pub proof fn lemma_bytes_canonical(s: Seq<u8>)
    requires
        cbor_bytes(s) is Ok,
    ensures
        ({
            let (b, n) = cbor_bytes(s)->Ok_0;
            &&& n <= s.len()
            &&& b.len() <= u64::MAX
            &&& s.take(n as int) == cbor_head(2, b.len()) + b
        }),
{
    lemma_head_canonical(s);
    let (len, h) = cbor_arg(s)->Ok_0;
    let (b, n) = cbor_bytes(s)->Ok_0;
    assert(s.take(n as int) =~= s.take(h as int) + b);
}

/// Reading a text string gives its UTF-8 bytes back.
pub proof fn lemma_text_roundtrip(t: Seq<char>, rest: Seq<u8>)
    requires
        encode_utf8(t).len() <= u64::MAX,
    ensures
        cbor_text(cbor_text_encoding(t) + rest) == Ok::<(Seq<u8>, nat), Error>(
            (encode_utf8(t), cbor_text_encoding(t).len()),
        ),
{
    let b = encode_utf8(t);
    let head = cbor_head(3, b.len());
    let s = cbor_text_encoding(t) + rest;
    assert(s =~= head + (b + rest));
    lemma_head_roundtrip(3, b.len(), b + rest);
    assert(s.subrange(head.len() as int, (head.len() + b.len()) as int) =~= b);
    vstd::utf8::encode_utf8_valid_utf8(t);
}

/// A text string that a reader accepts is written as the encoder writes the
/// text that it holds.
pub proof fn lemma_text_canonical(s: Seq<u8>)
    requires
        cbor_text(s) is Ok,
    ensures
        ({
            let (b, n) = cbor_text(s)->Ok_0;
            &&& n <= s.len()
            &&& valid_utf8(b)
            &&& encode_utf8(decode_utf8(b)) == b
            &&& b.len() <= u64::MAX
            &&& s.take(n as int) == cbor_text_encoding(decode_utf8(b))
        }),
{
    lemma_head_canonical(s);
    let (len, h) = cbor_arg(s)->Ok_0;
    let (b, n) = cbor_text(s)->Ok_0;
    vstd::utf8::decode_utf8_encode_utf8(b);
    assert(s.take(n as int) =~= s.take(h as int) + b);
}

/// Reading a link gives its CID back.
pub proof fn lemma_link_roundtrip(c: CidView, rest: Seq<u8>, budget: nat)
    requires
        c.valid(64),
    ensures
        cbor_value(cbor_link_encoding(c) + rest, budget) == Ok::<(IpldView, nat), Error>(
            (IpldView::Link(c), cbor_link_encoding(c).len()),
        ),
{
    let cb = cid_bytes(c);
    lemma_cid_bytes_shape(c);
    lemma_cid_bytes_roundtrip(c, 64);
    let p = seq![0u8] + cb;
    let head = cbor_head(2, 1 + cb.len());
    let s = cbor_link_encoding(c) + rest;
    lemma_pow256_values();
    assert(s[0] == 0xd8 && s[1] == 0x2a);
    assert(s.subrange(1, 2) =~= seq![0x2au8]);
    assert(seq![0x2au8].drop_last() =~= Seq::<u8>::empty());
    assert(be_value(seq![0x2au8].drop_last()) == 0);
    assert(be_value(seq![0x2au8]) == 42);
    assert(cbor_arg(s) == Ok::<(nat, nat), Error>((42, 2)));
    let t = s.skip(2);
    assert(t =~= head + p + rest);
    lemma_bytes_roundtrip(p, rest);
    assert(p.skip(1) =~= cb);
    lemma_head_shape(2, 1 + cb.len());
    assert(cbor_link(t) == Ok::<(CidView, nat), Error>((c, (head + p).len())));
    assert(cbor_link_encoding(c).len() == 2 + (head + p).len());
}

/// A link that a reader accepts is written as the encoder writes it, and
/// its CID is valid.
pub proof fn lemma_link_canonical(s: Seq<u8>)
    requires
        cbor_link(s) is Ok,
    ensures
        ({
            let (c, n) = cbor_link(s)->Ok_0;
            &&& n <= s.len()
            &&& c.valid(64)
            &&& seq![0xd8u8, 0x2au8] + s.take(n as int) == cbor_link_encoding(c)
        }),
{
    lemma_bytes_canonical(s);
    let (p, n) = cbor_bytes(s)->Ok_0;
    let (c, m) = cbor_link(s)->Ok_0;
    lemma_cid_bytes_canonical(p.skip(1), 64);
    assert(p =~= seq![0u8] + p.skip(1));
    assert(seq![0xd8u8, 0x2au8] + s.take(n as int) =~= cbor_link_encoding(c));
}

/// A value of major type 7 that a reader accepts is written as the encoder
/// writes it.
pub proof fn lemma_simple_canonical(s: Seq<u8>)
    requires
        s.len() > 0,
        s[0] / 32 == 7,
        cbor_simple(s) is Ok,
    ensures
        ({
            let (v, n) = cbor_simple(s)->Ok_0;
            &&& n <= s.len()
            &&& s.take(n as int) == cbor_encoding(v)
            &&& v.valid()
            &&& cbor_encodable(v)
        }),
{
    let (v, n) = cbor_simple(s)->Ok_0;
    let info = s[0] % 32;
    if info == 27 {
        let sub = s.subrange(1, 9);
        lemma_be_value_bound(sub);
        lemma_be_canonical(sub);
        lemma_pow256_values();
        assert(s.take(9) =~= seq![0xfbu8] + sub);
    } else {
        assert(s.take(1) =~= seq![s[0]]);
    }
}

/// The items of a list without its first are the items of the rest.
proof fn lemma_items_encoding_shift(v: IpldView, vs: Seq<IpldView>, k: nat)
    ensures
        cbor_items_encoding(seq![v] + vs, k + 1) == cbor_items_encoding(vs, k),
    decreases vs.len() - k,
{
    let xs = seq![v] + vs;
    if k < vs.len() {
        assert(xs[(k + 1) as int] == vs[k as int]);
        lemma_items_encoding_shift(v, vs, k + 1);
    }
}

/// The entries of a map without its first are the entries of the rest.
proof fn lemma_entries_encoding_shift(
    e: (Seq<char>, IpldView),
    es: Seq<(Seq<char>, IpldView)>,
    k: nat,
)
    ensures
        cbor_entries_encoding(seq![e] + es, k + 1) == cbor_entries_encoding(es, k),
    decreases es.len() - k,
{
    let m = seq![e] + es;
    if k < es.len() {
        assert(m[(k + 1) as int] == es[k as int]);
        lemma_entries_encoding_shift(e, es, k + 1);
    }
}

/// Whether a value is what a decoder may hand out at `budget`: a value of
/// the data model that the codec can write, nested within the budget.
pub open spec fn canonical(v: IpldView, budget: nat) -> bool {
    v.valid() && cbor_encodable(v) && within_depth(v, budget)
}

/// Whether each item is what a decoder may hand out at `budget`.
#[verifier::opaque]
pub open spec fn items_canonical(xs: Seq<IpldView>, budget: nat) -> bool {
    forall|i: int| 0 <= i < xs.len() ==> canonical(#[trigger] xs[i], budget)
}

/// Whether entries are what a decoder may hand out at `budget`: each value
/// is, each key's bytes are counted by 64 bits, and the keys ascend.
#[verifier::opaque]
pub open spec fn entries_canonical(es: Seq<(Seq<char>, IpldView)>, budget: nat) -> bool {
    &&& forall|i: int|
        0 <= i < es.len() ==> canonical((#[trigger] es[i]).1, budget) && encode_utf8(
            es[i].0,
        ).len() <= u64::MAX
    &&& forall|i: int| 0 <= i < es.len() - 1 ==> #[trigger] keys_ascend(es, i)
}

/// The items of a canonical list are canonical one level down.
proof fn lemma_items_of_list(xs: Seq<IpldView>, budget: nat)
    requires
        canonical(IpldView::List(xs), budget),
    ensures
        budget > 0,
        xs.len() <= u64::MAX,
        items_canonical(xs, (budget - 1) as nat),
{
    reveal(items_canonical);
}

/// A list of items that are canonical one level down is canonical.
proof fn lemma_list_of_items(xs: Seq<IpldView>, budget: nat)
    requires
        budget > 0,
        xs.len() <= u64::MAX,
        items_canonical(xs, (budget - 1) as nat),
    ensures
        canonical(IpldView::List(xs), budget),
{
    reveal(items_canonical);
}

/// Each of canonical items is canonical.
proof fn lemma_items_at(xs: Seq<IpldView>, budget: nat, i: int)
    requires
        items_canonical(xs, budget),
        0 <= i < xs.len(),
    ensures
        canonical(xs[i], budget),
{
    reveal(items_canonical);
}

/// A canonical value before canonical items makes canonical items, written
/// one behind the other.
proof fn lemma_items_cons(v: IpldView, vs: Seq<IpldView>, budget: nat)
    requires
        canonical(v, budget),
        items_canonical(vs, budget),
    ensures
        items_canonical(seq![v] + vs, budget),
        cbor_items_encoding(seq![v] + vs, 0) == cbor_encoding(v) + cbor_items_encoding(vs, 0),
{
    reveal(items_canonical);
    let xs = seq![v] + vs;
    lemma_items_encoding_shift(v, vs, 0);
    assert(xs[0] == v);
    assert forall|i: int| 0 <= i < xs.len() implies canonical(#[trigger] xs[i], budget) by {
        if i > 0 {
            assert(xs[i] == vs[i - 1]);
        }
    }
}

/// The entries of a canonical map are canonical one level down.
proof fn lemma_entries_of_map(m: Seq<(Seq<char>, IpldView)>, budget: nat)
    requires
        canonical(IpldView::StringMap(m), budget),
    ensures
        budget > 0,
        m.len() <= u64::MAX,
        entries_canonical(m, (budget - 1) as nat),
{
    reveal(entries_canonical);
}

/// A map of entries that are canonical one level down is canonical.
proof fn lemma_map_of_entries(m: Seq<(Seq<char>, IpldView)>, budget: nat)
    requires
        budget > 0,
        m.len() <= u64::MAX,
        entries_canonical(m, (budget - 1) as nat),
    ensures
        canonical(IpldView::StringMap(m), budget),
{
    reveal(entries_canonical);
}

/// Each of canonical entries is canonical, and its key comes after the key
/// before it.
proof fn lemma_entries_at(m: Seq<(Seq<char>, IpldView)>, budget: nat, i: int)
    requires
        entries_canonical(m, budget),
        0 <= i < m.len(),
    ensures
        canonical(m[i].1, budget),
        encode_utf8(m[i].0).len() <= u64::MAX,
        i > 0 ==> bytes_lt(encode_utf8(m[i - 1].0), encode_utf8(m[i].0)),
{
    reveal(entries_canonical);
    if i > 0 {
        assert(keys_ascend(m, i - 1));
    }
}

/// An entry before canonical entries whose first key it comes before makes
/// canonical entries, written one behind the other.
proof fn lemma_entries_cons(e: (Seq<char>, IpldView), rest: Seq<(Seq<char>, IpldView)>, budget: nat)
    requires
        entries_canonical(rest, budget),
        canonical(e.1, budget),
        encode_utf8(e.0).len() <= u64::MAX,
        rest.len() > 0 ==> bytes_lt(encode_utf8(e.0), encode_utf8(rest[0].0)),
    ensures
        entries_canonical(seq![e] + rest, budget),
        cbor_entries_encoding(seq![e] + rest, 0) == cbor_text_encoding(e.0) + cbor_encoding(e.1)
            + cbor_entries_encoding(rest, 0),
{
    reveal(entries_canonical);
    let es = seq![e] + rest;
    lemma_entries_encoding_shift(e, rest, 0);
    assert(es[0] == e);
    assert forall|i: int| 0 <= i < es.len() implies canonical((#[trigger] es[i]).1, budget)
        && encode_utf8(es[i].0).len() <= u64::MAX by {
        if i > 0 {
            assert(es[i] == rest[i - 1]);
        }
    }
    assert forall|i: int| 0 <= i < es.len() - 1 implies #[trigger] keys_ascend(es, i) by {
        assert(es[i + 1] == rest[i]);
        if i > 0 {
            assert(es[i] == rest[i - 1]);
            assert(keys_ascend(rest, i - 1));
        }
    }
}

/// Reading an integer gives it back.
proof fn lemma_integer_roundtrip(n: int, rest: Seq<u8>, budget: nat)
    requires
        cbor_encodable(IpldView::Integer(n)),
    ensures
        cbor_value(cbor_encoding(IpldView::Integer(n)) + rest, budget) == Ok::<
            (IpldView, nat),
            Error,
        >((IpldView::Integer(n), cbor_encoding(IpldView::Integer(n)).len())),
{
    if n >= 0 {
        lemma_head_roundtrip(0, n as nat, rest);
    } else {
        lemma_head_roundtrip(1, (-1 - n) as nat, rest);
    }
}

/// Reading a float gives its bits back.
proof fn lemma_float_roundtrip(bits: u64, rest: Seq<u8>, budget: nat)
    ensures
        cbor_value(cbor_encoding(IpldView::Float(bits)) + rest, budget) == Ok::<
            (IpldView, nat),
            Error,
        >((IpldView::Float(bits), cbor_encoding(IpldView::Float(bits)).len())),
{
    let s = cbor_encoding(IpldView::Float(bits)) + rest;
    lemma_pow256_values();
    lemma_be_len(bits as nat, 8);
    lemma_be_roundtrip(bits as nat, 8);
    assert(s[0] == 0xfb);
    assert(s.subrange(1, 9) =~= be_bytes(bits as nat, 8));
    assert(cbor_simple(s) == Ok::<(IpldView, nat), Error>((IpldView::Float(bits), 9)));
}

/// Reading a string gives it back.
proof fn lemma_string_roundtrip(t: Seq<char>, rest: Seq<u8>, budget: nat)
    requires
        cbor_encodable(IpldView::String(t)),
    ensures
        cbor_value(cbor_encoding(IpldView::String(t)) + rest, budget) == Ok::<
            (IpldView, nat),
            Error,
        >((IpldView::String(t), cbor_encoding(IpldView::String(t)).len())),
{
    let s = cbor_encoding(IpldView::String(t)) + rest;
    lemma_text_roundtrip(t, rest);
    lemma_head_shape(3, encode_utf8(t).len());
    assert(s[0] == cbor_head(3, encode_utf8(t).len())[0]);
    vstd::utf8::encode_utf8_decode_utf8(t);
}

/// Reading a byte string value gives it back.
proof fn lemma_bytes_value_roundtrip(b: Seq<u8>, rest: Seq<u8>, budget: nat)
    requires
        cbor_encodable(IpldView::Bytes(b)),
    ensures
        cbor_value(cbor_encoding(IpldView::Bytes(b)) + rest, budget) == Ok::<
            (IpldView, nat),
            Error,
        >((IpldView::Bytes(b), cbor_encoding(IpldView::Bytes(b)).len())),
{
    let s = cbor_encoding(IpldView::Bytes(b)) + rest;
    lemma_bytes_roundtrip(b, rest);
    lemma_head_shape(2, b.len());
    assert(s[0] == cbor_head(2, b.len())[0]);
}

/// Reading a list gives it back, where reading its items does.
proof fn lemma_list_roundtrip(xs: Seq<IpldView>, rest: Seq<u8>, budget: nat)
    requires
        budget > 0,
        xs.len() <= u64::MAX,
        cbor_items(cbor_items_encoding(xs, 0) + rest, xs.len(), (budget - 1) as nat) == Ok::<
            (Seq<IpldView>, nat),
            Error,
        >((xs, cbor_items_encoding(xs, 0).len())),
    ensures
        cbor_value(cbor_encoding(IpldView::List(xs)) + rest, budget) == Ok::<
            (IpldView, nat),
            Error,
        >((IpldView::List(xs), cbor_encoding(IpldView::List(xs)).len())),
{
    let s = cbor_encoding(IpldView::List(xs)) + rest;
    let head = cbor_head(4, xs.len());
    let body = cbor_items_encoding(xs, 0);
    assert(s =~= head + (body + rest));
    lemma_head_roundtrip(4, xs.len(), body + rest);
    assert(s.skip(head.len() as int) =~= body + rest);
    assert(s[0] / 32 == 4);
}

/// Reading a map gives it back, where reading its entries does.
proof fn lemma_map_roundtrip(m: Seq<(Seq<char>, IpldView)>, rest: Seq<u8>, budget: nat)
    requires
        budget > 0,
        m.len() <= u64::MAX,
        cbor_entries(cbor_entries_encoding(m, 0) + rest, m.len(), (budget - 1) as nat, None)
            == Ok::<(Seq<(Seq<char>, IpldView)>, nat), Error>(
            (m, cbor_entries_encoding(m, 0).len()),
        ),
    ensures
        cbor_value(cbor_encoding(IpldView::StringMap(m)) + rest, budget) == Ok::<
            (IpldView, nat),
            Error,
        >((IpldView::StringMap(m), cbor_encoding(IpldView::StringMap(m)).len())),
{
    let s = cbor_encoding(IpldView::StringMap(m)) + rest;
    let head = cbor_head(5, m.len());
    let body = cbor_entries_encoding(m, 0);
    assert(s =~= head + (body + rest));
    lemma_head_roundtrip(5, m.len(), body + rest);
    assert(s.skip(head.len() as int) =~= body + rest);
    assert(s[0] / 32 == 5);
}

/// Decoding gives back what was encoded: the encoding of a value of the
/// data model that the codec can write, followed by anything, decodes to
/// that value and to the encoding's length, at any budget that the value's
/// depth is within.
pub proof fn lemma_value_roundtrip(v: IpldView, rest: Seq<u8>, budget: nat)
    requires
        v.valid(),
        cbor_encodable(v),
        within_depth(v, budget),
    ensures
        cbor_value(cbor_encoding(v) + rest, budget) == Ok::<(IpldView, nat), Error>(
            (v, cbor_encoding(v).len()),
        ),
    decreases v, 0nat, 0nat,
{
    match v {
        IpldView::Null => {
            assert((cbor_encoding(v) + rest)[0] == 0xf6);
        },
        IpldView::Bool(b) => {
            assert((cbor_encoding(v) + rest)[0] == if b {
                0xf5u8
            } else {
                0xf4u8
            });
        },
        IpldView::Integer(n) => {
            lemma_integer_roundtrip(n, rest, budget);
        },
        IpldView::Float(bits) => {
            lemma_float_roundtrip(bits, rest, budget);
        },
        IpldView::String(t) => {
            lemma_string_roundtrip(t, rest, budget);
        },
        IpldView::Bytes(b) => {
            lemma_bytes_value_roundtrip(b, rest, budget);
        },
        IpldView::List(xs) => {
            lemma_items_of_list(xs, budget);
            lemma_items_roundtrip(xs, 0, rest, (budget - 1) as nat);
            assert(xs.skip(0) =~= xs);
            lemma_list_roundtrip(xs, rest, budget);
        },
        IpldView::StringMap(m) => {
            lemma_entries_of_map(m, budget);
            lemma_entries_roundtrip(m, 0, rest, (budget - 1) as nat);
            assert(m.skip(0) =~= m);
            lemma_map_roundtrip(m, rest, budget);
        },
        IpldView::Link(c) => {
            lemma_link_roundtrip(c, rest, budget);
        },
    }
}

/// Decoding the items of a list from index `from` on gives them back.
pub proof fn lemma_items_roundtrip(xs: Seq<IpldView>, from: nat, rest: Seq<u8>, budget: nat)
    requires
        from <= xs.len(),
        items_canonical(xs, budget),
    ensures
        cbor_items(cbor_items_encoding(xs, from) + rest, (xs.len() - from) as nat, budget) == Ok::<
            (Seq<IpldView>, nat),
            Error,
        >((xs.skip(from as int), cbor_items_encoding(xs, from).len())),
    decreases xs, 1nat, xs.len() - from,
{
    if from < xs.len() {
        let v = xs[from as int];
        let e = cbor_encoding(v);
        let tail = cbor_items_encoding(xs, from + 1);
        let s = cbor_items_encoding(xs, from) + rest;
        assert(s =~= e + (tail + rest));
        lemma_items_at(xs, budget, from as int);
        lemma_value_roundtrip(v, tail + rest, budget);
        assert(s.skip(e.len() as int) =~= tail + rest);
        lemma_items_roundtrip(xs, from + 1, rest, budget);
        assert(seq![v] + xs.skip((from + 1) as int) =~= xs.skip(from as int));
    } else {
        assert(xs.skip(from as int) =~= Seq::<IpldView>::empty());
    }
}

/// Decoding the entries of a map from entry `from` on, behind the key of
/// the entry before them, gives them back.
pub proof fn lemma_entries_roundtrip(
    m: Seq<(Seq<char>, IpldView)>,
    from: nat,
    rest: Seq<u8>,
    budget: nat,
)
    requires
        from <= m.len(),
        entries_canonical(m, budget),
    ensures
        cbor_entries(
            cbor_entries_encoding(m, from) + rest,
            (m.len() - from) as nat,
            budget,
            if from == 0 {
                None
            } else {
                Some(encode_utf8(m[from - 1].0))
            },
        ) == Ok::<(Seq<(Seq<char>, IpldView)>, nat), Error>(
            (m.skip(from as int), cbor_entries_encoding(m, from).len()),
        ),
    decreases m, 1nat, m.len() - from,
{
    if from < m.len() {
        let key = m[from as int].0;
        let v = m[from as int].1;
        let k = encode_utf8(key);
        let ke = cbor_text_encoding(key);
        let e = cbor_encoding(v);
        let tail = cbor_entries_encoding(m, from + 1);
        let s = cbor_entries_encoding(m, from) + rest;
        lemma_entries_at(m, budget, from as int);
        assert(s =~= ke + (e + tail + rest));
        lemma_text_roundtrip(key, e + tail + rest);
        lemma_bytes_lt_irreflexive(k);
        assert(s.skip(ke.len() as int) =~= e + (tail + rest));
        lemma_value_roundtrip(v, tail + rest, budget);
        assert(s.skip((ke.len() + e.len()) as int) =~= tail + rest);
        lemma_entries_roundtrip(m, from + 1, rest, budget);
        vstd::utf8::encode_utf8_decode_utf8(key);
        assert(seq![(key, v)] + m.skip((from + 1) as int) =~= m.skip(from as int));
    } else {
        assert(m.skip(from as int) =~= Seq::<(Seq<char>, IpldView)>::empty());
    }
}

/// An integer that a reader accepts is written as the encoder writes it.
proof fn lemma_integer_canonical(s: Seq<u8>, budget: nat)
    requires
        s.len() > 0,
        s[0] / 32 == 0 || s[0] / 32 == 1,
        cbor_value(s, budget) is Ok,
    ensures
        cbor_value(s, budget)->Ok_0.1 <= s.len(),
        s.take(cbor_value(s, budget)->Ok_0.1 as int) == cbor_encoding(
            cbor_value(s, budget)->Ok_0.0,
        ),
        canonical(cbor_value(s, budget)->Ok_0.0, budget),
{
    lemma_head_canonical(s);
}

/// A link value that a reader accepts is written as the encoder writes it.
proof fn lemma_link_value_canonical(s: Seq<u8>, budget: nat)
    requires
        s.len() > 0,
        s[0] / 32 == 6,
        cbor_value(s, budget) is Ok,
    ensures
        cbor_value(s, budget)->Ok_0.1 <= s.len(),
        s.take(cbor_value(s, budget)->Ok_0.1 as int) == cbor_encoding(
            cbor_value(s, budget)->Ok_0.0,
        ),
        canonical(cbor_value(s, budget)->Ok_0.0, budget),
{
    let (v, n) = cbor_value(s, budget)->Ok_0;
    lemma_head_canonical(s);
    let (a, h) = cbor_arg(s)->Ok_0;
    let t = s.skip(h as int);
    lemma_link_canonical(t);
    let (c, m) = cbor_link(t)->Ok_0;
    lemma_pow256_values();
    assert(be_bytes(42, 1) =~= seq![0x2au8]) by {
        reveal_with_fuel(be_bytes, 2);
    }
    assert(cbor_head(6, 42) =~= seq![0xd8u8, 0x2au8]);
    assert(s.take(n as int) =~= s.take(h as int) + t.take(m as int));
}

/// A list that a reader accepts is written as the encoder writes it, where
/// its items are.
proof fn lemma_list_canonical(s: Seq<u8>, budget: nat)
    requires
        s.len() > 0,
        s[0] / 32 == 4,
        cbor_value(s, budget) is Ok,
        ({
            let (a, h) = cbor_arg(s)->Ok_0;
            let t = s.skip(h as int);
            let (xs, m) = cbor_items(t, a, (budget - 1) as nat)->Ok_0;
            &&& m <= t.len()
            &&& xs.len() == a
            &&& t.take(m as int) == cbor_items_encoding(xs, 0)
            &&& items_canonical(xs, (budget - 1) as nat)
        }),
    ensures
        cbor_value(s, budget)->Ok_0.1 <= s.len(),
        s.take(cbor_value(s, budget)->Ok_0.1 as int) == cbor_encoding(
            cbor_value(s, budget)->Ok_0.0,
        ),
        canonical(cbor_value(s, budget)->Ok_0.0, budget),
{
    let (v, n) = cbor_value(s, budget)->Ok_0;
    lemma_head_canonical(s);
    let (a, h) = cbor_arg(s)->Ok_0;
    let t = s.skip(h as int);
    let (xs, m) = cbor_items(t, a, (budget - 1) as nat)->Ok_0;
    assert(v == IpldView::List(xs));
    lemma_list_of_items(xs, budget);
    assert(s.take(n as int) =~= s.take(h as int) + t.take(m as int));
}

/// A map that a reader accepts is written as the encoder writes it, where
/// its entries are.
proof fn lemma_map_canonical(s: Seq<u8>, budget: nat)
    requires
        s.len() > 0,
        s[0] / 32 == 5,
        cbor_value(s, budget) is Ok,
        ({
            let (a, h) = cbor_arg(s)->Ok_0;
            let t = s.skip(h as int);
            let (es, m) = cbor_entries(t, a, (budget - 1) as nat, None)->Ok_0;
            &&& m <= t.len()
            &&& es.len() == a
            &&& t.take(m as int) == cbor_entries_encoding(es, 0)
            &&& entries_canonical(es, (budget - 1) as nat)
        }),
    ensures
        cbor_value(s, budget)->Ok_0.1 <= s.len(),
        s.take(cbor_value(s, budget)->Ok_0.1 as int) == cbor_encoding(
            cbor_value(s, budget)->Ok_0.0,
        ),
        canonical(cbor_value(s, budget)->Ok_0.0, budget),
{
    let (v, n) = cbor_value(s, budget)->Ok_0;
    lemma_head_canonical(s);
    let (a, h) = cbor_arg(s)->Ok_0;
    let t = s.skip(h as int);
    let (es, m) = cbor_entries(t, a, (budget - 1) as nat, None)->Ok_0;
    assert(v == IpldView::StringMap(es));
    lemma_map_of_entries(es, budget);
    assert(s.take(n as int) =~= s.take(h as int) + t.take(m as int));
}

/// The decoder takes nothing but what the encoder writes: the bytes that a
/// value was decoded from are the encoding of that value, which is a value
/// of the data model that the codec can write, nested within the budget.
///
/// So an argument in a wider head than need be, keys out of order, a key
/// that occurs twice, text that is not UTF-8 and a CID in another form than
/// its own are all refused.
pub proof fn lemma_value_canonical(s: Seq<u8>, budget: nat)
    requires
        cbor_value(s, budget) is Ok,
    ensures
        cbor_value(s, budget)->Ok_0.1 <= s.len(),
        s.take(cbor_value(s, budget)->Ok_0.1 as int) == cbor_encoding(
            cbor_value(s, budget)->Ok_0.0,
        ),
        canonical(cbor_value(s, budget)->Ok_0.0, budget),
    decreases budget, 0nat,
{
    let major = s[0] / 32;
    if major == 7 {
        lemma_simple_canonical(s);
    } else if major == 2 {
        lemma_bytes_canonical(s);
    } else if major == 3 {
        lemma_text_canonical(s);
    } else if major == 0 || major == 1 {
        lemma_integer_canonical(s, budget);
    } else if major == 6 {
        lemma_link_value_canonical(s, budget);
    } else if major == 4 {
        let (a, h) = cbor_arg(s)->Ok_0;
        lemma_items_canonical(s.skip(h as int), a, (budget - 1) as nat);
        lemma_list_canonical(s, budget);
    } else {
        let (a, h) = cbor_arg(s)->Ok_0;
        lemma_entries_canonical(s.skip(h as int), a, (budget - 1) as nat, None);
        lemma_map_canonical(s, budget);
    }
}

/// The items that a decoder accepts are as many as the count says and are
/// written as the encoder writes them.
pub proof fn lemma_items_canonical(s: Seq<u8>, count: nat, budget: nat)
    requires
        cbor_items(s, count, budget) is Ok,
    ensures
        cbor_items(s, count, budget)->Ok_0.1 <= s.len(),
        cbor_items(s, count, budget)->Ok_0.0.len() == count,
        s.take(cbor_items(s, count, budget)->Ok_0.1 as int) == cbor_items_encoding(
            cbor_items(s, count, budget)->Ok_0.0,
            0,
        ),
        items_canonical(cbor_items(s, count, budget)->Ok_0.0, budget),
    decreases budget, count + 1,
{
    let (xs, n) = cbor_items(s, count, budget)->Ok_0;
    if count == 0 {
        assert(s.take(0) =~= Seq::<u8>::empty());
        assert(items_canonical(xs, budget)) by {
            reveal(items_canonical);
        }
    } else {
        lemma_value_canonical(s, budget);
        let (v, k) = cbor_value(s, budget)->Ok_0;
        let t = s.skip(k as int);
        lemma_items_canonical(t, (count - 1) as nat, budget);
        let (vs, m) = cbor_items(t, (count - 1) as nat, budget)->Ok_0;
        assert(xs == seq![v] + vs);
        lemma_items_cons(v, vs, budget);
        assert(s.take(n as int) =~= s.take(k as int) + t.take(m as int));
    }
}

/// The entries that a decoder accepts are as many as the count says, are
/// written as the encoder writes them, and have keys that ascend from the
/// key before them on.
pub proof fn lemma_entries_canonical(s: Seq<u8>, count: nat, budget: nat, prev: Option<Seq<u8>>)
    requires
        cbor_entries(s, count, budget, prev) is Ok,
    ensures
        cbor_entries(s, count, budget, prev)->Ok_0.1 <= s.len(),
        cbor_entries(s, count, budget, prev)->Ok_0.0.len() == count,
        s.take(cbor_entries(s, count, budget, prev)->Ok_0.1 as int) == cbor_entries_encoding(
            cbor_entries(s, count, budget, prev)->Ok_0.0,
            0,
        ),
        entries_canonical(cbor_entries(s, count, budget, prev)->Ok_0.0, budget),
        count > 0 && prev is Some ==> bytes_lt(
            prev->Some_0,
            encode_utf8(cbor_entries(s, count, budget, prev)->Ok_0.0[0].0),
        ),
    decreases budget, count + 1,
{
    let (es, n) = cbor_entries(s, count, budget, prev)->Ok_0;
    if count == 0 {
        assert(s.take(0) =~= Seq::<u8>::empty());
        assert(entries_canonical(es, budget)) by {
            reveal(entries_canonical);
        }
    } else {
        lemma_text_canonical(s);
        let (k, a) = cbor_text(s)->Ok_0;
        let t = s.skip(a as int);
        lemma_value_canonical(t, budget);
        let (v, b) = cbor_value(t, budget)->Ok_0;
        let u = s.skip((a + b) as int);
        lemma_entries_canonical(u, (count - 1) as nat, budget, Some(k));
        let (rest, c) = cbor_entries(u, (count - 1) as nat, budget, Some(k))->Ok_0;
        let entry = (decode_utf8(k), v);
        assert(es == seq![entry] + rest);
        assert(n == a + b + c);
        lemma_entries_cons(entry, rest, budget);
        assert(es[0] == entry);
        assert(t.take(b as int) =~= s.subrange(a as int, (a + b) as int));
        assert(u.take(c as int) =~= s.subrange((a + b) as int, (a + b + c) as int));
        assert(s.take(n as int) =~= s.take(a as int) + s.subrange(a as int, (a + b) as int)
            + s.subrange((a + b) as int, (a + b + c) as int));
    }
}

/// A value within one budget is within every greater one.
pub proof fn lemma_within_depth_grows(v: IpldView, a: nat, b: nat)
    requires
        within_depth(v, a),
        a <= b,
    ensures
        within_depth(v, b),
    decreases v,
{
    match v {
        IpldView::List(xs) => {
            assert forall|i: int| 0 <= i < xs.len() implies within_depth(
                #[trigger] xs[i],
                (b - 1) as nat,
            ) by {
                lemma_within_depth_grows(xs[i], (a - 1) as nat, (b - 1) as nat);
            }
        },
        IpldView::StringMap(m) => {
            assert forall|i: int| 0 <= i < m.len() implies within_depth(
                (#[trigger] m[i]).1,
                (b - 1) as nat,
            ) by {
                lemma_within_depth_grows(m[i].1, (a - 1) as nat, (b - 1) as nat);
            }
        },
        _ => {},
    }
}

/// Every value nests within some budget.
pub proof fn lemma_some_depth(v: IpldView) -> (b: nat)
    ensures
        within_depth(v, b),
    decreases v, 0nat, 0nat,
{
    match v {
        IpldView::List(xs) => {
            let d = lemma_items_some_depth(xs, 0);
            d + 1
        },
        IpldView::StringMap(m) => {
            let d = lemma_entries_some_depth(m, 0);
            d + 1
        },
        _ => 0,
    }
}

/// The items from index `from` on nest within some common budget.
proof fn lemma_items_some_depth(xs: Seq<IpldView>, from: nat) -> (b: nat)
    ensures
        forall|i: int| from <= i < xs.len() ==> within_depth(#[trigger] xs[i], b),
    decreases xs, 1nat, xs.len() - from,
{
    if from >= xs.len() {
        0
    } else {
        let d1 = lemma_some_depth(xs[from as int]);
        let d2 = lemma_items_some_depth(xs, from + 1);
        let d = if d1 >= d2 {
            d1
        } else {
            d2
        };
        assert forall|i: int| from <= i < xs.len() implies within_depth(#[trigger] xs[i], d) by {
            if i == from {
                lemma_within_depth_grows(xs[i], d1, d);
            } else {
                lemma_within_depth_grows(xs[i], d2, d);
            }
        }
        d
    }
}

/// The values of the entries from entry `from` on nest within some common
/// budget.
proof fn lemma_entries_some_depth(m: Seq<(Seq<char>, IpldView)>, from: nat) -> (b: nat)
    ensures
        forall|i: int| from <= i < m.len() ==> within_depth((#[trigger] m[i]).1, b),
    decreases m, 1nat, m.len() - from,
{
    if from >= m.len() {
        0
    } else {
        let d1 = lemma_some_depth(m[from as int].1);
        let d2 = lemma_entries_some_depth(m, from + 1);
        let d = if d1 >= d2 {
            d1
        } else {
            d2
        };
        assert forall|i: int| from <= i < m.len() implies within_depth(
            (#[trigger] m[i]).1,
            d,
        ) by {
            if i == from {
                lemma_within_depth_grows(m[i].1, d1, d);
            } else {
                lemma_within_depth_grows(m[i].1, d2, d);
            }
        }
        d
    }
}

/// No two values are written alike: values of the data model that the codec
/// can write and that have the same encoding are the same value.
pub proof fn lemma_encoding_injective(a: IpldView, b: IpldView)
    requires
        a.valid(),
        b.valid(),
        cbor_encodable(a),
        cbor_encodable(b),
        cbor_encoding(a) == cbor_encoding(b),
    ensures
        a == b,
{
    let da = lemma_some_depth(a);
    let db = lemma_some_depth(b);
    let d = if da >= db {
        da
    } else {
        db
    };
    lemma_within_depth_grows(a, da, d);
    lemma_within_depth_grows(b, db, d);
    lemma_value_roundtrip(a, Seq::empty(), d);
    lemma_value_roundtrip(b, Seq::empty(), d);
}

/// Round trip through the strict decoder: a value of the data model whose
/// integers lie between `-2^64` and `2^64 - 1` and whose containers nest no
/// deeper than `MAX_DEPTH` decodes from its encoding.
pub proof fn lemma_decode_encode(v: IpldView)
    requires
        v.valid(),
        cbor_encodable(v),
        within_depth(v, MAX_DEPTH as nat),
    ensures
        cbor_decoding(cbor_encoding(v)) == Ok::<IpldView, Error>(v),
{
    lemma_value_roundtrip(v, Seq::empty(), MAX_DEPTH as nat);
    assert(cbor_encoding(v) + Seq::<u8>::empty() =~= cbor_encoding(v));
}

/// What the strict decoder returns encodes to the very bytes that it was
/// given.
pub proof fn lemma_encode_decode(s: Seq<u8>)
    requires
        cbor_decoding(s) is Ok,
    ensures
        cbor_decoding(s)->Ok_0.valid(),
        cbor_encodable(cbor_decoding(s)->Ok_0),
        within_depth(cbor_decoding(s)->Ok_0, MAX_DEPTH as nat),
        cbor_encoding(cbor_decoding(s)->Ok_0) == s,
{
    lemma_value_canonical(s, MAX_DEPTH as nat);
    assert(s.take(s.len() as int) =~= s);
}

/// The strict decoder refuses input that goes on behind a value.
pub proof fn lemma_trailing_bytes_rejected(v: IpldView, rest: Seq<u8>)
    requires
        v.valid(),
        cbor_encodable(v),
        within_depth(v, MAX_DEPTH as nat),
        rest.len() > 0,
    ensures
        cbor_decoding(cbor_encoding(v) + rest) == Err::<IpldView, Error>(Error::TrailingBytes),
{
    lemma_value_roundtrip(v, rest, MAX_DEPTH as nat);
}

} // verus!
