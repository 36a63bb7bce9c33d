//! The DAG-JSON mapping between IPLD values and JSON trees, and the codec's
//! two directions on a cursor.

use crate::cid::{cid_from_text, cid_text, is_v0_text, Cid};
use crate::codec::Error;
use crate::cursor::{cursor_bytes, cursor_position, cursor_rest, fits, overwritten};
use crate::dag_json::json::{
    base64_bytes, base64_text, decode_base64, encode_base64, float_finite,
    json_parse, json_text, make_array, make_object, make_scalar, parse_json, print_json,
    value_entries, value_items, value_shape, value_view, JsonView, Scalar, Shape,
};
use crate::bytes::{bytes_lt, key_order, lemma_bytes_lt_irreflexive};
use crate::ipld::{keys_ascend, list_view, map_view, Ipld, IpldView};
use bytecursor::ByteCursor;
use serde_json::Value;
use vstd::prelude::*;
use vstd::slice::slice_subrange;
use vstd::utf8::encode_utf8;

verus! {

/// The longest byte string that the codec writes.
pub const MAX_BYTES_LEN: usize = 0x3fff_fff0;

/// The key of the two escapes.
pub open spec fn slash() -> Seq<char> {
    "/"@
}

/// The key inside the bytes escape.
pub open spec fn bytes_key() -> Seq<char> {
    "bytes"@
}

/// Whether DAG-JSON can write `v`: every integer in it is an `i64`, every
/// float in it is a number, and no byte string in it is longer than
/// `MAX_BYTES_LEN`.
pub open spec fn json_encodable(v: IpldView) -> bool
    decreases v, 0nat,
{
    match v {
        IpldView::Integer(n) => i64::MIN <= n <= i64::MAX,
        IpldView::Float(bits) => float_finite(bits),
        IpldView::Bytes(b) => b.len() <= MAX_BYTES_LEN,
        IpldView::List(xs) => items_json_encodable(xs),
        IpldView::StringMap(m) => entries_json_encodable(m),
        _ => true,
    }
}

/// Whether DAG-JSON can write each item.
pub open spec fn items_json_encodable(xs: Seq<IpldView>) -> bool
    decreases xs, 1nat,
{
    forall|i: int| 0 <= i < xs.len() ==> json_encodable(#[trigger] xs[i])
}

/// Whether DAG-JSON can write each value of a map.
pub open spec fn entries_json_encodable(m: Seq<(Seq<char>, IpldView)>) -> bool
    decreases m, 1nat,
{
    forall|i: int| 0 <= i < m.len() ==> json_encodable((#[trigger] m[i]).1)
}

/// The JSON tree of a value.
///
/// | value | tree |
/// |---|---|
/// | null, boolean, string | the same |
/// | integer | a number without fraction |
/// | float | a number with its bits |
/// | byte string | `{"/": {"bytes": <base64 without padding>}}` |
/// | list | an array of the items' trees |
/// | map | an object of the entries, in their order |
/// | link | `{"/": <the CID's text>}` |
pub open spec fn json_of(v: IpldView) -> JsonView
    decreases v, 0nat,
{
    match v {
        IpldView::Null => JsonView::Null,
        IpldView::Bool(b) => JsonView::Bool(b),
        IpldView::Integer(n) => if n >= 0 {
            JsonView::PosInt(n as u64)
        } else {
            JsonView::NegInt(n as i64)
        },
        IpldView::Float(bits) => JsonView::Float(bits),
        IpldView::String(s) => JsonView::String(s),
        IpldView::Bytes(b) => JsonView::Object(
            seq![
                (
                    slash(),
                    JsonView::Object(seq![(bytes_key(), JsonView::String(base64_text(b)))]),
                ),
            ],
        ),
        IpldView::List(xs) => JsonView::Array(json_of_items(xs)),
        IpldView::StringMap(m) => JsonView::Object(json_of_entries(m)),
        IpldView::Link(c) => JsonView::Object(seq![(slash(), JsonView::String(cid_text(c)))]),
    }
}

/// The trees of the items of a list.
pub open spec fn json_of_items(xs: Seq<IpldView>) -> Seq<JsonView>
    decreases xs, 1nat,
{
    Seq::new(
        xs.len(),
        |i: int|
            if 0 <= i < xs.len() {
                json_of(xs[i])
            } else {
                JsonView::Null
            },
    )
}

/// The entries of a map with the trees of their values.
pub open spec fn json_of_entries(m: Seq<(Seq<char>, IpldView)>) -> Seq<(Seq<char>, JsonView)>
    decreases m, 1nat,
{
    Seq::new(
        m.len(),
        |i: int|
            if 0 <= i < m.len() {
                (m[i].0, json_of(m[i].1))
            } else {
                (Seq::empty(), JsonView::Null)
            },
    )
}

/// Whether an object is a link escape: its one key is `/` and holds a
/// string.
pub open spec fn is_link_escape(es: Seq<(Seq<char>, JsonView)>) -> bool {
    es.len() == 1 && es[0].0 == slash() && es[0].1 is String
}

/// Whether an object is a bytes escape: its one key is `/` and holds an
/// object whose one key is `bytes`.
pub open spec fn is_bytes_escape(es: Seq<(Seq<char>, JsonView)>) -> bool {
    &&& es.len() == 1
    &&& es[0].0 == slash()
    &&& es[0].1 matches JsonView::Object(inner)
    &&& inner.len() == 1
    &&& inner[0].0 == bytes_key()
}

/// The value of a JSON tree, or the error.
///
/// A non-negative integer above `i64::MAX` is a `NumberOutOfRange`. A link
/// escape whose string is not the text of a CID is an `InvalidLinkEscape`.
/// A bytes escape that holds something else than a string is an
/// `InvalidBytesEscape`, and one whose string is not base64 an
/// `InvalidBase64`. Every other object is a map; a key equal to the one
/// before it is a `DuplicateKey`, and one that does not come after it in the
/// order of their bytes a `NonCanonical`.
pub open spec fn ipld_of_json(j: JsonView) -> Result<IpldView, Error>
    decreases j, 0nat, 0nat,
{
    match j {
        JsonView::Null => Ok(IpldView::Null),
        JsonView::Bool(b) => Ok(IpldView::Bool(b)),
        JsonView::PosInt(n) => if n > i64::MAX {
            Err(Error::NumberOutOfRange)
        } else {
            Ok(IpldView::Integer(n as int))
        },
        JsonView::NegInt(n) => Ok(IpldView::Integer(n as int)),
        JsonView::Float(bits) => Ok(IpldView::Float(bits)),
        JsonView::String(s) => Ok(IpldView::String(s)),
        JsonView::Array(xs) => match ipld_of_items(xs, 0) {
            Err(e) => Err(e),
            Ok(vs) => Ok(IpldView::List(vs)),
        },
        JsonView::Object(es) => if is_link_escape(es) {
            match cid_from_text(es[0].1->String_0, 64) {
                Err(_) => Err(Error::InvalidLinkEscape),
                Ok(c) => Ok(IpldView::Link(c)),
            }
        } else if is_bytes_escape(es) {
            match es[0].1->Object_0[0].1 {
                JsonView::String(t) => match base64_bytes(t) {
                    None => Err(Error::InvalidBase64),
                    Some(b) => Ok(IpldView::Bytes(b)),
                },
                _ => Err(Error::InvalidBytesEscape),
            }
        } else {
            match ipld_of_entries(es, 0) {
                Err(e) => Err(e),
                Ok(m) => Ok(IpldView::StringMap(m)),
            }
        },
    }
}

/// The values of the trees of an array from index `from` on, or the first
/// error among them.
pub open spec fn ipld_of_items(xs: Seq<JsonView>, from: nat) -> Result<Seq<IpldView>, Error>
    decreases xs, 1nat, xs.len() - from,
{
    if from >= xs.len() {
        Ok(Seq::empty())
    } else {
        match ipld_of_json(xs[from as int]) {
            Err(e) => Err(e),
            Ok(v) => match ipld_of_items(xs, from + 1) {
                Err(e) => Err(e),
                Ok(vs) => Ok(seq![v] + vs),
            },
        }
    }
}

/// The entries of an object from entry `from` on with the values of their
/// trees, or the first error among them.
pub open spec fn ipld_of_entries(es: Seq<(Seq<char>, JsonView)>, from: nat) -> Result<
    Seq<(Seq<char>, IpldView)>,
    Error,
>
    decreases es, 1nat, es.len() - from,
{
    if from >= es.len() {
        Ok(Seq::empty())
    } else if from > 0 && es[from - 1].0 == es[from as int].0 {
        Err(Error::DuplicateKey)
    } else if from > 0 && !bytes_lt(encode_utf8(es[from - 1].0), encode_utf8(es[from as int].0)) {
        Err(Error::NonCanonical)
    } else {
        match ipld_of_json(es[from as int].1) {
            Err(e) => Err(e),
            Ok(v) => match ipld_of_entries(es, from + 1) {
                Err(e) => Err(e),
                Ok(m) => Ok(seq![(es[from as int].0, v)] + m),
            },
        }
    }
}

/// Whether the tree of `v` cannot be taken for another value's: no map in
/// `v` has the shape of an escape, which is one key `/` that holds a string
/// or a map of one key `bytes`; and the text of every version 0 link in `v`
/// has the version 0 shape.
pub open spec fn json_plain(v: IpldView) -> bool
    decreases v, 0nat,
{
    match v {
        IpldView::List(xs) => items_json_plain(xs),
        IpldView::StringMap(m) => entries_json_plain(m) && !has_escape_shape(m),
        IpldView::Link(c) => c.version is V1 || is_v0_text(cid_text(c)),
        _ => true,
    }
}

/// Whether the tree of no item can be taken for another value's.
pub open spec fn items_json_plain(xs: Seq<IpldView>) -> bool
    decreases xs, 1nat,
{
    forall|i: int| 0 <= i < xs.len() ==> json_plain(#[trigger] xs[i])
}

/// Whether the tree of no value of a map can be taken for another value's.
pub open spec fn entries_json_plain(m: Seq<(Seq<char>, IpldView)>) -> bool
    decreases m, 1nat,
{
    forall|i: int| 0 <= i < m.len() ==> json_plain((#[trigger] m[i]).1)
}

/// Whether a map has the shape of an escape: one key `/` that holds a
/// string or a map of one key `bytes`.
pub open spec fn has_escape_shape(m: Seq<(Seq<char>, IpldView)>) -> bool {
    &&& m.len() == 1
    &&& m[0].0 == slash()
    &&& (m[0].1 is String || (m[0].1 matches IpldView::StringMap(inner) && inner.len() == 1
        && inner[0].0 == bytes_key()))
}

/// Whether reading the tree of `v` gives `v` back.
pub open spec fn reads_back(v: IpldView) -> bool {
    ipld_of_json(json_of(v)) == Ok::<IpldView, Error>(v)
}

/// The trees of items that read back read back as the items.
proof fn lemma_items_read_back(xs: Seq<IpldView>, from: nat)
    requires
        from <= xs.len(),
        forall|i: int| 0 <= i < xs.len() ==> reads_back(#[trigger] xs[i]),
    ensures
        ipld_of_items(json_of_items(xs), from) == Ok::<Seq<IpldView>, Error>(xs.skip(from as int)),
    decreases xs.len() - from,
{
    let js = json_of_items(xs);
    if from < xs.len() {
        lemma_items_read_back(xs, from + 1);
        assert(js[from as int] == json_of(xs[from as int]));
        assert(reads_back(xs[from as int]));
        assert(seq![xs[from as int]] + xs.skip((from + 1) as int) =~= xs.skip(from as int));
    } else {
        assert(xs.skip(from as int) =~= Seq::<IpldView>::empty());
    }
}

/// The trees of entries that read back and whose keys ascend read back as
/// the entries.
proof fn lemma_entries_read_back(m: Seq<(Seq<char>, IpldView)>, from: nat)
    requires
        from <= m.len(),
        forall|i: int| 0 <= i < m.len() ==> reads_back((#[trigger] m[i]).1),
        forall|i: int| 0 <= i < m.len() - 1 ==> #[trigger] keys_ascend(m, i),
    ensures
        ipld_of_entries(json_of_entries(m), from) == Ok::<Seq<(Seq<char>, IpldView)>, Error>(
            m.skip(from as int),
        ),
    decreases m.len() - from,
{
    let js = json_of_entries(m);
    if from < m.len() {
        lemma_entries_read_back(m, from + 1);
        assert(js[from as int] == (m[from as int].0, json_of(m[from as int].1)));
        assert(reads_back(m[from as int].1));
        if from > 0 {
            assert(js[from - 1].0 == m[from - 1].0);
            assert(keys_ascend(m, from - 1));
            lemma_bytes_lt_irreflexive(encode_utf8(m[from as int].0));
        }
        assert(seq![m[from as int]] + m.skip((from + 1) as int) =~= m.skip(from as int));
    } else {
        assert(m.skip(from as int) =~= Seq::<(Seq<char>, IpldView)>::empty());
    }
}

/// The key of the escapes is not the key inside the bytes escape.
proof fn lemma_keys_differ()
    ensures
        slash() != bytes_key(),
        slash().len() == 1,
        bytes_key().len() == 5,
{
    reveal_strlit("/");
    reveal_strlit("bytes");
    assert("/"@.len() == 1);
    assert("bytes"@.len() == 5);
}

/// The JSON tree of a value of the data model.
///
/// Fails with `NumberOutOfRange` where the codec cannot write the value.
/// Where the value's tree cannot be taken for another value's, reading the
/// tree gives the value back.
pub fn to_value(ipld: &Ipld) -> (res: Result<Value, Error>)
    requires
        ipld@.valid(),
    ensures
        res is Ok <==> json_encodable(ipld@),
        res is Ok ==> value_view(res->Ok_0) == json_of(ipld@),
        res is Err ==> res->Err_0 == Error::NumberOutOfRange,
        res is Ok && json_plain(ipld@) ==> reads_back(ipld@),
    decreases ipld,
{
    match ipld {
        Ipld::Null => match make_scalar(Scalar::Null) {
            Some(v) => Ok(v),
            None => Err(Error::NumberOutOfRange),
        },
        Ipld::Bool(b) => match make_scalar(Scalar::Bool(*b)) {
            Some(v) => Ok(v),
            None => Err(Error::NumberOutOfRange),
        },
        Ipld::Integer(n) => {
            let n: i128 = *n;
            if n < -0x8000_0000_0000_0000 || n > 0x7fff_ffff_ffff_ffff {
                return Err(Error::NumberOutOfRange);
            }
            let scalar = if n >= 0 {
                Scalar::PosInt(n as u64)
            } else {
                Scalar::NegInt(n as i64)
            };
            match make_scalar(scalar) {
                Some(v) => Ok(v),
                None => Err(Error::NumberOutOfRange),
            }
        },
        Ipld::Float(bits) => match make_scalar(Scalar::Float(*bits)) {
            Some(v) => Ok(v),
            None => Err(Error::NumberOutOfRange),
        },
        Ipld::String(s) => match make_scalar(Scalar::Text(s.clone())) {
            Some(v) => Ok(v),
            None => Err(Error::NumberOutOfRange),
        },
        Ipld::Bytes(b) => {
            if b.len() > MAX_BYTES_LEN {
                return Err(Error::NumberOutOfRange);
            }
            let text = encode_base64(b.as_slice());
            let inner = match make_scalar(Scalar::Text(text)) {
                Some(v) => v,
                None => return Err(Error::NumberOutOfRange),
            };
            let mut entries: Vec<(String, Value)> = Vec::new();
            entries.push(("bytes".to_owned(), inner));
            let object = make_object(entries);
            let mut outer: Vec<(String, Value)> = Vec::new();
            outer.push(("/".to_owned(), object));
            let res = make_object(outer);
            proof {
                lemma_keys_differ();
                let es = json_of(ipld@)->Object_0;
                assert(value_view(object)->Object_0 =~= seq![
                    (bytes_key(), JsonView::String(base64_text(b@))),
                ]);
                assert(value_view(res)->Object_0 =~= es);
                assert(!is_link_escape(es));
                assert(is_bytes_escape(es));
            }
            Ok(res)
        },
        Ipld::List(l) => {
            let ghost xs = list_view(l@);
            let mut items: Vec<Value> = Vec::new();
            let mut i: usize = 0;
            while i < l.len()
                invariant
                    i <= l@.len(),
                    *ipld == Ipld::List(*l),
                    xs == list_view(l@),
                    ipld@.valid(),
                    items@.len() == i,
                    forall|j: int|
                        0 <= j < i ==> value_view(#[trigger] items@[j]) == json_of(xs[j]),
                    forall|j: int| 0 <= j < i ==> json_encodable(#[trigger] xs[j]),
                    forall|j: int| 0 <= j < i ==> (json_plain(#[trigger] xs[j]) ==> reads_back(xs[j])),
                decreases l@.len() - i,
            {
                assert(decreases_to!(*l => l[i as int]));
                assert(ipld->List_0 == *l);
                assert(decreases_to!(*ipld => ipld->List_0));
                assert(xs[i as int].valid());
                match to_value(&l[i]) {
                    Ok(v) => {
                        items.push(v);
                    },
                    Err(e) => {
                        assert(!json_encodable(xs[i as int]));
                        return Err(e);
                    },
                }
                i += 1;
            }
            let res = make_array(items);
            proof {
                assert(value_view(res)->Array_0 =~= json_of_items(xs));
                if json_plain(ipld@) {
                    assert forall|j: int| 0 <= j < xs.len() implies reads_back(
                        #[trigger] xs[j],
                    ) by {
                        assert(json_plain(xs[j]));
                    }
                    lemma_items_read_back(xs, 0);
                    assert(xs.skip(0) =~= xs);
                }
            }
            Ok(res)
        },
        Ipld::StringMap(m) => {
            let ghost es = map_view(m@);
            let mut entries: Vec<(String, Value)> = Vec::new();
            let mut i: usize = 0;
            while i < m.len()
                invariant
                    i <= m@.len(),
                    *ipld == Ipld::StringMap(*m),
                    es == map_view(m@),
                    ipld@.valid(),
                    entries@.len() == i,
                    forall|j: int|
                        0 <= j < i ==> (#[trigger] entries@[j]).0@ == es[j].0 && value_view(
                            entries@[j].1,
                        ) == json_of(es[j].1),
                    forall|j: int| 0 <= j < i ==> json_encodable((#[trigger] es[j]).1),
                    forall|j: int|
                        0 <= j < i ==> (json_plain((#[trigger] es[j]).1) ==> reads_back(es[j].1)),
                decreases m@.len() - i,
            {
                assert(decreases_to!(*m => m[i as int]));
                assert(ipld->StringMap_0 == *m);
                assert(decreases_to!(*ipld => ipld->StringMap_0));
                assert(decreases_to!(m[i as int] => m[i as int].1));
                assert(es[i as int].1.valid());
                match to_value(&m[i].1) {
                    Ok(v) => {
                        entries.push((m[i].0.clone(), v));
                    },
                    Err(e) => {
                        assert(!json_encodable(es[i as int].1));
                        return Err(e);
                    },
                }
                i += 1;
            }
            proof {
                assert forall|j: int| 0 <= j < entries@.len() - 1 implies bytes_lt(
                    encode_utf8((#[trigger] entries@[j]).0@),
                    encode_utf8(entries@[j + 1].0@),
                ) by {
                    assert(keys_ascend(es, j));
                    assert(entries@[j + 1].0@ == es[j + 1].0);
                }
            }
            let res = make_object(entries);
            proof {
                let js = json_of_entries(es);
                assert(value_view(res)->Object_0 =~= js);
                if json_plain(ipld@) {
                    assert forall|j: int| 0 <= j < es.len() implies reads_back(
                        (#[trigger] es[j]).1,
                    ) by {
                        assert(json_plain(es[j].1));
                    }
                    lemma_entries_read_back(es, 0);
                    assert(es.skip(0) =~= es);
                    if js.len() == 1 && js[0].0 == slash() {
                        assert(js[0] == (es[0].0, json_of(es[0].1)));
                        if let IpldView::StringMap(inner) = es[0].1 {
                            let ji = json_of_entries(inner);
                            assert(json_of(es[0].1) == JsonView::Object(ji));
                            if ji.len() == 1 {
                                assert(ji[0].0 == inner[0].0);
                            }
                        }
                        lemma_keys_differ();
                    }
                    assert(!is_link_escape(js));
                    assert(!is_bytes_escape(js));
                }
            }
            Ok(res)
        },
        Ipld::Link(c) => {
            let text = c.to_string();
            let inner = match make_scalar(Scalar::Text(text)) {
                Some(v) => v,
                None => return Err(Error::NumberOutOfRange),
            };
            let mut outer: Vec<(String, Value)> = Vec::new();
            outer.push(("/".to_owned(), inner));
            let res = make_object(outer);
            proof {
                let es = json_of(ipld@)->Object_0;
                assert(value_view(res)->Object_0 =~= es);
                assert(is_link_escape(es));
            }
            Ok(res)
        },
    }
}

/// The value of a JSON tree, which is a value of the data model.
pub fn from_value(v: &Value) -> (res: Result<Ipld, Error>)
    ensures
        match ipld_of_json(value_view(*v)) {
            Ok(x) => res is Ok && res->Ok_0@ == x && x.valid(),
            Err(e) => res is Err && res->Err_0 == e,
        },
    decreases value_view(*v), 2nat,
{
    match value_shape(v) {
        Shape::Scalar(Scalar::Null) => Ok(Ipld::Null),
        Shape::Scalar(Scalar::Bool(b)) => Ok(Ipld::Bool(b)),
        Shape::Scalar(Scalar::PosInt(n)) => {
            if n > 0x7fff_ffff_ffff_ffff {
                Err(Error::NumberOutOfRange)
            } else {
                Ok(Ipld::Integer(n as i128))
            }
        },
        Shape::Scalar(Scalar::NegInt(n)) => Ok(Ipld::Integer(n as i128)),
        Shape::Scalar(Scalar::Float(bits)) => Ok(Ipld::Float(bits)),
        Shape::Scalar(Scalar::Text(s)) => Ok(Ipld::String(s)),
        Shape::Array => {
            match items_from_value(v) {
                Ok(items) => Ok(Ipld::List(items)),
                Err(e) => Err(e),
            }
        },
        Shape::Object => object_from_value(v),
    }
}

/// The values of the items of a JSON array.
fn items_from_value(v: &Value) -> (res: Result<Vec<Ipld>, Error>)
    requires
        value_view(*v) is Array,
    ensures
        match ipld_of_items(value_view(*v)->Array_0, 0) {
            Ok(xs) => res is Ok && list_view(res->Ok_0@) == xs && IpldView::List(xs).valid(),
            Err(e) => res is Err && res->Err_0 == e,
        },
    decreases value_view(*v), 1nat,
{
    let ghost js = value_view(*v)->Array_0;
    let values = value_items(v);
    let mut items: Vec<Ipld> = Vec::new();
    let mut i: usize = 0;
    assert(list_view(items@) =~= Seq::<IpldView>::empty());
    while i < values.len()
        invariant
            i <= values@.len() == js.len(),
            js == value_view(*v)->Array_0,
            value_view(*v) is Array,
            forall|j: int| 0 <= j < js.len() ==> value_view(*#[trigger] values@[j]) == js[j],
            forall|j: int| 0 <= j < items@.len() ==> (#[trigger] items@[j])@.valid(),
            match ipld_of_items(js, i as nat) {
                Ok(vs) => ipld_of_items(js, 0) == Ok::<Seq<IpldView>, Error>(
                    list_view(items@) + vs,
                ),
                Err(e) => ipld_of_items(js, 0) == Err::<Seq<IpldView>, Error>(e),
            },
        decreases values@.len() - i,
    {
        let ghost had = list_view(items@);
        assert(value_view(*values@[i as int]) == js[i as int]);
        let item = match from_value(values[i]) {
            Ok(x) => x,
            Err(e) => return Err(e),
        };
        items.push(item);
        proof {
            if let Ok(vs) = ipld_of_items(js, (i + 1) as nat) {
                assert(list_view(items@) + vs =~= had + (seq![item@] + vs));
            }
        }
        i += 1;
    }
    proof {
        assert(list_view(items@) + Seq::<IpldView>::empty() =~= list_view(items@));
        assert forall|j: int| 0 <= j < list_view(items@).len() implies (#[trigger] list_view(
            items@,
        )[j]).valid() by {
            assert(items@[j]@.valid());
        }
    }
    Ok(items)
}

/// The value of a JSON object: a link, a byte string or a map.
fn object_from_value(v: &Value) -> (res: Result<Ipld, Error>)
    requires
        value_view(*v) is Object,
    ensures
        match ipld_of_json(value_view(*v)) {
            Ok(x) => res is Ok && res->Ok_0@ == x && x.valid(),
            Err(e) => res is Err && res->Err_0 == e,
        },
    decreases value_view(*v), 1nat,
{
    let ghost es = value_view(*v)->Object_0;
    let entries = value_entries(v);
    if entries.len() == 1 && *entries[0].0 == "/".to_owned() {
        assert(entries@[0].0@ == es[0].0);
        match value_shape(entries[0].1) {
            Shape::Scalar(Scalar::Text(text)) => {
                return match Cid::from_str(text.as_str()) {
                    Ok(cid) => {
                        let _ = cid.hash();
                        Ok(Ipld::Link(cid))
                    },
                    Err(_) => Err(Error::InvalidLinkEscape),
                };
            },
            Shape::Object => {
                let inner = value_entries(entries[0].1);
                if inner.len() == 1 && *inner[0].0 == "bytes".to_owned() {
                    assert(inner@[0].0@ == es[0].1->Object_0[0].0);
                    return match value_shape(inner[0].1) {
                        Shape::Scalar(Scalar::Text(text)) => match decode_base64(text.as_str()) {
                            Some(bytes) => Ok(Ipld::Bytes(bytes)),
                            None => Err(Error::InvalidBase64),
                        },
                        _ => Err(Error::InvalidBytesEscape),
                    };
                }
                assert(!is_bytes_escape(es)) by {
                    if inner@.len() == 1 {
                        assert(inner@[0].0@ == es[0].1->Object_0[0].0);
                    }
                }
            },
            _ => {},
        }
        assert(!is_link_escape(es));
        assert(!is_bytes_escape(es));
    } else {
        assert(!is_link_escape(es) && !is_bytes_escape(es)) by {
            if entries@.len() == 1 {
                assert(entries@[0].0@ == es[0].0);
            }
        }
    }
    let mut map: Vec<(String, Ipld)> = Vec::new();
    let mut i: usize = 0;
    assert(map_view(map@) =~= Seq::<(Seq<char>, IpldView)>::empty());
    while i < entries.len()
        invariant
            i <= entries@.len() == es.len(),
            es == value_view(*v)->Object_0,
            value_view(*v) is Object,
            !is_link_escape(es),
            !is_bytes_escape(es),
            map@.len() == i,
            forall|j: int|
                0 <= j < es.len() ==> (#[trigger] entries@[j]).0@ == es[j].0 && value_view(
                    *entries@[j].1,
                ) == es[j].1,
            forall|j: int| 0 <= j < i ==> (#[trigger] map@[j]).0@ == es[j].0,
            forall|j: int| 0 <= j < i ==> (#[trigger] map@[j]).1@.valid(),
            forall|j: int| 0 <= j < i - 1 ==> #[trigger] keys_ascend(map_view(map@), j),
            match ipld_of_entries(es, i as nat) {
                Ok(rest) => ipld_of_entries(es, 0) == Ok::<Seq<(Seq<char>, IpldView)>, Error>(
                    map_view(map@) + rest,
                ),
                Err(e) => ipld_of_entries(es, 0) == Err::<Seq<(Seq<char>, IpldView)>, Error>(e),
            },
        decreases entries@.len() - i,
    {
        let ghost had = map_view(map@);
        assert(entries@[i as int].0@ == es[i as int].0);
        if i > 0 {
            assert(entries@[i - 1].0@ == es[i - 1].0);
            let order = key_order(
                entries[i - 1].0.as_str().as_bytes(),
                entries[i].0.as_str().as_bytes(),
            );
            proof {
                if es[i - 1].0 == es[i as int].0 {
                    assert(order == 0);
                }
                if order == 0 {
                    vstd::utf8::encode_utf8_decode_utf8(es[i - 1].0);
                    vstd::utf8::encode_utf8_decode_utf8(es[i as int].0);
                }
            }
            if order == 0 {
                return Err(Error::DuplicateKey);
            }
            if order != -1 {
                return Err(Error::NonCanonical);
            }
        }
        let value = match from_value(entries[i].1) {
            Ok(x) => x,
            Err(e) => return Err(e),
        };
        let ghost entry = (es[i as int].0, value@);
        map.push((entries[i].0.clone(), value));
        proof {
            if let Ok(rest) = ipld_of_entries(es, (i + 1) as nat) {
                assert(map_view(map@) + rest =~= had + (seq![entry] + rest));
            }
            assert forall|j: int| 0 <= j < i implies #[trigger] keys_ascend(map_view(map@), j) by {
                assert(map_view(map@)[j].0 == es[j].0);
                assert(map_view(map@)[j + 1].0 == es[j + 1].0);
                if j < i - 1 {
                    assert(keys_ascend(had, j));
                    assert(had[j].0 == es[j].0);
                    assert(had[j + 1].0 == es[j + 1].0);
                }
            }
        }
        i += 1;
    }
    proof {
        let m = map_view(map@);
        assert(m + Seq::<(Seq<char>, IpldView)>::empty() =~= m);
        assert forall|j: int| 0 <= j < m.len() implies (#[trigger] m[j]).1.valid() by {
            assert(map@[j].1@.valid());
        }
    }
    Ok(Ipld::StringMap(map))
}

/// Writes the JSON text of a value of the data model at the cursor's
/// position; the cursor ends behind it.
///
/// Fails with `NumberOutOfRange` where the codec cannot write the value or
/// the text would end beyond the length that a vector can have, and then
/// writes nothing.
pub fn encode(ipld: &Ipld, writer: &mut ByteCursor) -> (res: Result<(), Error>)
    requires
        ipld@.valid(),
    ensures
        res is Ok <==> json_encodable(ipld@) && cursor_position(*old(writer)) + encode_utf8(
            json_text(json_of(ipld@)),
        ).len() <= isize::MAX,
        res is Ok ==> cursor_bytes(*final(writer)) == overwritten(
            cursor_bytes(*old(writer)),
            cursor_position(*old(writer)) as int,
            encode_utf8(json_text(json_of(ipld@))),
        ) && cursor_position(*final(writer)) == cursor_position(*old(writer)) + encode_utf8(
            json_text(json_of(ipld@)),
        ).len(),
        res is Err ==> res->Err_0 == Error::NumberOutOfRange && cursor_bytes(*final(writer))
            == cursor_bytes(*old(writer)) && cursor_position(*final(writer)) == cursor_position(
            *old(writer),
        ),
{
    let value = match to_value(ipld) {
        Ok(v) => v,
        Err(e) => return Err(e),
    };
    let text = print_json(&value);
    let bytes = text.as_str().as_bytes();
    if !fits(writer, bytes.len()) {
        return Err(Error::NumberOutOfRange);
    }
    match writer.write_all(bytes) {
        Ok(_) => Ok(()),
        Err(_) => Err(Error::NumberOutOfRange),
    }
}

/// What a reader makes of JSON text: the value of its tree. Bytes that are
/// not one JSON value are an `InvalidJson`.
pub open spec fn json_decoding(text: Seq<u8>) -> Result<IpldView, Error> {
    match json_parse(text) {
        None => Err(Error::InvalidJson),
        Some(tree) => ipld_of_json(tree),
    }
}

/// Reads the bytes from the cursor's position to its end as the JSON text
/// of one value. The cursor ends at its end, and stays where it was on
/// failure.
pub fn decode(r: &mut ByteCursor) -> (res: Result<Ipld, Error>)
    ensures
        cursor_bytes(*final(r)) == cursor_bytes(*old(r)),
        match json_decoding(cursor_rest(*old(r))) {
            Ok(x) => res is Ok && res->Ok_0@ == x && x.valid() && cursor_position(*final(r))
                == cursor_position(*old(r)) + cursor_rest(*old(r)).len(),
            Err(e) => res is Err && res->Err_0 == e && cursor_position(*final(r))
                == cursor_position(*old(r)),
        },
{
    let bytes = r.get_ref();
    let len = bytes.len();
    let start: usize = if r.position() >= len as u64 {
        len
    } else {
        r.position() as usize
    };
    let rest = slice_subrange(bytes.as_slice(), start, len);
    assert(rest@ =~= cursor_rest(*r));
    let value = match parse_json(rest) {
        Some(v) => v,
        None => return Err(Error::InvalidJson),
    };
    let ipld = match from_value(&value) {
        Ok(x) => x,
        Err(e) => return Err(e),
    };
    if start < len {
        r.set_position(len as u64);
    }
    Ok(ipld)
}

} // verus!
