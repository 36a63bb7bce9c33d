//! JSON trees: what a `serde_json::Value` holds, how one is made and taken
//! apart, and its text. Base64, for the bytes escape, stands here too.

use crate::bytes::bytes_lt;
use serde_json::Value;
use vstd::prelude::*;
use vstd::utf8::encode_utf8;

verus! {

/// `serde_json::Value`: a JSON tree.
#[verifier::external_type_specification]
#[verifier::external_body]
pub struct ExValue(serde_json::Value);

/// What a JSON tree says. A number is a non-negative integer of 64 bits, a
/// negative one, or a double, as its bits; an object is its entries in the
/// order in which it hands them out.
pub enum JsonView {
    Null,
    Bool(bool),
    PosInt(u64),
    NegInt(i64),
    Float(u64),
    String(Seq<char>),
    Array(Seq<JsonView>),
    Object(Seq<(Seq<char>, JsonView)>),
}

/// What a `serde_json::Value` holds.
pub uninterp spec fn value_view(v: Value) -> JsonView;

/// The tree that JSON text stands for; `None` where the bytes are not one
/// JSON value.
pub uninterp spec fn json_parse(text: Seq<u8>) -> Option<JsonView>;

/// The compact JSON text of a tree.
pub uninterp spec fn json_text(tree: JsonView) -> Seq<char>;

/// The base64 text of `bytes`, in the standard alphabet without padding.
pub uninterp spec fn base64_text(bytes: Seq<u8>) -> Seq<char>;

/// The bytes that base64 text in the standard alphabet without padding
/// stands for; `None` where the text is not that.
pub uninterp spec fn base64_bytes(text: Seq<char>) -> Option<Seq<u8>>;

/// Whether the double with these bits is a number: its exponent is not all
/// ones.
pub open spec fn float_finite(bits: u64) -> bool {
    (bits / 0x10_0000_0000_0000) % 0x800 != 0x7ff
}

/// A JSON value that holds no other.
pub enum Scalar {
    Null,
    Bool(bool),
    PosInt(u64),
    NegInt(i64),
    Float(u64),
    Text(String),
}

/// What kind of JSON value a tree is at its root, with the value where it
/// holds no other.
pub enum Shape {
    Scalar(Scalar),
    Array,
    Object,
}

impl View for Scalar {
    type V = JsonView;

    /// The tree that is this scalar.
    open spec fn view(&self) -> JsonView {
        match self {
            Scalar::Null => JsonView::Null,
            Scalar::Bool(b) => JsonView::Bool(*b),
            Scalar::PosInt(n) => JsonView::PosInt(*n),
            Scalar::NegInt(n) => JsonView::NegInt(*n),
            Scalar::Float(bits) => JsonView::Float(*bits),
            Scalar::Text(s) => JsonView::String(s@),
        }
    }
}

/// What the values of a collection hold, one by one.
pub open spec fn value_views(items: Seq<Value>) -> Seq<JsonView> {
    Seq::new(items.len(), |i: int| value_view(items[i]))
}

/// What the entries of a collection hold, one by one.
pub open spec fn entry_views(entries: Seq<(String, Value)>) -> Seq<(Seq<char>, JsonView)> {
    Seq::new(entries.len(), |i: int| (entries[i].0@, value_view(entries[i].1)))
}

/// `serde_json::from_slice` to a `Value`, with the error dropped.
#[verifier::external_body]
pub(crate) fn parse_json(text: &[u8]) -> (r: Option<Value>)
    ensures
        match r {
            Some(v) => json_parse(text@) == Some(value_view(v)),
            None => json_parse(text@) is None,
        },
{
    serde_json::from_slice::<Value>(text).ok()
}

/// `serde_json::to_string` of a `Value`, which cannot fail: the keys of a
/// `Value` are strings, and the text goes to memory.
#[verifier::external_body]
pub(crate) fn print_json(v: &Value) -> (text: String)
    ensures
        text@ == json_text(value_view(*v)),
{
    serde_json::to_string(v).unwrap_or_default()
}

/// The variant of a `Value`, with what it holds where that is no other
/// `Value`. Of a number `Number::as_u64` tells a non-negative integer,
/// `Number::as_i64` then a negative one, and what is left is a double, whose
/// bits `Number::as_f64` gives.
#[verifier::external_body]
pub(crate) fn value_shape(v: &Value) -> (shape: Shape)
    ensures
        match shape {
            Shape::Scalar(s) => value_view(*v) == s@,
            Shape::Array => value_view(*v) is Array,
            Shape::Object => value_view(*v) is Object,
        },
{
    match v {
        Value::Null => Shape::Scalar(Scalar::Null),
        Value::Bool(b) => Shape::Scalar(Scalar::Bool(*b)),
        Value::Number(n) => Shape::Scalar(
            n.as_u64().map(Scalar::PosInt).or(n.as_i64().map(Scalar::NegInt)).unwrap_or(
                Scalar::Float(n.as_f64().map(|x| x.to_bits()).unwrap_or_default()),
            ),
        ),
        Value::String(s) => Shape::Scalar(Scalar::Text(s.clone())),
        Value::Array(_) => Shape::Array,
        Value::Object(_) => Shape::Object,
    }
}

/// The items of a `Value` that is an array, by `Value::as_array`.
#[verifier::external_body]
pub(crate) fn value_items(v: &Value) -> (items: Vec<&Value>)
    requires
        value_view(*v) is Array,
    ensures
        items@.len() == value_view(*v)->Array_0.len(),
        forall|i: int|
            0 <= i < items@.len() ==> value_view(*#[trigger] items@[i]) == value_view(
                *v,
            )->Array_0[i],
{
    v.as_array().map(|a| a.iter().collect()).unwrap_or_default()
}

/// The entries of a `Value` that is an object, by `Value::as_object`, in the
/// order in which the object hands them out.
#[verifier::external_body]
pub(crate) fn value_entries(v: &Value) -> (entries: Vec<(&String, &Value)>)
    requires
        value_view(*v) is Object,
    ensures
        entries@.len() == value_view(*v)->Object_0.len(),
        forall|i: int|
            0 <= i < entries@.len() ==> (#[trigger] entries@[i]).0@ == value_view(
                *v,
            )->Object_0[i].0 && value_view(*entries@[i].1) == value_view(*v)->Object_0[i].1,
{
    v.as_object().map(|m| m.iter().collect()).unwrap_or_default()
}

/// A `Value` of a scalar. `Number::from_f64` makes the number of a double,
/// and makes none of an infinity or a NaN; the double is read from its bits
/// by `parity_scale_codec`, whose form of a double is its 8 bytes, least
/// significant first.
#[verifier::external_body]
pub(crate) fn make_scalar(s: Scalar) -> (r: Option<Value>)
    requires
        s matches Scalar::NegInt(n) ==> n < 0,
    ensures
        r is Some <==> (s matches Scalar::Float(bits) ==> float_finite(bits)),
        r is Some ==> value_view(r->Some_0) == s@,
{
    match s {
        Scalar::Null => Some(Value::Null),
        Scalar::Bool(b) => Some(Value::Bool(b)),
        Scalar::PosInt(n) => Some(Value::from(n)),
        Scalar::NegInt(n) => Some(Value::from(n)),
        Scalar::Float(bits) => parity_scale_codec::Decode::decode(
            &mut &bits.to_le_bytes()[..],
        ).ok().and_then(serde_json::Number::from_f64).map(Value::Number),
        Scalar::Text(t) => Some(Value::String(t)),
    }
}

/// A `Value` that is an array of the given items.
#[verifier::external_body]
pub(crate) fn make_array(items: Vec<Value>) -> (v: Value)
    ensures
        value_view(v) == JsonView::Array(value_views(items@)),
{
    Value::Array(items)
}

/// A `Value` that is an object of the given entries, whose keys ascend in
/// the order of their bytes: the order in which a `serde_json::Map` hands
/// its entries out.
#[verifier::external_body]
pub(crate) fn make_object(entries: Vec<(String, Value)>) -> (v: Value)
    requires
        forall|i: int|
            0 <= i < entries@.len() - 1 ==> bytes_lt(
                encode_utf8((#[trigger] entries@[i]).0@),
                encode_utf8(entries@[i + 1].0@),
            ),
    ensures
        value_view(v) == JsonView::Object(entry_views(entries@)),
{
    Value::Object(entries.into_iter().collect())
}

/// `base64::encode_config` with `STANDARD_NO_PAD`. `base64::decode_config`
/// with the same gives the bytes back from the text. Input so long that the
/// text's length is no `usize` is left out.
#[verifier::external_body]
pub(crate) fn encode_base64(bytes: &[u8]) -> (text: String)
    requires
        bytes@.len() <= usize::MAX / 4 - 4,
    ensures
        text@ == base64_text(bytes@),
        base64_bytes(text@) == Some(bytes@),
{
    base64::encode_config(bytes, base64::STANDARD_NO_PAD)
}

/// `base64::decode_config` with `STANDARD_NO_PAD`, with the error dropped.
#[verifier::external_body]
pub(crate) fn decode_base64(text: &str) -> (bytes: Option<Vec<u8>>)
    ensures
        match bytes {
            Some(b) => base64_bytes(text@) == Some(b@),
            None => base64_bytes(text@) is None,
        },
{
    base64::decode_config(text, base64::STANDARD_NO_PAD).ok()
}

} // verus!
