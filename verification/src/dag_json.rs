//! The DAG-JSON codec: JSON, with links and byte strings as objects under
//! the key `/`.

use crate::cid::{Cid, CidView, Version};
use crate::codec::{Codec, Decode, Encode, Error, References, UnsupportedCodec};
use crate::dag_cbor::cid_of_block;
use crate::dag_json::json::{json_text, parse_json, print_json};
use crate::hasher::{blake2b_256, Code};
use crate::ipld::{cid_views, links, preorder, Ipld, IpldView};
use crate::multihash::MultihashView;
use bytecursor::ByteCursor;
use vstd::prelude::*;
use vstd::utf8::encode_utf8;

pub mod codec;
pub mod json;

verus! {

/// The code of the DAG-JSON codec.
pub const DAG_JSON: u64 = 0x0129;

/// The DAG-JSON codec.
#[derive(Clone, Copy, Debug, PartialEq, Eq, PartialOrd, Ord)]
pub struct DagJsonCodec;

impl Codec for DagJsonCodec {

}

impl From<DagJsonCodec> for u64 {
    fn from(_codec: DagJsonCodec) -> (code: u64) {
        DAG_JSON
    }
}

impl vstd::std_specs::convert::FromSpecImpl<DagJsonCodec> for u64 {
    open spec fn obeys_from_spec() -> bool {
        true
    }

    open spec fn from_spec(_codec: DagJsonCodec) -> u64 {
        DAG_JSON
    }
}

impl TryFrom<u64> for DagJsonCodec {
    type Error = UnsupportedCodec;

    fn try_from(code: u64) -> (res: Result<Self, UnsupportedCodec>) {
        if code == DAG_JSON {
            Ok(DagJsonCodec)
        } else {
            Err(UnsupportedCodec(code))
        }
    }
}

impl vstd::std_specs::convert::TryFromSpecImpl<u64> for DagJsonCodec {
    open spec fn obeys_try_from_spec() -> bool {
        true
    }

    open spec fn try_from_spec(code: u64) -> Result<Self, UnsupportedCodec> {
        if code == DAG_JSON {
            Ok(DagJsonCodec)
        } else {
            Err(UnsupportedCodec(code))
        }
    }
}

/// The JSON text of a value, or the error: a `NonCanonical` where the keys
/// of a map in the value do not ascend, and else a `NumberOutOfRange` where
/// the codec cannot write the value.
pub open spec fn json_encoding(v: IpldView) -> Result<Seq<char>, Error> {
    if !v.valid() {
        Err(Error::NonCanonical)
    } else if !codec::json_encodable(v) {
        Err(Error::NumberOutOfRange)
    } else {
        Ok(json_text(codec::json_of(v)))
    }
}

impl Encode<DagJsonCodec> for Ipld {
    /// The UTF-8 bytes of the value's JSON text, or the error.
    open spec fn encoding(&self, c: DagJsonCodec) -> Result<Seq<u8>, Error> {
        match json_encoding(self@) {
            Ok(text) => Ok(encode_utf8(text)),
            Err(e) => Err(e),
        }
    }

    fn encode(&self, c: DagJsonCodec, w: &mut ByteCursor) -> (res: Result<(), Error>) {
        if !self.is_valid() {
            return Err(Error::NonCanonical);
        }
        codec::encode(self, w)
    }
}

impl Decode<DagJsonCodec> for Ipld {
    /// Reading takes the whole of the bytes as the JSON text of one value; a
    /// failed read takes nothing.
    open spec fn decoded(c: DagJsonCodec, s: Seq<u8>, res: Result<Self, Error>, taken: nat) -> bool {
        match codec::json_decoding(s) {
            Ok(v) => res is Ok && res->Ok_0@ == v && taken == s.len(),
            Err(e) => res is Err && res->Err_0 == e && taken == 0,
        }
    }

    fn decode(c: DagJsonCodec, r: &mut ByteCursor) -> (res: Result<Self, Error>) {
        codec::decode(r)
    }
}

impl References<DagJsonCodec> for Ipld {
    /// The links of the value that the text stands for, in pre-order.
    open spec fn referenced(c: DagJsonCodec, s: Seq<u8>) -> Result<Seq<CidView>, Error> {
        match codec::json_decoding(s) {
            Ok(v) => Ok(links(preorder(v))),
            Err(e) => Err(e),
        }
    }

    fn references(c: DagJsonCodec, r: &mut ByteCursor, set: &mut Vec<Cid>) -> (res: Result<
        (),
        Error,
    >) {
        match codec::decode(r) {
            Ok(value) => {
                value.references(set);
                Ok(())
            },
            Err(e) => {
                assert(cid_views(set@) =~= cid_views(old(set)@));
                Err(e)
            },
        }
    }
}

/// The CID of a value under DAG-JSON: version 1, the codec's code, and the
/// BLAKE2b-256 multihash of the UTF-8 bytes of the value's JSON text.
pub fn cid(dag: &Ipld) -> (c: Cid)
    requires
        dag@.valid(),
        codec::json_encodable(dag@),
    ensures
        c@ == (CidView {
            version: Version::V1,
            codec: DAG_JSON,
            hash: MultihashView {
                code: Code::Blake2b256.code_value(),
                digest: blake2b_256(encode_utf8(json_text(codec::json_of(dag@)))),
            },
        }),
        c@.valid(64),
{
    let value = match codec::to_value(dag) {
        Ok(v) => v,
        Err(_) => vstd::pervasive::unreached(),
    };
    let text = print_json(&value);
    cid_of_block(DAG_JSON, text.as_str().as_bytes())
}

/// The value that DAG-JSON text stands for.
///
/// Fails with `InvalidJson` where the text is not one JSON value, and as
/// the mapping from JSON trees says.
pub fn from_dag_json_string(s: String) -> (res: Result<Ipld, Error>)
    ensures
        match codec::json_decoding(encode_utf8(s@)) {
            Ok(v) => res is Ok && res->Ok_0@ == v && v.valid(),
            Err(e) => res is Err && res->Err_0 == e,
        },
{
    let value = match parse_json(s.as_str().as_bytes()) {
        Some(v) => v,
        None => return Err(Error::InvalidJson),
    };
    codec::from_value(&value)
}

/// The DAG-JSON text of a value.
///
/// Fails with `NonCanonical` where the keys of a map in the value do not
/// ascend, and else with `NumberOutOfRange` where the codec cannot write the
/// value: where an integer is no `i64`, a float is no number, or a byte
/// string is longer than `MAX_BYTES_LEN`.
pub fn to_dag_json_string(ipld: Ipld) -> (res: Result<String, Error>)
    ensures
        match json_encoding(ipld@) {
            Ok(text) => res is Ok && res->Ok_0@ == text,
            Err(e) => res is Err && res->Err_0 == e,
        },
{
    if !ipld.is_valid() {
        return Err(Error::NonCanonical);
    }
    match codec::to_value(&ipld) {
        Ok(value) => Ok(print_json(&value)),
        Err(e) => Err(e),
    }
}

} // verus!
