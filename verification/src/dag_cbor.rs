//! The DAG-CBOR codec: deterministic CBOR, restricted to what IPLD needs.

use crate::cid::{Cid, CidView, Version};
use crate::codec::{Codec, Decode, Encode, Error, References, SkipOne, UnsupportedCodec};
use crate::cursor::{cursor_position, cursor_rest, fits};
use crate::hasher::{blake2b_256, Code, MultihashDigest};
use crate::ipld::{cid_views, links, preorder, Ipld};
use crate::multihash::MultihashView;
use bytecursor::ByteCursor;
use vstd::prelude::*;

pub mod decode;
pub mod encode;
pub mod format;
pub mod laws;

verus! {

/// The code of the DAG-CBOR codec.
pub const DAG_CBOR: u64 = 0x71;

/// The DAG-CBOR codec.
#[derive(Clone, Copy, Debug, Default, PartialEq, Eq, PartialOrd, Ord)]
pub struct DagCborCodec;

impl Codec for DagCborCodec {

}

impl From<DagCborCodec> for u64 {
    fn from(_codec: DagCborCodec) -> (code: u64) {
        DAG_CBOR
    }
}

impl vstd::std_specs::convert::FromSpecImpl<DagCborCodec> for u64 {
    open spec fn obeys_from_spec() -> bool {
        true
    }

    open spec fn from_spec(_codec: DagCborCodec) -> u64 {
        DAG_CBOR
    }
}

impl TryFrom<u64> for DagCborCodec {
    type Error = UnsupportedCodec;

    fn try_from(code: u64) -> (res: Result<Self, UnsupportedCodec>) {
        if code == DAG_CBOR {
            Ok(DagCborCodec)
        } else {
            Err(UnsupportedCodec(code))
        }
    }
}

impl vstd::std_specs::convert::TryFromSpecImpl<u64> for DagCborCodec {
    open spec fn obeys_try_from_spec() -> bool {
        true
    }

    open spec fn try_from_spec(code: u64) -> Result<Self, UnsupportedCodec> {
        if code == DAG_CBOR {
            Ok(DagCborCodec)
        } else {
            Err(UnsupportedCodec(code))
        }
    }
}

/// A value that DAG-CBOR both writes and reads.
pub trait DagCbor: Encode<DagCborCodec> + Decode<DagCborCodec> {

}

impl<T: Encode<DagCborCodec> + Decode<DagCborCodec>> DagCbor for T {

}

impl Encode<DagCborCodec> for Ipld {
    /// The encoding of the value; a `NonCanonical` where the keys of a map
    /// in it do not ascend, and else a `NumberOutOfRange` where the codec
    /// cannot write it.
    open spec fn encoding(&self, c: DagCborCodec) -> Result<Seq<u8>, Error> {
        if !self@.valid() {
            Err(Error::NonCanonical)
        } else if !format::cbor_encodable(self@) {
            Err(Error::NumberOutOfRange)
        } else {
            Ok(format::cbor_encoding(self@))
        }
    }

    fn encode(&self, c: DagCborCodec, w: &mut ByteCursor) -> (res: Result<(), Error>) {
        let bytes = match encode::encode(self) {
            Ok(b) => b,
            Err(e) => return Err(e),
        };
        if !fits(w, bytes.len()) {
            return Err(Error::NumberOutOfRange);
        }
        match w.write_all(bytes.as_slice()) {
            Ok(_) => Ok(()),
            Err(_) => Err(Error::NumberOutOfRange),
        }
    }
}

impl Decode<DagCborCodec> for Ipld {
    /// Reading ends as the format says, at a depth of `MAX_DEPTH`; a failed
    /// read takes nothing.
    open spec fn decoded(c: DagCborCodec, s: Seq<u8>, res: Result<Self, Error>, taken: nat) -> bool {
        match format::cbor_value(s, format::MAX_DEPTH as nat) {
            Ok((v, n)) => res is Ok && res->Ok_0@ == v && taken == n,
            Err(e) => res is Err && res->Err_0 == e && taken == 0,
        }
    }

    fn decode(c: DagCborCodec, r: &mut ByteCursor) -> (res: Result<Self, Error>) {
        let (value, end) = match read_value(r) {
            Ok(x) => x,
            Err(e) => return Err(e),
        };
        r.set_position(end);
        Ok(value)
    }
}

impl References<DagCborCodec> for Ipld {
    /// The links of the value that the bytes decode to, in pre-order.
    open spec fn referenced(c: DagCborCodec, s: Seq<u8>) -> Result<Seq<CidView>, Error> {
        match format::cbor_value(s, format::MAX_DEPTH as nat) {
            Ok((v, n)) => Ok(links(preorder(v))),
            Err(e) => Err(e),
        }
    }

    fn references(c: DagCborCodec, r: &mut ByteCursor, set: &mut Vec<Cid>) -> (res: Result<
        (),
        Error,
    >) {
        let (value, end) = match read_value(r) {
            Ok(x) => x,
            Err(e) => {
                assert(cid_views(set@) =~= cid_views(old(set)@));
                return Err(e);
            },
        };
        r.set_position(end);
        value.references(set);
        Ok(())
    }
}

impl SkipOne for DagCborCodec {
    /// The length of the value at the front of the bytes.
    open spec fn skipped(&self, s: Seq<u8>) -> Result<nat, Error> {
        match format::cbor_value(s, format::MAX_DEPTH as nat) {
            Ok((v, n)) => Ok(n),
            Err(e) => Err(e),
        }
    }

    fn skip(&self, r: &mut ByteCursor) -> (res: Result<(), Error>) {
        let (_, end) = match read_value(r) {
            Ok(x) => x,
            Err(e) => return Err(e),
        };
        r.set_position(end);
        Ok(())
    }
}

/// Decodes the value at the cursor's position without moving the cursor:
/// the value and the position behind it.
fn read_value(r: &ByteCursor) -> (res: Result<(Ipld, u64), Error>)
    ensures
        match format::cbor_value(cursor_rest(*r), format::MAX_DEPTH as nat) {
            Ok((v, n)) => res is Ok && res->Ok_0.0@ == v && res->Ok_0.1 == cursor_position(*r) + n
                && n <= cursor_rest(*r).len(),
            Err(e) => res is Err && res->Err_0 == e,
        },
{
    let bytes = r.get_ref();
    let len = bytes.len();
    let start: usize = if r.position() >= len as u64 {
        len
    } else {
        r.position() as usize
    };
    assert(cursor_rest(*r) =~= bytes@.skip(start as int));
    match decode::decode_value(bytes.as_slice(), start, format::MAX_DEPTH) {
        Ok((value, end)) => Ok((value, end as u64)),
        Err(e) => Err(e),
    }
}

/// The CID of a value under DAG-CBOR: version 1, the codec's code, and the
/// BLAKE2b-256 multihash of the value's encoding.
pub fn cid(x: &Ipld) -> (c: Cid)
    requires
        x@.valid(),
        format::cbor_encodable(x@),
    ensures
        c@ == (CidView {
            version: Version::V1,
            codec: DAG_CBOR,
            hash: MultihashView {
                code: Code::Blake2b256.code_value(),
                digest: blake2b_256(format::cbor_encoding(x@)),
            },
        }),
        c@.valid(64),
{
    let bytes = match encode::encode(x) {
        Ok(b) => b,
        Err(_) => vstd::pervasive::unreached(),
    };
    cid_of_block(DAG_CBOR, bytes.as_slice())
}

/// The CID of a value under DAG-CBOR with a hash function of the caller's
/// choice: version 1, the codec's code, and the function's multihash of the
/// value's encoding.
pub fn cid_with(x: &Ipld, hash: Code) -> (c: Cid)
    requires
        x@.valid(),
        format::cbor_encodable(x@),
        hash.takes(format::cbor_encoding(x@)),
    ensures
        c@ == (CidView {
            version: Version::V1,
            codec: DAG_CBOR,
            hash: MultihashView {
                code: hash.code_value(),
                digest: hash.digest_of(format::cbor_encoding(x@)),
            },
        }),
        c@.valid(64),
{
    let bytes = match encode::encode(x) {
        Ok(b) => b,
        Err(_) => vstd::pervasive::unreached(),
    };
    proof {
        laws::lemma_encoding_not_empty(x@);
    }
    Cid::new_v1(DAG_CBOR, hash.digest(bytes.as_slice()))
}

/// The CID of a block under a codec: version 1, the codec's code, and the
/// BLAKE2b-256 multihash of the block.
pub fn cid_of_block(codec: u64, block: &[u8]) -> (c: Cid)
    ensures
        c@ == (CidView {
            version: Version::V1,
            codec,
            hash: MultihashView {
                code: Code::Blake2b256.code_value(),
                digest: blake2b_256(block@),
            },
        }),
        c@.valid(64),
{
    Cid::new_v1(codec, Code::Blake2b256.digest(block))
}

} // verus!
