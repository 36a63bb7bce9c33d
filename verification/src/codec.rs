//! The codec surface: the error kinds of the library and the traits through
//! which a codec encodes, decodes and harvests links.

use crate::cid::{Cid, CidView};
use crate::cursor::{cursor_bytes, cursor_position, cursor_rest, overwritten};
use crate::ipld::cid_views;
use bytecursor::ByteCursor;
use vstd::prelude::*;

verus! {

/// The code that a codec marker was asked to stand for and does not.
#[derive(Clone, Copy, Debug, PartialEq, Eq, Structural)]
pub struct UnsupportedCodec(pub u64);

/// Every way in which an operation of this library fails.
#[derive(Clone, Copy, Debug, PartialEq, Eq, Structural)]
pub enum Error {
    /// A varint ran past its last permitted byte, past its type's range, or
    /// past the end of the input.
    VarintOverflow,
    /// The input ended before the value did.
    UnexpectedEof,
    /// A digest length that the multihash cannot hold, or input that goes on
    /// after the multihash; the payload is the offending length.
    InvalidSize(u64),
    /// A multihash code outside the code table.
    UnknownMultihashCode,
    /// Multibase text whose first character tags no base.
    UnknownBase,
    /// Multibase text that is empty or not text of its base.
    InvalidChar,
    /// A CID version other than 0 and 1.
    InvalidCidVersion,
    /// A version 0 CID with a codec other than dag-pb.
    InvalidCidV0Codec,
    /// A version 0 CID whose multihash is not a 32-byte sha2-256.
    InvalidCidV0Multihash,
    /// CID text whose base cannot be told or decoded.
    InvalidCidBase,
    /// A codec code that the codec marker does not stand for.
    UnsupportedCodec(u64),
    /// A CBOR item whose major type or additional information has no meaning
    /// in DAG-CBOR.
    InvalidCborMajor,
    /// An indefinite-length string, list or map.
    IndefiniteLengthNotAllowed,
    /// An integer or length written wider than its least width.
    NonCanonical,
    /// A tag other than 42; the payload is the tag.
    UnknownTag(u64),
    /// A number that the codec cannot write, or a length or a position that
    /// is beyond what memory holds.
    NumberOutOfRange,
    /// A half or single precision float.
    InvalidFloatWidth,
    /// A text string that is not UTF-8.
    InvalidUtf8,
    /// A map key that occurs twice or out of order.
    DuplicateKey,
    /// Containers nested deeper than the decoder follows.
    RecursionLimit,
    /// Input that goes on after the value.
    TrailingBytes,
    /// Text that is not JSON.
    InvalidJson,
    /// A `{"/": ..}` object whose text is not a CID.
    InvalidLinkEscape,
    /// A `{"/": {"bytes": ..}}` object of another shape than that.
    InvalidBytesEscape,
    /// Text that is not base64.
    InvalidBase64,
}


impl From<UnsupportedCodec> for Error {
    fn from(unsupported: UnsupportedCodec) -> (e: Error) {
        Error::UnsupportedCodec(unsupported.0)
    }
}

impl vstd::std_specs::convert::FromSpecImpl<UnsupportedCodec> for Error {
    open spec fn obeys_from_spec() -> bool {
        true
    }

    /// The error kind of the same name, with the code.
    open spec fn from_spec(unsupported: UnsupportedCodec) -> Error {
        Error::UnsupportedCodec(unsupported.0)
    }
}

/// A value that can be written under the codec `C`.
pub trait Encode<C> {
    /// The bytes that this value is written as under `c`, or the error.
    spec fn encoding(&self, c: C) -> Result<Seq<u8>, Error>;

    /// Writes this value under `c` at the cursor's position; the cursor ends
    /// behind what was written.
    ///
    /// Fails as `encoding` says, and where what is written would end beyond
    /// the length that a vector can have. On failure the cursor and its
    /// bytes stay as they were.
    fn encode(&self, c: C, w: &mut ByteCursor) -> (res: Result<(), Error>)
        ensures
            res is Ok <==> self.encoding(c) is Ok && cursor_position(*old(w)) + self.encoding(
                c,
            )->Ok_0.len() <= isize::MAX,
            res is Ok ==> cursor_bytes(*final(w)) == overwritten(
                cursor_bytes(*old(w)),
                cursor_position(*old(w)) as int,
                self.encoding(c)->Ok_0,
            ) && cursor_position(*final(w)) == cursor_position(*old(w)) + self.encoding(
                c,
            )->Ok_0.len(),
            res is Err ==> cursor_bytes(*final(w)) == cursor_bytes(*old(w)) && cursor_position(
                *final(w),
            ) == cursor_position(*old(w)),
            self.encoding(c) is Err ==> res == Err::<(), Error>(self.encoding(c)->Err_0),
    ;
}

impl<C, T: Encode<C>> Encode<C> for &T {
    /// What the value behind the reference is written as.
    open spec fn encoding(&self, c: C) -> Result<Seq<u8>, Error> {
        (**self).encoding(c)
    }

    fn encode(&self, c: C, w: &mut ByteCursor) -> (res: Result<(), Error>) {
        (**self).encode(c, w)
    }
}

/// A value that can be read under the codec `C`.
pub trait Decode<C>: Sized {
    /// Whether reading one value under `c` from the front of `s` ends in
    /// `res`, having taken `taken` bytes.
    spec fn decoded(c: C, s: Seq<u8>, res: Result<Self, Error>, taken: nat) -> bool;

    /// Reads one value under `c` from the cursor's position. The cursor ends
    /// behind the value, and stays where it was on failure.
    fn decode(c: C, r: &mut ByteCursor) -> (res: Result<Self, Error>)
        ensures
            cursor_bytes(*final(r)) == cursor_bytes(*old(r)),
            cursor_position(*final(r)) >= cursor_position(*old(r)),
            cursor_position(*final(r)) - cursor_position(*old(r)) <= cursor_rest(*old(r)).len(),
            res is Err ==> cursor_position(*final(r)) == cursor_position(*old(r)),
            Self::decoded(
                c,
                cursor_rest(*old(r)),
                res,
                (cursor_position(*final(r)) - cursor_position(*old(r))) as nat,
            ),
    ;
}

/// A value whose links can be harvested from its encoding under the codec
/// `C`.
pub trait References<C>: Sized {
    /// The CIDs of the links in the value at the front of `s`, or the error.
    spec fn referenced(c: C, s: Seq<u8>) -> Result<Seq<CidView>, Error>;

    /// Appends to `set` the CIDs of the links in the value at the cursor's
    /// position. On failure `set` says what it said before.
    fn references(c: C, r: &mut ByteCursor, set: &mut Vec<Cid>) -> (res: Result<(), Error>)
        ensures
            cursor_bytes(*final(r)) == cursor_bytes(*old(r)),
            match Self::referenced(c, cursor_rest(*old(r))) {
                Ok(cids) => res is Ok && cid_views(final(set)@) == cid_views(old(set)@) + cids,
                Err(e) => res == Err::<(), Error>(e) && cid_views(final(set)@) == cid_views(
                    old(set)@,
                ),
            },
    ;
}

/// A codec: a marker that stands for a codec's code and writes, reads and
/// harvests whatever can be written, read and harvested under it.
pub trait Codec: Copy + Send + Sync + 'static + Sized + TryFrom<
    u64,
    Error = UnsupportedCodec,
> + Into<u64> {
    /// Writes `obj` to a fresh cursor, which ends behind what was written.
    ///
    /// Fails as the encoding of `obj` says, and where the encoding is longer
    /// than a vector can be.
    fn encode<T: Encode<Self>>(&self, obj: &T) -> (res: Result<ByteCursor, Error>)
        ensures
            res is Ok <==> obj.encoding(*self) is Ok && obj.encoding(*self)->Ok_0.len()
                <= isize::MAX,
            res is Ok ==> cursor_bytes(res->Ok_0) == obj.encoding(*self)->Ok_0
                && cursor_position(res->Ok_0) == obj.encoding(*self)->Ok_0.len(),
            obj.encoding(*self) is Err ==> res is Err && res->Err_0 == obj.encoding(
                *self,
            )->Err_0,
    {
        let mut buf = ByteCursor::new(Vec::new());
        match obj.encode(*self, &mut buf) {
            Ok(()) => {
                assert(cursor_bytes(buf) =~= obj.encoding(*self)->Ok_0);
                Ok(buf)
            },
            Err(e) => Err(e),
        }
    }

    /// Reads the one value that the cursor holds from its position on.
    /// Bytes left behind the value are a `TrailingBytes`.
    fn decode<T: Decode<Self>>(&self, bytes: ByteCursor) -> (res: Result<T, Error>)
        ensures
            res is Ok ==> T::decoded(*self, cursor_rest(bytes), res, cursor_rest(bytes).len()),
            res is Err ==> (exists|taken: nat| T::decoded(*self, cursor_rest(bytes), res, taken))
                || (res->Err_0 == Error::TrailingBytes && exists|value: T, taken: nat|
                taken < cursor_rest(bytes).len() && T::decoded(
                    *self,
                    cursor_rest(bytes),
                    Ok(value),
                    taken,
                )),
    {
        let mut bytes = bytes;
        let ghost start = cursor_position(bytes);
        let value = match T::decode(*self, &mut bytes) {
            Ok(v) => v,
            Err(e) => {
                return Err(e);
            },
        };
        if bytes.position() < bytes.get_ref().len() as u64 {
            return Err(Error::TrailingBytes);
        }
        Ok(value)
    }

    /// Appends to `set` the CIDs of the links in the value that the cursor
    /// holds from its position on.
    fn references<T: References<Self>>(&self, bytes: ByteCursor, set: &mut Vec<Cid>) -> (res:
        Result<(), Error>)
        ensures
            match T::referenced(*self, cursor_rest(bytes)) {
                Ok(cids) => res is Ok && cid_views(final(set)@) == cid_views(old(set)@) + cids,
                Err(e) => res == Err::<(), Error>(e) && cid_views(final(set)@) == cid_views(
                    old(set)@,
                ),
            },
    {
        let mut bytes = bytes;
        T::references(*self, &mut bytes, set)
    }
}

/// A codec that can pass over a value without building it.
pub trait SkipOne: Codec {
    /// How many bytes the value at the front of `s` stands in, or the error.
    spec fn skipped(&self, s: Seq<u8>) -> Result<nat, Error>;

    /// Moves the cursor behind the value at its position. On failure the
    /// cursor stays where it was.
    fn skip(&self, r: &mut ByteCursor) -> (res: Result<(), Error>)
        ensures
            cursor_bytes(*final(r)) == cursor_bytes(*old(r)),
            match self.skipped(cursor_rest(*old(r))) {
                Ok(n) => res is Ok && cursor_position(*final(r)) == cursor_position(*old(r)) + n,
                Err(e) => res == Err::<(), Error>(e) && cursor_position(*final(r))
                    == cursor_position(*old(r)),
            },
    ;
}

} // verus!
