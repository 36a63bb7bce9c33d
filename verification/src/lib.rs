//! Content-addressed linked data: the IPLD value tree, its canonical DAG-CBOR
//! and DAG-JSON codecs, and the multihash and CID primitives beneath them.

pub mod base;
pub mod bytes;
pub mod cid;
pub mod codec;
pub mod cursor;
pub mod dag_cbor;
pub mod dag_json;
pub mod hasher;
pub mod ipld;
pub mod multihash;
pub mod varint;

pub use crate::codec::{Codec, Decode, Encode, Error, References, SkipOne, UnsupportedCodec};
pub use crate::ipld::{Ipld, IpldIter};
