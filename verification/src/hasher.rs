//! The code table: the hash functions that a multihash can name, each with
//! its code, behind one digest interface.

use crate::codec::Error;
use crate::bytes::slice_to_vec;
use crate::multihash::{Multihash, MultihashView};
use sha2::Digest;
use vstd::prelude::*;

verus! {

/// The SHA-2 digest of 256 bits of `input`.
pub uninterp spec fn sha2_256(input: Seq<u8>) -> Seq<u8>;

/// The SHA-2 digest of 512 bits of `input`.
pub uninterp spec fn sha2_512(input: Seq<u8>) -> Seq<u8>;

/// The SHA-3 digest of 256 bits of `input`.
pub uninterp spec fn sha3_256(input: Seq<u8>) -> Seq<u8>;

/// The SHA-3 digest of 512 bits of `input`.
pub uninterp spec fn sha3_512(input: Seq<u8>) -> Seq<u8>;

/// The unkeyed BLAKE2b digest of 256 bits of `input`.
pub uninterp spec fn blake2b_256(input: Seq<u8>) -> Seq<u8>;

/// The unkeyed BLAKE2b digest of 512 bits of `input`.
pub uninterp spec fn blake2b_512(input: Seq<u8>) -> Seq<u8>;

/// The BLAKE3 digest of 256 bits of `input`.
pub uninterp spec fn blake3_256(input: Seq<u8>) -> Seq<u8>;

/// `sha2::Sha256::digest`: the digest of the input, 32 bytes.
#[verifier::external_body]
fn hash_sha2_256(input: &[u8]) -> (out: Vec<u8>)
    ensures
        out@ == sha2_256(input@),
        out@.len() == 32,
{
    sha2::Sha256::digest(input).to_vec()
}

/// `sha2::Sha512::digest`: the digest of the input, 64 bytes.
#[verifier::external_body]
fn hash_sha2_512(input: &[u8]) -> (out: Vec<u8>)
    ensures
        out@ == sha2_512(input@),
        out@.len() == 64,
{
    sha2::Sha512::digest(input).to_vec()
}

/// `sha3::Sha3_256::digest`: the digest of the input, 32 bytes.
#[verifier::external_body]
fn hash_sha3_256(input: &[u8]) -> (out: Vec<u8>)
    ensures
        out@ == sha3_256(input@),
        out@.len() == 32,
{
    sha3::Sha3_256::digest(input).to_vec()
}

/// `sha3::Sha3_512::digest`: the digest of the input, 64 bytes.
#[verifier::external_body]
fn hash_sha3_512(input: &[u8]) -> (out: Vec<u8>)
    ensures
        out@ == sha3_512(input@),
        out@.len() == 64,
{
    sha3::Sha3_512::digest(input).to_vec()
}

/// `blake2b_simd::Params::hash` with a hash length of 32 and no key: the
/// digest of the input, 32 bytes.
#[verifier::external_body]
fn hash_blake2b_256(input: &[u8]) -> (out: Vec<u8>)
    ensures
        out@ == blake2b_256(input@),
        out@.len() == 32,
{
    blake2b_simd::Params::new().hash_length(32).hash(input).as_bytes().to_vec()
}

/// `blake2b_simd::blake2b`: the digest of the input at BLAKE2b's full
/// length, 64 bytes.
#[verifier::external_body]
fn hash_blake2b_512(input: &[u8]) -> (out: Vec<u8>)
    ensures
        out@ == blake2b_512(input@),
        out@.len() == 64,
{
    blake2b_simd::blake2b(input).as_bytes().to_vec()
}

/// `blake3::hash`: the digest of the input, 32 bytes.
#[verifier::external_body]
fn hash_blake3_256(input: &[u8]) -> (out: Vec<u8>)
    ensures
        out@ == blake3_256(input@),
        out@.len() == 32,
{
    blake3::hash(input).as_bytes().to_vec()
}

/// A hash function with a code: what makes a multihash of some input.
pub trait MultihashDigest: Copy + Sized {
    /// The code under which the function's digests are framed.
    spec fn code_of(&self) -> u64;

    /// The function's digest of `input`.
    spec fn digest_of(&self, input: Seq<u8>) -> Seq<u8>;

    /// Whether the function takes `input`.
    spec fn takes(&self, input: Seq<u8>) -> bool;

    /// The multihash of `input`: the function's code with its digest.
    fn digest(&self, input: &[u8]) -> (mh: Multihash<64>)
        requires
            self.takes(input@),
        ensures
            mh@ == (MultihashView { code: self.code_of(), digest: self.digest_of(input@) }),
            mh.wf(),
    ;
}

/// The code table.
#[derive(Clone, Copy, Debug, PartialEq, Eq, Structural)]
pub enum Code {
    /// The input itself, code 0x00.
    Identity,
    /// SHA-2 at 256 bits, code 0x12.
    Sha2_256,
    /// SHA-2 at 512 bits, code 0x13.
    Sha2_512,
    /// SHA-3 at 512 bits, code 0x14.
    Sha3_512,
    /// SHA-3 at 256 bits, code 0x16.
    Sha3_256,
    /// BLAKE3 at 256 bits, code 0x1e.
    Blake3_256,
    /// BLAKE2b at 256 bits, code 0xb220.
    Blake2b256,
    /// BLAKE2b at 512 bits, code 0xb240.
    Blake2b512,
}

impl Code {
    /// The code of an entry.
    pub open spec fn code_value(self) -> u64 {
        match self {
            Code::Identity => 0x00,
            Code::Sha2_256 => 0x12,
            Code::Sha2_512 => 0x13,
            Code::Sha3_512 => 0x14,
            Code::Sha3_256 => 0x16,
            Code::Blake3_256 => 0x1e,
            Code::Blake2b256 => 0xb220,
            Code::Blake2b512 => 0xb240,
        }
    }

    /// How many bytes the entry's digests have; for the identity function,
    /// which has no length of its own, 0.
    pub open spec fn digest_size(self) -> nat {
        match self {
            Code::Identity => 0,
            Code::Sha2_256 => 32,
            Code::Sha2_512 => 64,
            Code::Sha3_512 => 64,
            Code::Sha3_256 => 32,
            Code::Blake3_256 => 32,
            Code::Blake2b256 => 32,
            Code::Blake2b512 => 64,
        }
    }

    /// The entry's code.
    pub fn to_u64(self) -> (code: u64)
        ensures
            code == self.code_value(),
    {
        match self {
            Code::Identity => 0x00,
            Code::Sha2_256 => 0x12,
            Code::Sha2_512 => 0x13,
            Code::Sha3_512 => 0x14,
            Code::Sha3_256 => 0x16,
            Code::Blake3_256 => 0x1e,
            Code::Blake2b256 => 0xb220,
            Code::Blake2b512 => 0xb240,
        }
    }

    /// The entry of a code; a code outside the table is an
    /// `UnknownMultihashCode`.
    pub fn from_u64(code: u64) -> (res: Result<Code, Error>)
        ensures
            match res {
                Ok(c) => c.code_value() == code,
                Err(e) => e == Error::UnknownMultihashCode && forall|c: Code|
                    #[trigger] c.code_value() != code,
            },
    {
        if code == 0x00 {
            Ok(Code::Identity)
        } else if code == 0x12 {
            Ok(Code::Sha2_256)
        } else if code == 0x13 {
            Ok(Code::Sha2_512)
        } else if code == 0x14 {
            Ok(Code::Sha3_512)
        } else if code == 0x16 {
            Ok(Code::Sha3_256)
        } else if code == 0x1e {
            Ok(Code::Blake3_256)
        } else if code == 0xb220 {
            Ok(Code::Blake2b256)
        } else if code == 0xb240 {
            Ok(Code::Blake2b512)
        } else {
            Err(Error::UnknownMultihashCode)
        }
    }
}

impl MultihashDigest for Code {
    open spec fn code_of(&self) -> u64 {
        self.code_value()
    }

    open spec fn digest_of(&self, input: Seq<u8>) -> Seq<u8> {
        match self {
            Code::Identity => input,
            Code::Sha2_256 => sha2_256(input),
            Code::Sha2_512 => sha2_512(input),
            Code::Sha3_512 => sha3_512(input),
            Code::Sha3_256 => sha3_256(input),
            Code::Blake3_256 => blake3_256(input),
            Code::Blake2b256 => blake2b_256(input),
            Code::Blake2b512 => blake2b_512(input),
        }
    }

    /// The identity function takes what a multihash of 64 bytes holds; the
    /// others take everything.
    open spec fn takes(&self, input: Seq<u8>) -> bool {
        self is Identity ==> input.len() <= 64
    }

    fn digest(&self, input: &[u8]) -> (mh: Multihash<64>)
        ensures
            !(self is Identity) ==> mh@.digest.len() == self.digest_size(),
    {
        let bytes = match self {
            Code::Identity => slice_to_vec(input),
            Code::Sha2_256 => hash_sha2_256(input),
            Code::Sha2_512 => hash_sha2_512(input),
            Code::Sha3_512 => hash_sha3_512(input),
            Code::Sha3_256 => hash_sha3_256(input),
            Code::Blake3_256 => hash_blake3_256(input),
            Code::Blake2b256 => hash_blake2b_256(input),
            Code::Blake2b512 => hash_blake2b_512(input),
        };
        match Multihash::wrap(self.to_u64(), bytes.as_slice()) {
            Ok(mh) => mh,
            Err(_) => vstd::pervasive::unreached(),
        }
    }
}

} // verus!
