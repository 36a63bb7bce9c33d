//! Multibase: text forms of byte strings, each tagged with the character of
//! its base, as the `multibase` crate has them.

use crate::codec::Error;
use vstd::prelude::*;
use vstd::utf8::valid_utf8;

verus! {

/// A base of the multibase table.
#[derive(Clone, Copy, Debug, PartialEq, Eq, Hash, Structural)]
pub enum Base {
    /// The bytes themselves, tag `\0`.
    Identity,
    /// Hexadecimal in lower case, tag `f`.
    Base16Lower,
    /// Base32 in lower case without padding, tag `b`.
    Base32Lower,
    /// Base58 in the bitcoin alphabet, tag `z`.
    Base58Btc,
    /// Base64 without padding, tag `m`.
    Base64,
    /// Base64 in the URL-safe alphabet without padding, tag `u`.
    Base64Url,
}

impl Base {
    /// The character that tags text of this base.
    pub open spec fn tag(self) -> char {
        match self {
            Base::Identity => '\0',
            Base::Base16Lower => 'f',
            Base::Base32Lower => 'b',
            Base::Base58Btc => 'z',
            Base::Base64 => 'm',
            Base::Base64Url => 'u',
        }
    }

    /// Whether text of this base can say `bytes`: the identity base says
    /// UTF-8 only, the others say everything.
    pub open spec fn says(self, bytes: Seq<u8>) -> bool {
        self is Identity ==> valid_utf8(bytes)
    }

    /// The character that tags text of this base.
    pub fn code(self) -> (c: char)
        ensures
            c == self.tag(),
    {
        match self {
            Base::Identity => '\0',
            Base::Base16Lower => 'f',
            Base::Base32Lower => 'b',
            Base::Base58Btc => 'z',
            Base::Base64 => 'm',
            Base::Base64Url => 'u',
        }
    }

    /// The base that a character tags; a character that tags none of these
    /// bases is an `UnknownBase`.
    pub fn from_code(c: char) -> (res: Result<Base, Error>)
        ensures
            match res {
                Ok(base) => base.tag() == c,
                Err(e) => e == Error::UnknownBase && forall|base: Base| #[trigger] base.tag() != c,
            },
    {
        if c == '\0' {
            Ok(Base::Identity)
        } else if c == 'f' {
            Ok(Base::Base16Lower)
        } else if c == 'b' {
            Ok(Base::Base32Lower)
        } else if c == 'z' {
            Ok(Base::Base58Btc)
        } else if c == 'm' {
            Ok(Base::Base64)
        } else if c == 'u' {
            Ok(Base::Base64Url)
        } else {
            Err(Error::UnknownBase)
        }
    }
}

/// The multibase text of `bytes` in `base`: the base's tag, then the digits.
pub uninterp spec fn multibase_text(base: Base, bytes: Seq<u8>) -> Seq<char>;

/// The bytes that multibase text stands for, in whatever base of the whole
/// table its first character tags. The error is `true` where the first
/// character tags no base, and `false` where the text is empty or what is
/// behind the tag is not text of that base.
pub uninterp spec fn multibase_bytes(text: Seq<char>) -> Result<Seq<u8>, bool>;

/// The base58btc text of `bytes`, without a tag.
pub uninterp spec fn base58btc_text(bytes: Seq<u8>) -> Seq<char>;

/// The bytes that base58btc text without a tag stands for; `None` where the
/// text is not base58btc.
pub uninterp spec fn base58btc_bytes(text: Seq<char>) -> Option<Seq<u8>>;

/// `multibase::encode`. The text starts with the base's tag, and
/// `multibase::decode` gives the bytes back from it. In the identity base
/// the crate panics on bytes that are not UTF-8, which are left out.
#[verifier::external_body]
fn encode_multibase(base: Base, bytes: &[u8]) -> (text: String)
    requires
        base.says(bytes@),
    ensures
        text@ == multibase_text(base, bytes@),
        text@.len() >= 1,
        text@[0] == base.tag(),
        multibase_bytes(text@) is Ok && multibase_bytes(text@)->Ok_0 == bytes@,
{
    let outside = match base {
        Base::Identity => multibase::Base::Identity,
        Base::Base16Lower => multibase::Base::Base16Lower,
        Base::Base32Lower => multibase::Base::Base32Lower,
        Base::Base58Btc => multibase::Base::Base58Btc,
        Base::Base64 => multibase::Base::Base64,
        Base::Base64Url => multibase::Base::Base64Url,
    };
    multibase::encode(outside, bytes)
}

/// `multibase::decode`, with the base dropped and the error as whether it is
/// `multibase::Error::UnknownBase`.
#[verifier::external_body]
fn decode_multibase(text: &str) -> (res: Result<Vec<u8>, bool>)
    ensures
        match res {
            Ok(b) => multibase_bytes(text@) is Ok && multibase_bytes(text@)->Ok_0 == b@,
            Err(unknown) => multibase_bytes(text@) is Err && multibase_bytes(text@)->Err_0
                == unknown,
        },
{
    multibase::decode(text).map(|(_, b)| b).map_err(
        |e| matches!(e, multibase::Error::UnknownBase(_)),
    )
}

/// `multibase::Base::encode` of `Base::Base58Btc`. `Base::decode` of the
/// same base gives the bytes back from the text.
#[verifier::external_body]
pub(crate) fn encode_base58btc(bytes: &[u8]) -> (text: String)
    ensures
        text@ == base58btc_text(bytes@),
        base58btc_bytes(text@) == Some(bytes@),
{
    multibase::Base::Base58Btc.encode(bytes)
}

/// `multibase::Base::decode` of `Base::Base58Btc`, with the error dropped.
#[verifier::external_body]
pub(crate) fn decode_base58btc(text: &str) -> (bytes: Option<Vec<u8>>)
    ensures
        match bytes {
            Some(b) => base58btc_bytes(text@) == Some(b@),
            None => base58btc_bytes(text@) is None,
        },
{
    multibase::Base::Base58Btc.decode(text).ok()
}

/// What a reader makes of multibase text: the bytes, an `UnknownBase` where
/// its first character tags no base, or an `InvalidChar` where the text is
/// empty or not text of its base.
pub open spec fn multibase_decoding(text: Seq<char>) -> Result<Seq<u8>, Error> {
    match multibase_bytes(text) {
        Ok(bytes) => Ok(bytes),
        Err(unknown) => if unknown {
            Err(Error::UnknownBase)
        } else {
            Err(Error::InvalidChar)
        },
    }
}

/// The multibase text of `bytes` in `base`: the base's tag, then the digits.
/// Reading the text gives the bytes back.
pub fn encode(base: Base, bytes: &[u8]) -> (text: String)
    requires
        base.says(bytes@),
    ensures
        text@ == multibase_text(base, bytes@),
        text@.len() >= 1,
        text@[0] == base.tag(),
        multibase_decoding(text@) == Ok::<Seq<u8>, Error>(bytes@),
{
    encode_multibase(base, bytes)
}

/// The bytes that multibase text stands for, in the base that its first
/// character tags.
///
/// Fails with `UnknownBase` where the first character tags no base, and
/// with `InvalidChar` where the text is empty or not text of its base.
pub fn decode(text: &str) -> (res: Result<Vec<u8>, Error>)
    ensures
        match multibase_decoding(text@) {
            Ok(bytes) => res is Ok && res->Ok_0@ == bytes,
            Err(e) => res is Err && res->Err_0 == e,
        },
{
    match decode_multibase(text) {
        Ok(bytes) => Ok(bytes),
        Err(unknown) => if unknown {
            Err(Error::UnknownBase)
        } else {
            Err(Error::InvalidChar)
        },
    }
}

} // verus!
