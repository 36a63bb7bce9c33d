//! Content identifiers: a version, the code of a codec, and the multihash of
//! the block that the identifier names.

use crate::base;
use crate::base::{
    base58btc_bytes, base58btc_text, decode_base58btc, encode_base58btc, multibase_decoding,
    multibase_text, Base,
};
use crate::codec::Error;
use crate::bytes::{bytes_lt, key_order, slice_to_vec};
use crate::cursor::{cursor_bytes, cursor_position, cursor_rest, overwritten};
use crate::multihash::{
    lemma_multihash_bytes_len, lemma_multihash_canonical, lemma_multihash_roundtrip,
    multihash_bytes, multihash_parse, Multihash, MultihashView,
};
use crate::varint::{
    lemma_encoding_len_u64, lemma_parse_canonical, lemma_parse_encoding, lemma_span_bounds,
    read_u64, varint_encoding,
    varint_parse, varint_span, write_u64,
};
use bytecursor::ByteCursor;
use vstd::prelude::*;
use vstd::slice::slice_subrange;
use vstd::utf8::is_ascii_chars;

pub mod order;

verus! {

/// The code of the dag-pb codec, the only one of a version 0 CID.
pub const DAG_PB: u64 = 0x70;

/// The multihash code of sha2-256, the only one of a version 0 CID.
pub const SHA2_256: u64 = 0x12;

/// The version of a CID.
#[derive(Clone, Copy, Debug, PartialEq, Eq, Hash, Structural)]
pub enum Version {
    /// A bare sha2-256 multihash of a dag-pb block.
    V0,
    /// A version, a codec and a multihash.
    V1,
}

impl Version {
    /// The version's number.
    pub open spec fn number(self) -> u64 {
        match self {
            Version::V0 => 0,
            Version::V1 => 1,
        }
    }

    /// The version's number.
    pub fn to_u64(self) -> (n: u64)
        ensures
            n == self.number(),
    {
        match self {
            Version::V0 => 0,
            Version::V1 => 1,
        }
    }

    /// The version of a number; a number other than 0 and 1 is an
    /// `InvalidCidVersion`.
    pub fn from_u64(n: u64) -> (res: Result<Version, Error>)
        ensures
            n == 0 ==> res == Ok::<Version, Error>(Version::V0),
            n == 1 ==> res == Ok::<Version, Error>(Version::V1),
            n > 1 ==> res == Err::<Version, Error>(Error::InvalidCidVersion),
    {
        if n == 0 {
            Ok(Version::V0)
        } else if n == 1 {
            Ok(Version::V1)
        } else {
            Err(Error::InvalidCidVersion)
        }
    }
}

/// What a CID says.
pub struct CidView {
    pub version: Version,
    pub codec: u64,
    pub hash: MultihashView,
}

impl CidView {
    /// Whether this is a CID that a multihash of allocated width `width`
    /// carries: the digest is not empty and fits, and a version 0 CID is a
    /// sha2-256 digest of 32 bytes under dag-pb.
    pub open spec fn valid(self, width: nat) -> bool {
        &&& self.hash.fits(width)
        &&& self.hash.digest.len() > 0
        &&& self.version is V0 ==> self.codec == DAG_PB && self.hash.code == SHA2_256
            && self.hash.digest.len() == 32
    }
}

/// The binary form: for version 0 the bare multihash, for version 1 the
/// version and the codec as varints and the multihash behind them.
pub open spec fn cid_bytes(c: CidView) -> Seq<u8> {
    match c.version {
        Version::V0 => multihash_bytes(c.hash),
        Version::V1 => varint_encoding(1) + varint_encoding(c.codec as nat) + multihash_bytes(
            c.hash,
        ),
    }
}

/// Whether `s` has the shape of a version 0 CID: 34 bytes that start as a
/// sha2-256 multihash of 32 bytes does.
pub open spec fn is_v0_bytes(s: Seq<u8>) -> bool {
    s.len() == 34 && s[0] == 0x12 && s[1] == 0x20
}

/// What a strict reader makes of the whole of `s`.
///
/// Bytes of the version 0 shape are a version 0 CID, where the width holds
/// its digest. All others are read as a version, which must be 1, a codec
/// and a multihash, which must not be empty, and nothing may follow.
pub open spec fn cid_from_bytes(s: Seq<u8>, width: nat) -> Result<CidView, Error> {
    if is_v0_bytes(s) {
        if width < 32 {
            Err(Error::InvalidSize(32))
        } else {
            Ok(
                CidView {
                    version: Version::V0,
                    codec: DAG_PB,
                    hash: MultihashView { code: SHA2_256, digest: s.subrange(2, 34) },
                },
            )
        }
    } else {
        match varint_parse(s, 10, u64::MAX as nat) {
            None => Err(Error::VarintOverflow),
            Some((version, n1)) => if version != 1 {
                Err(Error::InvalidCidVersion)
            } else {
                match varint_parse(s.skip(n1 as int), 10, u64::MAX as nat) {
                    None => Err(Error::VarintOverflow),
                    Some((codec, n2)) => match multihash_parse(s.skip((n1 + n2) as int), width) {
                        Err(e) => Err(e),
                        Ok((hash, n3)) => if hash.digest.len() == 0 {
                            Err(Error::InvalidSize(0))
                        } else if n1 + n2 + n3 < s.len() {
                            Err(Error::TrailingBytes)
                        } else {
                            Ok(CidView { version: Version::V1, codec: codec as u64, hash })
                        },
                    },
                }
            },
        }
    }
}

/// The text form: for version 0 the base58btc text of the multihash, with no
/// tag; for version 1 the multibase text of the binary form in base32.
pub open spec fn cid_text(c: CidView) -> Seq<char> {
    match c.version {
        Version::V0 => base58btc_text(cid_bytes(c)),
        Version::V1 => multibase_text(Base::Base32Lower, cid_bytes(c)),
    }
}

/// Whether `text` has the shape of a version 0 CID: 46 ASCII characters of
/// which the first two are `Qm`.
pub open spec fn is_v0_text(text: Seq<char>) -> bool {
    text.len() == 46 && is_ascii_chars(text) && text[0] == 'Q' && text[1] == 'm'
}

/// What a reader makes of CID text.
///
/// Text of the version 0 shape is base58btc and must hold bytes of the
/// version 0 shape. All other text is multibase; its bytes must not start as
/// a version 0 CID does, and are read strictly.
pub open spec fn cid_from_text(text: Seq<char>, width: nat) -> Result<CidView, Error> {
    if is_v0_text(text) {
        match base58btc_bytes(text) {
            None => Err(Error::InvalidCidBase),
            Some(bytes) => if is_v0_bytes(bytes) {
                cid_from_bytes(bytes, width)
            } else {
                Err(Error::InvalidCidV0Multihash)
            },
        }
    } else {
        match multibase_decoding(text) {
            Err(_) => Err(Error::InvalidCidBase),
            Ok(bytes) => if bytes.len() > 0 && bytes[0] == 0x12 {
                Err(Error::InvalidCidVersion)
            } else {
                cid_from_bytes(bytes, width)
            },
        }
    }
}

/// The binary form of a valid CID is at most 295 bytes long, and only that
/// of a version 0 CID has the version 0 shape.
pub proof fn lemma_cid_bytes_shape(c: CidView)
    requires
        c.hash.digest.len() <= 255,
        c.version is V0 ==> c.valid(255),
    ensures
        3 <= cid_bytes(c).len() <= 295,
        c.version is V0 <==> is_v0_bytes(cid_bytes(c)),
        c.version is V1 ==> cid_bytes(c)[0] == 1,
{
    lemma_multihash_bytes_len(c.hash);
    lemma_encoding_len_u64(c.codec);
    reveal_with_fuel(varint_encoding, 2);
    let m = multihash_bytes(c.hash);
    match c.version {
        Version::V0 => {
            assert(varint_encoding(0x12) =~= seq![0x12u8]);
            assert(varint_encoding(32) =~= seq![0x20u8]);
            assert(m =~= seq![0x12u8, 0x20u8] + c.hash.digest);
        },
        Version::V1 => {
            assert(varint_encoding(1) =~= seq![1u8]);
            assert(cid_bytes(c)[0] == 1);
        },
    }
}

/// Reading what was written gives the CID back: the binary form of a valid
/// CID, read strictly, is that CID.
pub proof fn lemma_cid_bytes_roundtrip(c: CidView, width: nat)
    requires
        c.valid(width),
    ensures
        cid_from_bytes(cid_bytes(c), width) == Ok::<CidView, Error>(c),
{
    lemma_cid_bytes_shape(c);
    reveal_with_fuel(varint_encoding, 2);
    let s = cid_bytes(c);
    let m = multihash_bytes(c.hash);
    match c.version {
        Version::V0 => {
            assert(varint_encoding(0x12) =~= seq![0x12u8]);
            assert(varint_encoding(32) =~= seq![0x20u8]);
            assert(m =~= seq![0x12u8, 0x20u8] + c.hash.digest);
            assert(s.subrange(2, 34) =~= c.hash.digest);
        },
        Version::V1 => {
            let v = varint_encoding(1);
            let k = varint_encoding(c.codec as nat);
            assert(v =~= seq![1u8]);
            lemma_encoding_len_u64(c.codec);
            assert(s =~= v + (k + m));
            lemma_parse_encoding(1, k + m, 10, u64::MAX as nat);
            assert(s.skip(1) =~= k + m);
            lemma_parse_encoding(c.codec as nat, m, 10, u64::MAX as nat);
            assert(s.skip((1 + k.len()) as int) =~= m + Seq::<u8>::empty());
            lemma_multihash_roundtrip(c.hash, Seq::empty(), width);
        },
    }
}

/// What a strict reader accepts is the binary form of what it returns, and
/// that is a valid CID.
pub proof fn lemma_cid_bytes_canonical(s: Seq<u8>, width: nat)
    requires
        cid_from_bytes(s, width) is Ok,
    ensures
        cid_from_bytes(s, width)->Ok_0.valid(width),
        cid_bytes(cid_from_bytes(s, width)->Ok_0) == s,
{
    let c = cid_from_bytes(s, width)->Ok_0;
    reveal_with_fuel(varint_encoding, 2);
    if is_v0_bytes(s) {
        assert(varint_encoding(0x12) =~= seq![0x12u8]);
        assert(varint_encoding(32) =~= seq![0x20u8]);
        assert(cid_bytes(c) =~= s);
    } else {
        lemma_parse_canonical(s, 10, u64::MAX as nat);
        let (version, n1) = varint_parse(s, 10, u64::MAX as nat)->Some_0;
        let t = s.skip(n1 as int);
        lemma_parse_canonical(t, 10, u64::MAX as nat);
        let (codec, n2) = varint_parse(t, 10, u64::MAX as nat)->Some_0;
        let u = s.skip((n1 + n2) as int);
        lemma_multihash_canonical(u, width);
        let (hash, n3) = multihash_parse(u, width)->Ok_0;
        assert(t.take(n2 as int) =~= s.subrange(n1 as int, (n1 + n2) as int));
        assert(u.take(n3 as int) =~= s.subrange((n1 + n2) as int, (n1 + n2 + n3) as int));
        assert(s =~= s.take(n1 as int) + s.subrange(n1 as int, (n1 + n2) as int) + s.subrange(
            (n1 + n2) as int,
            (n1 + n2 + n3) as int,
        ));
    }
}

/// A strict reader refuses input that goes on behind a CID.
pub proof fn lemma_cid_bytes_strict(c: CidView, rest: Seq<u8>, width: nat)
    requires
        c.valid(width),
        rest.len() > 0,
    ensures
        cid_from_bytes(cid_bytes(c) + rest, width) is Err,
{
    lemma_cid_bytes_shape(c);
    reveal_with_fuel(varint_encoding, 2);
    let s = cid_bytes(c) + rest;
    let m = multihash_bytes(c.hash);
    match c.version {
        Version::V0 => {
            assert(s[0] == 0x12);
            assert(varint_encoding(0x12) =~= seq![0x12u8]);
            lemma_parse_encoding(0x12, s.skip(1), 10, u64::MAX as nat);
            assert(s =~= varint_encoding(0x12) + s.skip(1));
        },
        Version::V1 => {
            let v = varint_encoding(1);
            let k = varint_encoding(c.codec as nat);
            assert(v =~= seq![1u8]);
            lemma_encoding_len_u64(c.codec);
            assert(s =~= v + (k + m + rest));
            lemma_parse_encoding(1, k + m + rest, 10, u64::MAX as nat);
            assert(s.skip(1) =~= k + (m + rest));
            lemma_parse_encoding(c.codec as nat, m + rest, 10, u64::MAX as nat);
            assert(s.skip((1 + k.len()) as int) =~= m + rest);
            lemma_multihash_roundtrip(c.hash, rest, width);
        },
    }
}

/// Two valid CIDs with the same binary form are the same CID.
pub proof fn lemma_cid_bytes_injective(a: CidView, b: CidView)
    requires
        a.hash.fits(255),
        b.hash.fits(255),
        a.valid(a.hash.digest.len()),
        b.valid(b.hash.digest.len()),
        cid_bytes(a) == cid_bytes(b),
    ensures
        a == b,
{
    lemma_cid_bytes_roundtrip(a, 255);
    lemma_cid_bytes_roundtrip(b, 255);
}

/// A content identifier whose multihash has an allocated width of `S` bytes.
#[derive(Clone, Copy, Debug, Hash)]
pub struct CidGeneric<const S: usize> {
    version: Version,
    codec: u64,
    hash: Multihash<S>,
}

/// A content identifier whose multihash has an allocated width of 64 bytes,
/// that of the code table's widest digest.
pub type Cid = CidGeneric<64>;

impl<const S: usize> View for CidGeneric<S> {
    type V = CidView;

    /// The version, the codec, and what the multihash says.
    closed spec fn view(&self) -> CidView {
        CidView { version: self.version, codec: self.codec, hash: self.hash@ }
    }
}

impl<const S: usize> CidGeneric<S> {
    /// The multihash is well formed and what the CID says is valid.
    #[verifier::type_invariant]
    pub closed spec fn wf(&self) -> bool {
        self.hash.wf() && self@.valid(S as nat)
    }

    /// A version 0 CID of a multihash, which must be a sha2-256 digest of 32
    /// bytes: any other is an `InvalidCidV0Multihash`.
    pub fn new_v0(hash: Multihash<S>) -> (res: Result<Self, Error>)
        ensures
            match res {
                Ok(c) => c@ == (CidView { version: Version::V0, codec: DAG_PB, hash: hash@ })
                    && c.wf(),
                Err(e) => e == Error::InvalidCidV0Multihash,
            },
            res is Ok <==> hash@.code == SHA2_256 && hash@.digest.len() == 32,
    {
        if hash.code() != SHA2_256 || hash.size() != 32 {
            return Err(Error::InvalidCidV0Multihash);
        }
        Ok(CidGeneric { version: Version::V0, codec: DAG_PB, hash })
    }

    /// A version 1 CID of a codec and a multihash with a digest.
    pub fn new_v1(codec: u64, hash: Multihash<S>) -> (c: Self)
        requires
            hash@.digest.len() > 0,
        ensures
            c@ == (CidView { version: Version::V1, codec, hash: hash@ }),
            c.wf(),
    {
        let _ = hash.size();
        CidGeneric { version: Version::V1, codec, hash }
    }

    /// A CID of the given parts.
    ///
    /// Version 0 with a codec other than dag-pb is an `InvalidCidV0Codec`,
    /// and with a multihash other than a sha2-256 digest of 32 bytes an
    /// `InvalidCidV0Multihash`. Version 1 with an empty digest is an
    /// `InvalidSize` of 0.
    pub fn new(version: Version, codec: u64, hash: Multihash<S>) -> (res: Result<Self, Error>)
        ensures
            match res {
                Ok(c) => c@ == (CidView { version, codec, hash: hash@ }) && c.wf(),
                Err(e) => e == (if version is V0 && codec != DAG_PB {
                    Error::InvalidCidV0Codec
                } else if version is V0 {
                    Error::InvalidCidV0Multihash
                } else {
                    Error::InvalidSize(0)
                }),
            },
            res is Ok <==> (CidView { version, codec, hash: hash@ }).valid(S as nat),
    {
        let size = hash.size();
        match version {
            Version::V0 => {
                if codec != DAG_PB {
                    return Err(Error::InvalidCidV0Codec);
                }
                Self::new_v0(hash)
            },
            Version::V1 => {
                if size == 0 {
                    return Err(Error::InvalidSize(0));
                }
                Ok(Self::new_v1(codec, hash))
            },
        }
    }

    /// The version.
    pub fn version(&self) -> (v: Version)
        ensures
            v == self@.version,
    {
        self.version
    }

    /// The code of the codec.
    pub fn codec(&self) -> (c: u64)
        ensures
            c == self@.codec,
    {
        self.codec
    }

    /// The multihash.
    pub fn hash(&self) -> (h: &Multihash<S>)
        ensures
            h@ == self@.hash,
            h.wf(),
            self@.valid(S as nat),
    {
        proof {
            use_type_invariant(self);
        }
        &self.hash
    }

    /// The binary form, in a fresh vector.
    pub fn to_bytes(&self) -> (bytes: Vec<u8>)
        ensures
            bytes@ == cid_bytes(self@),
            3 <= bytes@.len() <= 295,
            self@.valid(S as nat),
    {
        proof {
            use_type_invariant(self);
            lemma_cid_bytes_shape(self@);
        }
        match self.version {
            Version::V0 => self.hash.to_bytes(),
            Version::V1 => {
                let mut bytes = write_u64(1);
                let mut codec = write_u64(self.codec);
                bytes.append(&mut codec);
                let mut hash = self.hash.to_bytes();
                bytes.append(&mut hash);
                bytes
            },
        }
    }

    /// Writes the binary form at the cursor's position; the cursor ends
    /// behind it.
    pub fn write_bytes(&self, w: &mut ByteCursor) -> (res: Result<(), Error>)
        requires
            cursor_position(*old(w)) + 295 <= isize::MAX,
        ensures
            res is Ok,
            cursor_bytes(*final(w)) == overwritten(
                cursor_bytes(*old(w)),
                cursor_position(*old(w)) as int,
                cid_bytes(self@),
            ),
            cursor_position(*final(w)) == cursor_position(*old(w)) + cid_bytes(self@).len(),
    {
        let bytes = self.to_bytes();
        match w.write_all(bytes.as_slice()) {
            Ok(_) => Ok(()),
            Err(_) => Err(Error::VarintOverflow),
        }
    }

    /// Parses the whole of `bytes` as one CID.
    ///
    /// Fails with `VarintOverflow` where the version, the codec or a part of
    /// the multihash cannot be read, with `InvalidCidVersion` where the
    /// version is not 1, with `InvalidSize` where the digest's length is 0 or
    /// above the width, and with `TrailingBytes` where the input goes on
    /// behind the CID.
    pub fn from_bytes(bytes: &[u8]) -> (res: Result<Self, Error>)
        ensures
            match cid_from_bytes(bytes@, S as nat) {
                Ok(v) => res is Ok && res->Ok_0@ == v && res->Ok_0.wf(),
                Err(e) => res == Err::<Self, Error>(e),
            },
    {
        if bytes.len() == 34 && bytes[0] == 0x12 && bytes[1] == 0x20 {
            let digest = slice_subrange(bytes, 2, 34);
            return match Multihash::<S>::wrap(SHA2_256, digest) {
                Ok(hash) => Self::new_v0(hash),
                Err(e) => Err(e),
            };
        }
        let mut r = ByteCursor::new(slice_to_vec(bytes));
        let ghost s = bytes@;
        proof {
            assert(cursor_rest(r) =~= s);
            lemma_span_bounds(s, 10);
        }
        let version = match varint_read_u64(&mut r) {
            Ok(v) => v,
            Err(e) => return Err(e),
        };
        if version != 1 {
            return Err(Error::InvalidCidVersion);
        }
        let ghost n1 = varint_span(s, 10);
        proof {
            assert(cursor_rest(r) =~= s.skip(n1 as int));
            lemma_span_bounds(s.skip(n1 as int), 10);
        }
        let codec = match varint_read_u64(&mut r) {
            Ok(c) => c,
            Err(e) => return Err(e),
        };
        let ghost n2 = varint_span(s.skip(n1 as int), 10);
        proof {
            assert(cursor_rest(r) =~= s.skip((n1 + n2) as int));
        }
        let hash = match Multihash::<S>::read(&mut r) {
            Ok(h) => h,
            Err(e) => return Err(e),
        };
        if hash.size() == 0 {
            return Err(Error::InvalidSize(0));
        }
        if bytes.len() as u64 > r.position() {
            return Err(Error::TrailingBytes);
        }
        Ok(Self::new_v1(codec, hash))
    }

    /// The text form: base58btc without a tag for version 0, multibase in
    /// base32 for version 1.
    ///
    /// Reading the text gives the CID back. For version 0 this is stated of
    /// text that has the version 0 shape.
    pub fn to_string(&self) -> (text: String)
        ensures
            text@ == cid_text(self@),
            self@.version is V1 || is_v0_text(text@) ==> cid_from_text(text@, S as nat) == Ok::<
                CidView,
                Error,
            >(self@),
    {
        let bytes = self.to_bytes();
        proof {
            lemma_cid_bytes_shape(self@);
            lemma_cid_bytes_roundtrip(self@, S as nat);
        }
        match self.version {
            Version::V0 => encode_base58btc(bytes.as_slice()),
            Version::V1 => base::encode(Base::Base32Lower, bytes.as_slice()),
        }
    }

    /// The multibase text of the binary form in `base`.
    ///
    /// Reading the text of a version 1 CID gives the CID back. The text of a
    /// version 0 CID is refused by readers as an `InvalidCidVersion`: a
    /// version 0 CID has no other text than its bare base58btc.
    pub fn to_string_of_base(&self, base: Base) -> (text: String)
        requires
            base.says(cid_bytes(self@)),
        ensures
            text@ == multibase_text(base, cid_bytes(self@)),
            self@.version is V1 ==> cid_from_text(text@, S as nat) == Ok::<CidView, Error>(self@),
            self@.version is V0 ==> cid_from_text(text@, S as nat) == Err::<CidView, Error>(
                Error::InvalidCidVersion,
            ),
    {
        let bytes = self.to_bytes();
        proof {
            lemma_cid_bytes_shape(self@);
            lemma_cid_bytes_roundtrip(self@, S as nat);
        }
        base::encode(base, bytes.as_slice())
    }

    /// Parses CID text.
    ///
    /// Fails with `InvalidCidBase` where the text is not of its base; with
    /// `InvalidCidV0Multihash` where text of the version 0 shape holds other
    /// bytes than a version 0 CID; with `InvalidCidVersion` where multibase
    /// text holds bytes that start as a version 0 CID does; and as
    /// `from_bytes` does on the bytes.
    pub fn from_str(text: &str) -> (res: Result<Self, Error>)
        ensures
            match cid_from_text(text@, S as nat) {
                Ok(v) => res is Ok && res->Ok_0@ == v && res->Ok_0.wf(),
                Err(e) => res == Err::<Self, Error>(e),
            },
    {
        if is_v0_str(text) {
            match decode_base58btc(text) {
                None => Err(Error::InvalidCidBase),
                Some(bytes) => {
                    if bytes.len() == 34 && bytes[0] == 0x12 && bytes[1] == 0x20 {
                        Self::from_bytes(bytes.as_slice())
                    } else {
                        Err(Error::InvalidCidV0Multihash)
                    }
                },
            }
        } else {
            match base::decode(text) {
                Err(_) => Err(Error::InvalidCidBase),
                Ok(bytes) => {
                    if bytes.len() > 0 && bytes[0] == 0x12 {
                        Err(Error::InvalidCidVersion)
                    } else {
                        Self::from_bytes(bytes.as_slice())
                    }
                },
            }
        }
    }

    /// How two CIDs stand in the order of their binary forms: -1 where this
    /// one comes first, 0 where they say the same, 1 where the other comes
    /// first.
    pub fn byte_order(&self, other: &Self) -> (r: i8)
        ensures
            r == -1 || r == 0 || r == 1,
            r == -1 <==> bytes_lt(cid_bytes(self@), cid_bytes(other@)),
            r == 0 <==> self@ == other@,
            r == 1 <==> bytes_lt(cid_bytes(other@), cid_bytes(self@)),
    {
        let a = self.to_bytes();
        let b = other.to_bytes();
        proof {
            if cid_bytes(self@) == cid_bytes(other@) {
                lemma_cid_bytes_injective(self@, other@);
            }
        }
        key_order(a.as_slice(), b.as_slice())
    }

    /// Whether two CIDs say the same: the same version, codec and multihash,
    /// which is to say the same binary form.
    pub fn same(&self, other: &Self) -> (r: bool)
        ensures
            r == (self@ == other@),
    {
        self.version == other.version && self.codec == other.codec && self.hash.same(&other.hash)
    }
}

impl<const S: usize> PartialEq for CidGeneric<S> {
    fn eq(&self, other: &Self) -> (r: bool) {
        self.same(other)
    }
}

impl<const S: usize> vstd::std_specs::cmp::PartialEqSpecImpl for CidGeneric<S> {
    open spec fn obeys_eq_spec() -> bool {
        true
    }

    open spec fn eq_spec(&self, other: &Self) -> bool {
        self@ == other@
    }
}

impl<const S: usize> Eq for CidGeneric<S> {

}

/// Whether text has the shape of a version 0 CID.
pub fn is_v0_str(text: &str) -> (r: bool)
    ensures
        r == is_v0_text(text@),
{
    if !text.is_ascii() {
        return false;
    }
    proof {
        vstd::string::is_ascii_spec_bytes(text);
    }
    let bytes = text.as_bytes();
    if bytes.len() != 46 {
        return false;
    }
    bytes[0] == 0x51 && bytes[1] == 0x6d
}

/// Reads a varint of at most 10 bytes from the cursor as a `u64`, as
/// `read_u64` does.
pub fn varint_read_u64(r: &mut ByteCursor) -> (res: Result<u64, Error>)
    ensures
        cursor_bytes(*final(r)) == cursor_bytes(*old(r)),
        cursor_position(*final(r)) == cursor_position(*old(r)) + varint_span(
            cursor_rest(*old(r)),
            10,
        ),
        match varint_parse(cursor_rest(*old(r)), 10, u64::MAX as nat) {
            Some((v, n)) => res == Ok::<u64, Error>(v as u64),
            None => res == Err::<u64, Error>(Error::VarintOverflow),
        },
{
    read_u64(r)
}

} // verus!
