//! Multihash: a digest framed by the code of the function that made it and
//! by its own length, both as varints.

use crate::codec::Error;
use crate::cursor::{cursor_bytes, cursor_position, cursor_rest, fill_exact, overwritten};
use crate::varint::{
    lemma_encoding_len_u64, lemma_parse_canonical, lemma_parse_encoding, lemma_span_bounds,
    varint_encoding, varint_parse, varint_span, write_u64,
};
use crate::bytes::{extend, slice_to_vec};
use bytecursor::ByteCursor;
use vstd::prelude::*;
use vstd::slice::slice_subrange;

pub use crate::varint::read_u64;

verus! {

/// What a multihash says: the code of the hash function and the digest, at
/// its actual length.
pub struct MultihashView {
    pub code: u64,
    pub digest: Seq<u8>,
}

impl MultihashView {
    /// Whether a multihash of allocated width `width` can hold this digest.
    pub open spec fn fits(self, width: nat) -> bool {
        self.digest.len() <= width && self.digest.len() <= 255
    }
}

/// The wire form: the code, the digest's length, the digest.
pub open spec fn multihash_bytes(v: MultihashView) -> Seq<u8> {
    varint_encoding(v.code as nat) + varint_encoding(v.digest.len()) + v.digest
}

/// What a reader of allocated width `width` makes of the front of `s`: the
/// multihash and the number of bytes it stands in, or the error.
pub open spec fn multihash_parse(s: Seq<u8>, width: nat) -> Result<(MultihashView, nat), Error> {
    match varint_parse(s, 10, u64::MAX as nat) {
        None => Err(Error::VarintOverflow),
        Some((code, n1)) => match varint_parse(s.skip(n1 as int), 10, u64::MAX as nat) {
            None => Err(Error::VarintOverflow),
            Some((size, n2)) => if size > width || size > 255 {
                Err(Error::InvalidSize(size as u64))
            } else if s.len() < n1 + n2 + size {
                Err(Error::VarintOverflow)
            } else {
                Ok(
                    (
                        MultihashView {
                            code: code as u64,
                            digest: s.subrange((n1 + n2) as int, (n1 + n2 + size) as int),
                        },
                        n1 + n2 + size,
                    ),
                )
            },
        },
    }
}

/// What a strict reader makes of the whole of `s`: the multihash, or the
/// error; input that goes on behind the multihash is an `InvalidSize` of the
/// input's length.
pub open spec fn multihash_from_bytes(s: Seq<u8>, width: nat) -> Result<MultihashView, Error> {
    match multihash_parse(s, width) {
        Err(e) => Err(e),
        Ok((v, n)) => if n < s.len() {
            Err(Error::InvalidSize(s.len() as u64))
        } else {
            Ok(v)
        },
    }
}

/// The wire form of a multihash is never longer than 275 bytes.
pub proof fn lemma_multihash_bytes_len(v: MultihashView)
    requires
        v.digest.len() <= 255,
    ensures
        2 <= multihash_bytes(v).len() <= 275,
{
    lemma_encoding_len_u64(v.code);
    lemma_encoding_len_u64(v.digest.len() as u64);
}

/// Reading what was written gives the multihash back: the wire form of `v`,
/// followed by anything, parses to `v` and to the wire form's length.
pub proof fn lemma_multihash_roundtrip(v: MultihashView, rest: Seq<u8>, width: nat)
    requires
        v.fits(width),
    ensures
        multihash_parse(multihash_bytes(v) + rest, width) == Ok::<(MultihashView, nat), Error>(
            (v, multihash_bytes(v).len()),
        ),
{
    let c = varint_encoding(v.code as nat);
    let l = varint_encoding(v.digest.len());
    let s = multihash_bytes(v) + rest;
    lemma_encoding_len_u64(v.code);
    lemma_encoding_len_u64(v.digest.len() as u64);
    assert(s =~= c + (l + v.digest + rest));
    lemma_parse_encoding(v.code as nat, l + v.digest + rest, 10, u64::MAX as nat);
    assert(s.skip(c.len() as int) =~= l + (v.digest + rest));
    lemma_parse_encoding(v.digest.len(), v.digest + rest, 10, u64::MAX as nat);
    assert(s.subrange((c.len() + l.len()) as int, (c.len() + l.len() + v.digest.len()) as int)
        =~= v.digest);
}

/// What a reader accepts is the wire form of what it returns.
pub proof fn lemma_multihash_canonical(s: Seq<u8>, width: nat)
    requires
        multihash_parse(s, width) is Ok,
    ensures
        ({
            let (v, n) = multihash_parse(s, width)->Ok_0;
            &&& n <= s.len()
            &&& v.fits(width)
            &&& s.take(n as int) == multihash_bytes(v)
        }),
{
    lemma_parse_canonical(s, 10, u64::MAX as nat);
    let (code, n1) = varint_parse(s, 10, u64::MAX as nat)->Some_0;
    let t = s.skip(n1 as int);
    lemma_parse_canonical(t, 10, u64::MAX as nat);
    let (size, n2) = varint_parse(t, 10, u64::MAX as nat)->Some_0;
    let (v, n) = multihash_parse(s, width)->Ok_0;
    assert(t.take(n2 as int) =~= s.subrange(n1 as int, (n1 + n2) as int));
    assert(s.take(n as int) =~= s.take(n1 as int) + s.subrange(n1 as int, (n1 + n2) as int)
        + v.digest);
}

/// A strict reader takes the wire form of a multihash, and nothing longer
/// that starts with it.
pub proof fn lemma_multihash_strict(v: MultihashView, rest: Seq<u8>, width: nat)
    requires
        v.fits(width),
        multihash_bytes(v).len() + rest.len() <= u64::MAX,
    ensures
        rest.len() == 0 ==> multihash_from_bytes(multihash_bytes(v) + rest, width) == Ok::<
            MultihashView,
            Error,
        >(v),
        rest.len() > 0 ==> multihash_from_bytes(multihash_bytes(v) + rest, width) == Err::<
            MultihashView,
            Error,
        >(Error::InvalidSize((multihash_bytes(v).len() + rest.len()) as u64)),
{
    lemma_multihash_roundtrip(v, rest, width);
}

/// A digest of at most `S` bytes, held in a buffer of `S` bytes, with the
/// code of the hash function that made it.
#[derive(Clone, Copy, Debug, Hash)]
pub struct Multihash<const S: usize> {
    code: u64,
    size: u8,
    digest: [u8; S],
}

impl<const S: usize> View for Multihash<S> {
    type V = MultihashView;

    /// The code, and the digest at its actual length.
    closed spec fn view(&self) -> MultihashView {
        MultihashView { code: self.code, digest: self.digest@.take(self.size as int) }
    }
}

impl<const S: usize> Multihash<S> {
    /// The digest fits the buffer, and the buffer behind it is zero.
    #[verifier::type_invariant]
    pub closed spec fn wf(&self) -> bool {
        &&& self.size <= S
        &&& forall|i: int| self.size <= i < S ==> self.digest@[i] == 0
    }

    /// Wraps a digest in a multihash. A digest longer than `S` or than 255
    /// bytes is an `InvalidSize` of its length.
    pub fn wrap(code: u64, input_digest: &[u8]) -> (res: Result<Self, Error>)
        ensures
            match res {
                Ok(mh) => input_digest@.len() <= S && input_digest@.len() <= 255 && mh@
                    == (MultihashView { code, digest: input_digest@ }) && mh.wf(),
                Err(e) => (input_digest@.len() > S || input_digest@.len() > 255) && e
                    == Error::InvalidSize(input_digest@.len() as u64),
            },
    {
        let size = input_digest.len();
        if size > S || size > 255 {
            return Err(Error::InvalidSize(size as u64));
        }
        let mut digest = [0u8; S];
        let mut i: usize = 0;
        while i < size
            invariant
                i <= size <= S,
                size == input_digest@.len(),
                forall|j: int| 0 <= j < i ==> digest@[j] == input_digest@[j],
                forall|j: int| i <= j < S ==> digest@[j] == 0,
            decreases size - i,
        {
            digest[i] = input_digest[i];
            i += 1;
        }
        let mh = Multihash { code, size: size as u8, digest };
        assert(mh@.digest =~= input_digest@);
        Ok(mh)
    }

    /// The code of the hash function.
    pub fn code(&self) -> (c: u64)
        ensures
            c == self@.code,
    {
        self.code
    }

    /// The digest's length in bytes: its actual length, not the buffer's.
    pub fn size(&self) -> (s: u8)
        ensures
            s == self@.digest.len(),
            s <= S,
            self.wf(),
    {
        proof {
            use_type_invariant(self);
        }
        self.size
    }

    /// The digest, at its actual length.
    pub fn digest(&self) -> (d: &[u8])
        ensures
            d@ == self@.digest,
    {
        proof {
            use_type_invariant(self);
        }
        slice_subrange(self.digest.as_slice(), 0, self.size as usize)
    }

    /// Reads a multihash from the cursor, which ends behind it.
    pub fn read(r: &mut ByteCursor) -> (res: Result<Self, Error>)
        ensures
            cursor_bytes(*final(r)) == cursor_bytes(*old(r)),
            match multihash_parse(cursor_rest(*old(r)), S as nat) {
                Ok((v, n)) => res is Ok && res->Ok_0@ == v && res->Ok_0.wf() && cursor_position(
                    *final(r),
                ) == cursor_position(*old(r)) + n,
                Err(e) => res == Err::<Self, Error>(e),
            },
    {
        match read_multihash::<S>(r) {
            Ok((code, size, digest)) => Ok(Multihash { code, size, digest }),
            Err(e) => Err(e),
        }
    }

    /// Parses the whole of `bytes` as one multihash. Input that goes on
    /// behind the multihash is an `InvalidSize` of the input's length.
    pub fn from_bytes(bytes: &[u8]) -> (res: Result<Self, Error>)
        ensures
            match multihash_from_bytes(bytes@, S as nat) {
                Ok(v) => res is Ok && res->Ok_0@ == v && res->Ok_0.wf(),
                Err(e) => res == Err::<Self, Error>(e),
            },
    {
        let mut r = ByteCursor::new(slice_to_vec(bytes));
        assert(cursor_rest(r) =~= bytes@);
        let result = match Self::read(&mut r) {
            Ok(mh) => mh,
            Err(e) => return Err(e),
        };
        if bytes.len() as u64 > r.position() {
            return Err(Error::InvalidSize(r.get_ref().len() as u64));
        }
        Ok(result)
    }

    /// Writes the wire form at the cursor's position and rewinds the cursor
    /// to its start.
    pub fn write(&self, w: &mut ByteCursor) -> (res: Result<(), Error>)
        requires
            cursor_position(*old(w)) + 275 <= isize::MAX,
        ensures
            res is Ok,
            cursor_bytes(*final(w)) == overwritten(
                cursor_bytes(*old(w)),
                cursor_position(*old(w)) as int,
                multihash_bytes(self@),
            ),
            cursor_position(*final(w)) == 0,
    {
        proof {
            use_type_invariant(self);
            lemma_multihash_bytes_len(self@);
        }
        write_multihash(w, self.code(), self.size(), self.digest())
    }

    /// The wire form, in a fresh vector.
    pub fn to_bytes(&self) -> (bytes: Vec<u8>)
        ensures
            bytes@ == multihash_bytes(self@),
    {
        proof {
            use_type_invariant(self);
        }
        let mut bytes = write_u64(self.code);
        let mut size = write_u64(self.size as u64);
        bytes.append(&mut size);
        let d = self.digest();
        extend(&mut bytes, d);
        bytes
    }

    /// Whether two multihashes say the same: the same code and the same
    /// digest. The buffer behind the digest has no part in it.
    pub fn same(&self, other: &Self) -> (r: bool)
        ensures
            r == (self@ == other@),
    {
        proof {
            use_type_invariant(self);
            use_type_invariant(other);
        }
        if self.code != other.code || self.size != other.size {
            assert(self@.digest.len() != other@.digest.len() || self@.code != other@.code);
            return false;
        }
        let mut i: usize = 0;
        while i < self.size as usize
            invariant
                i <= self.size <= S,
                self.size == other.size,
                forall|j: int| 0 <= j < i ==> self.digest@[j] == other.digest@[j],
            decreases self.size - i,
        {
            if self.digest[i] != other.digest[i] {
                assert(self@.digest[i as int] != other@.digest[i as int]);
                return false;
            }
            i += 1;
        }
        assert(self@.digest =~= other@.digest);
        true
    }
}

impl<const S: usize> PartialEq for Multihash<S> {
    fn eq(&self, other: &Self) -> (r: bool) {
        self.same(other)
    }
}

impl<const S: usize> vstd::std_specs::cmp::PartialEqSpecImpl for Multihash<S> {
    open spec fn obeys_eq_spec() -> bool {
        true
    }

    open spec fn eq_spec(&self, other: &Self) -> bool {
        self@ == other@
    }
}

impl<const S: usize> Eq for Multihash<S> {

}

impl<const S: usize> Default for Multihash<S> {
    /// The multihash of code 0 with an empty digest.
    fn default() -> (mh: Self)
        ensures
            mh@ == (MultihashView { code: 0, digest: Seq::empty() }),
            mh.wf(),
    {
        let mh = Multihash { code: 0, size: 0, digest: [0u8; S] };
        assert(mh@.digest =~= Seq::<u8>::empty());
        mh
    }
}

/// Writes a multihash of the given parts at the cursor's position, the code
/// and the size as varints and the digest behind them, and rewinds the
/// cursor to its start.
pub fn write_multihash(w: &mut ByteCursor, code: u64, size: u8, digest: &[u8]) -> (res: Result<
    (),
    Error,
>)
    requires
        cursor_position(*old(w)) + 20 + digest@.len() <= isize::MAX,
    ensures
        res is Ok,
        cursor_bytes(*final(w)) == overwritten(
            cursor_bytes(*old(w)),
            cursor_position(*old(w)) as int,
            varint_encoding(code as nat) + varint_encoding(size as nat) + digest@,
        ),
        cursor_position(*final(w)) == 0,
{
    let mut bytes = write_u64(code);
    let mut size_bytes = write_u64(size as u64);
    bytes.append(&mut size_bytes);
    extend(&mut bytes, digest);
    match w.write_all(bytes.as_slice()) {
        Ok(_) => (),
        Err(_) => return Err(Error::VarintOverflow),
    }
    w.set_position(0);
    Ok(())
}

/// Reads a multihash from the cursor: the code, the digest's length, and the
/// digest at the front of a zeroed buffer of `S` bytes. The cursor ends
/// behind the multihash.
///
/// A length above `S` or above 255 is an `InvalidSize` of that length; input
/// that ends before the multihash does is a `VarintOverflow`, as is a varint
/// that cannot be read.
pub fn read_multihash<const S: usize>(r: &mut ByteCursor) -> (res: Result<(u64, u8, [u8; S]), Error>)
    ensures
        cursor_bytes(*final(r)) == cursor_bytes(*old(r)),
        match multihash_parse(cursor_rest(*old(r)), S as nat) {
            Ok((v, n)) => res is Ok && res->Ok_0.0 == v.code && res->Ok_0.1 == v.digest.len()
                && res->Ok_0.2@.take(v.digest.len() as int) == v.digest && (forall|i: int|
                v.digest.len() <= i < S ==> res->Ok_0.2@[i] == 0) && cursor_position(*final(r))
                == cursor_position(*old(r)) + n,
            Err(e) => res == Err::<(u64, u8, [u8; S]), Error>(e),
        },
{
    let ghost s = cursor_rest(*r);
    let ghost p0 = cursor_position(*r);
    proof {
        lemma_span_bounds(s, 10);
    }
    let code = match read_u64(r) {
        Ok(c) => c,
        Err(e) => return Err(e),
    };
    let ghost n1 = varint_span(s, 10);
    let ghost s1 = cursor_rest(*r);
    proof {
        assert(s1 =~= s.skip(n1 as int));
        lemma_span_bounds(s1, 10);
    }
    let size = match read_u64(r) {
        Ok(s) => s,
        Err(e) => return Err(e),
    };
    let ghost n2 = varint_span(s1, 10);
    if size > S as u64 || size > 255 {
        return Err(Error::InvalidSize(size));
    }
    proof {
        assert(cursor_rest(*r) =~= s1.skip(n2 as int));
        assert(cursor_rest(*r) =~= s.skip((n1 + n2) as int));
    }
    let mut digest = [0u8; S];
    match fill_exact(r, size as usize) {
        Ok(bytes) => {
            let mut i: usize = 0;
            while i < size as usize
                invariant
                    i <= size <= S,
                    bytes@.len() == size,
                    forall|j: int| 0 <= j < i ==> digest@[j] == bytes@[j],
                    forall|j: int| i <= j < S ==> digest@[j] == 0,
                decreases size - i,
            {
                digest[i] = bytes[i];
                i += 1;
            }
            proof {
                assert(digest@.take(size as int) =~= bytes@);
                assert(bytes@ =~= s.subrange((n1 + n2) as int, (n1 + n2 + size) as int));
            }
        },
        Err(_) => return Err(Error::VarintOverflow),
    }
    Ok((code, size as u8, digest))
}

} // verus!
