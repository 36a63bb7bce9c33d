//! The byte cursor that encoders fill and decoders drain: the contents and
//! position of a `bytecursor::ByteCursor`, and what its methods do to them.

use crate::codec::Error;
use bytecursor::ByteCursor;
use vstd::prelude::*;

verus! {

/// `bytecursor::ByteCursor`: a vector of bytes with a position in it.
#[verifier::external_type_specification]
#[verifier::external_body]
pub struct ExByteCursor(bytecursor::ByteCursor);

/// The bytes that a cursor holds, from its first byte on, wherever it stands.
pub uninterp spec fn cursor_bytes(c: ByteCursor) -> Seq<u8>;

/// The position of a cursor: the index at which its next read or write starts.
pub uninterp spec fn cursor_position(c: ByteCursor) -> u64;

/// The bytes from the cursor's position to its end: what is left to read.
pub open spec fn cursor_rest(c: ByteCursor) -> Seq<u8> {
    if cursor_position(c) >= cursor_bytes(c).len() {
        Seq::empty()
    } else {
        cursor_bytes(c).subrange(cursor_position(c) as int, cursor_bytes(c).len() as int)
    }
}

/// `bytes` after `data` was written at `pos`: a write replaces what it lands
/// on, lengthens the buffer where it runs past the end, and fills a gap
/// between the end and `pos` with zeros. An empty write changes nothing.
pub open spec fn overwritten(bytes: Seq<u8>, pos: int, data: Seq<u8>) -> Seq<u8> {
    if data.len() == 0 {
        bytes
    } else if pos >= bytes.len() {
        bytes + Seq::new((pos - bytes.len()) as nat, |i: int| 0u8) + data
    } else if pos + data.len() >= bytes.len() {
        bytes.subrange(0, pos) + data
    } else {
        bytes.subrange(0, pos) + data + bytes.subrange(pos + data.len(), bytes.len() as int)
    }
}

/// `ByteCursor::new` takes the bytes over and stands at their start.
pub assume_specification[ ByteCursor::new ](inner: Vec<u8>) -> (c: ByteCursor)
    ensures
        cursor_bytes(c) == inner@,
        cursor_position(c) == 0,
;

/// `ByteCursor::into_inner` gives the bytes back, all of them.
pub assume_specification[ ByteCursor::into_inner ](c: ByteCursor) -> (inner: Vec<u8>)
    ensures
        inner@ == cursor_bytes(c),
;

/// `ByteCursor::get_ref` lends the bytes, all of them.
pub assume_specification<'a>[ ByteCursor::get_ref ](c: &'a ByteCursor) -> (inner: &'a Vec<u8>)
    ensures
        inner@ == cursor_bytes(*c),
;

/// `ByteCursor::position` returns the position.
pub assume_specification[ ByteCursor::position ](c: &ByteCursor) -> (pos: u64)
    ensures
        pos == cursor_position(*c),
;

/// `ByteCursor::set_position` moves the cursor, to any position, and leaves
/// the bytes alone.
pub assume_specification[ ByteCursor::set_position ](c: &mut ByteCursor, pos: u64)
    ensures
        cursor_bytes(*final(c)) == cursor_bytes(*old(c)),
        cursor_position(*final(c)) == pos,
;

/// `ByteCursor::write_all` writes the whole of `buf` at the position and
/// moves past it. It fails only on a position that no `usize` holds, and it
/// panics where the buffer would outgrow a vector: both are left out.
pub assume_specification[ ByteCursor::write_all ](c: &mut ByteCursor, buf: &[u8]) -> (r: Result<
    (),
    String,
>)
    requires
        cursor_position(*old(c)) + buf@.len() <= isize::MAX,
    ensures
        r is Ok,
        cursor_bytes(*final(c)) == overwritten(
            cursor_bytes(*old(c)),
            cursor_position(*old(c)) as int,
            buf@,
        ),
        cursor_position(*final(c)) == cursor_position(*old(c)) + buf@.len(),
;

/// `ByteCursor::read` into a buffer of one byte: the count it returns, 1 or
/// at the end 0, and the byte it read.
#[verifier::external_body]
pub(crate) fn read_byte(c: &mut ByteCursor) -> (r: (usize, u8))
    ensures
        cursor_bytes(*final(c)) == cursor_bytes(*old(c)),
        r.0 == (if cursor_rest(*old(c)).len() == 0 { 0usize } else { 1usize }),
        cursor_position(*final(c)) == cursor_position(*old(c)) + r.0,
        r.0 == 1 ==> r.1 == cursor_rest(*old(c))[0],
{
    let mut b = [0u8; 1];
    let n = c.read(&mut b);
    (n, b[0])
}

/// `ByteCursor::read_exact` into a fresh buffer of `n` bytes: it fills the
/// buffer and moves past what it read, or fails where fewer than `n` bytes
/// are left and then stays where it was.
#[verifier::external_body]
pub(crate) fn fill_exact(c: &mut ByteCursor, n: usize) -> (r: Result<Vec<u8>, String>)
    requires
        n <= isize::MAX,
    ensures
        cursor_bytes(*final(c)) == cursor_bytes(*old(c)),
        r is Ok <==> n <= cursor_rest(*old(c)).len(),
        r is Ok ==> r->Ok_0@ == cursor_rest(*old(c)).take(n as int) && cursor_position(*final(c))
            == cursor_position(*old(c)) + n,
        r is Err ==> cursor_position(*final(c)) == cursor_position(*old(c)),
{
    let mut buf = vec![0u8; n];
    c.read_exact(&mut buf).map(|_| buf)
}

/// Reads exactly `n` bytes from the cursor, which ends behind them. Where
/// fewer than `n` bytes are left the read is an `UnexpectedEof`, and the
/// cursor stays where it was.
pub fn read_exact(c: &mut ByteCursor, n: usize) -> (res: Result<Vec<u8>, Error>)
    requires
        n <= isize::MAX,
    ensures
        cursor_bytes(*final(c)) == cursor_bytes(*old(c)),
        match res {
            Ok(bytes) => n <= cursor_rest(*old(c)).len() && bytes@ == cursor_rest(*old(c)).take(
                n as int,
            ) && cursor_position(*final(c)) == cursor_position(*old(c)) + n,
            Err(e) => n > cursor_rest(*old(c)).len() && e == Error::UnexpectedEof
                && cursor_position(*final(c)) == cursor_position(*old(c)),
        },
{
    match fill_exact(c, n) {
        Ok(bytes) => Ok(bytes),
        Err(_) => Err(Error::UnexpectedEof),
    }
}

/// Whether `len` bytes written at the cursor's position end within the
/// length that a vector can have.
pub fn fits(w: &ByteCursor, len: usize) -> (r: bool)
    ensures
        r == (cursor_position(*w) + len <= isize::MAX),
{
    let limit = isize::MAX as u64;
    w.position() <= limit && len as u64 <= limit - w.position()
}

} // verus!
