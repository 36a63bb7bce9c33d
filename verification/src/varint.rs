//! Unsigned varints: 7-bit groups, least significant first, the top bit set
//! on every byte but the last.

use crate::codec::Error;
use crate::cursor::{cursor_bytes, cursor_position, cursor_rest, read_byte};
use bytecursor::ByteCursor;
use vstd::prelude::*;

verus! {

/// 128 to the power `k`.
pub open spec fn pow128(k: nat) -> nat
    decreases k,
{
    if k == 0 {
        1
    } else {
        128 * pow128((k - 1) as nat)
    }
}

/// The number that a run of 7-bit groups stands for. The top bit of each
/// byte is left out.
pub open spec fn varint_value(bytes: Seq<u8>) -> nat
    decreases bytes.len(),
{
    if bytes.len() == 0 {
        0
    } else {
        (bytes[0] % 128) as nat + 128 * varint_value(bytes.drop_first())
    }
}

/// The least encoding of `n`.
pub open spec fn varint_encoding(n: nat) -> Seq<u8>
    decreases n,
{
    if n < 128 {
        seq![n as u8]
    } else {
        seq![(128 + n % 128) as u8] + varint_encoding(n / 128)
    }
}

/// How many bytes a reader takes from the front of `s` when it stops behind
/// the first byte without a continuation bit, after `cap` bytes, or at the
/// end of `s`, whichever comes first.
pub open spec fn varint_span(s: Seq<u8>, cap: nat) -> nat
    decreases cap,
{
    if cap == 0 || s.len() == 0 {
        0
    } else if s[0] < 128 {
        1
    } else {
        1 + varint_span(s.drop_first(), (cap - 1) as nat)
    }
}

/// What a reader makes of the front of `s`: the value and the number of
/// bytes it stands in. There is none where `s` or the `cap` ends before a
/// byte without a continuation bit, where the value is above `max`, and
/// where the last of several groups is zero, which is not the least encoding.
pub open spec fn varint_parse(s: Seq<u8>, cap: nat, max: nat) -> Option<(nat, nat)> {
    let n = varint_span(s, cap);
    if n == 0 || s[n - 1] >= 128 {
        None
    } else if n > 1 && s[n - 1] == 0 {
        None
    } else if varint_value(s.take(n as int)) > max {
        None
    } else {
        Some((varint_value(s.take(n as int)), n))
    }
}

/// Whether `bytes` is one varint from its first byte to its last: every byte
/// but the last has the continuation bit.
pub open spec fn is_one_varint(bytes: Seq<u8>) -> bool {
    &&& bytes.len() >= 1
    &&& bytes[bytes.len() - 1] < 128
    &&& forall|i: int| 0 <= i < bytes.len() - 1 ==> #[trigger] bytes[i] >= 128
}

/// Groups stand for a number below 128 to the power of their count.
pub proof fn lemma_value_bound(bytes: Seq<u8>)
    ensures
        varint_value(bytes) < pow128(bytes.len()),
    decreases bytes.len(),
{
    if bytes.len() > 0 {
        lemma_value_bound(bytes.drop_first());
    }
}

/// The value of groups behind groups: the first ones count as they are, and
/// the ones behind them 128 to the power of the count of the first ones
/// times as much.
pub proof fn lemma_value_concat(a: Seq<u8>, b: Seq<u8>)
    ensures
        varint_value(a + b) == varint_value(a) + pow128(a.len()) * varint_value(b),
    decreases a.len(),
{
    if a.len() == 0 {
        assert(a + b =~= b);
    } else {
        assert((a + b).drop_first() =~= a.drop_first() + b);
        assert((a + b)[0] == a[0]);
        lemma_value_concat(a.drop_first(), b);
        let p = pow128(a.drop_first().len());
        assert(pow128(a.len()) == 128 * p);
        let va = varint_value(a.drop_first());
        let vb = varint_value(b);
        assert(128 * (va + p * vb) == 128 * va + (128 * p) * vb) by (nonlinear_arith);
    }
}

/// The encoding of `n` is one varint, its last group is not a spare zero,
/// and it stands for `n`.
pub proof fn lemma_encoding_shape(n: nat)
    ensures
        is_one_varint(varint_encoding(n)),
        varint_encoding(n).len() > 1 ==> varint_encoding(n).last() != 0,
        varint_value(varint_encoding(n)) == n,
    decreases n,
{
    let e = varint_encoding(n);
    if n < 128 {
        assert(e.drop_first() =~= Seq::<u8>::empty());
        assert(varint_value(e.drop_first()) == 0);
    } else {
        let rest = varint_encoding(n / 128);
        lemma_encoding_shape(n / 128);
        assert(e.drop_first() =~= rest);
        assert(e[0] == 128 + n % 128);
        assert(e[0] % 128 == n % 128);
        assert forall|i: int| 0 <= i < e.len() - 1 implies #[trigger] e[i] >= 128 by {
            if i > 0 {
                assert(e[i] == rest[i - 1]);
            }
        }
        assert(e.last() == rest.last());
        if rest.len() == 1 {
            assert(rest[0] == n / 128);
        }
    }
}

/// A number below `128^k` has an encoding of at most `k` bytes.
pub proof fn lemma_encoding_len(n: nat, k: nat)
    requires
        k >= 1,
        n < pow128(k),
    ensures
        1 <= varint_encoding(n).len() <= k,
    decreases n,
{
    if n >= 128 {
        assert(pow128(1) == 128) by {
            reveal_with_fuel(pow128, 2);
        }
        assert(k >= 2);
        assert(pow128(k) == 128 * pow128((k - 1) as nat));
        lemma_encoding_len(n / 128, (k - 1) as nat);
    }
}

/// The encoding of a `u64` takes at most 10 bytes.
pub proof fn lemma_encoding_len_u64(n: u64)
    ensures
        1 <= varint_encoding(n as nat).len() <= 10,
{
    assert(pow128(10) == 1180591620717411303424nat) by {
        reveal_with_fuel(pow128, 11);
    }
    lemma_encoding_len(n as nat, 10);
}

/// A span goes neither past the input nor past the cap.
pub proof fn lemma_span_bounds(s: Seq<u8>, cap: nat)
    ensures
        varint_span(s, cap) <= s.len(),
        varint_span(s, cap) <= cap,
    decreases cap,
{
    if cap > 0 && s.len() > 0 && s[0] >= 128 {
        lemma_span_bounds(s.drop_first(), (cap - 1) as nat);
    }
}

/// The span of one varint followed by anything is the varint's length.
pub proof fn lemma_span_of_varint(v: Seq<u8>, rest: Seq<u8>, cap: nat)
    requires
        is_one_varint(v),
        v.len() <= cap,
    ensures
        varint_span(v + rest, cap) == v.len(),
    decreases v.len(),
{
    let s = v + rest;
    assert(s[0] == v[0]);
    if v.len() > 1 {
        assert(v[0] >= 128);
        let w = v.drop_first();
        assert(s.drop_first() =~= w + rest);
        assert forall|i: int| 0 <= i < w.len() - 1 implies #[trigger] w[i] >= 128 by {
            assert(w[i] == v[i + 1]);
        }
        lemma_span_of_varint(w, rest, (cap - 1) as nat);
    }
}

/// Reading what was written gives the number back: the encoding of `n`,
/// followed by anything, parses to `n` and to the encoding's length.
pub proof fn lemma_parse_encoding(n: nat, rest: Seq<u8>, cap: nat, max: nat)
    requires
        n <= max,
        varint_encoding(n).len() <= cap,
    ensures
        varint_parse(varint_encoding(n) + rest, cap, max) == Some(
            (n, varint_encoding(n).len()),
        ),
{
    let e = varint_encoding(n);
    lemma_encoding_shape(n);
    lemma_span_of_varint(e, rest, cap);
    assert((e + rest).take(e.len() as int) =~= e);
    assert((e + rest)[e.len() - 1] == e.last());
}

/// A varint whose last group is not a spare zero is the encoding of its
/// value, and the value of several groups is at least 128.
pub proof fn lemma_encoding_of_value(b: Seq<u8>)
    requires
        is_one_varint(b),
        b.len() > 1 ==> b.last() != 0,
    ensures
        varint_encoding(varint_value(b)) == b,
        b.len() > 1 ==> varint_value(b) >= 128,
        b.len() == 1 ==> varint_value(b) == b[0],
    decreases b.len(),
{
    let rest = b.drop_first();
    if b.len() == 1 {
        assert(rest =~= Seq::<u8>::empty());
        assert(varint_value(rest) == 0);
        assert(varint_encoding(b[0] as nat) =~= b);
    } else {
        assert(b[0] >= 128);
        assert(rest.last() == b.last());
        assert forall|i: int| 0 <= i < rest.len() - 1 implies #[trigger] rest[i] >= 128 by {
            assert(rest[i] == b[i + 1]);
        }
        lemma_encoding_of_value(rest);
        let v = varint_value(b);
        let r = varint_value(rest);
        assert(r >= 1);
        assert(v == (b[0] % 128) + 128 * r);
        assert(v / 128 == r);
        assert(v % 128 == b[0] % 128);
        assert(varint_encoding(v) =~= seq![(128 + v % 128) as u8] + varint_encoding(r));
        assert(varint_encoding(v) =~= b);
    }
}

/// Where a span ends on a byte without a continuation bit, every byte
/// before it has one.
pub proof fn lemma_span_prefix(s: Seq<u8>, cap: nat)
    requires
        varint_span(s, cap) >= 1,
        varint_span(s, cap) <= s.len(),
        s[varint_span(s, cap) - 1] < 128,
    ensures
        forall|j: int| 0 <= j < varint_span(s, cap) - 1 ==> #[trigger] s[j] >= 128,
    decreases cap,
{
    if cap > 0 && s.len() > 0 && s[0] >= 128 {
        let t = s.drop_first();
        lemma_span_bounds(t, (cap - 1) as nat);
        if varint_span(t, (cap - 1) as nat) >= 1 {
            assert(t[varint_span(t, (cap - 1) as nat) - 1] == s[varint_span(s, cap) - 1]);
            lemma_span_prefix(t, (cap - 1) as nat);
            assert forall|j: int| 0 <= j < varint_span(s, cap) - 1 implies #[trigger] s[j]
                >= 128 by {
                if j > 0 {
                    assert(s[j] == t[j - 1]);
                }
            }
        }
    }
}

/// What a reader accepts is the least encoding of what it returns: the
/// bytes that a value was read from are its encoding.
pub proof fn lemma_parse_canonical(s: Seq<u8>, cap: nat, max: nat)
    requires
        varint_parse(s, cap, max) is Some,
    ensures
        ({
            let (v, n) = varint_parse(s, cap, max)->Some_0;
            &&& 1 <= n <= s.len()
            &&& n <= cap
            &&& v <= max
            &&& s.take(n as int) == varint_encoding(v)
        }),
{
    let n = varint_span(s, cap);
    lemma_span_bounds(s, cap);
    lemma_span_prefix(s, cap);
    let b = s.take(n as int);
    assert(b.last() == s[n - 1]);
    assert forall|i: int| 0 <= i < b.len() - 1 implies #[trigger] b[i] >= 128 by {
        assert(b[i] == s[i]);
    }
    lemma_encoding_of_value(b);
}

/// One step of a span: past `i` continuation bytes the span goes on from
/// byte `i`.
proof fn lemma_span_step(s: Seq<u8>, cap: nat, i: nat)
    requires
        i < cap,
        i <= s.len(),
        forall|j: int| 0 <= j < i ==> #[trigger] s[j] >= 128,
    ensures
        varint_span(s, cap) == i + varint_span(s.skip(i as int), (cap - i) as nat),
    decreases i,
{
    if i == 0 {
        assert(s.skip(0) =~= s);
    } else {
        assert(s[0] >= 128);
        let t = s.drop_first();
        assert forall|j: int| 0 <= j < i - 1 implies #[trigger] t[j] >= 128 by {
            assert(t[j] == s[j + 1]);
        }
        lemma_span_step(t, (cap - 1) as nat, (i - 1) as nat);
        assert(t.skip(i - 1) =~= s.skip(i as int));
    }
}

/// In a varint of `k + 1` bytes the value is within `max` exactly when its
/// last group is at most `top`, where `max + 1` is `(top + 1) * 128^k`.
proof fn lemma_last_group_decides(v: Seq<u8>, max: nat, top: nat)
    requires
        is_one_varint(v),
        max + 1 == (top + 1) * pow128((v.len() - 1) as nat),
    ensures
        varint_value(v) <= max <==> v.last() <= top,
{
    let k = (v.len() - 1) as nat;
    let head = v.take(k as int);
    let tail = seq![v.last()];
    assert(v =~= head + tail);
    lemma_value_concat(head, tail);
    lemma_value_bound(head);
    assert(tail.drop_first() =~= Seq::<u8>::empty());
    assert(varint_value(tail.drop_first()) == 0);
    assert(varint_value(tail) == v.last() as nat);
    let p = pow128(k);
    let l = v.last() as nat;
    if l <= top {
        assert(p * l <= p * top) by (nonlinear_arith)
            requires
                l <= top,
        ;
        assert((top + 1) * p == p * top + p) by (nonlinear_arith);
    } else {
        assert(p * l >= p * (top + 1)) by (nonlinear_arith)
            requires
                l >= top + 1,
        ;
        assert((top + 1) * p == p * (top + 1)) by (nonlinear_arith);
    }
}

/// `unsigned_varint::decode::is_last` tells whether the continuation bit of a
/// byte is clear.
pub assume_specification[ unsigned_varint::decode::is_last ](b: u8) -> (r: bool)
    ensures
        r == (b < 128),
;

/// `unsigned_varint::encode::u64` writes the least encoding of `n` into a
/// buffer of 10 bytes and returns the part it wrote.
#[verifier::external_body]
pub(crate) fn encode_u64(n: u64) -> (out: Vec<u8>)
    ensures
        out@ == varint_encoding(n as nat),
{
    let mut buf = unsigned_varint::encode::u64_buffer();
    unsigned_varint::encode::u64(n, &mut buf).to_vec()
}

/// `unsigned_varint::decode::u64` on exactly one varint of at most 10 bytes
/// whose value a `u64` holds. It joins the 7-bit groups, and refuses a last
/// group of zero behind other groups as not minimal; its error is dropped.
#[verifier::external_body]
pub(crate) fn decode_u64(buf: &[u8]) -> (r: Option<u64>)
    requires
        is_one_varint(buf@),
        buf@.len() <= 10,
        varint_value(buf@) <= u64::MAX,
    ensures
        r is Some <==> (buf@.len() == 1 || buf@.last() != 0),
        r is Some ==> r->Some_0 == varint_value(buf@),
{
    unsigned_varint::decode::u64(buf).ok().map(|(n, _)| n)
}

/// Reads one varint of at most `cap` bytes and of a value of at most `max`
/// from the cursor, byte by byte. The cursor ends behind the last byte that
/// was looked at, on success and on failure.
fn read_varint(r: &mut ByteCursor, cap: usize, max: u64, top: u8) -> (res: Result<u64, Error>)
    requires
        1 <= cap <= 10,
        max + 1 == (top + 1) * pow128((cap - 1) as nat),
    ensures
        cursor_bytes(*final(r)) == cursor_bytes(*old(r)),
        cursor_position(*final(r)) == cursor_position(*old(r)) + varint_span(
            cursor_rest(*old(r)),
            cap as nat,
        ),
        match varint_parse(cursor_rest(*old(r)), cap as nat, max as nat) {
            Some((v, n)) => res == Ok::<u64, Error>(v as u64),
            None => res == Err::<u64, Error>(Error::VarintOverflow),
        },
{
    let ghost s = cursor_rest(*r);
    let ghost start = cursor_position(*r);
    let mut buf: Vec<u8> = Vec::new();
    let mut i: usize = 0;
    while i < cap
        invariant
            i <= cap <= 10,
            i <= s.len(),
            buf@ == s.take(i as int),
            forall|j: int| 0 <= j < i ==> #[trigger] s[j] >= 128,
            cursor_bytes(*r) == cursor_bytes(*old(r)),
            cursor_position(*r) == start + i,
            s == cursor_rest(*old(r)),
            start == cursor_position(*old(r)),
            cursor_rest(*r) == s.skip(i as int),
            max + 1 == (top + 1) * pow128((cap - 1) as nat),
        decreases cap - i,
    {
        proof {
            lemma_span_step(s, cap as nat, i as nat);
        }
        let (n, b) = read_byte(r);
        if n == 0 {
            return Err(Error::VarintOverflow);
        }
        buf.push(b);
        proof {
            assert(s.skip(i as int)[0] == s[i as int]);
            assert(buf@ =~= s.take(i + 1));
            assert(s.skip(i as int).drop_first() =~= s.skip(i + 1));
            assert(cursor_rest(*r) =~= s.skip(i + 1));
        }
        if unsigned_varint::decode::is_last(b) {
            proof {
                assert(varint_span(s, cap as nat) == i + 1);
                if i + 1 == cap {
                    lemma_last_group_decides(buf@, max as nat, top as nat);
                } else {
                    lemma_value_bound(buf@);
                    lemma_pow128_monotonic((i + 1) as nat, (cap - 1) as nat);
                    assert(pow128((cap - 1) as nat) <= (top + 1) * pow128((cap - 1) as nat))
                        by (nonlinear_arith);
                }
            }
            if i + 1 == cap && b > top {
                return Err(Error::VarintOverflow);
            }
            proof {
                lemma_pow128_10();
                lemma_pow128_monotonic((cap - 1) as nat, 9);
                assert(max <= u64::MAX);
            }
            return match decode_u64(buf.as_slice()) {
                Some(v) => Ok(v),
                None => Err(Error::VarintOverflow),
            };
        }
        i += 1;
    }
    proof {
        lemma_span_stops(s, cap as nat);
        assert(s[cap - 1] >= 128);
    }
    Err(Error::VarintOverflow)
}

/// The powers of 128 ascend and are at least 1.
proof fn lemma_pow128_monotonic(a: nat, b: nat)
    requires
        a <= b,
    ensures
        pow128(a) <= pow128(b),
        pow128(a) >= 1,
    decreases b,
{
    if a < b {
        lemma_pow128_monotonic(a, (b - 1) as nat);
    } else if a > 0 {
        lemma_pow128_monotonic((a - 1) as nat, (b - 1) as nat);
    }
}

/// The powers of 128 that the two readers rest on.
proof fn lemma_pow128_10()
    ensures
        pow128(1) == 128,
        pow128(9) == 0x8000_0000_0000_0000nat,
{
    reveal_with_fuel(pow128, 11);
}

/// Where each of the first `cap` bytes goes on, the span takes them all.
proof fn lemma_span_stops(s: Seq<u8>, cap: nat)
    requires
        cap <= s.len(),
        forall|j: int| 0 <= j < cap ==> #[trigger] s[j] >= 128,
    ensures
        varint_span(s, cap) == cap,
    decreases cap,
{
    if cap > 0 {
        let t = s.drop_first();
        assert(s[0] >= 128);
        assert forall|j: int| 0 <= j < cap - 1 implies #[trigger] t[j] >= 128 by {
            assert(t[j] == s[j + 1]);
        }
        lemma_span_stops(t, (cap - 1) as nat);
    }
}

/// Reads a varint of at most 10 bytes as a `u64`.
///
/// Fails with `VarintOverflow` where the input ends before a byte without a
/// continuation bit, where the tenth byte has one, where the value is above
/// `u64::MAX`, and where the last of several groups is zero. The cursor ends
/// behind the last byte that was looked at.
pub fn read_u64(r: &mut ByteCursor) -> (res: Result<u64, Error>)
    ensures
        cursor_bytes(*final(r)) == cursor_bytes(*old(r)),
        cursor_position(*final(r)) == cursor_position(*old(r)) + varint_span(
            cursor_rest(*old(r)),
            10,
        ),
        match varint_parse(cursor_rest(*old(r)), 10, u64::MAX as nat) {
            Some((v, n)) => res == Ok::<u64, Error>(v as u64),
            None => res == Err::<u64, Error>(Error::VarintOverflow),
        },
{
    proof {
        lemma_pow128_10();
    }
    read_varint(r, 10, u64::MAX, 1)
}

/// Reads a varint of at most 2 bytes as a `u8`: as `read_u64` does, with the
/// second byte in place of the tenth and 255 in place of `u64::MAX`.
pub fn read_u8(r: &mut ByteCursor) -> (res: Result<u8, Error>)
    ensures
        cursor_bytes(*final(r)) == cursor_bytes(*old(r)),
        cursor_position(*final(r)) == cursor_position(*old(r)) + varint_span(
            cursor_rest(*old(r)),
            2,
        ),
        match varint_parse(cursor_rest(*old(r)), 2, 255) {
            Some((v, n)) => res == Ok::<u8, Error>(v as u8),
            None => res == Err::<u8, Error>(Error::VarintOverflow),
        },
{
    proof {
        lemma_pow128_10();
    }
    match read_varint(r, 2, 255, 1) {
        Ok(v) => Ok(v as u8),
        Err(e) => Err(e),
    }
}

/// The least encoding of `n`, in a fresh vector.
pub fn write_u64(n: u64) -> (out: Vec<u8>)
    ensures
        out@ == varint_encoding(n as nat),
        1 <= out@.len() <= 10,
{
    proof {
        lemma_encoding_len_u64(n);
    }
    encode_u64(n)
}

} // verus!
