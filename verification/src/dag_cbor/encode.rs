//! The DAG-CBOR encoder.

use crate::codec::Error;
use crate::dag_cbor::format::{
    be_bytes, cbor_decoding, cbor_encodable, cbor_encoding, cbor_entries_encoding, cbor_head,
    cbor_items_encoding, cbor_link_encoding, cbor_text_encoding, within_depth, MAX_DEPTH,
};
use crate::dag_cbor::laws::lemma_decode_encode;
use crate::ipld::{list_view, map_view, Ipld, IpldView};
use crate::bytes::extend;
use vstd::prelude::*;
use vstd::utf8::encode_utf8;

verus! {

/// Appends the `width` bytes of `n`, most significant first.
fn write_be(out: &mut Vec<u8>, n: u64, width: usize)
    requires
        width <= 8,
    ensures
        final(out)@ == old(out)@ + be_bytes(n as nat, width as nat),
    decreases width,
{
    if width > 0 {
        write_be(out, n / 256, width - 1);
        out.push((n % 256) as u8);
        assert(out@ =~= old(out)@ + be_bytes(n as nat, width as nat));
    } else {
        assert(out@ =~= old(out)@ + be_bytes(n as nat, 0));
    }
}

/// Appends the head of an item: the major type with its argument in the
/// least width that holds it.
pub fn write_head(out: &mut Vec<u8>, major: u8, n: u64)
    requires
        major < 8,
    ensures
        final(out)@ == old(out)@ + cbor_head(major as nat, n as nat),
{
    if n < 24 {
        out.push(major * 32 + n as u8);
    } else if n < 0x100 {
        out.push(major * 32 + 24);
        write_be(out, n, 1);
    } else if n < 0x1_0000 {
        out.push(major * 32 + 25);
        write_be(out, n, 2);
    } else if n < 0x1_0000_0000 {
        out.push(major * 32 + 26);
        write_be(out, n, 4);
    } else {
        out.push(major * 32 + 27);
        write_be(out, n, 8);
    }
    assert(out@ =~= old(out)@ + cbor_head(major as nat, n as nat));
}

/// Appends a text string.
fn write_text(out: &mut Vec<u8>, s: &String)
    ensures
        final(out)@ == old(out)@ + cbor_text_encoding(s@),
        encode_utf8(s@).len() <= u64::MAX,
{
    let bytes = s.as_str().as_bytes();
    write_head(out, 3, bytes.len() as u64);
    extend(out, bytes);
    assert(out@ =~= old(out)@ + cbor_text_encoding(s@));
}

/// Appends the encoding of a value to `out`, with the entries of each map
/// in the order in which the map holds them.
///
/// Fails with `NumberOutOfRange` where an integer in the value lies outside
/// `-2^64 ..= 2^64 - 1`; what `out` then holds is not stated.
pub fn encode_ipld(ipld: &Ipld, out: &mut Vec<u8>) -> (res: Result<(), Error>)
    ensures
        res is Ok <==> cbor_encodable(ipld@),
        res is Ok ==> final(out)@ == old(out)@ + cbor_encoding(ipld@),
        res is Err ==> res == Err::<(), Error>(Error::NumberOutOfRange),
    decreases ipld,
{
    match ipld {
        Ipld::Null => {
            out.push(0xf6);
            assert(out@ =~= old(out)@ + cbor_encoding(ipld@));
            Ok(())
        },
        Ipld::Bool(b) => {
            if *b {
                out.push(0xf5);
            } else {
                out.push(0xf4);
            }
            assert(out@ =~= old(out)@ + cbor_encoding(ipld@));
            Ok(())
        },
        Ipld::Integer(n) => {
            let n: i128 = *n;
            if n >= 0 {
                if n > 0xffff_ffff_ffff_ffff {
                    return Err(Error::NumberOutOfRange);
                }
                write_head(out, 0, n as u64);
            } else {
                let m: i128 = -1 - n;
                if m > 0xffff_ffff_ffff_ffff {
                    return Err(Error::NumberOutOfRange);
                }
                write_head(out, 1, m as u64);
            }
            Ok(())
        },
        Ipld::Float(bits) => {
            out.push(0xfb);
            write_be(out, *bits, 8);
            assert(out@ =~= old(out)@ + cbor_encoding(ipld@));
            Ok(())
        },
        Ipld::String(s) => {
            write_text(out, s);
            Ok(())
        },
        Ipld::Bytes(b) => {
            write_head(out, 2, b.len() as u64);
            extend(out, b.as_slice());
            assert(out@ =~= old(out)@ + cbor_encoding(ipld@));
            Ok(())
        },
        Ipld::List(l) => {
            write_head(out, 4, l.len() as u64);
            let ghost xs = list_view(l@);
            let ghost start = out@;
            let mut i: usize = 0;
            while i < l.len()
                invariant
                    i <= l@.len(),
                    *ipld == Ipld::List(*l),
                    xs == list_view(l@),
                    out@ + cbor_items_encoding(xs, i as nat) == start + cbor_items_encoding(xs, 0),
                    forall|j: int| 0 <= j < i ==> cbor_encodable(#[trigger] xs[j]),
                decreases l@.len() - i,
            {
                assert(decreases_to!(*l => l[i as int]));
                assert(ipld->List_0 == *l);
                assert(decreases_to!(*ipld => ipld->List_0));
                let ghost before = out@;
                match encode_ipld(&l[i], out) {
                    Ok(()) => {},
                    Err(e) => {
                        assert(!cbor_encodable(xs[i as int]));
                        return Err(e);
                    },
                }
                assert(out@ + cbor_items_encoding(xs, (i + 1) as nat) =~= before
                    + cbor_items_encoding(xs, i as nat));
                i += 1;
            }
            assert(out@ =~= old(out)@ + cbor_encoding(ipld@));
            Ok(())
        },
        Ipld::StringMap(m) => {
            write_head(out, 5, m.len() as u64);
            let ghost es = map_view(m@);
            let ghost start = out@;
            let mut i: usize = 0;
            while i < m.len()
                invariant
                    i <= m@.len(),
                    *ipld == Ipld::StringMap(*m),
                    es == map_view(m@),
                    out@ + cbor_entries_encoding(es, i as nat) == start + cbor_entries_encoding(
                        es,
                        0,
                    ),
                    forall|j: int|
                        0 <= j < i ==> cbor_encodable((#[trigger] es[j]).1) && encode_utf8(
                            es[j].0,
                        ).len() <= u64::MAX,
                decreases m@.len() - i,
            {
                assert(decreases_to!(*m => m[i as int]));
                assert(ipld->StringMap_0 == *m);
                assert(decreases_to!(*ipld => ipld->StringMap_0));
                assert(decreases_to!(m[i as int] => m[i as int].1));
                let ghost before = out@;
                write_text(out, &m[i].0);
                match encode_ipld(&m[i].1, out) {
                    Ok(()) => {},
                    Err(e) => {
                        assert(!cbor_encodable(es[i as int].1));
                        return Err(e);
                    },
                }
                assert(out@ + cbor_entries_encoding(es, (i + 1) as nat) =~= before
                    + cbor_entries_encoding(es, i as nat));
                i += 1;
            }
            assert(out@ =~= old(out)@ + cbor_encoding(ipld@));
            Ok(())
        },
        Ipld::Link(c) => {
            let bytes = c.to_bytes();
            out.push(0xd8);
            out.push(0x2a);
            write_head(out, 2, bytes.len() as u64 + 1);
            out.push(0);
            extend(out, bytes.as_slice());
            assert(out@ =~= old(out)@ + cbor_link_encoding(c@));
            Ok(())
        },
    }
}

/// The encoding of a value of the data model, in a fresh vector.
///
/// Fails with `NonCanonical` where the keys of a map in the value do not
/// ascend, and else with `NumberOutOfRange` where an integer in the value
/// lies outside `-2^64 ..= 2^64 - 1`.
///
/// Decoding what was encoded gives the value back, where its containers
/// nest no deeper than `MAX_DEPTH`; bytes behind the encoding are refused.
pub fn encode(ipld: &Ipld) -> (res: Result<Vec<u8>, Error>)
    ensures
        res is Ok <==> ipld@.valid() && cbor_encodable(ipld@),
        res is Ok ==> res->Ok_0@ == cbor_encoding(ipld@),
        res is Err ==> res->Err_0 == (if !ipld@.valid() {
            Error::NonCanonical
        } else {
            Error::NumberOutOfRange
        }),
        res is Ok && within_depth(ipld@, MAX_DEPTH as nat) ==> cbor_decoding(res->Ok_0@) == Ok::<
            IpldView,
            Error,
        >(ipld@),
{
    if !ipld.is_valid() {
        return Err(Error::NonCanonical);
    }
    let mut out: Vec<u8> = Vec::new();
    match encode_ipld(ipld, &mut out) {
        Ok(()) => {
            assert(out@ =~= cbor_encoding(ipld@));
            proof {
                if within_depth(ipld@, MAX_DEPTH as nat) {
                    lemma_decode_encode(ipld@);
                }
            }
            Ok(out)
        },
        Err(e) => Err(e),
    }
}

} // verus!
