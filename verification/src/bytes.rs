//! Byte strings: their order, and copying them.

use vstd::prelude::*;

verus! {

/// Whether `a` comes before `b` in the order of byte strings: at the first
/// index where they differ `a` has the smaller byte, or `a` ends first.
pub open spec fn bytes_lt(a: Seq<u8>, b: Seq<u8>) -> bool
    decreases a.len(),
{
    if b.len() == 0 {
        false
    } else if a.len() == 0 {
        true
    } else if a[0] != b[0] {
        a[0] < b[0]
    } else {
        bytes_lt(a.drop_first(), b.drop_first())
    }
}

/// Byte strings that agree on their first `i` bytes compare as what is
/// behind those bytes does.
pub proof fn lemma_bytes_lt_skip(a: Seq<u8>, b: Seq<u8>, i: nat)
    requires
        i <= a.len(),
        i <= b.len(),
        forall|j: int| 0 <= j < i ==> a[j] == b[j],
    ensures
        bytes_lt(a, b) == bytes_lt(a.skip(i as int), b.skip(i as int)),
    decreases i,
{
    if i == 0 {
        assert(a.skip(0) =~= a);
        assert(b.skip(0) =~= b);
    } else {
        let x = a.drop_first();
        let y = b.drop_first();
        assert(a[0] == b[0]);
        assert forall|j: int| 0 <= j < i - 1 implies x[j] == y[j] by {
            assert(a[j + 1] == b[j + 1]);
        }
        lemma_bytes_lt_skip(x, y, (i - 1) as nat);
        assert(x.skip(i - 1) =~= a.skip(i as int));
        assert(y.skip(i - 1) =~= b.skip(i as int));
    }
}

/// No byte string comes before itself.
pub proof fn lemma_bytes_lt_irreflexive(a: Seq<u8>)
    ensures
        !bytes_lt(a, a),
{
    lemma_bytes_lt_skip(a, a, a.len());
}

/// How two byte strings stand in the order of byte strings: -1 where `a`
/// comes first, 0 where they are equal, 1 where `b` comes first.
pub fn key_order(a: &[u8], b: &[u8]) -> (r: i8)
    ensures
        r == -1 || r == 0 || r == 1,
        r == -1 <==> bytes_lt(a@, b@),
        r == 0 <==> a@ == b@,
        r == 1 <==> bytes_lt(b@, a@),
{
    let mut i: usize = 0;
    while i < a.len() && i < b.len()
        invariant
            i <= a@.len(),
            i <= b@.len(),
            forall|j: int| 0 <= j < i ==> a@[j] == b@[j],
        decreases a@.len() - i,
    {
        if a[i] != b[i] {
            proof {
                lemma_bytes_lt_skip(a@, b@, i as nat);
                lemma_bytes_lt_skip(b@, a@, i as nat);
            }
            return if a[i] < b[i] {
                -1
            } else {
                1
            };
        }
        i += 1;
    }
    proof {
        lemma_bytes_lt_skip(a@, b@, i as nat);
        lemma_bytes_lt_skip(b@, a@, i as nat);
        if a@.len() == b@.len() {
            assert(a@ =~= b@);
        }
    }
    if a.len() == b.len() {
        0
    } else if a.len() < b.len() {
        -1
    } else {
        1
    }
}

/// Appends a slice to a vector.
pub fn extend(out: &mut Vec<u8>, data: &[u8])
    ensures
        final(out)@ == old(out)@ + data@,
{
    let mut i: usize = 0;
    while i < data.len()
        invariant
            i <= data@.len(),
            out@ == old(out)@ + data@.take(i as int),
        decreases data@.len() - i,
    {
        out.push(data[i]);
        assert(data@.take(i + 1) =~= data@.take(i as int).push(data@[i as int]));
        i += 1;
    }
    assert(data@.take(data@.len() as int) =~= data@);
}

/// A copy of a slice.
pub fn slice_to_vec(data: &[u8]) -> (out: Vec<u8>)
    ensures
        out@ == data@,
{
    let mut out = Vec::new();
    extend(&mut out, data);
    out
}

} // verus!
