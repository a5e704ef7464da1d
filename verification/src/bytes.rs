//! Operations on byte strings shared by the encoders and decoders.

use vstd::prelude::*;
use vstd::slice::{slice_subrange, slice_to_vec};

verus! {

/// Appends `data` to `out`.
pub fn append_bytes(out: &mut Vec<u8>, data: &[u8])
    ensures
        final(out)@ == old(out)@ + data@,
{
    let ghost before = out@;
    out.extend_from_slice(data);
    assert(out@ =~= before + data@);
}

/// A copy of `data`.
pub fn copy_bytes(data: &[u8]) -> (out: Vec<u8>)
    ensures
        out@ == data@,
{
    slice_to_vec(data)
}

/// A copy of `data[from..to]`.
pub fn copy_range(data: &[u8], from: usize, to: usize) -> (out: Vec<u8>)
    requires
        from <= to <= data@.len(),
    ensures
        out@ == data@.subrange(from as int, to as int),
{
    slice_to_vec(slice_subrange(data, from, to))
}

/// Whether two byte strings hold the same bytes.
pub fn same_bytes(a: &[u8], b: &[u8]) -> (same: bool)
    ensures
        same == (a@ == b@),
{
    if a.len() != b.len() {
        return false;
    }
    let mut i: usize = 0;
    while i < a.len()
        invariant
            i <= a@.len(),
            a@.len() == b@.len(),
            forall|k: int| 0 <= k < i ==> a@[k] == b@[k],
        decreases a@.len() - i,
    {
        if a[i] != b[i] {
            return false;
        }
        i += 1;
    }
    assert(a@ =~= b@);
    true
}

/// Whether `data` begins with `prefix`.
pub fn begins_with(data: &[u8], prefix: &[u8]) -> (yes: bool)
    ensures
        yes == prefix@.is_prefix_of(data@),
{
    if data.len() < prefix.len() {
        return false;
    }
    let mut i: usize = 0;
    while i < prefix.len()
        invariant
            i <= prefix@.len() <= data@.len(),
            forall|k: int| 0 <= k < i ==> data@[k] == prefix@[k],
        decreases prefix@.len() - i,
    {
        if data[i] != prefix[i] {
            assert(data@.subrange(0, prefix@.len() as int)[i as int] == data@[i as int]);
            return false;
        }
        i += 1;
    }
    assert(data@.subrange(0, prefix@.len() as int) =~= prefix@);
    true
}

/// Lexicographic order on byte strings, a proper prefix coming first.
pub open spec fn bytes_below(a: Seq<u8>, b: Seq<u8>) -> bool
    decreases a.len(),
{
    if b.len() == 0 {
        false
    } else if a.len() == 0 {
        true
    } else if a[0] != b[0] {
        a[0] < b[0]
    } else {
        bytes_below(a.drop_first(), b.drop_first())
    }
}

proof fn lemma_bytes_below_at(a: Seq<u8>, b: Seq<u8>, i: int)
    requires
        0 <= i <= a.len(),
        i <= b.len(),
        forall|k: int| 0 <= k < i ==> a[k] == b[k],
    ensures
        bytes_below(a, b) == bytes_below(a.skip(i), b.skip(i)),
    decreases i,
{
    if i == 0 {
        assert(a.skip(0) =~= a);
        assert(b.skip(0) =~= b);
    } else {
        lemma_bytes_below_at(a.drop_first(), b.drop_first(), i - 1);
        assert(a.drop_first().skip(i - 1) =~= a.skip(i));
        assert(b.drop_first().skip(i - 1) =~= b.skip(i));
    }
}

/// Whether `a` comes strictly before `b` in lexicographic order.
pub fn less_bytes(a: &[u8], b: &[u8]) -> (less: bool)
    ensures
        less == bytes_below(a@, b@),
{
    let mut i: usize = 0;
    while i < a.len() && i < b.len()
        invariant
            i <= a@.len(),
            i <= b@.len(),
            forall|k: int| 0 <= k < i ==> a@[k] == b@[k],
        decreases a@.len() - i,
    {
        if a[i] != b[i] {
            proof {
                lemma_bytes_below_at(a@, b@, i as int);
                assert(a@.skip(i as int)[0] == a@[i as int]);
                assert(b@.skip(i as int)[0] == b@[i as int]);
            }
            return a[i] < b[i];
        }
        i += 1;
    }
    proof {
        lemma_bytes_below_at(a@, b@, i as int);
    }
    i < b.len()
}

/// The byte order is irreflexive.
pub proof fn lemma_bytes_below_irreflexive(a: Seq<u8>)
    ensures
        !bytes_below(a, a),
    decreases a.len(),
{
    if a.len() > 0 {
        lemma_bytes_below_irreflexive(a.drop_first());
    }
}

/// The byte order is transitive.
pub proof fn lemma_bytes_below_transitive(a: Seq<u8>, b: Seq<u8>, c: Seq<u8>)
    requires
        bytes_below(a, b),
        bytes_below(b, c),
    ensures
        bytes_below(a, c),
    decreases a.len(),
{
    if a.len() > 0 && a[0] == b[0] && b[0] == c[0] {
        lemma_bytes_below_transitive(a.drop_first(), b.drop_first(), c.drop_first());
    }
}

/// Two different byte strings are always ordered one way or the other.
pub proof fn lemma_bytes_below_total(a: Seq<u8>, b: Seq<u8>)
    ensures
        bytes_below(a, b) || bytes_below(b, a) || a == b,
    decreases a.len(),
{
    if a.len() > 0 && b.len() > 0 && a[0] == b[0] {
        lemma_bytes_below_total(a.drop_first(), b.drop_first());
        if a.drop_first() == b.drop_first() {
            assert(a.len() == a.drop_first().len() + 1);
            assert(b.len() == b.drop_first().len() + 1);
            assert forall|k: int| 0 <= k < a.len() implies a[k] == b[k] by {
                if k > 0 {
                    assert(a[k] == a.drop_first()[k - 1]);
                    assert(b[k] == b.drop_first()[k - 1]);
                }
            }
            assert(a =~= b);
        }
    } else if a.len() == 0 && b.len() == 0 {
        assert(a =~= b);
    }
}


/// Position of the first `x`, or the length where there is none.
pub open spec fn first_byte(data: Seq<u8>, x: u8) -> int
    decreases data.len(),
{
    if data.len() == 0 || data[0] == x {
        0
    } else {
        1 + first_byte(data.drop_first(), x)
    }
}

/// A position with the properties of the first `x` is the first `x`.
pub proof fn lemma_first_byte(data: Seq<u8>, x: u8, i: int)
    requires
        0 <= i <= data.len(),
        forall|k: int| 0 <= k < i ==> data[k] != x,
        i == data.len() || data[i] == x,
    ensures
        first_byte(data, x) == i,
    decreases i,
{
    if i > 0 {
        lemma_first_byte(data.drop_first(), x, i - 1);
    }
}

/// The first `x` is within the bytes, and is an `x` unless at their end.
pub proof fn lemma_first_byte_bounds(data: Seq<u8>, x: u8)
    ensures
        0 <= first_byte(data, x) <= data.len(),
        first_byte(data, x) < data.len() ==> data[first_byte(data, x)] == x,
        forall|k: int| 0 <= k < first_byte(data, x) ==> data[k] != x,
    decreases data.len(),
{
    if data.len() > 0 && data[0] != x {
        lemma_first_byte_bounds(data.drop_first(), x);
        assert forall|k: int| 0 <= k < first_byte(data, x) implies data[k] != x by {
            if k > 0 {
                assert(data[k] == data.drop_first()[k - 1]);
            }
        }
    }
}

/// Finds the first `x`.
pub fn find_byte(data: &[u8], x: u8) -> (out: Option<usize>)
    ensures
        match out {
            Some(i) => i < data@.len() && i == first_byte(data@, x) && data@[i as int] == x,
            None => first_byte(data@, x) == data@.len(),
        },
{
    let mut i: usize = 0;
    while i < data.len()
        invariant
            i <= data@.len(),
            forall|k: int| 0 <= k < i ==> data@[k] != x,
        decreases data@.len() - i,
    {
        if data[i] == x {
            proof {
                lemma_first_byte(data@, x, i as int);
            }
            return Some(i);
        }
        i += 1;
    }
    proof {
        lemma_first_byte(data@, x, data@.len() as int);
    }
    None
}

} // verus!
