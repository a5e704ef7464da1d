//! Git deltas: a target described as copies out of a base and literal bytes.

use std::collections::HashMap;

use vstd::prelude::*;
use vstd::slice::slice_subrange;

use crate::bytes::append_bytes;
use crate::varint::{front_varint, push_varint};

verus! {

broadcast use vstd::std_specs::hash::group_hash_axioms;

/// Bytes that must agree before a match is looked for.
pub const RABIN_WINDOW: usize = 16;

/// Why a delta was refused.
pub enum DeltaFault {
    /// The base size is not a complete number.
    BaseSizeCut,
    /// The result size is not a complete number.
    ResultSizeCut,
    /// The delta was made for a base of another size: declared, actual.
    BaseSize(u64, u64),
    /// The instruction byte is zero.
    Reserved,
    /// The arguments of a copy are cut off.
    CopyCut,
    /// A copy reaches past the base: offset, size, base size.
    CopyRange(u64, u64, u64),
    /// The bytes of an insert are cut off.
    InsertCut,
    /// The instructions gave another number of bytes: actual, declared.
    ResultSize(u64, u64),
}

/// One argument byte of a copy, present where `present` says so: its weighted
/// value and what follows it.
pub open spec fn copy_arg(code: Seq<u8>, present: bool, weight: nat) -> Option<(nat, Seq<u8>)> {
    if !present {
        Some((0, code))
    } else if code.len() == 0 {
        None
    } else {
        Some((code[0] as nat * weight, code.skip(1)))
    }
}

/// Whether bit `i` of `cmd` is set, `unit` being two to the power `i`.
pub open spec fn has_bit(cmd: u8, unit: u8) -> bool {
    (cmd / unit) % 2 == 1
}

/// The offset of a copy, up to four bytes, and what follows it.
pub open spec fn copy_offset(cmd: u8, code: Seq<u8>) -> Option<(nat, Seq<u8>)> {
    match copy_arg(code, has_bit(cmd, 1), 1) {
        None => None,
        Some((o0, c1)) => match copy_arg(c1, has_bit(cmd, 2), 256) {
            None => None,
            Some((o1, c2)) => match copy_arg(c2, has_bit(cmd, 4), 65536) {
                None => None,
                Some((o2, c3)) => match copy_arg(c3, has_bit(cmd, 8), 16777216) {
                    None => None,
                    Some((o3, c4)) => Some((o0 + o1 + o2 + o3, c4)),
                },
            },
        },
    }
}

/// The size of a copy, up to three bytes, and what follows it. None at all
/// stands for 65536.
pub open spec fn copy_size(cmd: u8, code: Seq<u8>) -> Option<(nat, Seq<u8>)> {
    match copy_arg(code, has_bit(cmd, 16), 1) {
        None => None,
        Some((s0, c1)) => match copy_arg(c1, has_bit(cmd, 32), 256) {
            None => None,
            Some((s1, c2)) => match copy_arg(c2, has_bit(cmd, 64), 65536) {
                None => None,
                Some((s2, c3)) => {
                    let size = s0 + s1 + s2;
                    Some((if size == 0 { 0x10000nat } else { size }, c3))
                },
            },
        },
    }
}

/// The offset and size that follow a copy instruction, and what follows them.
#[verifier::opaque]
pub open spec fn copy_args(cmd: u8, code: Seq<u8>) -> Option<(nat, nat, Seq<u8>)> {
    match copy_offset(cmd, code) {
        None => None,
        Some((offset, after)) => match copy_size(cmd, after) {
            None => None,
            Some((size, next)) => Some((offset, size, next)),
        },
    }
}

/// The first instruction of `code`: the bytes it yields and what follows it.
#[verifier::opaque]
pub open spec fn delta_step(base: Seq<u8>, code: Seq<u8>) -> Result<(Seq<u8>, Seq<u8>), DeltaFault>
    recommends
        code.len() > 0,
{
    let cmd = code[0];
    let rest = code.skip(1);
    if cmd == 0 {
        Err(DeltaFault::Reserved)
    } else if cmd >= 128 {
        match copy_args(cmd, rest) {
            None => Err(DeltaFault::CopyCut),
            Some((offset, size, next)) => if offset + size > base.len() {
                Err(DeltaFault::CopyRange(offset as u64, size as u64, base.len() as u64))
            } else {
                Ok((base.subrange(offset as int, (offset + size) as int), next))
            },
        }
    } else if cmd > rest.len() {
        Err(DeltaFault::InsertCut)
    } else {
        Ok((rest.take(cmd as int), rest.skip(cmd as int)))
    }
}

/// What the instructions of `code` yield, one after the other.
pub open spec fn delta_run(base: Seq<u8>, code: Seq<u8>) -> Result<Seq<u8>, DeltaFault>
    decreases code.len(),
{
    if code.len() == 0 {
        Ok(Seq::empty())
    } else {
        match delta_step(base, code) {
            Err(f) => Err(f),
            Ok((piece, next)) => if next.len() < code.len() {
                match delta_run(base, next) {
                    Err(f) => Err(f),
                    Ok(more) => Ok(piece + more),
                }
            } else {
                Err(DeltaFault::Reserved)
            },
        }
    }
}

/// What a delta makes of a base.
pub open spec fn delta_result(base: Seq<u8>, delta: Seq<u8>) -> Result<Seq<u8>, DeltaFault> {
    match crate::varint::varint_front(delta) {
        None => Err(DeltaFault::BaseSizeCut),
        Some((base_size, n)) => match crate::varint::varint_front(delta.skip(n as int)) {
            None => Err(DeltaFault::ResultSizeCut),
            Some((result_size, m)) => if base_size != base.len() {
                Err(DeltaFault::BaseSize(base_size, base.len() as u64))
            } else {
                match delta_run(base, delta.skip((n + m) as int)) {
                    Err(f) => Err(f),
                    Ok(out) => if out.len() != result_size {
                        Err(DeltaFault::ResultSize(out.len() as u64, result_size))
                    } else {
                        Ok(out)
                    },
                }
            },
        },
    }
}

proof fn lemma_copy_args_bounds(cmd: u8, code: Seq<u8>)
    ensures
        match copy_args(cmd, code) {
            Some((o, s, next)) => next.len() <= code.len() && o < 0x1_0000_0000 && 0 < s
                < 0x100_0000,
            None => true,
        },
{
    reveal(copy_args);
}

/// An instruction takes at least one byte.
proof fn lemma_delta_step_shrink(base: Seq<u8>, code: Seq<u8>)
    requires
        code.len() > 0,
    ensures
        match delta_step(base, code) {
            Ok((piece, next)) => next.len() < code.len(),
            Err(_) => true,
        },
{
    reveal(delta_step);
    lemma_copy_args_bounds(code[0], code.skip(1));
}

/// Reads one optional argument byte of a copy.
fn read_copy_arg(delta: &[u8], pos: usize, present: bool, weight: u64) -> (out: Option<
    (u64, usize),
>)
    requires
        pos <= delta@.len(),
        weight <= 16777216,
    ensures
        match (out, copy_arg(delta@.skip(pos as int), present, weight as nat)) {
            (Some((value, next)), Some((v, rest))) => value == v && pos <= next <= delta@.len()
                && rest == delta@.skip(next as int) && value <= 255 * weight,
            (None, None) => true,
            _ => false,
        },
{
    if !present {
        return Some((0, pos));
    }
    if pos >= delta.len() {
        return None;
    }
    let byte: u64 = delta[pos] as u64;
    assert(byte * weight <= 255 * weight) by (nonlinear_arith)
        requires
            byte <= 255,
    ;
    assert(delta@.skip(pos as int).skip(1) =~= delta@.skip(pos + 1));
    assert(delta@.skip(pos as int)[0] == delta@[pos as int]);
    Some((byte * weight, pos + 1))
}

/// Reads the offset of a copy, and where its size begins.
fn read_copy_offset(cmd: u8, delta: &[u8], pos: usize) -> (out: Option<(u64, usize)>)
    requires
        pos <= delta@.len(),
    ensures
        match (out, copy_offset(cmd, delta@.skip(pos as int))) {
            (Some((offset, next)), Some((o, rest))) => offset == o && pos <= next <= delta@.len()
                && rest == delta@.skip(next as int) && offset < 0x1_0000_0000,
            (None, None) => true,
            _ => false,
        },
{
    let (o0, p1) = match read_copy_arg(delta, pos, (cmd / 1) % 2 == 1, 1) {
        Some(r) => r,
        None => return None,
    };
    let (o1, p2) = match read_copy_arg(delta, p1, (cmd / 2) % 2 == 1, 256) {
        Some(r) => r,
        None => return None,
    };
    let (o2, p3) = match read_copy_arg(delta, p2, (cmd / 4) % 2 == 1, 65536) {
        Some(r) => r,
        None => return None,
    };
    let (o3, p4) = match read_copy_arg(delta, p3, (cmd / 8) % 2 == 1, 16777216) {
        Some(r) => r,
        None => return None,
    };
    Some((o0 + o1 + o2 + o3, p4))
}

/// Reads the size of a copy, and where the next instruction begins.
fn read_copy_size(cmd: u8, delta: &[u8], pos: usize) -> (out: Option<(u64, usize)>)
    requires
        pos <= delta@.len(),
    ensures
        match (out, copy_size(cmd, delta@.skip(pos as int))) {
            (Some((size, next)), Some((s, rest))) => size == s && pos <= next <= delta@.len()
                && rest == delta@.skip(next as int) && 0 < size < 0x100_0000,
            (None, None) => true,
            _ => false,
        },
{
    let (s0, p1) = match read_copy_arg(delta, pos, (cmd / 16) % 2 == 1, 1) {
        Some(r) => r,
        None => return None,
    };
    let (s1, p2) = match read_copy_arg(delta, p1, (cmd / 32) % 2 == 1, 256) {
        Some(r) => r,
        None => return None,
    };
    let (s2, p3) = match read_copy_arg(delta, p2, (cmd / 64) % 2 == 1, 65536) {
        Some(r) => r,
        None => return None,
    };
    let size: u64 = s0 + s1 + s2;
    Some((if size == 0 { 0x10000 } else { size }, p3))
}

/// Reads the arguments of a copy: offset, size, and where the next
/// instruction begins.
fn read_copy_args(cmd: u8, delta: &[u8], pos: usize) -> (out: Option<(u64, u64, usize)>)
    requires
        pos <= delta@.len(),
    ensures
        match (out, copy_args(cmd, delta@.skip(pos as int))) {
            (Some((offset, size, next)), Some((o, s, rest))) => offset == o && size == s && pos
                <= next <= delta@.len() && rest == delta@.skip(next as int) && offset
                < 0x1_0000_0000 && 0 < size < 0x100_0000,
            (None, None) => true,
            _ => false,
        },
{
    reveal(copy_args);
    let (offset, after) = match read_copy_offset(cmd, delta, pos) {
        Some(r) => r,
        None => return None,
    };
    let (size, next) = match read_copy_size(cmd, delta, after) {
        Some(r) => r,
        None => return None,
    };
    Some((offset, size, next))
}

/// Applies a delta to its base.
pub fn apply_delta_checked(base: &[u8], delta: &[u8]) -> (out: Result<Vec<u8>, DeltaFault>)
    ensures
        match (out, delta_result(base@, delta@)) {
            (Ok(v), Ok(s)) => v@ == s,
            (Err(f), Err(g)) => f == g,
            _ => false,
        },
{
    assert(delta@.skip(0) =~= delta@);
    let (base_size, n) = match front_varint(delta, 0) {
        Some(r) => r,
        None => return Err(DeltaFault::BaseSizeCut),
    };
    let (result_size, m) = match front_varint(delta, n) {
        Some(r) => r,
        None => return Err(DeltaFault::ResultSizeCut),
    };
    if base_size != base.len() as u64 {
        return Err(DeltaFault::BaseSize(base_size, base.len() as u64));
    }
    let start: usize = n + m;
    let mut pos: usize = start;
    let mut result: Vec<u8> = Vec::new();
    let ghost whole = delta_run(base@, delta@.skip(start as int));
    proof {
        if whole is Ok {
            assert(Seq::<u8>::empty() + whole->Ok_0 =~= whole->Ok_0);
        }
    }
    while pos < delta.len()
        invariant
            pos <= delta@.len(),
            whole == (match delta_run(base@, delta@.skip(pos as int)) {
                Ok(more) => Ok(result@ + more),
                Err(f) => Err(f),
            }),
            delta_result(base@, delta@) == (match whole {
                Err(f) => Err(f),
                Ok(o) => if o.len() != result_size {
                    Err(DeltaFault::ResultSize(o.len() as u64, result_size))
                } else {
                    Ok(o)
                },
            }),
        decreases delta@.len() - pos,
    {
        let ghost code = delta@.skip(pos as int);
        let ghost before = result@;
        let cmd: u8 = delta[pos];
        proof {
            lemma_delta_step_shrink(base@, code);
            reveal(delta_step);
            assert(code[0] == cmd);
            assert(code.skip(1) =~= delta@.skip(pos + 1));
        }
        if cmd == 0 {
            return Err(DeltaFault::Reserved);
        }
        if cmd >= 128 {
            let (offset, size, next) = match read_copy_args(cmd, delta, pos + 1) {
                Some(r) => r,
                None => return Err(DeltaFault::CopyCut),
            };
            if offset + size > base.len() as u64 {
                return Err(DeltaFault::CopyRange(offset, size, base.len() as u64));
            }
            let from: usize = offset as usize;
            let to: usize = (offset + size) as usize;
            append_bytes(&mut result, slice_subrange(base, from, to));
            proof {
                let piece = base@.subrange(from as int, to as int);
                let next_code = delta@.skip(next as int);
                assert(delta_step(base@, code) == Ok::<(Seq<u8>, Seq<u8>), DeltaFault>(
                    (piece, next_code),
                ));
                if let Ok(more) = delta_run(base@, next_code) {
                    assert(before + (piece + more) =~= (before + piece) + more);
                }
            }
            pos = next;
        } else {
            let count: usize = cmd as usize;
            if count > delta.len() - (pos + 1) {
                return Err(DeltaFault::InsertCut);
            }
            append_bytes(&mut result, slice_subrange(delta, pos + 1, pos + 1 + count));
            proof {
                let rest = code.skip(1);
                let piece = rest.take(count as int);
                let next_code = rest.skip(count as int);
                assert(piece =~= delta@.subrange(pos + 1, pos + 1 + count));
                assert(next_code =~= delta@.skip(pos + 1 + count));
                assert(delta_step(base@, code) == Ok::<(Seq<u8>, Seq<u8>), DeltaFault>(
                    (piece, next_code),
                ));
                if let Ok(more) = delta_run(base@, next_code) {
                    assert(before + (piece + more) =~= (before + piece) + more);
                }
            }
            pos = pos + 1 + count;
        }
    }
    proof {
        assert(delta@.skip(pos as int) =~= Seq::<u8>::empty());
        assert(result@ + Seq::<u8>::empty() =~= result@);
    }
    if result.len() as u64 != result_size {
        return Err(DeltaFault::ResultSize(result.len() as u64, result_size));
    }
    Ok(result)
}


/// Length of the longest common prefix.
pub open spec fn common_len(a: Seq<u8>, b: Seq<u8>) -> nat
    decreases a.len(),
{
    if a.len() == 0 || b.len() == 0 || a[0] != b[0] {
        0
    } else {
        1 + common_len(a.drop_first(), b.drop_first())
    }
}

/// The longest run at the front of `target` that stands in `base` at one of
/// its first `n` offsets, the earliest one where several are as long: offset
/// and length, the length being zero where no run fills the window.
pub open spec fn best_run(base: Seq<u8>, target: Seq<u8>, n: nat) -> (nat, nat)
    decreases n,
{
    if n == 0 {
        (0, 0)
    } else {
        let best = best_run(base, target, (n - 1) as nat);
        let len = common_len(base.skip(n - 1), target);
        if len >= RABIN_WINDOW && len > best.1 {
            ((n - 1) as nat, len)
        } else {
            best
        }
    }
}

/// The copy to make at the front of `target`, if any run fills the window.
pub open spec fn best_match(base: Seq<u8>, target: Seq<u8>) -> Option<(nat, nat)> {
    let best = best_run(base, target, base.len());
    if best.1 > 0 {
        Some(best)
    } else {
        None
    }
}

/// FNV-1a, 64 bits, over a window of bytes.
pub open spec fn fnv(window: Seq<u8>) -> u64
    decreases window.len(),
{
    if window.len() == 0 {
        0xcbf29ce484222325
    } else {
        (fnv(window.drop_last()) ^ (window.last() as u64)).wrapping_mul(0x100000001b3)
    }
}

/// A literal run of at most 127 bytes as an instruction; nothing where empty.
pub open spec fn insert_code(literal: Seq<u8>) -> Seq<u8> {
    if literal.len() == 0 {
        Seq::empty()
    } else {
        seq![literal.len() as u8] + literal
    }
}

/// A byte that is written only where it is not zero.
#[verifier::opaque]
pub open spec fn nonzero_byte(b: int) -> Seq<u8> {
    if b == 0 {
        Seq::empty()
    } else {
        seq![b as u8]
    }
}

/// One where a byte is not zero, and so is written.
pub open spec fn nonzero_bit(b: int) -> int {
    if b == 0 {
        0
    } else {
        1
    }
}

/// Byte number `i` of `n`, `weight` being 256 to the power `i`.
pub open spec fn byte_of(n: int, weight: int) -> int {
    (n / weight) % 256
}

/// The size that a copy writes: 65536 is written as nothing.
pub open spec fn written_size(size: int) -> int {
    if size == 0x10000 {
        0
    } else {
        size
    }
}

/// The instruction byte of a copy with these argument bytes.
pub open spec fn copy_cmd(o0: int, o1: int, o2: int, o3: int, s0: int, s1: int, s2: int) -> int {
    128 + nonzero_bit(o0) + 2 * nonzero_bit(o1) + 4 * nonzero_bit(o2) + 8 * nonzero_bit(o3) + 16
        * nonzero_bit(s0) + 32 * nonzero_bit(s1) + 64 * nonzero_bit(s2)
}

/// A copy with these argument bytes, the zero ones left out.
pub open spec fn copy_with(o0: int, o1: int, o2: int, o3: int, s0: int, s1: int, s2: int) -> Seq<
    u8,
> {
    seq![copy_cmd(o0, o1, o2, o3, s0, s1, s2) as u8] + nonzero_byte(o0) + nonzero_byte(o1)
        + nonzero_byte(o2) + nonzero_byte(o3) + nonzero_byte(s0) + nonzero_byte(s1)
        + nonzero_byte(s2)
}

/// A copy as an instruction: the low four bytes of the offset and the low
/// three of the size.
pub open spec fn copy_code(offset: int, size: int) -> Seq<u8> {
    let s = written_size(size);
    copy_with(
        byte_of(offset, 1),
        byte_of(offset, 256),
        byte_of(offset, 65536),
        byte_of(offset, 16777216),
        byte_of(s, 1),
        byte_of(s, 256),
        byte_of(s, 65536),
    )
}

/// Most bytes that one copy makes.
pub const COPY_LIMIT: usize = 0xFF_FFFF;

/// Copies as instructions, one after the other, each of as many bytes as one can
/// make.
pub open spec fn copies_code(offset: int, size: int) -> Seq<u8>
    decreases size,
{
    if size <= COPY_LIMIT {
        copy_code(offset, size)
    } else {
        copy_code(offset, COPY_LIMIT as int) + copies_code(
            offset + COPY_LIMIT,
            size - COPY_LIMIT,
        )
    }
}

/// The instructions for `target[pos..]`, `literal` being the bytes before
/// `pos` that no instruction covers yet.
pub open spec fn delta_code(base: Seq<u8>, target: Seq<u8>, pos: nat, literal: Seq<u8>) -> Seq<u8>
    decreases target.len() - pos,
{
    if pos >= target.len() {
        insert_code(literal)
    } else {
        match best_match(base, target.skip(pos as int)) {
            Some((offset, len)) => {
                proof {
                    lemma_best_match(base, target.skip(pos as int));
                }
                insert_code(literal) + copies_code(offset as int, len as int) + delta_code(
                    base,
                    target,
                    pos + len,
                    Seq::empty(),
                )
            },
            None => {
                let more = literal.push(target[pos as int]);
                if more.len() == 127 {
                    insert_code(more) + delta_code(base, target, pos + 1, Seq::empty())
                } else {
                    delta_code(base, target, pos + 1, more)
                }
            },
        }
    }
}

/// The whole delta: both sizes, then the instructions.
pub open spec fn delta_bytes(base: Seq<u8>, target: Seq<u8>) -> Seq<u8> {
    crate::varint::varint_bytes(base.len()) + crate::varint::varint_bytes(target.len())
        + delta_code(base, target, 0, Seq::empty())
}

/// Longest base: a copy tells its offset in four bytes.
pub const BASE_LIMIT: u64 = 0x1_0000_0000;

/// The delta worth sending: none for short inputs or from a base with offsets
/// that no copy can tell, and none that is not shorter than the target.
pub open spec fn delta_for(base: Seq<u8>, target: Seq<u8>) -> Option<Seq<u8>> {
    if base.len() == 0 || base.len() > BASE_LIMIT || target.len() < 2 * RABIN_WINDOW {
        None
    } else {
        let delta = delta_bytes(base, target);
        if delta.len() < target.len() {
            Some(delta)
        } else {
            None
        }
    }
}

/// Common prefixes agree byte for byte, and end where the bytes differ.
pub proof fn lemma_common_len(a: Seq<u8>, b: Seq<u8>)
    ensures
        common_len(a, b) <= a.len(),
        common_len(a, b) <= b.len(),
        forall|k: int| 0 <= k < common_len(a, b) ==> a[k] == b[k],
        common_len(a, b) < a.len() && common_len(a, b) < b.len() ==> a[common_len(a, b) as int]
            != b[common_len(a, b) as int],
    decreases a.len(),
{
    if a.len() > 0 && b.len() > 0 && a[0] == b[0] {
        let x = a.drop_first();
        let y = b.drop_first();
        lemma_common_len(x, y);
        assert forall|k: int| 0 <= k < common_len(a, b) implies a[k] == b[k] by {
            if k > 0 {
                assert(x[k - 1] == y[k - 1]);
            }
        }
    }
}

/// A number that has the properties of the common length is the common length.
proof fn lemma_common_len_is(a: Seq<u8>, b: Seq<u8>, n: nat)
    requires
        n <= a.len(),
        n <= b.len(),
        forall|k: int| 0 <= k < n ==> a[k] == b[k],
        n < a.len() && n < b.len() ==> a[n as int] != b[n as int],
    ensures
        common_len(a, b) == n,
{
    lemma_common_len(a, b);
    let m = common_len(a, b);
    if m < n {
        assert(a[m as int] == b[m as int]);
    }
    if n < m {
        assert(a[n as int] == b[n as int]);
    }
}

proof fn lemma_best_run(base: Seq<u8>, target: Seq<u8>, n: nat)
    requires
        n <= base.len(),
    ensures
        ({
            let (o, l) = best_run(base, target, n);
            l > 0 ==> l >= RABIN_WINDOW && o < n && l == common_len(base.skip(o as int), target)
        }),
    decreases n,
{
    if n > 0 {
        lemma_best_run(base, target, (n - 1) as nat);
    }
}

/// A match stands in the base as it does in the target.
pub proof fn lemma_best_match(base: Seq<u8>, target: Seq<u8>)
    ensures
        match best_match(base, target) {
            Some((o, l)) => RABIN_WINDOW <= l <= target.len() && o + l <= base.len()
                && base.subrange(o as int, (o + l) as int) == target.take(l as int),
            None => true,
        },
{
    lemma_best_run(base, target, base.len());
    let (o, l) = best_run(base, target, base.len());
    if l > 0 {
        lemma_common_len(base.skip(o as int), target);
        assert forall|k: int| 0 <= k < l implies base[o + k] == target[k] by {
            assert(base.skip(o as int)[k] == base[o + k]);
        }
        assert(base.subrange(o as int, (o + l) as int) =~= target.take(l as int));
    }
}

/// Offsets without a full window in common change nothing.
proof fn lemma_best_run_gap(base: Seq<u8>, target: Seq<u8>, a: nat, b: nat)
    requires
        a <= b,
        forall|o: int| a <= o < b ==> #[trigger] common_len(base.skip(o), target) < RABIN_WINDOW,
    ensures
        best_run(base, target, b) == best_run(base, target, a),
    decreases b,
{
    if a < b {
        assert(common_len(base.skip(b - 1), target) < RABIN_WINDOW);
        lemma_best_run_gap(base, target, a, (b - 1) as nat);
    }
}

/// Length of the common prefix of `a[from..]` and `b`.
fn common_prefix(a: &[u8], from: usize, b: &[u8]) -> (n: usize)
    requires
        from <= a@.len(),
    ensures
        n == common_len(a@.skip(from as int), b@),
        n <= a@.len() - from,
        n <= b@.len(),
{
    let mut n: usize = 0;
    let ghost rest = a@.skip(from as int);
    while n < a.len() - from && n < b.len() && a[from + n] == b[n]
        invariant
            from <= a@.len(),
            rest == a@.skip(from as int),
            n <= rest.len(),
            n <= b@.len(),
            forall|k: int| 0 <= k < n ==> rest[k] == b@[k],
        decreases b@.len() - n,
    {
        assert(rest[n as int] == a@[from + n]);
        n += 1;
    }
    proof {
        lemma_common_len_is(rest, b@, n as nat);
    }
    n
}

/// Where each window of a base stands, by fingerprint.
pub struct RabinIndex {
    table: HashMap<u64, Vec<usize>>,
}

/// The window of `base` at offset `i`.
pub open spec fn window_at(base: Seq<u8>, i: int) -> Seq<u8> {
    base.subrange(i, i + RABIN_WINDOW)
}

impl RabinIndex {
    /// Every offset below `n` is listed under its window's fingerprint, in
    /// ascending order, and nothing else is.
    pub closed spec fn covers(&self, base: Seq<u8>, n: int) -> bool {
        &&& forall|fp: u64|
            #![trigger self.table@[fp]]
            self.table@.dom().contains(fp) ==> {
                let list = self.table@[fp]@;
                &&& forall|a: int, b: int| 0 <= a < b < list.len() ==> list[a] < list[b]
                &&& forall|a: int|
                    0 <= a < list.len() ==> #[trigger] list[a] < n && list[a] + RABIN_WINDOW
                        <= base.len() && fnv(window_at(base, list[a] as int)) == fp
            }
        &&& forall|i: int|
            0 <= i < n && i + RABIN_WINDOW <= base.len() ==> {
                let fp = #[trigger] fnv(window_at(base, i));
                self.table@.dom().contains(fp) && self.table@[fp]@.contains(i as usize)
            }
    }

    /// The index of a base.
    pub fn new(base: &[u8]) -> (out: Self)
        ensures
            out.covers(base@, base@.len() as int),
    {
        let mut out = RabinIndex { table: HashMap::new() };
        if base.len() < RABIN_WINDOW {
            return out;
        }
        let last: usize = base.len() - RABIN_WINDOW;
        let mut i: usize = 0;
        while i <= last
            invariant
                RABIN_WINDOW <= base@.len() <= usize::MAX,
                last == base@.len() - RABIN_WINDOW,
                i <= last + 1,
                out.covers(base@, i as int),
            decreases last + 1 - i,
        {
            let window = slice_subrange(base, i, i + RABIN_WINDOW);
            let fp: u64 = Self::fingerprint(window);
            let ghost before = out;
            let mut list: Vec<usize> = match out.table.remove(&fp) {
                Some(list) => list,
                None => Vec::new(),
            };
            let ghost had = list@;
            list.push(i);
            let ghost now = list@;
            out.table.insert(fp, list);
            proof {
                assert(window@ =~= window_at(base@, i as int));
                assert forall|j: int|
                    0 <= j < i + 1 && j + RABIN_WINDOW <= base@.len() implies {
                    let f = #[trigger] fnv(window_at(base@, j));
                    out.table@.dom().contains(f) && out.table@[f]@.contains(j as usize)
                } by {
                    let f = fnv(window_at(base@, j));
                    if j == i {
                        assert(now[had.len() as int] == i);
                    } else {
                        assert(before.table@[f]@.contains(j as usize));
                        if f == fp {
                            let k = choose|k: int| 0 <= k < had.len() && had[k] == j as usize;
                            assert(now[k] == j as usize);
                        }
                    }
                }
            }
            i += 1;
        }
        out
    }

    /// Fingerprint of a window.
    pub fn fingerprint(window: &[u8]) -> (h: u64)
        ensures
            h == fnv(window@),
    {
        let mut h: u64 = 0xcbf29ce484222325;
        let mut i: usize = 0;
        while i < window.len()
            invariant
                i <= window@.len(),
                h == fnv(window@.take(i as int)),
            decreases window@.len() - i,
        {
            h = (h ^ (window[i] as u64)).wrapping_mul(0x100000001b3);
            proof {
                assert(window@.take(i + 1).drop_last() =~= window@.take(i as int));
                assert(window@.take(i + 1).last() == window@[i as int]);
            }
            i += 1;
        }
        assert(window@.take(i as int) =~= window@);
        h
    }

    /// The longest run at the front of `target` that stands in the base:
    /// offset and length.
    pub fn find_match(&self, target: &[u8], base: &[u8]) -> (out: Option<(usize, usize)>)
        requires
            self.covers(base@, base@.len() as int),
        ensures
            match (out, best_match(base@, target@)) {
                (Some((offset, len)), Some((o, l))) => offset == o && len == l,
                (None, None) => true,
                _ => false,
            },
    {
        proof {
            assert forall|o: int| 0 <= o < base@.len() implies #[trigger] common_len(
                base@.skip(o),
                target@,
            ) <= target@.len() && common_len(base@.skip(o), target@) <= base@.len() - o by {
                lemma_common_len(base@.skip(o), target@);
            }
        }
        if target.len() < RABIN_WINDOW {
            proof {
                lemma_best_run_gap(base@, target@, 0, base@.len());
            }
            return None;
        }
        let front = slice_subrange(target, 0, RABIN_WINDOW);
        let fp: u64 = Self::fingerprint(front);
        proof {
            assert forall|o: int|
                0 <= o < base@.len() && common_len(base@.skip(o), target@)
                    >= RABIN_WINDOW implies fnv(window_at(base@, o)) == fp by {
                lemma_common_len(base@.skip(o), target@);
                assert forall|k: int| 0 <= k < RABIN_WINDOW implies window_at(base@, o)[k]
                    == front@[k] by {
                    assert(base@.skip(o)[k] == target@[k]);
                }
                assert(window_at(base@, o) =~= front@);
            }
        }
        let candidates: &Vec<usize> = match self.table.get(&fp) {
            Some(list) => list,
            None => {
                proof {
                    assert forall|o: int| 0 <= o < base@.len() implies #[trigger] common_len(
                        base@.skip(o),
                        target@,
                    ) < RABIN_WINDOW by {
                        if common_len(base@.skip(o), target@) >= RABIN_WINDOW {
                            assert(fnv(window_at(base@, o)) == fp);
                        }
                    }
                    lemma_best_run_gap(base@, target@, 0, base@.len());
                }
                return None;
            },
        };
        let base_len: usize = base.len();
        let mut best_offset: usize = 0;
        let mut best_len: usize = 0;
        let mut seen: usize = 0;
        let mut c: usize = 0;
        while c < candidates.len()
            invariant
                c <= candidates@.len(),
                seen <= base@.len(),
                base@.len() == base_len,
                self.covers(base@, base@.len() as int),
                self.table@.dom().contains(fp),
                candidates@ == self.table@[fp]@,
                best_run(base@, target@, seen as nat) == (best_offset as nat, best_len as nat),
                forall|a: int| 0 <= a < c ==> candidates@[a] < seen,
                forall|a: int| c <= a < candidates@.len() ==> seen <= candidates@[a],
                forall|o: int|
                    0 <= o < base@.len() && #[trigger] common_len(base@.skip(o), target@)
                        >= RABIN_WINDOW ==> fnv(window_at(base@, o)) == fp,
                forall|o: int|
                    0 <= o < base@.len() ==> #[trigger] common_len(base@.skip(o), target@)
                        <= base@.len() - o,
            decreases candidates@.len() - c,
        {
            let offset: usize = candidates[c];
            proof {
                assert forall|o: int| seen <= o < offset implies #[trigger] common_len(
                    base@.skip(o),
                    target@,
                ) < RABIN_WINDOW by {
                    self.lemma_listed(base@, target@, fp, o, c as int);
                }
                lemma_best_run_gap(base@, target@, seen as nat, offset as nat);
            }
            let len: usize = common_prefix(base, offset, target);
            if len >= RABIN_WINDOW && len > best_len {
                best_len = len;
                best_offset = offset;
            }
            seen = offset + 1;
            c += 1;
        }
        proof {
            assert forall|o: int| seen <= o < base@.len() implies #[trigger] common_len(
                base@.skip(o),
                target@,
            ) < RABIN_WINDOW by {
                self.lemma_listed(base@, target@, fp, o, c as int);
            }
            lemma_best_run_gap(base@, target@, seen as nat, base@.len());
        }
        if best_len > 0 {
            Some((best_offset, best_len))
        } else {
            None
        }
    }

    /// An offset that is not listed from position `c` on, nor before it, has
    /// no full window in common with the target.
    proof fn lemma_listed(&self, base: Seq<u8>, target: Seq<u8>, fp: u64, o: int, c: int)
        requires
            self.covers(base, base.len() as int),
            self.table@.dom().contains(fp),
            0 <= o < base.len(),
            base.len() <= usize::MAX,
            0 <= c <= self.table@[fp]@.len(),
            forall|a: int| 0 <= a < c ==> self.table@[fp]@[a] < o || self.table@[fp]@[a] > o,
            c < self.table@[fp]@.len() ==> o < self.table@[fp]@[c],
            common_len(base.skip(o), target) <= base.len() - o,
            common_len(base.skip(o), target) >= RABIN_WINDOW ==> fnv(window_at(base, o)) == fp,
        ensures
            common_len(base.skip(o), target) < RABIN_WINDOW,
    {
        if common_len(base.skip(o), target) >= RABIN_WINDOW {
            let list = self.table@[fp]@;
            assert(list.contains(o as usize));
            let k = choose|k: int| 0 <= k < list.len() && list[k] == o as usize;
            if k > c {
                assert(list[c] < list[k]);
            }
        }
    }
}

/// Writes out the literal bytes gathered so far.
pub fn flush_insert(instructions: &mut Vec<u8>, literal: &mut Vec<u8>)
    requires
        old(literal)@.len() <= 127,
    ensures
        final(instructions)@ == old(instructions)@ + insert_code(old(literal)@),
        final(literal)@ == Seq::<u8>::empty(),
{
    let ghost before = instructions@;
    if literal.is_empty() {
        assert(before =~= before + insert_code(literal@));
        return;
    }
    instructions.push(literal.len() as u8);
    append_bytes(instructions, literal.as_slice());
    assert(instructions@ =~= before + insert_code(literal@));
    literal.clear();
}

fn push_nonzero(out: &mut Vec<u8>, b: u8)
    ensures
        final(out)@ == old(out)@ + nonzero_byte(b as int),
{
    let ghost before = out@;
    reveal(nonzero_byte);
    if b != 0 {
        out.push(b);
    }
    assert(out@ =~= before + nonzero_byte(b as int));
}

fn bit_if_nonzero(b: u8, unit: u8) -> (bit: u8)
    ensures
        bit == unit * nonzero_bit(b as int),
        bit <= unit,
{
    if b == 0 {
        0
    } else {
        unit
    }
}

proof fn lemma_concat_assoc(a: Seq<u8>, b: Seq<u8>, c: Seq<u8>)
    ensures
        (a + b) + c == a + (b + c),
{
    assert((a + b) + c =~= a + (b + c));
}

fn push_copy(instructions: &mut Vec<u8>, o: [u8; 4], s: [u8; 3])
    ensures
        final(instructions)@ == old(instructions)@ + copy_with(
            o@[0] as int,
            o@[1] as int,
            o@[2] as int,
            o@[3] as int,
            s@[0] as int,
            s@[1] as int,
            s@[2] as int,
        ),
{
    let ghost before = instructions@;
    let cmd: u8 = 128 + bit_if_nonzero(o[0], 1) + bit_if_nonzero(o[1], 2) + bit_if_nonzero(o[2], 4)
        + bit_if_nonzero(o[3], 8) + bit_if_nonzero(s[0], 16) + bit_if_nonzero(s[1], 32)
        + bit_if_nonzero(s[2], 64);
    instructions.push(cmd);
    let ghost code = seq![cmd];
    assert(instructions@ =~= before + code);
    push_nonzero(instructions, o[0]);
    proof {
        lemma_concat_assoc(before, code, nonzero_byte(o@[0] as int));
    }
    let ghost code = code + nonzero_byte(o@[0] as int);
    push_nonzero(instructions, o[1]);
    proof {
        lemma_concat_assoc(before, code, nonzero_byte(o@[1] as int));
    }
    let ghost code = code + nonzero_byte(o@[1] as int);
    push_nonzero(instructions, o[2]);
    proof {
        lemma_concat_assoc(before, code, nonzero_byte(o@[2] as int));
    }
    let ghost code = code + nonzero_byte(o@[2] as int);
    push_nonzero(instructions, o[3]);
    proof {
        lemma_concat_assoc(before, code, nonzero_byte(o@[3] as int));
    }
    let ghost code = code + nonzero_byte(o@[3] as int);
    push_nonzero(instructions, s[0]);
    proof {
        lemma_concat_assoc(before, code, nonzero_byte(s@[0] as int));
    }
    let ghost code = code + nonzero_byte(s@[0] as int);
    push_nonzero(instructions, s[1]);
    proof {
        lemma_concat_assoc(before, code, nonzero_byte(s@[1] as int));
    }
    let ghost code = code + nonzero_byte(s@[1] as int);
    push_nonzero(instructions, s[2]);
    proof {
        lemma_concat_assoc(before, code, nonzero_byte(s@[2] as int));
    }
    let ghost code = code + nonzero_byte(s@[2] as int);
}

/// Writes a copy, as several where it is too long for one.
pub fn encode_copy(instructions: &mut Vec<u8>, offset: usize, size: usize)
    ensures
        final(instructions)@ == old(instructions)@ + copies_code(offset as int, size as int),
{
    let ghost whole = copies_code(offset as int, size as int);
    let ghost before = instructions@;
    let mut from: u128 = offset as u128;
    let mut left: usize = size;
    while left > COPY_LIMIT
        invariant
            left <= size,
            from + left == offset + size,
            instructions@ + copies_code(from as int, left as int) == before + whole,
        decreases left,
    {
        let ghost had = instructions@;
        push_one_copy(instructions, from, COPY_LIMIT);
        proof {
            lemma_concat_assoc(
                had,
                copy_code(from as int, COPY_LIMIT as int),
                copies_code(from + COPY_LIMIT, left - COPY_LIMIT),
            );
        }
        from = from + COPY_LIMIT as u128;
        left = left - COPY_LIMIT;
    }
    push_one_copy(instructions, from, left);
}

fn push_one_copy(instructions: &mut Vec<u8>, offset: u128, size: usize)
    ensures
        final(instructions)@ == old(instructions)@ + copy_code(offset as int, size as int),
{
    let o: u128 = offset;
    let s: u64 = if size == 0x10000 { 0 } else { size as u64 };
    let offset_bytes: [u8; 4] = [
        (o % 256) as u8,
        ((o / 256) % 256) as u8,
        ((o / 65536) % 256) as u8,
        ((o / 16777216) % 256) as u8,
    ];
    let size_bytes: [u8; 3] = [(s % 256) as u8, ((s / 256) % 256) as u8, ((s / 65536) % 256) as u8];
    push_copy(instructions, offset_bytes, size_bytes);
    proof {
        assert(byte_of(o as int, 1) == o % 256);
        assert(byte_of(s as int, 1) == s % 256);
    }
}

/// A Git delta from `base` to `target`, where it is shorter than the target
/// and the inputs are long enough to look for one.
pub fn compute_delta(base: &[u8], target: &[u8]) -> (out: Option<Vec<u8>>)
    ensures
        match (out, delta_for(base@, target@)) {
            (Some(v), Some(d)) => v@ == d,
            (None, None) => true,
            _ => false,
        },
{
    if base.is_empty() || base.len() as u64 > BASE_LIMIT || target.len() < RABIN_WINDOW * 2 {
        return None;
    }
    let index = RabinIndex::new(base);
    let mut instructions: Vec<u8> = Vec::new();
    let mut literal: Vec<u8> = Vec::new();
    let mut pos: usize = 0;
    let ghost whole = delta_code(base@, target@, 0, Seq::empty());
    assert(Seq::<u8>::empty() + whole =~= whole);
    while pos < target.len()
        invariant
            pos <= target@.len(),
            literal@.len() < 127,
            index.covers(base@, base@.len() as int),
            instructions@ + delta_code(base@, target@, pos as nat, literal@) == whole,
        decreases target@.len() - pos,
    {
        let ghost had = instructions@;
        let ghost lit = literal@;
        let rest = slice_subrange(target, pos, target.len());
        assert(rest@ =~= target@.skip(pos as int));
        match index.find_match(rest, base) {
            Some((offset, len)) => {
                proof {
                    lemma_best_match(base@, rest@);
                }
                flush_insert(&mut instructions, &mut literal);
                encode_copy(&mut instructions, offset, len);
                proof {
                    let more = delta_code(base@, target@, (pos + len) as nat, Seq::empty());
                    assert(had + (insert_code(lit) + copies_code(offset as int, len as int) + more)
                        =~= had + insert_code(lit) + copies_code(offset as int, len as int) + more);
                    assert(literal@ =~= Seq::<u8>::empty());
                }
                pos = pos + len;
            },
            None => {
                literal.push(target[pos]);
                if literal.len() == 127 {
                    let ghost full = literal@;
                    flush_insert(&mut instructions, &mut literal);
                    proof {
                        let more = delta_code(base@, target@, (pos + 1) as nat, Seq::empty());
                        assert(had + (insert_code(full) + more) =~= had + insert_code(full) + more);
                        assert(literal@ =~= Seq::<u8>::empty());
                    }
                }
                pos += 1;
            },
        }
    }
    flush_insert(&mut instructions, &mut literal);
    let mut delta: Vec<u8> = Vec::new();
    push_varint(&mut delta, base.len() as u64);
    push_varint(&mut delta, target.len() as u64);
    append_bytes(&mut delta, instructions.as_slice());
    assert(delta@ =~= delta_bytes(base@, target@));
    if delta.len() < target.len() {
        Some(delta)
    } else {
        None
    }
}


proof fn lemma_copy_arg(b: int, weight: nat, rest: Seq<u8>)
    requires
        0 <= b < 256,
    ensures
        copy_arg(nonzero_byte(b) + rest, b != 0, weight) == Some(((b * weight) as nat, rest)),
{
    reveal(nonzero_byte);
    if b == 0 {
        assert(nonzero_byte(b) + rest =~= rest);
    } else {
        assert((nonzero_byte(b) + rest).skip(1) =~= rest);
    }
}

proof fn lemma_copy_bits(o0: int, o1: int, o2: int, o3: int, s0: int, s1: int, s2: int)
    ensures
        ({
            let cmd = copy_cmd(o0, o1, o2, o3, s0, s1, s2) as u8;
            &&& cmd >= 128
            &&& has_bit(cmd, 1) == (o0 != 0)
            &&& has_bit(cmd, 2) == (o1 != 0)
            &&& has_bit(cmd, 4) == (o2 != 0)
            &&& has_bit(cmd, 8) == (o3 != 0)
            &&& has_bit(cmd, 16) == (s0 != 0)
            &&& has_bit(cmd, 32) == (s1 != 0)
            &&& has_bit(cmd, 64) == (s2 != 0)
        }),
{
}

proof fn lemma_offset_of(cmd: u8, o0: int, o1: int, o2: int, o3: int, rest: Seq<u8>)
    requires
        0 <= o0 < 256,
        0 <= o1 < 256,
        0 <= o2 < 256,
        0 <= o3 < 256,
        has_bit(cmd, 1) == (o0 != 0),
        has_bit(cmd, 2) == (o1 != 0),
        has_bit(cmd, 4) == (o2 != 0),
        has_bit(cmd, 8) == (o3 != 0),
    ensures
        copy_offset(
            cmd,
            nonzero_byte(o0) + (nonzero_byte(o1) + (nonzero_byte(o2) + (nonzero_byte(o3) + rest))),
        ) == Some(((o0 + 256 * o1 + 65536 * o2 + 16777216 * o3) as nat, rest)),
{
    let t3 = nonzero_byte(o3) + rest;
    let t2 = nonzero_byte(o2) + t3;
    let t1 = nonzero_byte(o1) + t2;
    lemma_copy_arg(o0, 1, t1);
    lemma_copy_arg(o1, 256, t2);
    lemma_copy_arg(o2, 65536, t3);
    lemma_copy_arg(o3, 16777216, rest);
}

proof fn lemma_size_of(cmd: u8, s0: int, s1: int, s2: int, rest: Seq<u8>)
    requires
        0 <= s0 < 256,
        0 <= s1 < 256,
        0 <= s2 < 256,
        has_bit(cmd, 16) == (s0 != 0),
        has_bit(cmd, 32) == (s1 != 0),
        has_bit(cmd, 64) == (s2 != 0),
    ensures
        ({
            let size = (s0 + 256 * s1 + 65536 * s2) as nat;
            copy_size(cmd, nonzero_byte(s0) + (nonzero_byte(s1) + (nonzero_byte(s2) + rest)))
                == Some((if size == 0 { 0x10000nat } else { size }, rest))
        }),
{
    let t2 = nonzero_byte(s2) + rest;
    let t1 = nonzero_byte(s1) + t2;
    lemma_copy_arg(s0, 1, t1);
    lemma_copy_arg(s1, 256, t2);
    lemma_copy_arg(s2, 65536, rest);
}

proof fn lemma_copy_layout(
    o0: int,
    o1: int,
    o2: int,
    o3: int,
    s0: int,
    s1: int,
    s2: int,
    rest: Seq<u8>,
)
    ensures
        ({
            let c = seq![copy_cmd(o0, o1, o2, o3, s0, s1, s2) as u8];
            let t4 = nonzero_byte(s0) + (nonzero_byte(s1) + (nonzero_byte(s2) + rest));
            let t0 = nonzero_byte(o0) + (nonzero_byte(o1) + (nonzero_byte(o2) + (nonzero_byte(o3)
                + t4)));
            copy_with(o0, o1, o2, o3, s0, s1, s2) + rest == c + t0
        }),
{
    let c = seq![copy_cmd(o0, o1, o2, o3, s0, s1, s2) as u8];
    let t6 = nonzero_byte(s2) + rest;
    let t5 = nonzero_byte(s1) + t6;
    let t4 = nonzero_byte(s0) + t5;
    let t3 = nonzero_byte(o3) + t4;
    let t2 = nonzero_byte(o2) + t3;
    let t1 = nonzero_byte(o1) + t2;
    let x1 = c + nonzero_byte(o0);
    let x2 = x1 + nonzero_byte(o1);
    let x3 = x2 + nonzero_byte(o2);
    let x4 = x3 + nonzero_byte(o3);
    let x5 = x4 + nonzero_byte(s0);
    let x6 = x5 + nonzero_byte(s1);
    lemma_concat_assoc(x6, nonzero_byte(s2), rest);
    lemma_concat_assoc(x5, nonzero_byte(s1), t6);
    lemma_concat_assoc(x4, nonzero_byte(s0), t5);
    lemma_concat_assoc(x3, nonzero_byte(o3), t4);
    lemma_concat_assoc(x2, nonzero_byte(o2), t3);
    lemma_concat_assoc(x1, nonzero_byte(o1), t2);
    lemma_concat_assoc(c, nonzero_byte(o0), t1);
}

/// Reading a written copy gives its argument bytes back.
proof fn lemma_copy_args_of(
    o0: int,
    o1: int,
    o2: int,
    o3: int,
    s0: int,
    s1: int,
    s2: int,
    rest: Seq<u8>,
)
    requires
        0 <= o0 < 256,
        0 <= o1 < 256,
        0 <= o2 < 256,
        0 <= o3 < 256,
        0 <= s0 < 256,
        0 <= s1 < 256,
        0 <= s2 < 256,
    ensures
        ({
            let code = copy_with(o0, o1, o2, o3, s0, s1, s2) + rest;
            let size = (s0 + 256 * s1 + 65536 * s2) as nat;
            &&& code.len() > 0
            &&& code[0] >= 128
            &&& copy_args(code[0], code.skip(1)) == Some(
                (
                    (o0 + 256 * o1 + 65536 * o2 + 16777216 * o3) as nat,
                    if size == 0 { 0x10000nat } else { size },
                    rest,
                ),
            )
        }),
{
    let cmd = copy_cmd(o0, o1, o2, o3, s0, s1, s2) as u8;
    let t4 = nonzero_byte(s0) + (nonzero_byte(s1) + (nonzero_byte(s2) + rest));
    let t0 = nonzero_byte(o0) + (nonzero_byte(o1) + (nonzero_byte(o2) + (nonzero_byte(o3) + t4)));
    lemma_copy_bits(o0, o1, o2, o3, s0, s1, s2);
    lemma_copy_layout(o0, o1, o2, o3, s0, s1, s2, rest);
    assert((seq![cmd] + t0).skip(1) =~= t0);
    assert((seq![cmd] + t0)[0] == cmd);
    lemma_offset_of(cmd, o0, o1, o2, o3, t4);
    lemma_size_of(cmd, s0, s1, s2, rest);
    reveal(copy_args);
}

/// A number of four bytes is made of its bytes.
proof fn lemma_bytes_of(n: int)
    requires
        0 <= n < 0x1_0000_0000,
    ensures
        n == byte_of(n, 1) + 256 * byte_of(n, 256) + 65536 * byte_of(n, 65536) + 16777216 * byte_of(
            n,
            16777216,
        ),
        n < 0x100_0000 ==> byte_of(n, 16777216) == 0,
{
}

/// Running a written copy yields the bytes of the base it names.
#[verifier::spinoff_prover]
proof fn lemma_run_copy(base: Seq<u8>, offset: nat, size: nat, rest: Seq<u8>)
    requires
        offset < 0x1_0000_0000,
        0 < size < 0x100_0000,
        offset + size <= base.len(),
    ensures
        delta_run(base, copy_code(offset as int, size as int) + rest) == (match delta_run(
            base,
            rest,
        ) {
            Ok(more) => Ok(base.subrange(offset as int, (offset + size) as int) + more),
            Err(f) => Err(f),
        }),
{
    let o = offset as int;
    let s = written_size(size as int);
    let o0 = byte_of(o, 1);
    let o1 = byte_of(o, 256);
    let o2 = byte_of(o, 65536);
    let o3 = byte_of(o, 16777216);
    let s0 = byte_of(s, 1);
    let s1 = byte_of(s, 256);
    let s2 = byte_of(s, 65536);
    lemma_bytes_of(o);
    lemma_bytes_of(s);
    lemma_copy_args_of(o0, o1, o2, o3, s0, s1, s2, rest);
    let code = copy_code(o, size as int) + rest;
    assert(copy_args(code[0], code.skip(1)) == Some((offset, size, rest)));
    reveal(delta_step);
    lemma_delta_step_shrink(base, code);
}

/// Running written copies yields the bytes of the base they name.
proof fn lemma_run_copies(base: Seq<u8>, offset: nat, size: nat, rest: Seq<u8>)
    requires
        base.len() <= BASE_LIMIT,
        0 < size,
        offset + size <= base.len(),
    ensures
        delta_run(base, copies_code(offset as int, size as int) + rest) == (match delta_run(
            base,
            rest,
        ) {
            Ok(more) => Ok(base.subrange(offset as int, (offset + size) as int) + more),
            Err(f) => Err(f),
        }),
    decreases size,
{
    let o = offset as int;
    let n = COPY_LIMIT as int;
    if size <= n {
        lemma_run_copy(base, offset, size, rest);
    } else {
        let tail = copies_code(o + n, size - n);
        lemma_run_copies(base, (o + n) as nat, (size - n) as nat, rest);
        lemma_run_copy(base, offset, n as nat, tail + rest);
        lemma_concat_assoc(copy_code(o, n), tail, rest);
        if let Ok(more) = delta_run(base, rest) {
            assert(base.subrange(o, o + n) + (base.subrange(o + n, o + size) + more)
                =~= base.subrange(o, o + size) + more);
        }
    }
}

/// Running a written literal yields its bytes.
proof fn lemma_run_insert(base: Seq<u8>, literal: Seq<u8>, rest: Seq<u8>)
    requires
        literal.len() <= 127,
    ensures
        delta_run(base, insert_code(literal) + rest) == (match delta_run(base, rest) {
            Ok(more) => Ok(literal + more),
            Err(f) => Err(f),
        }),
{
    let code = insert_code(literal) + rest;
    if literal.len() == 0 {
        assert(code =~= rest);
        if let Ok(more) = delta_run(base, rest) {
            assert(literal + more =~= more);
        }
    } else {
        reveal(delta_step);
        assert(code[0] == literal.len());
        assert(code.skip(1).take(literal.len() as int) =~= literal);
        assert(code.skip(1).skip(literal.len() as int) =~= rest);
        lemma_delta_step_shrink(base, code);
    }
}

/// Running the instructions yields the literal bytes still pending, then the
/// rest of the target.
proof fn lemma_run_code(base: Seq<u8>, target: Seq<u8>, pos: nat, literal: Seq<u8>)
    requires
        literal.len() < 127,
        pos <= target.len(),
        base.len() <= BASE_LIMIT,
    ensures
        delta_run(base, delta_code(base, target, pos, literal)) == Ok::<Seq<u8>, DeltaFault>(
            literal + target.skip(pos as int),
        ),
    decreases target.len() - pos,
{
    let none = Seq::<u8>::empty();
    if pos >= target.len() {
        lemma_run_insert(base, literal, none);
        assert(insert_code(literal) + none =~= insert_code(literal));
        assert(literal + none =~= literal + target.skip(pos as int));
    } else {
        let rest = target.skip(pos as int);
        lemma_best_match(base, rest);
        match best_match(base, rest) {
            Some((offset, len)) => {
                lemma_run_code(base, target, pos + len, none);
                let more = delta_code(base, target, pos + len, none);
                let copy = copies_code(offset as int, len as int);
                lemma_run_copies(base, offset, len, more);
                lemma_run_insert(base, literal, copy + more);
                lemma_concat_assoc(insert_code(literal), copy, more);
                assert(base.subrange(offset as int, (offset + len) as int) + (none + target.skip(
                    (pos + len) as int,
                )) =~= rest);
            },
            None => {
                let more = literal.push(target[pos as int]);
                assert(more + target.skip((pos + 1) as int) =~= literal + rest);
                if more.len() == 127 {
                    lemma_run_code(base, target, pos + 1, none);
                    lemma_run_insert(base, more, delta_code(base, target, pos + 1, none));
                    assert(more + (none + target.skip((pos + 1) as int)) =~= literal + rest);
                } else {
                    lemma_run_code(base, target, pos + 1, more);
                }
            },
        }
    }
}

/// Applying the delta that was computed from a base to a target gives the
/// target back.
pub proof fn law_delta_roundtrip(base: Seq<u8>, target: Seq<u8>)
    requires
        target.len() <= u64::MAX,
    ensures
        match delta_for(base, target) {
            Some(delta) => delta_result(base, delta) == Ok::<Seq<u8>, DeltaFault>(target)
                && delta.len() < target.len(),
            None => true,
        },
{
    let code = delta_code(base, target, 0, Seq::empty());
    let a = crate::varint::varint_bytes(base.len());
    let b = crate::varint::varint_bytes(target.len());
    let delta = delta_bytes(base, target);
    if base.len() <= BASE_LIMIT {
        crate::varint::law_varint_roundtrip(base.len() as u64, b + code);
        crate::varint::law_varint_roundtrip(target.len() as u64, code);
        lemma_concat_assoc(a, b, code);
        assert(delta == a + (b + code));
        assert(delta.skip(a.len() as int) =~= b + code);
        assert(delta.skip((a.len() + b.len()) as int) =~= code);
        lemma_run_code(base, target, 0, Seq::empty());
        assert(Seq::<u8>::empty() + target.skip(0) =~= target);
    }
}

/// An instruction below 128 puts in as many of the bytes that follow it; zero is no
/// instruction.
pub proof fn law_delta_insert(base: Seq<u8>, literal: Seq<u8>, rest: Seq<u8>)
    requires
        0 < literal.len() < 128,
    ensures
        delta_run(base, rest) matches Ok(more) ==> delta_run(
            base,
            seq![literal.len() as u8] + literal + rest,
        ) == Ok::<Seq<u8>, DeltaFault>(literal + more),
        delta_run(base, seq![0u8] + rest) is Err,
{
    reveal(delta_step);
    let code = seq![literal.len() as u8] + literal + rest;
    let n = literal.len() as int;
    assert(code.skip(1) =~= literal + rest);
    assert((literal + rest).take(n) =~= literal);
    assert((literal + rest).skip(n) =~= rest);
    assert(code[0] == literal.len() as u8);
}

/// An instruction with all its bits set copies from the base: the offset stands in
/// four bytes and the size in three, the least significant first, and a size of zero
/// stands for 65536. A copy that leaves the base is refused.
pub proof fn law_delta_copy(
    base: Seq<u8>,
    o0: u8,
    o1: u8,
    o2: u8,
    o3: u8,
    s0: u8,
    s1: u8,
    s2: u8,
    rest: Seq<u8>,
)
    ensures
        ({
            let code = seq![255u8, o0, o1, o2, o3, s0, s1, s2] + rest;
            let offset = o0 as int + 256 * o1 as int + 65536 * o2 as int + 16777216 * o3 as int;
            let given = s0 as int + 256 * s1 as int + 65536 * s2 as int;
            let size = if given == 0 {
                65536
            } else {
                given
            };
            &&& offset + size <= base.len() ==> (delta_run(base, rest) matches Ok(more)
                ==> delta_run(base, code) == Ok::<Seq<u8>, DeltaFault>(
                base.subrange(offset, offset + size) + more,
            ))
            &&& offset + size > base.len() ==> delta_run(base, code) is Err
        }),
{
    reveal(delta_step);
    reveal(copy_args);
    let code = seq![255u8, o0, o1, o2, o3, s0, s1, s2] + rest;
    let c0 = code.skip(1);
    assert(has_bit(255, 1) && has_bit(255, 2) && has_bit(255, 4) && has_bit(255, 8));
    assert(has_bit(255, 16) && has_bit(255, 32) && has_bit(255, 64));
    assert(c0 =~= seq![o0, o1, o2, o3, s0, s1, s2] + rest);
    let c1 = c0.skip(1);
    assert(c1 =~= seq![o1, o2, o3, s0, s1, s2] + rest);
    let c2 = c1.skip(1);
    assert(c2 =~= seq![o2, o3, s0, s1, s2] + rest);
    let c3 = c2.skip(1);
    assert(c3 =~= seq![o3, s0, s1, s2] + rest);
    let c4 = c3.skip(1);
    assert(c4 =~= seq![s0, s1, s2] + rest);
    let c5 = c4.skip(1);
    assert(c5 =~= seq![s1, s2] + rest);
    let c6 = c5.skip(1);
    assert(c6 =~= seq![s2] + rest);
    assert(c6.skip(1) =~= rest);
    assert(code[0] == 255);
    let offset = o0 as nat * 1 + o1 as nat * 256 + o2 as nat * 65536 + o3 as nat * 16777216;
    assert(copy_offset(255, c0) == Some((offset, c4)));
}

/// A copy instruction without arguments copies the first 65536 bytes.
pub proof fn law_delta_copy_bare(base: Seq<u8>, rest: Seq<u8>)
    requires
        base.len() >= 65536,
    ensures
        delta_run(base, rest) matches Ok(more) ==> delta_run(base, seq![128u8] + rest) == Ok::<
            Seq<u8>,
            DeltaFault,
        >(base.take(65536) + more),
{
    reveal(delta_step);
    reveal(copy_args);
    let code = seq![128u8] + rest;
    assert(code.skip(1) =~= rest);
    assert(!has_bit(128, 1) && !has_bit(128, 2) && !has_bit(128, 4) && !has_bit(128, 8));
    assert(!has_bit(128, 16) && !has_bit(128, 32) && !has_bit(128, 64));
    assert(copy_offset(128, rest) == Some((0nat, rest)));
    assert(copy_size(128, rest) == Some((65536nat, rest)));
    assert(base.subrange(0, 65536) =~= base.take(65536));
}

/// A delta says how long its base and its result are, and is refused for another.
pub proof fn law_delta_sizes(
    base: Seq<u8>,
    delta: Seq<u8>,
    base_size: u64,
    n: nat,
    result_size: u64,
    m: nat,
)
    requires
        crate::varint::varint_front(delta) == Some((base_size, n)),
        crate::varint::varint_front(delta.skip(n as int)) == Some((result_size, m)),
    ensures
        base_size != base.len() ==> delta_result(base, delta) is Err,
        delta_result(base, delta) matches Ok(out) ==> out.len() == result_size && delta_run(
            base,
            delta.skip((n + m) as int),
        ) == Ok::<Seq<u8>, DeltaFault>(out),
{
}

proof fn lemma_best_longest(base: Seq<u8>, target: Seq<u8>, n: nat, o: int)
    ensures
        ({
            let best = best_run(base, target, n);
            &&& best.1 > 0 ==> best.0 < n && best.1 == common_len(base.skip(best.0 as int), target)
                && best.1 >= RABIN_WINDOW
            &&& 0 <= o < n && common_len(base.skip(o), target) >= RABIN_WINDOW ==> common_len(
                base.skip(o),
                target,
            ) <= best.1
        }),
    decreases n,
{
    if n > 0 {
        lemma_best_longest(base, target, (n - 1) as nat, o);
    }
}

/// The match of a target is the longest run that begins it and stands in the base, if
/// that fills the window; there is none where no run does.
pub proof fn law_longest_match(base: Seq<u8>, target: Seq<u8>, o: int)
    requires
        0 <= o < base.len(),
    ensures
        best_match(base, target) matches Some((at, len)) ==> {
            &&& len >= RABIN_WINDOW && at < base.len()
            &&& len == common_len(base.skip(at as int), target)
            &&& common_len(base.skip(o), target) <= len
        },
        best_match(base, target) is None ==> common_len(base.skip(o), target) < RABIN_WINDOW,
{
    lemma_best_longest(base, target, base.len(), o);
}

} // verus!
