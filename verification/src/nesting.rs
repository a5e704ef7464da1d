//! How deep the items of CBOR bytes are nested.

use vstd::prelude::*;

verus! {

/// Deepest nesting of items that are read.
pub const NESTING_LIMIT: u32 = 16;

/// The number that bytes stand for, most significant first.
pub open spec fn be_number(data: Seq<u8>) -> nat
    decreases data.len(),
{
    if data.len() == 0 {
        0
    } else {
        be_number(data.drop_last()) * 256 + data.last() as nat
    }
}

/// How many bytes follow the first one of an item's head; none where the head
/// is not one that has a length.
pub open spec fn head_extra(info: u8) -> Option<nat> {
    if info < 24 {
        Some(0)
    } else if info == 24 {
        Some(1)
    } else if info == 25 {
        Some(2)
    } else if info == 26 {
        Some(4)
    } else if info == 27 {
        Some(8)
    } else {
        None
    }
}

/// The head of the item at a place: what kind of item, its number, and where the
/// head ends.
pub open spec fn item_head(data: Seq<u8>, at: nat) -> Option<(u8, nat, nat)> {
    if at >= data.len() {
        None
    } else {
        let info = data[at as int] % 32;
        match head_extra(info) {
            None => None,
            Some(n) => if at + 1 + n > data.len() {
                None
            } else {
                let value = if n == 0 {
                    info as nat
                } else {
                    be_number(data.subrange((at + 1) as int, (at + 1 + n) as int))
                };
                Some((data[at as int] / 32, value, at + 1 + n))
            },
        }
    }
}

/// How many items an item of a kind is made of: those of a list, two for each
/// entry of a map, and one behind a tag.
pub open spec fn inner_count(major: u8, value: nat) -> nat {
    if major == 4 {
        value
    } else if major == 5 {
        2 * value
    } else {
        1
    }
}

/// Where items end that begin at a place, none of them nested deeper than given;
/// none where they are cut off or nested deeper.
pub open spec fn items_end(data: Seq<u8>, at: nat, count: nat, depth: nat) -> Option<nat>
    decreases depth, count,
{
    if count == 0 {
        Some(at)
    } else {
        match item_head(data, at) {
            None => None,
            Some((major, value, next)) => {
                let end = if major < 2 || major == 7 {
                    Some(next)
                } else if major < 4 {
                    if next + value <= data.len() {
                        Some((next + value) as nat)
                    } else {
                        None
                    }
                } else if depth == 0 {
                    None
                } else {
                    items_end(data, next, inner_count(major, value), (depth - 1) as nat)
                };
                match end {
                    None => None,
                    Some(p) => items_end(data, p, (count - 1) as nat, depth),
                }
            },
        }
    }
}

/// Whether bytes begin with a whole item that is not nested too deep.
pub open spec fn is_shallow(data: Seq<u8>) -> bool {
    items_end(data, 0, 1, NESTING_LIMIT as nat) is Some
}

proof fn lemma_be_number_bound(data: Seq<u8>)
    requires
        data.len() <= 8,
    ensures
        be_number(data) < pow256(data.len()),
    decreases data.len(),
{
    if data.len() > 0 {
        lemma_be_number_bound(data.drop_last());
    }
}

spec fn pow256(n: nat) -> nat
    decreases n,
{
    if n == 0 {
        1
    } else {
        256 * pow256((n - 1) as nat)
    }
}

proof fn lemma_pow256(n: nat)
    requires
        n <= 8,
    ensures
        0 < pow256(n) <= 0x1_0000_0000_0000_0000,
{
    reveal_with_fuel(pow256, 9);
}

fn read_number(data: &[u8], from: usize, n: usize) -> (out: u64)
    requires
        n <= 8,
        from + n <= data@.len(),
    ensures
        out == be_number(data@.subrange(from as int, from + n)),
{
    let ghost all = data@.subrange(from as int, from + n);
    let total: usize = data.len();
    let mut out: u64 = 0;
    let mut i: usize = 0;
    assert(all.take(0) =~= Seq::<u8>::empty());
    while i < n
        invariant
            i <= n <= 8,
            from + n <= data@.len(),
            data@.len() == total,
            all == data@.subrange(from as int, from + n),
            out == be_number(all.take(i as int)),
        decreases n - i,
    {
        proof {
            assert(all.take(i + 1).drop_last() =~= all.take(i as int));
            assert(all.take(i + 1).last() == data@[from + i]);
            lemma_be_number_bound(all.take(i + 1));
            lemma_pow256((i + 1) as nat);
            assert(be_number(all.take(i + 1)) == be_number(all.take(i as int)) * 256 + data@[from
                + i] as nat);
        }
        out = out * 256 + data[from + i] as u64;
        i += 1;
    }
    assert(all.take(n as int) =~= all);
    out
}

fn read_head(data: &[u8], at: usize) -> (out: Option<(u8, u64, usize)>)
    ensures
        match (out, item_head(data@, at as nat)) {
            (Some((major, value, next)), Some((m, v, p))) => major == m && value == v && next == p
                && at < next <= data@.len(),
            (None, None) => true,
            _ => false,
        },
{
    if at >= data.len() {
        return None;
    }
    let first: u8 = data[at];
    let info: u8 = first % 32;
    let extra: usize = if info < 24 {
        0
    } else if info == 24 {
        1
    } else if info == 25 {
        2
    } else if info == 26 {
        4
    } else if info == 27 {
        8
    } else {
        return None;
    };
    if data.len() - at - 1 < extra {
        return None;
    }
    let value: u64 = if extra == 0 { info as u64 } else { read_number(data, at + 1, extra) };
    Some((first / 32, value, at + 1 + extra))
}

fn skip_items(data: &[u8], at: usize, count: u128, depth: u32) -> (out: Option<usize>)
    requires
        at <= data@.len(),
    ensures
        match (out, items_end(data@, at as nat, count as nat, depth as nat)) {
            (Some(p), Some(q)) => p == q && p <= data@.len(),
            (None, None) => true,
            _ => false,
        },
    decreases depth,
{
    let ghost want = items_end(data@, at as nat, count as nat, depth as nat);
    let mut here: usize = at;
    let mut left: u128 = count;
    while left > 0
        invariant
            here <= data@.len(),
            want == items_end(data@, at as nat, count as nat, depth as nat),
            items_end(data@, here as nat, left as nat, depth as nat) == want,
        decreases left,
    {
        let (major, value, next) = match read_head(data, here) {
            Some(head) => head,
            None => return None,
        };
        let end: usize = if major < 2 || major == 7 {
            next
        } else if major < 4 {
            if value > (data.len() - next) as u64 {
                return None;
            }
            next + value as usize
        } else if depth == 0 {
            return None;
        } else {
            let inner: u128 = if major == 4 {
                value as u128
            } else if major == 5 {
                2 * value as u128
            } else {
                1
            };
            match skip_items(data, next, inner, depth - 1) {
                Some(end) => end,
                None => return None,
            }
        };
        here = end;
        left = left - 1;
    }
    Some(here)
}

/// Whether bytes begin with a whole item that is not nested too deep.
pub fn shallow(data: &[u8]) -> (yes: bool)
    ensures
        yes == is_shallow(data@),
{
    skip_items(data, 0, 1, NESTING_LIMIT).is_some()
}

/// A number written in bytes, most significant first, is read back, where the bytes
/// can hold it.
pub proof fn law_big_endian_read(v: nat, n: nat)
    requires
        v < vstd::arithmetic::power::pow(256, n),
    ensures
        crate::types::be_bytes(v as int, n).len() == n,
        be_number(crate::types::be_bytes(v as int, n)) == v,
    decreases n,
{
    let bytes = crate::types::be_bytes(v as int, n);
    if n == 0 {
        vstd::arithmetic::power::lemma_pow0(256);
        assert(bytes.len() == 0);
    } else {
        let m = (n - 1) as nat;
        vstd::arithmetic::power::lemma_pow_adds(256, 1, m);
        vstd::arithmetic::power::lemma_pow1(256);
        let p = vstd::arithmetic::power::pow(256, m);
        assert(v / 256 < p) by (nonlinear_arith)
            requires
                v < 256 * p,
        ;
        law_big_endian_read((v / 256) as nat, m);
        assert(bytes.drop_last() =~= crate::types::be_bytes(v as int / 256, m));
    }
}

} // verus!
