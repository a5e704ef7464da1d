//! Base-128 numbers, least significant group first: seven bits per byte, the
//! top bit set on every byte but the last.

use vstd::prelude::*;

verus! {

/// The encoding of `n`.
pub open spec fn varint_bytes(n: nat) -> Seq<u8>
    decreases n,
{
    if n < 128 {
        seq![n as u8]
    } else {
        seq![(n % 128 + 128) as u8] + varint_bytes(n / 128)
    }
}

/// The number at the front of `data` and the bytes it takes, where at most
/// `limit` bytes may be read.
pub open spec fn varint_groups(data: Seq<u8>, limit: nat) -> Option<(nat, nat)>
    decreases limit,
{
    if data.len() == 0 || limit == 0 {
        None
    } else if data[0] < 128 {
        Some((data[0] as nat, 1))
    } else {
        match varint_groups(data.drop_first(), (limit - 1) as nat) {
            Some((v, n)) => Some(((data[0] - 128 + 128 * v) as nat, n + 1)),
            None => None,
        }
    }
}

/// What a decoder reads at the front of `data`: at most ten bytes, the value
/// reduced to 64 bits.
pub open spec fn varint_front(data: Seq<u8>) -> Option<(u64, nat)> {
    match varint_groups(data, 10) {
        Some((v, n)) => Some(((v % 0x1_0000_0000_0000_0000) as u64, n)),
        None => None,
    }
}

/// 128 to the power `n`.
pub open spec fn pow128(n: nat) -> nat
    decreases n,
{
    if n == 0 {
        1
    } else {
        128 * pow128((n - 1) as nat)
    }
}

/// An encoded number takes no more bytes than it has groups.
pub proof fn lemma_varint_len(n: nat, groups: nat)
    requires
        n < pow128(groups),
        groups > 0,
    ensures
        1 <= varint_bytes(n).len() <= groups,
    decreases n,
{
    if n >= 128 {
        assert(groups > 1) by {
            assert(pow128(1) == 128 * pow128(0));
        }
        assert(pow128(groups) == 128 * pow128((groups - 1) as nat));
        lemma_varint_len(n / 128, (groups - 1) as nat);
    }
}

/// Decoding an encoded number gives the number back, whatever follows it.
pub proof fn lemma_varint_groups_roundtrip(n: nat, rest: Seq<u8>, limit: nat)
    requires
        n < pow128(limit),
        limit > 0,
    ensures
        varint_groups(varint_bytes(n) + rest, limit) == Some((n, varint_bytes(n).len())),
    decreases n,
{
    let data = varint_bytes(n) + rest;
    if n >= 128 {
        assert(limit > 1) by {
            assert(pow128(1) == 128 * pow128(0));
        }
        assert(pow128(limit) == 128 * pow128((limit - 1) as nat));
        lemma_varint_groups_roundtrip(n / 128, rest, (limit - 1) as nat);
        assert(data.drop_first() =~= varint_bytes(n / 128) + rest);
    }
}

proof fn lemma_pow128_ten()
    ensures
        pow128(10) == 1180591620717411303424,
{
    reveal_with_fuel(pow128, 11);
}

/// Decoding what was encoded gives the number back and leaves the rest.
pub proof fn law_varint_roundtrip(n: u64, rest: Seq<u8>)
    ensures
        varint_front(varint_bytes(n as nat) + rest) == Some((n, varint_bytes(n as nat).len())),
        varint_bytes(n as nat).len() <= 10,
{
    lemma_pow128_ten();
    lemma_varint_groups_roundtrip(n as nat, rest, 10);
    lemma_varint_len(n as nat, 10);
}

/// Ten bytes are enough for any 64-bit number.
pub proof fn lemma_varint_groups_roundtrip_ten(n: u64, rest: Seq<u8>)
    ensures
        varint_groups(varint_bytes(n as nat) + rest, 10) == Some(
            (n as nat, varint_bytes(n as nat).len()),
        ),
{
    lemma_pow128_ten();
    lemma_varint_groups_roundtrip(n as nat, rest, 10);
}

/// A number that was read takes at least one of the bytes and at most all.
pub proof fn lemma_varint_groups_bounds(data: Seq<u8>, limit: nat)
    ensures
        match varint_groups(data, limit) {
            Some((v, n)) => 1 <= n <= data.len() && n <= limit && v < pow128(n),
            None => true,
        },
    decreases limit,
{
    if data.len() > 0 && limit > 0 && data[0] >= 128 {
        lemma_varint_groups_bounds(data.drop_first(), (limit - 1) as nat);
        match varint_groups(data.drop_first(), (limit - 1) as nat) {
            Some((v, n)) => {
                assert(pow128(n + 1) == 128 * pow128(n));
            },
            None => {},
        }
    } else if data.len() > 0 && limit > 0 {
        assert(pow128(1) == 128 * pow128(0));
        assert(pow128(0) == 1);
    }
}

/// Appends the encoding of `value`.
pub fn push_varint(out: &mut Vec<u8>, value: u64)
    ensures
        final(out)@ == old(out)@ + varint_bytes(value as nat),
{
    let ghost start = out@;
    let mut rest: u64 = value;
    let ghost mut done = Seq::<u8>::empty();
    while rest >= 128
        invariant
            out@ == start + done,
            done + varint_bytes(rest as nat) == varint_bytes(value as nat),
        decreases rest,
    {
        let byte: u8 = (rest % 128) as u8 + 128;
        out.push(byte);
        proof {
            let step = seq![(rest as nat % 128 + 128) as u8];
            assert(varint_bytes(rest as nat) == step + varint_bytes(rest as nat / 128));
            assert(done + (step + varint_bytes(rest as nat / 128)) =~= (done + step)
                + varint_bytes(rest as nat / 128));
            done = done + step;
            assert(out@ =~= start + done);
        }
        rest = rest / 128;
    }
    out.push(rest as u8);
    proof {
        assert(varint_bytes(rest as nat) == seq![rest as u8]);
        assert(out@ =~= start + (done + varint_bytes(rest as nat)));
    }
}

/// Reads the number at the front of `data[from..]`: its value and the bytes it
/// takes.
pub fn front_varint(data: &[u8], from: usize) -> (out: Option<(u64, usize)>)
    requires
        from <= data@.len(),
    ensures
        match out {
            Some(r) => varint_front(data@.skip(from as int)) == Some((r.0, r.1 as nat))
                && 1 <= r.1 <= data@.len() - from && r.1 <= 10,
            None => varint_front(data@.skip(from as int)) is None,
        },
{
    let ghost all = data@.skip(from as int);
    let mut value: u128 = 0;
    let mut weight: u128 = 1;
    let mut i: usize = 0;
    proof {
        lemma_varint_groups_bounds(all, 10);
        assert(all.skip(0) =~= all);
        lemma_pow128_ten();
    }
    while i < 10 && i < data.len() - from
        invariant
            from <= data@.len(),
            all == data@.skip(from as int),
            i <= 10,
            i <= all.len(),
            weight == pow128(i as nat),
            pow128(10) == 1180591620717411303424,
            weight <= 1180591620717411303424,
            value < weight,
            match varint_groups(all.skip(i as int), (10 - i) as nat) {
                Some((v, n)) => varint_groups(all, 10) == Some(
                    ((value + weight * v) as nat, (i + n) as nat),
                ),
                None => varint_groups(all, 10) is None,
            },
        decreases 10 - i,
    {
        let byte: u8 = data[from + i];
        let ghost rest = all.skip(i as int);
        proof {
            assert(byte == rest[0]);
            assert(rest.drop_first() =~= all.skip(i + 1));
            assert(pow128((i + 1) as nat) == 128 * pow128(i as nat));
            lemma_pow128_monotone((i + 1) as nat, 10);
        }
        let low: u128 = (byte % 128) as u128;
        assert(weight * low <= weight * 127) by (nonlinear_arith)
            requires
                low <= 127,
        ;
        let ghost before = value;
        value = value + weight * low;
        if byte < 128 {
            proof {
                assert(varint_groups(rest, (10 - i) as nat) == Some((low as nat, 1nat)));
            }
            let small: u64 = (value % 0x1_0000_0000_0000_0000) as u64;
            return Some((small, i + 1));
        }
        proof {
            match varint_groups(all.skip(i + 1), (10 - i - 1) as nat) {
                Some((v, n)) => {
                    assert(weight * (low + 128 * v) == weight * low + (128 * weight) * v)
                        by (nonlinear_arith);
                },
                None => {},
            }
        }
        weight = weight * 128;
        i += 1;
    }
    None
}

proof fn lemma_pow128_monotone(a: nat, b: nat)
    requires
        a <= b,
    ensures
        pow128(a) <= pow128(b),
    decreases b,
{
    if a < b {
        lemma_pow128_monotone(a, (b - 1) as nat);
    }
}

} // verus!
