//! Timestamp identifiers: thirteen characters that sort as their times do.

use vstd::prelude::*;
use vstd::string::*;
use vstd::utf8::{encode_utf8, is_char_boundary};

use crate::digest::{sha256, sha256_of};
use crate::text::{joined, text_below};

verus! {

/// Characters of an identifier.
pub const TID_LEN: usize = 13;

/// Why a text is not an identifier.
#[derive(Debug, Clone, Copy, PartialEq, Eq, Structural)]
pub enum TidError {
    InvalidLength(usize),
}

/// The character for a digit: `2` to `7`, then `a` to `z`.
pub open spec fn s32_char(d: nat) -> char {
    if d < 6 {
        (50 + d) as char
    } else {
        (97 + (d - 6)) as char
    }
}

/// A number in base 32, without leading zeros; nothing for zero.
pub open spec fn s32_text(n: nat) -> Seq<char>
    decreases n,
{
    if n == 0 {
        Seq::empty()
    } else {
        s32_text(n / 32).push(s32_char(n % 32))
    }
}

/// The digit that a byte stands for; zero where it is none.
pub open spec fn s32_digit(b: u8) -> nat {
    if 50 <= b <= 55 {
        (b - 50) as nat
    } else if 97 <= b <= 122 {
        (b - 97 + 6) as nat
    } else {
        0
    }
}

/// The number that bytes stand for in base 32.
pub open spec fn s32_value(data: Seq<u8>) -> nat
    decreases data.len(),
{
    if data.len() == 0 {
        0
    } else {
        s32_value(data.drop_last()) * 32 + s32_digit(data.last())
    }
}

/// A text filled up on the left with the digit zero.
pub open spec fn filled(s: Seq<char>, width: nat) -> Seq<char> {
    if s.len() < width {
        Seq::new((width - s.len()) as nat, |i: int| '2') + s
    } else {
        s
    }
}

/// The identifier of a time in microseconds and a clock.
pub open spec fn tid_text(timestamp: nat, clock_id: nat) -> Seq<char> {
    filled(s32_text(timestamp), 11) + filled(s32_text(clock_id), 2)
}

/// Bytes without hyphens.
pub open spec fn without_hyphens(data: Seq<u8>) -> Seq<u8>
    decreases data.len(),
{
    if data.len() == 0 {
        data
    } else {
        let rest = without_hyphens(data.drop_last());
        if data.last() == 45 {
            rest
        } else {
            rest.push(data.last())
        }
    }
}

/// The bytes of a text without hyphens.
pub open spec fn tid_bytes(s: Seq<char>) -> Seq<u8> {
    without_hyphens(encode_utf8(s))
}

/// Whether a byte is a digit in base 32.
pub open spec fn is_s32(b: u8) -> bool {
    50 <= b <= 55 || 97 <= b <= 122
}

// -- Numbers --------------------------------------------------------------------------

/// Writes a number in base 32; nothing for zero.
pub fn s32_encode(n: u64) -> (out: String)
    ensures
        out@ == s32_text(n as nat),
    decreases n,
{
    if n == 0 {
        let out = String::new();
        assert(out@ =~= Seq::<char>::empty());
        return out;
    }
    let mut out = s32_encode(n / 32);
    let d: u8 = (n % 32) as u8;
    let c: char = if d < 6 { (50 + d) as char } else { (97 + (d - 6)) as char };
    out.push(c);
    out
}

/// Reads a number in base 32.
fn s32_number(data: &[u8], from: usize, to: usize) -> (n: u64)
    requires
        from <= to <= data@.len(),
        s32_value(data@.subrange(from as int, to as int)) <= u64::MAX,
    ensures
        n == s32_value(data@.subrange(from as int, to as int)),
    decreases to - from,
{
    if from == to {
        return 0;
    }
    let ghost part = data@.subrange(from as int, to as int);
    assert(part.drop_last() =~= data@.subrange(from as int, to - 1));
    assert(part.last() == data@[to - 1]);
    let front: u64 = s32_number(data, from, to - 1);
    let b: u8 = data[to - 1];
    let d: u64 = if 50 <= b && b <= 55 {
        (b - 50) as u64
    } else if 97 <= b && b <= 122 {
        (b - 97) as u64 + 6
    } else {
        0
    };
    front * 32 + d
}

/// Reads a number in base 32, characters that are no digits counting as zero.
pub fn s32_decode(s: &str) -> (n: u64)
    requires
        s32_value(encode_utf8(s@)) <= u64::MAX,
    ensures
        n == s32_value(encode_utf8(s@)),
{
    let data = s.as_bytes();
    assert(data@.subrange(0, data@.len() as int) =~= data@);
    s32_number(data, 0, data.len())
}

fn fill(s: &str, len: usize, width: usize) -> (out: String)
    requires
        len == s@.len(),
    ensures
        out@ == filled(s@, width as nat),
{
    let mut out = String::new();
    let mut i: usize = len;
    while i < width
        invariant
            len <= i,
            len <= width ==> i <= width,
            len > width ==> i == len,
            out@ =~= Seq::new((i - len) as nat, |k: int| '2'),
        decreases width - i,
    {
        out.push('2');
        i += 1;
    }
    out.append(s);
    assert(out@ =~= filled(s@, width as nat));
    out
}

/// The identifier of a time in microseconds and a clock.
pub fn tid_from_parts(timestamp: u64, clock_id: u8) -> (out: String)
    ensures
        out@ == tid_text(timestamp as nat, clock_id as nat),
{
    let time = s32_encode(timestamp);
    let clock = s32_encode(clock_id as u64);
    let time_len: usize = crate::text::chars_of(time.as_str()).len();
    let clock_len: usize = crate::text::chars_of(clock.as_str()).len();
    let front = fill(time.as_str(), time_len, 11);
    let back = fill(clock.as_str(), clock_len, 2);
    joined(front.as_str(), back.as_str())
}

// -- Generators -------------------------------------------------------------------------

/// `std::time::SystemTime::now`, as microseconds since 1970. Nothing is known
/// of the value.
#[verifier::external_body]
pub(crate) fn unix_micros() -> (out: u64) {
    std::time::SystemTime::now()
        .duration_since(std::time::UNIX_EPOCH)
        .unwrap_or_default()
        .as_micros() as u64
}

/// A source of identifiers, each later than the one before.
#[derive(Debug)]
pub struct TidGenerator {
    clock: u8,
    last: u64,
}

/// The time of the next identifier: now, or one microsecond after the last one
/// where that is later. The last time there is stays.
pub open spec fn next_time(last: u64, now_us: u64) -> u64 {
    if now_us > last {
        now_us
    } else if last < u64::MAX {
        (last + 1) as u64
    } else {
        last
    }
}

impl TidGenerator {
    /// The clock's number.
    pub closed spec fn spec_clock(&self) -> u8 {
        self.clock
    }

    /// The time of the last identifier.
    pub closed spec fn spec_last(&self) -> u64 {
        self.last
    }

    /// A generator whose clock is derived from a node's anchor: the first five
    /// bits of its SHA-256 digest.
    pub fn new(node_anchor: &str) -> (out: Self)
        ensures
            out.spec_clock() == sha256_of(encode_utf8(node_anchor@))[0] / 8,
            out.spec_last() == 0,
    {
        let hash = sha256(node_anchor.as_bytes());
        TidGenerator { clock: hash[0] / 8, last: 0 }
    }

    /// A generator with a given clock, of which the last five bits count.
    pub fn with_clock_id(clock_id: u8) -> (out: Self)
        ensures
            out.spec_clock() == clock_id % 32,
            out.spec_last() == 0,
    {
        TidGenerator { clock: clock_id % 32, last: 0 }
    }

    /// The next identifier, given the time.
    pub fn next_at(&mut self, now_us: u64) -> (out: String)
        ensures
            final(self).spec_clock() == old(self).spec_clock(),
            final(self).spec_last() == next_time(old(self).spec_last(), now_us),
            out@ == tid_text(
                final(self).spec_last() as nat,
                old(self).spec_clock() as nat,
            ),
    {
        let prev: u64 = self.last;
        let time: u64 = if now_us > prev {
            now_us
        } else if prev < u64::MAX {
            prev + 1
        } else {
            prev
        };
        self.last = time;
        tid_from_parts(time, self.clock)
    }

    /// The next identifier.
    pub fn next(&mut self) -> (out: String)
        ensures
            final(self).spec_clock() == old(self).spec_clock(),
            old(self).spec_last() < u64::MAX ==> final(self).spec_last() > old(self).spec_last(),
            out@ == tid_text(
                final(self).spec_last() as nat,
                old(self).spec_clock() as nat,
            ),
    {
        self.next_at(unix_micros())
    }

    /// The clock's number.
    pub fn clock_id(&self) -> (out: u8)
        ensures
            out == self.spec_clock(),
    {
        self.clock
    }
}

// -- Reading ------------------------------------------------------------------------------

fn strip_hyphens(s: &str) -> (out: Vec<u8>)
    ensures
        out@ == tid_bytes(s@),
{
    let data = s.as_bytes();
    let mut out: Vec<u8> = Vec::new();
    let mut i: usize = 0;
    assert(data@.take(0) =~= Seq::<u8>::empty());
    while i < data.len()
        invariant
            i <= data@.len(),
            out@ == without_hyphens(data@.take(i as int)),
        decreases data@.len() - i,
    {
        proof {
            assert(data@.take(i + 1).drop_last() =~= data@.take(i as int));
            assert(data@.take(i + 1).last() == data@[i as int]);
        }
        if data[i] != 45 {
            out.push(data[i]);
        }
        i += 1;
    }
    assert(data@.take(i as int) =~= data@);
    out
}

proof fn lemma_value_bound(data: Seq<u8>)
    ensures
        s32_value(data) < crate::radix::pow_two(5 * data.len()),
    decreases data.len(),
{
    reveal_with_fuel(crate::radix::pow_two, 6);
    if data.len() > 0 {
        lemma_value_bound(data.drop_last());
        let n = (5 * (data.len() - 1)) as nat;
        assert(crate::radix::pow_two(n + 5) == 32 * crate::radix::pow_two(n));
    }
}

proof fn lemma_pow_55()
    ensures
        crate::radix::pow_two(55) == 0x80_0000_0000_0000,
        crate::radix::pow_two(10) == 1024,
{
    reveal_with_fuel(crate::radix::pow_two, 56);
}

/// The time and the clock of an identifier. Hyphens are passed over; what
/// remains must have thirteen bytes, the eleventh being the last of a
/// character.
pub fn parse_tid(s: &str) -> (out: Result<(u64, u8), TidError>)
    requires
        tid_bytes(s@).len() == TID_LEN ==> is_char_boundary(tid_bytes(s@), 11),
    ensures
        ({
            let clean = tid_bytes(s@);
            match out {
                Ok((timestamp, clock_id)) => clean.len() == TID_LEN && timestamp == s32_value(
                    clean.take(11),
                ) && clock_id == s32_value(clean.skip(11)) % 256,
                Err(TidError::InvalidLength(n)) => clean.len() != TID_LEN && n == clean.len(),
            }
        }),
{
    let clean = strip_hyphens(s);
    if clean.len() != TID_LEN {
        return Err(TidError::InvalidLength(clean.len()));
    }
    proof {
        assert(clean@.subrange(0, 11) =~= clean@.take(11));
        assert(clean@.subrange(11, 13) =~= clean@.skip(11));
        lemma_value_bound(clean@.take(11));
        lemma_value_bound(clean@.skip(11));
        lemma_pow_55();
    }
    let timestamp: u64 = s32_number(clean.as_slice(), 0, 11);
    let clock: u64 = s32_number(clean.as_slice(), 11, 13);
    Ok((timestamp, (clock % 256) as u8))
}

/// Whether a text is an identifier: thirteen digits, hyphens apart.
pub fn is_valid_tid(s: &str) -> (yes: bool)
    ensures
        yes == (tid_bytes(s@).len() == TID_LEN && forall|i: int|
            0 <= i < tid_bytes(s@).len() ==> is_s32(#[trigger] tid_bytes(s@)[i])),
{
    let clean = strip_hyphens(s);
    if clean.len() != TID_LEN {
        return false;
    }
    let mut i: usize = 0;
    while i < clean.len()
        invariant
            i <= clean@.len(),
            clean@ == tid_bytes(s@),
            forall|k: int| 0 <= k < i ==> is_s32(#[trigger] clean@[k]),
        decreases clean@.len() - i,
    {
        let b: u8 = clean[i];
        if !((50 <= b && b <= 55) || (97 <= b && b <= 122)) {
            assert(!is_s32(clean@[i as int]));
            return false;
        }
        i += 1;
    }
    true
}

// -- Laws -----------------------------------------------------------------------------------

/// A number in exactly so many digits.
pub open spec fn s32_fixed(n: nat, width: nat) -> Seq<char>
    decreases width,
{
    if width == 0 {
        Seq::empty()
    } else {
        s32_fixed(n / 32, (width - 1) as nat).push(s32_char(n % 32))
    }
}

/// Thirty-two to the power `n`.
pub open spec fn pow_s32(n: nat) -> nat
    decreases n,
{
    if n == 0 {
        1
    } else {
        32 * pow_s32((n - 1) as nat)
    }
}

proof fn lemma_filled(n: nat, width: nat)
    requires
        n < pow_s32(width),
    ensures
        filled(s32_text(n), width) == s32_fixed(n, width),
        s32_text(n).len() <= width,
        s32_fixed(n, width).len() == width,
    decreases width,
{
    if width > 0 {
        let w = (width - 1) as nat;
        lemma_filled(n / 32, w);
        if n == 0 {
            assert(s32_fixed(0, width) == s32_fixed(0, w).push('2'));
            assert(filled(Seq::<char>::empty(), width) =~= filled(
                Seq::<char>::empty(),
                w,
            ).push('2'));
        } else {
            assert(filled(s32_text(n), width) =~= filled(s32_text(n / 32), w).push(
                s32_char(n % 32),
            ));
        }
    } else {
        assert(s32_text(0) =~= Seq::<char>::empty());
        assert(filled(s32_text(0), 0) =~= Seq::<char>::empty());
    }
}

proof fn lemma_below_push(a: Seq<char>, b: Seq<char>, x: char, y: char)
    requires
        a.len() == b.len(),
        text_below(a, b) || (a == b && x < y),
    ensures
        text_below(a.push(x), b.push(y)),
    decreases a.len(),
{
    if a.len() > 0 {
        assert(a.push(x).drop_first() =~= a.drop_first().push(x));
        assert(b.push(y).drop_first() =~= b.drop_first().push(y));
        if a[0] == b[0] {
            lemma_below_push(a.drop_first(), b.drop_first(), x, y);
        }
    }
}

proof fn lemma_fixed_order(n: nat, m: nat, width: nat)
    requires
        n < m < pow_s32(width),
    ensures
        text_below(s32_fixed(n, width), s32_fixed(m, width)),
        s32_fixed(n, width).len() == width,
        s32_fixed(m, width).len() == width,
    decreases width,
{
    lemma_filled(n, width);
    lemma_filled(m, width);
    let w = (width - 1) as nat;
    lemma_filled(n / 32, w);
    lemma_filled(m / 32, w);
    if n / 32 < m / 32 {
        lemma_fixed_order(n / 32, m / 32, w);
    }
    lemma_below_push(
        s32_fixed(n / 32, w),
        s32_fixed(m / 32, w),
        s32_char(n % 32),
        s32_char(m % 32),
    );
}

proof fn lemma_below_append(a: Seq<char>, b: Seq<char>, x: Seq<char>, y: Seq<char>)
    requires
        a.len() == b.len(),
        text_below(a, b),
    ensures
        text_below(a + x, b + y),
    decreases a.len(),
{
    assert((a + x).drop_first() =~= a.drop_first() + x);
    assert((b + y).drop_first() =~= b.drop_first() + y);
    if a[0] == b[0] {
        lemma_below_append(a.drop_first(), b.drop_first(), x, y);
    }
}

proof fn lemma_pow_s32_eleven()
    ensures
        pow_s32(11) == 0x80_0000_0000_0000,
        pow_s32(2) == 1024,
{
    reveal_with_fuel(pow_s32, 12);
}

/// Identifiers of times below two to the power 55 have thirteen characters.
pub proof fn law_tid_length(timestamp: nat, clock_id: nat)
    requires
        timestamp < 0x80_0000_0000_0000,
        clock_id < 32,
    ensures
        tid_text(timestamp, clock_id).len() == TID_LEN,
{
    lemma_pow_s32_eleven();
    lemma_filled(timestamp, 11);
    lemma_filled(clock_id, 2);
}

/// An identifier sorts before every identifier of a later time, whatever their
/// clocks.
pub proof fn law_tid_order(earlier: nat, later: nat, clock_a: nat, clock_b: nat)
    requires
        earlier < later < 0x80_0000_0000_0000,
    ensures
        text_below(tid_text(earlier, clock_a), tid_text(later, clock_b)),
{
    lemma_pow_s32_eleven();
    lemma_filled(earlier, 11);
    lemma_filled(later, 11);
    lemma_fixed_order(earlier, later, 11);
    lemma_below_append(
        s32_fixed(earlier, 11),
        s32_fixed(later, 11),
        filled(s32_text(clock_a), 2),
        filled(s32_text(clock_b), 2),
    );
}

proof fn lemma_fixed_bytes(n: nat, width: nat)
    requires
        n < pow_s32(width),
    ensures
        ({
            let data = encode_utf8(s32_fixed(n, width));
            &&& data.len() == width
            &&& s32_value(data) == n
            &&& forall|i: int| 0 <= i < width ==> is_s32(#[trigger] data[i])
            &&& vstd::utf8::is_ascii_chars(s32_fixed(n, width))
        }),
    decreases width,
{
    let s = s32_fixed(n, width);
    if width > 0 {
        let w = (width - 1) as nat;
        lemma_fixed_bytes(n / 32, w);
        let front = s32_fixed(n / 32, w);
        let c = s32_char(n % 32);
        assert(s == front.push(c));
        assert forall|i: int| 0 <= i < s.len() implies (s[i] as int) < 128 by {
            if i < front.len() {
                assert(s[i] == front[i]);
            }
        }
        vstd::utf8::is_ascii_chars_encode_utf8(s);
        vstd::utf8::is_ascii_chars_encode_utf8(front);
        let data = encode_utf8(s);
        assert(data.drop_last() =~= encode_utf8(front));
        assert(data.last() == c as u8);
        assert(s32_digit(c as u8) == n % 32);
    } else {
        vstd::utf8::is_ascii_chars_encode_utf8(s);
    }
}

proof fn lemma_no_hyphens(data: Seq<u8>)
    requires
        forall|i: int| 0 <= i < data.len() ==> is_s32(#[trigger] data[i]),
    ensures
        without_hyphens(data) == data,
    decreases data.len(),
{
    if data.len() > 0 {
        let front = data.drop_last();
        assert forall|i: int| 0 <= i < front.len() implies is_s32(#[trigger] front[i]) by {
            assert(front[i] == data[i]);
        }
        lemma_no_hyphens(front);
        assert(is_s32(data[data.len() - 1]));
        assert(front.push(data.last()) =~= data);
    }
}

/// An identifier is valid, and reading it gives its time and clock back.
pub proof fn law_tid_roundtrip(timestamp: nat, clock_id: nat)
    requires
        timestamp < 0x80_0000_0000_0000,
        clock_id < 32,
    ensures
        ({
            let clean = tid_bytes(tid_text(timestamp, clock_id));
            &&& clean.len() == TID_LEN
            &&& s32_value(clean.take(11)) == timestamp
            &&& s32_value(clean.skip(11)) == clock_id
            &&& forall|i: int| 0 <= i < clean.len() ==> is_s32(#[trigger] clean[i])
        }),
{
    lemma_pow_s32_eleven();
    lemma_filled(timestamp, 11);
    lemma_filled(clock_id, 2);
    lemma_fixed_bytes(timestamp, 11);
    lemma_fixed_bytes(clock_id, 2);
    let a = s32_fixed(timestamp, 11);
    let b = s32_fixed(clock_id, 2);
    let s = a + b;
    let data = encode_utf8(s);
    vstd::utf8::is_ascii_chars_encode_utf8(a);
    vstd::utf8::is_ascii_chars_encode_utf8(b);
    assert forall|i: int| 0 <= i < s.len() implies (s[i] as int) < 128 by {
        if i < 11 {
            assert(s[i] == a[i]);
        } else {
            assert(s[i] == b[i - 11]);
        }
    }
    vstd::utf8::is_ascii_chars_encode_utf8(s);
    assert(data =~= encode_utf8(a) + encode_utf8(b));
    assert forall|i: int| 0 <= i < data.len() implies is_s32(#[trigger] data[i]) by {
        if i < 11 {
            assert(data[i] == encode_utf8(a)[i]);
        } else {
            assert(data[i] == encode_utf8(b)[i - 11]);
        }
    }
    lemma_no_hyphens(data);
    assert(data.take(11) =~= encode_utf8(a));
    assert(data.skip(11) =~= encode_utf8(b));
}

/// The times of a generator's identifiers rise, and never lie before the clock's.
pub proof fn law_time_advances(last: u64, now_us: u64)
    ensures
        next_time(last, now_us) >= now_us,
        last < u64::MAX ==> next_time(last, now_us) > last,
        now_us > last ==> next_time(last, now_us) == now_us,
{
}

} // verus!
