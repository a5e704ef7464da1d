//! Bytes as text: base32 in lower case, and base64 for URLs, both without
//! padding.

use vstd::prelude::*;

use crate::text::chars_of;
use crate::types::{be_bytes, big_endian};

verus! {

/// An alphabet, and how many bits each of its characters stands for.
#[derive(Debug, Clone, Copy, PartialEq, Eq, Structural)]
pub enum Radix {
    /// Five bits: `a` to `z`, then `2` to `7`.
    Base32,
    /// Six bits: `A` to `Z`, `a` to `z`, `0` to `9`, `-` and `_`.
    Base64Url,
}

impl Radix {
    /// Bits of a character.
    pub open spec fn bits(self) -> nat {
        match self {
            Radix::Base32 => 5,
            Radix::Base64Url => 6,
        }
    }

    /// Characters of the alphabet.
    pub open spec fn size(self) -> nat {
        match self {
            Radix::Base32 => 32,
            Radix::Base64Url => 64,
        }
    }

    /// Bytes that fill whole characters.
    pub open spec fn group_bytes(self) -> nat {
        match self {
            Radix::Base32 => 5,
            Radix::Base64Url => 3,
        }
    }

    /// The characters they fill.
    pub open spec fn group_chars(self) -> nat {
        match self {
            Radix::Base32 => 8,
            Radix::Base64Url => 4,
        }
    }

    /// The character that stands for a number.
    pub open spec fn char_of(self, d: nat) -> char {
        match self {
            Radix::Base32 => if d < 26 {
                (97 + d) as char
            } else {
                (50 + (d - 26)) as char
            },
            Radix::Base64Url => if d < 26 {
                (65 + d) as char
            } else if d < 52 {
                (97 + (d - 26)) as char
            } else if d < 62 {
                (48 + (d - 52)) as char
            } else if d == 62 {
                '-'
            } else {
                '_'
            },
        }
    }

    /// The number that a character stands for.
    pub open spec fn value_of(self, c: char) -> Option<nat> {
        match self {
            Radix::Base32 => if 'a' <= c <= 'z' {
                Some((c as int - 97) as nat)
            } else if '2' <= c <= '7' {
                Some((c as int - 50 + 26) as nat)
            } else {
                None
            },
            Radix::Base64Url => if 'A' <= c <= 'Z' {
                Some((c as int - 65) as nat)
            } else if 'a' <= c <= 'z' {
                Some((c as int - 97 + 26) as nat)
            } else if '0' <= c <= '9' {
                Some((c as int - 48 + 52) as nat)
            } else if c == '-' {
                Some(62)
            } else if c == '_' {
                Some(63)
            } else {
                None
            },
        }
    }

    /// Whether a decoder passes over a character: padding, in base64.
    pub open spec fn passes_over(self, c: char) -> bool {
        self == Radix::Base64Url && c == '='
    }

    proof fn lemma_value_of_char(self, d: nat)
        requires
            d < self.size(),
        ensures
            self.value_of(self.char_of(d)) == Some(d),
            !self.passes_over(self.char_of(d)),
    {
    }
}

/// Two to the power `n`.
pub open spec fn pow_two(n: nat) -> nat
    decreases n,
{
    if n == 0 {
        1
    } else {
        2 * pow_two((n - 1) as nat)
    }
}

/// The number that bytes stand for, most significant first.
pub open spec fn bytes_value(data: Seq<u8>) -> nat
    decreases data.len(),
{
    if data.len() == 0 {
        0
    } else {
        bytes_value(data.drop_last()) * 256 + data.last() as nat
    }
}

/// A number as so many characters, most significant first.
pub open spec fn number_text(r: Radix, v: nat, chars: nat) -> Seq<char>
    decreases chars,
{
    if chars == 0 {
        Seq::empty()
    } else {
        number_text(r, v / r.size(), (chars - 1) as nat).push(r.char_of(v % r.size()))
    }
}

/// The number that characters stand for, most significant first.
pub open spec fn text_number(r: Radix, s: Seq<char>) -> nat
    decreases s.len(),
{
    if s.len() == 0 {
        0
    } else {
        text_number(r, s.drop_last()) * r.size() + (match r.value_of(s.last()) {
            Some(d) => d,
            None => 0,
        })
    }
}

/// Characters that so many bytes take.
pub open spec fn chars_for(r: Radix, bytes: nat) -> nat {
    (8 * bytes + r.bits() - 1) as nat / r.bits()
}

/// Whole bytes in so many characters.
pub open spec fn bytes_in(r: Radix, chars: nat) -> nat {
    r.bits() * chars / 8
}

/// Bytes as text: groups of bytes that fill whole characters, and the rest
/// filled up with zero bits.
pub open spec fn radix_text(r: Radix, data: Seq<u8>) -> Seq<char>
    decreases data.len(),
{
    if data.len() >= r.group_bytes() {
        number_text(r, bytes_value(data.take(r.group_bytes() as int)), r.group_chars())
            + radix_text(r, data.skip(r.group_bytes() as int))
    } else {
        let chars = chars_for(r, data.len());
        let fill = (r.bits() * chars - 8 * data.len()) as nat;
        number_text(r, bytes_value(data) * pow_two(fill), chars)
    }
}

/// The bytes in a text of the alphabet; bits that fill no byte are dropped.
pub open spec fn radix_bytes(r: Radix, s: Seq<char>) -> Seq<u8>
    decreases s.len(),
{
    if s.len() >= r.group_chars() {
        be_bytes(text_number(r, s.take(r.group_chars() as int)) as int, r.group_bytes())
            + radix_bytes(r, s.skip(r.group_chars() as int))
    } else {
        let bytes = bytes_in(r, s.len());
        let drop = (r.bits() * s.len() - 8 * bytes) as nat;
        be_bytes((text_number(r, s) / pow_two(drop)) as int, bytes)
    }
}

/// A text without what a decoder passes over.
pub open spec fn without_padding(r: Radix, s: Seq<char>) -> Seq<char>
    decreases s.len(),
{
    if s.len() == 0 {
        s
    } else {
        let rest = without_padding(r, s.drop_last());
        if r.passes_over(s.last()) {
            rest
        } else {
            rest.push(s.last())
        }
    }
}

/// Whether every character is of the alphabet.
pub open spec fn in_alphabet(r: Radix, s: Seq<char>) -> bool {
    forall|i: int| 0 <= i < s.len() ==> r.value_of(#[trigger] s[i]) is Some
}

/// What a text decodes to; nothing where a character is not of the alphabet.
pub open spec fn radix_decoded(r: Radix, s: Seq<char>) -> Option<Seq<u8>> {
    let clean = without_padding(r, s);
    if in_alphabet(r, clean) {
        Some(radix_bytes(r, clean))
    } else {
        None
    }
}

// -- Encoding -----------------------------------------------------------------------

fn radix_char(r: Radix, d: u8) -> (c: char)
    requires
        d < r.size(),
    ensures
        c == r.char_of(d as nat),
{
    match r {
        Radix::Base32 => if d < 26 {
            (97 + d) as char
        } else {
            (50 + (d - 26)) as char
        },
        Radix::Base64Url => if d < 26 {
            (65 + d) as char
        } else if d < 52 {
            (97 + (d - 26)) as char
        } else if d < 62 {
            (48 + (d - 52)) as char
        } else if d == 62 {
            '-'
        } else {
            '_'
        },
    }
}

fn radix_size(r: Radix) -> (n: u64)
    ensures
        n == r.size(),
{
    match r {
        Radix::Base32 => 32,
        Radix::Base64Url => 64,
    }
}

fn push_number(out: &mut String, r: Radix, v: u64, chars: usize)
    ensures
        final(out)@ == old(out)@ + number_text(r, v as nat, chars as nat),
    decreases chars,
{
    let ghost had = out@;
    if chars == 0 {
        assert(had + Seq::<char>::empty() =~= had);
        return;
    }
    let size: u64 = radix_size(r);
    push_number(out, r, v / size, chars - 1);
    let d: u8 = (v % size) as u8;
    out.push(radix_char(r, d));
    proof {
        let front = number_text(r, v as nat / r.size(), (chars - 1) as nat);
        assert((had + front).push(r.char_of(d as nat)) =~= had + front.push(r.char_of(d as nat)));
    }
}

/// The number that a few bytes stand for.
fn few_bytes(data: &[u8], from: usize, n: usize) -> (v: u64)
    requires
        from + n <= data@.len(),
        n <= 5,
    ensures
        v == bytes_value(data@.subrange(from as int, from + n)),
        v < pow_two((8 * n) as nat),
    decreases n,
{
    if n == 0 {
        return 0;
    }
    let total: usize = data.len();
    let front: u64 = few_bytes(data, from, n - 1);
    proof {
        let part = data@.subrange(from as int, from + n);
        assert(part.drop_last() =~= data@.subrange(from as int, from + n - 1));
        lemma_pow_two_eight((n - 1) as nat);
        lemma_pow_two_bound((8 * (n - 1)) as nat, 32);
        lemma_pow_two_known();
    }
    front * 256 + data[from + (n - 1)] as u64
}

proof fn lemma_pow_two_eight(n: nat)
    ensures
        pow_two((8 * (n + 1)) as nat) == 256 * pow_two((8 * n) as nat),
{
    lemma_pow_two_sum((8 * n) as nat, 8);
    reveal_with_fuel(pow_two, 9);
}

proof fn lemma_pow_two_sum(a: nat, b: nat)
    ensures
        pow_two(a + b) == pow_two(a) * pow_two(b),
    decreases b,
{
    if b > 0 {
        lemma_pow_two_sum(a, (b - 1) as nat);
        assert(pow_two(a + b) == 2 * pow_two((a + (b - 1)) as nat));
        assert(pow_two(a) * (2 * pow_two((b - 1) as nat)) == 2 * (pow_two(a) * pow_two(
            (b - 1) as nat,
        ))) by (nonlinear_arith);
    } else {
        assert(pow_two(0) == 1);
    }
}

proof fn lemma_pow_two_known()
    ensures
        pow_two(32) == 0x1_0000_0000,
        pow_two(35) == 0x8_0000_0000,
{
    reveal_with_fuel(pow_two, 36);
}

proof fn lemma_pow_two_bound(a: nat, b: nat)
    requires
        a <= b,
    ensures
        0 < pow_two(a) <= pow_two(b),
    decreases b,
{
    if a < b {
        lemma_pow_two_bound(a, (b - 1) as nat);
    } else if a > 0 {
        lemma_pow_two_bound((a - 1) as nat, (a - 1) as nat);
    }
}

fn power_of_two(n: usize) -> (v: u64)
    requires
        n < 8,
    ensures
        v == pow_two(n as nat),
        0 < v <= 128,
    decreases n,
{
    if n == 0 {
        1
    } else {
        proof {
            lemma_pow_two_bound((n - 1) as nat, 6);
            reveal_with_fuel(pow_two, 8);
        }
        2 * power_of_two(n - 1)
    }
}

/// Writes bytes as text.
pub fn radix_encode(r: Radix, data: &[u8]) -> (out: String)
    ensures
        out@ == radix_text(r, data@),
{
    let (group, chars, bits): (usize, usize, usize) = match r {
        Radix::Base32 => (5, 8, 5),
        Radix::Base64Url => (3, 4, 6),
    };
    let mut out = String::new();
    let mut at: usize = 0;
    proof {
        assert(data@.skip(0) =~= data@);
        assert(out@ + radix_text(r, data@) =~= radix_text(r, data@));
    }
    while data.len() - at >= group
        invariant
            at <= data@.len(),
            group == r.group_bytes(),
            chars == r.group_chars(),
            group <= 5,
            group > 0,
            out@ + radix_text(r, data@.skip(at as int)) == radix_text(r, data@),
        decreases data@.len() - at,
    {
        let ghost had = out@;
        let ghost rest = data@.skip(at as int);
        let v: u64 = few_bytes(data, at, group);
        push_number(&mut out, r, v, chars);
        proof {
            assert(rest.take(group as int) =~= data@.subrange(at as int, at + group));
            assert(rest.skip(group as int) =~= data@.skip(at + group));
            let one = number_text(r, v as nat, chars as nat);
            let more = radix_text(r, data@.skip(at + group));
            assert(had + (one + more) =~= had + one + more);
        }
        at = at + group;
    }
    let left: usize = data.len() - at;
    let v: u64 = few_bytes(data, at, left);
    let m: usize = (8 * left + bits - 1) / bits;
    assert(data@.subrange(at as int, at + left) =~= data@.skip(at as int));
    proof {
        lemma_pow_two_bound((8 * left) as nat, 32);
        lemma_pow_two_known();
        assert(m == chars_for(r, left as nat));
        lemma_tail(r, left as nat);
    }
    let fill: u64 = power_of_two(bits * m - 8 * left);
    assert(v * fill <= 0x1_0000_0000 * 128) by (nonlinear_arith)
        requires
            v <= 0x1_0000_0000,
            fill <= 128,
    ;
    push_number(&mut out, r, v * fill, m);
    out
}

proof fn lemma_tail(r: Radix, left: nat)
    requires
        left < r.group_bytes(),
    ensures
        0 <= r.bits() * chars_for(r, left) - 8 * left < r.bits(),
        bytes_in(r, chars_for(r, left)) == left,
        chars_for(r, left) < r.group_chars(),
        left <= 4,
{
}

// -- Decoding -----------------------------------------------------------------------

fn radix_value(r: Radix, c: char) -> (out: Option<u64>)
    ensures
        match (out, r.value_of(c)) {
            (Some(v), Some(d)) => v == d && v < r.size(),
            (None, None) => true,
            _ => false,
        },
{
    match r {
        Radix::Base32 => if 'a' <= c && c <= 'z' {
            Some(c as u64 - 97)
        } else if '2' <= c && c <= '7' {
            Some(c as u64 - 50 + 26)
        } else {
            None
        },
        Radix::Base64Url => if 'A' <= c && c <= 'Z' {
            Some(c as u64 - 65)
        } else if 'a' <= c && c <= 'z' {
            Some(c as u64 - 97 + 26)
        } else if '0' <= c && c <= '9' {
            Some(c as u64 - 48 + 52)
        } else if c == '-' {
            Some(62)
        } else if c == '_' {
            Some(63)
        } else {
            None
        },
    }
}

proof fn lemma_text_number_bound(r: Radix, s: Seq<char>)
    ensures
        text_number(r, s) < pow_two(r.bits() * s.len()),
    decreases s.len(),
{
    if s.len() > 0 {
        lemma_text_number_bound(r, s.drop_last());
        let n = s.drop_last().len();
        lemma_pow_two_sum(r.bits() * n, r.bits());
        reveal_with_fuel(pow_two, 7);
        assert(r.bits() * s.len() == r.bits() * n + r.bits()) by (nonlinear_arith)
            requires
                s.len() == n + 1,
        ;
        assert(pow_two(r.bits()) == r.size());
        let front = text_number(r, s.drop_last());
        assert(front * r.size() + r.size() <= pow_two(r.bits() * n) * r.size())
            by (nonlinear_arith)
            requires
                front + 1 <= pow_two(r.bits() * n),
        ;
    } else {
        assert(r.bits() * s.len() == 0) by (nonlinear_arith)
            requires
                s.len() == 0,
        ;
    }
}

/// The number that a few characters stand for.
fn few_chars(r: Radix, chars: &Vec<char>, from: usize, n: usize) -> (v: u64)
    requires
        from + n <= chars@.len(),
        n <= r.group_chars(),
        in_alphabet(r, chars@),
    ensures
        v == text_number(r, chars@.subrange(from as int, from + n)),
    decreases n,
{
    if n == 0 {
        return 0;
    }
    let total: usize = chars.len();
    let front: u64 = few_chars(r, chars, from, n - 1);
    let ghost part = chars@.subrange(from as int, from + n);
    proof {
        assert(part.drop_last() =~= chars@.subrange(from as int, from + n - 1));
        assert(r.value_of(chars@[from + n - 1]) is Some);
        lemma_text_number_bound(r, part.drop_last());
        assert(r.bits() * (n - 1) <= 35) by (nonlinear_arith)
            requires
                n <= r.group_chars(),
                r.bits() == 5 && r.group_chars() == 8 || r.bits() == 6 && r.group_chars() == 4,
        ;
        lemma_pow_two_bound((r.bits() * (n - 1)) as nat, 35);
        lemma_pow_two_known();
    }
    let d: u64 = match radix_value(r, chars[from + (n - 1)]) {
        Some(d) => d,
        None => 0,
    };
    let size: u64 = radix_size(r);
    assert(front * size <= 0x8_0000_0000 * 64) by (nonlinear_arith)
        requires
            front <= 0x8_0000_0000,
            size <= 64,
    ;
    front * size + d
}

/// Reads text as bytes; none where a character is not of the alphabet.
pub fn radix_decode(r: Radix, s: &str) -> (out: Option<Vec<u8>>)
    ensures
        match (out, radix_decoded(r, s@)) {
            (Some(v), Some(d)) => v@ == d,
            (None, None) => true,
            _ => false,
        },
{
    let all = chars_of(s);
    let mut clean: Vec<char> = Vec::new();
    let mut i: usize = 0;
    assert(all@.take(0) =~= Seq::<char>::empty());
    while i < all.len()
        invariant
            i <= all@.len(),
            all@ == s@,
            clean@ == without_padding(r, all@.take(i as int)),
            in_alphabet(r, clean@),
        decreases all@.len() - i,
    {
        let c = all[i];
        proof {
            assert(all@.take(i + 1).drop_last() =~= all@.take(i as int));
            assert(all@.take(i + 1).last() == c);
        }
        let pad = match r {
            Radix::Base32 => false,
            Radix::Base64Url => c == '=',
        };
        if !pad {
            if radix_value(r, c).is_none() {
                proof {
                    lemma_bad_char(r, all@, i as int);
                    assert(all@.take(all@.len() as int) =~= all@);
                }
                return None;
            }
            clean.push(c);
        }
        i += 1;
    }
    assert(all@.take(i as int) =~= all@);
    Some(bytes_of_chars(r, &clean))
}

/// A character that is neither of the alphabet nor passed over keeps the text
/// from being decoded.
proof fn lemma_bad_char(r: Radix, s: Seq<char>, i: int)
    requires
        0 <= i < s.len(),
        r.value_of(s[i]) is None,
        !r.passes_over(s[i]),
    ensures
        !in_alphabet(r, without_padding(r, s)),
    decreases s.len(),
{
    let rest = without_padding(r, s.drop_last());
    if i == s.len() - 1 {
        assert(without_padding(r, s)[rest.len() as int] == s[i]);
    } else {
        lemma_bad_char(r, s.drop_last(), i);
        let k = choose|k: int| 0 <= k < rest.len() && r.value_of(#[trigger] rest[k]) is None;
        assert(without_padding(r, s)[k] == rest[k]);
    }
}

fn bytes_of_chars(r: Radix, chars: &Vec<char>) -> (out: Vec<u8>)
    requires
        in_alphabet(r, chars@),
    ensures
        out@ == radix_bytes(r, chars@),
{
    let (group, count, bits): (usize, usize, usize) = match r {
        Radix::Base32 => (5, 8, 5),
        Radix::Base64Url => (3, 4, 6),
    };
    let mut out: Vec<u8> = Vec::new();
    let mut at: usize = 0;
    proof {
        assert(chars@.skip(0) =~= chars@);
        assert(out@ + radix_bytes(r, chars@) =~= radix_bytes(r, chars@));
    }
    while chars.len() - at >= count
        invariant
            at <= chars@.len(),
            in_alphabet(r, chars@),
            group == r.group_bytes(),
            count == r.group_chars(),
            count > 0,
            out@ + radix_bytes(r, chars@.skip(at as int)) == radix_bytes(r, chars@),
        decreases chars@.len() - at,
    {
        let ghost had = out@;
        let ghost rest = chars@.skip(at as int);
        let v: u64 = few_chars(r, chars, at, count);
        let piece = big_endian(v, group);
        crate::bytes::append_bytes(&mut out, piece.as_slice());
        proof {
            assert(rest.take(count as int) =~= chars@.subrange(at as int, at + count));
            assert(rest.skip(count as int) =~= chars@.skip(at + count));
            let more = radix_bytes(r, chars@.skip(at + count));
            assert(had + (piece@ + more) =~= had + piece@ + more);
        }
        at = at + count;
    }
    let left: usize = chars.len() - at;
    let v: u64 = few_chars(r, chars, at, left);
    assert(chars@.subrange(at as int, at + left) =~= chars@.skip(at as int));
    assert(bits * left <= 48) by (nonlinear_arith)
        requires
            bits <= 6,
            left <= 8,
    ;
    let n: usize = bits * left / 8;
    assert(n == bytes_in(r, left as nat));
    let unit: u64 = power_of_two(bits * left - 8 * n);
    let piece = big_endian(v / unit, n);
    crate::bytes::append_bytes(&mut out, piece.as_slice());
    out
}

// -- Laws ---------------------------------------------------------------------------

proof fn lemma_be_value(data: Seq<u8>)
    ensures
        be_bytes(bytes_value(data) as int, data.len()) == data,
        bytes_value(data) < pow_two(8 * data.len()),
    decreases data.len(),
{
    if data.len() > 0 {
        lemma_be_value(data.drop_last());
        let front = bytes_value(data.drop_last());
        let v = bytes_value(data);
        assert(v / 256 == front);
        assert(v % 256 == data.last());
        assert(data.drop_last().push(data.last()) =~= data);
        lemma_pow_two_eight((data.len() - 1) as nat);
    } else {
        assert(be_bytes(0, 0) =~= data);
        assert(8 * data.len() == 0);
    }
}

proof fn lemma_number_text(r: Radix, v: nat, chars: nat)
    requires
        v < pow_two(r.bits() * chars),
    ensures
        text_number(r, number_text(r, v, chars)) == v,
        number_text(r, v, chars).len() == chars,
        in_alphabet(r, number_text(r, v, chars)),
        forall|i: int|
            0 <= i < chars ==> !r.passes_over(#[trigger] number_text(r, v, chars)[i]),
    decreases chars,
{
    if chars > 0 {
        let n = (chars - 1) as nat;
        let front = v / r.size();
        let d = v % r.size();
        lemma_pow_two_sum(r.bits() * n, r.bits());
        reveal_with_fuel(pow_two, 7);
        assert(pow_two(r.bits()) == r.size());
        assert(r.bits() * chars == r.bits() * n + r.bits()) by (nonlinear_arith)
            requires
                chars == n + 1,
        ;
        assert(front < pow_two(r.bits() * n)) by (nonlinear_arith)
            requires
                v < pow_two(r.bits() * n) * r.size(),
                front == v / r.size(),
                r.size() > 0,
        ;
        assert(d < r.size());
        lemma_number_text(r, front, n);
        r.lemma_value_of_char(d);
        let s = number_text(r, v, chars);
        assert(s.drop_last() =~= number_text(r, front, n));
        assert(front * r.size() + d == v) by (nonlinear_arith)
            requires
                front == v / r.size(),
                d == v % r.size(),
                r.size() > 0,
        ;
    } else {
        assert(r.bits() * chars == 0) by (nonlinear_arith)
            requires
                chars == 0,
        ;
        assert(pow_two(0) == 1);
    }
}

proof fn lemma_no_padding(r: Radix, s: Seq<char>)
    requires
        forall|i: int| 0 <= i < s.len() ==> !r.passes_over(#[trigger] s[i]),
    ensures
        without_padding(r, s) == s,
    decreases s.len(),
{
    if s.len() > 0 {
        let front = s.drop_last();
        assert forall|i: int| 0 <= i < front.len() implies !r.passes_over(
            #[trigger] front[i],
        ) by {
            assert(front[i] == s[i]);
        }
        lemma_no_padding(r, front);
        assert(front.push(s.last()) =~= s);
    }
}

proof fn lemma_radix_roundtrip(r: Radix, data: Seq<u8>)
    ensures
        radix_bytes(r, radix_text(r, data)) == data,
        in_alphabet(r, radix_text(r, data)),
        forall|i: int|
            0 <= i < radix_text(r, data).len() ==> !r.passes_over(
                #[trigger] radix_text(r, data)[i],
            ),
    decreases data.len(),
{
    if data.len() >= r.group_bytes() {
        let g = r.group_bytes() as int;
        let head = data.take(g);
        let tail = data.skip(g);
        lemma_be_value(head);
        lemma_radix_roundtrip(r, tail);
        let one = number_text(r, bytes_value(head), r.group_chars());
        assert(r.bits() * r.group_chars() == 8 * g);
        lemma_number_text(r, bytes_value(head), r.group_chars());
        let s = one + radix_text(r, tail);
        assert(s.take(r.group_chars() as int) =~= one);
        assert(s.skip(r.group_chars() as int) =~= radix_text(r, tail));
        assert(head + tail =~= data);
        assert forall|i: int| 0 <= i < s.len() implies !r.passes_over(#[trigger] s[i])
            && r.value_of(s[i]) is Some by {
            if i < one.len() {
                assert(s[i] == one[i]);
            } else {
                assert(s[i] == radix_text(r, tail)[i - one.len()]);
            }
        }
    } else {
        let k = data.len();
        let m = chars_for(r, k);
        let fill = (r.bits() * m - 8 * k) as nat;
        let v = bytes_value(data);
        lemma_tail(r, k);
        lemma_be_value(data);
        lemma_pow_two_sum(8 * k, fill);
        lemma_pow_two_bound(fill, fill);
        assert(v * pow_two(fill) < pow_two(8 * k) * pow_two(fill)) by (nonlinear_arith)
            requires
                v < pow_two(8 * k),
                pow_two(fill) > 0,
        ;
        lemma_number_text(r, v * pow_two(fill), m);
        assert(v * pow_two(fill) / pow_two(fill) == v) by (nonlinear_arith)
            requires
                pow_two(fill) > 0,
        ;
    }
}

/// Decoding a text that bytes were encoded as gives the bytes back.
pub proof fn law_radix_roundtrip(r: Radix, data: Seq<u8>)
    ensures
        radix_decoded(r, radix_text(r, data)) == Some(data),
{
    lemma_radix_roundtrip(r, data);
    lemma_no_padding(r, radix_text(r, data));
}

} // verus!
