//! Operations on text: comparison, search, and decimal numbers.

use vstd::prelude::*;
use vstd::string::*;
use vstd::utf8::*;

verus! {

/// `String::push` appends one character.
pub assume_specification[ String::push ](s: &mut String, c: char)
    ensures
        final(s)@ == old(s)@.push(c),
;

/// Two texts with the same UTF-8 bytes are the same text.
pub proof fn lemma_utf8_injective(a: Seq<char>, b: Seq<char>)
    requires
        encode_utf8(a) == encode_utf8(b),
    ensures
        a == b,
{
    encode_utf8_decode_utf8(a);
    encode_utf8_decode_utf8(b);
}

/// Whether two texts are equal.
pub fn same_text(a: &str, b: &str) -> (same: bool)
    ensures
        same == (a@ == b@),
{
    let same = crate::bytes::same_bytes(a.as_bytes(), b.as_bytes());
    proof {
        if same {
            lemma_utf8_injective(a@, b@);
        }
    }
    same
}

/// The characters of a text.
pub fn chars_of(s: &str) -> (out: Vec<char>)
    ensures
        out@ == s@,
{
    let mut out: Vec<char> = Vec::new();
    for c in it: s.chars()
        invariant
            it.seq() == s@,
            out@ == s@.take(it.index() as int),
    {
        assert(s@.take(it.index() + 1) =~= s@.take(it.index() as int).push(c));
        out.push(c);
    }
    assert(s@.take(s@.len() as int) =~= s@);
    out
}

/// The text made of the given characters.
pub fn text_of(chars: &[char]) -> (out: String)
    ensures
        out@ == chars@,
{
    let mut out = String::new();
    let mut i: usize = 0;
    while i < chars.len()
        invariant
            i <= chars@.len(),
            out@ == chars@.take(i as int),
        decreases chars@.len() - i,
    {
        out.push(chars[i]);
        i += 1;
        assert(chars@.take(i as int) =~= chars@.take(i - 1).push(chars@[i - 1]));
    }
    assert(chars@.take(chars@.len() as int) =~= chars@);
    out
}

/// Whether `s` begins with `prefix`.
pub fn text_begins_with(s: &str, prefix: &str) -> (yes: bool)
    ensures
        yes == prefix@.is_prefix_of(s@),
{
    let a = chars_of(s);
    let b = chars_of(prefix);
    if a.len() < b.len() {
        return false;
    }
    let mut i: usize = 0;
    while i < b.len()
        invariant
            i <= b@.len() <= a@.len(),
            a@ == s@,
            b@ == prefix@,
            forall|k: int| 0 <= k < i ==> a@[k] == b@[k],
        decreases b@.len() - i,
    {
        if a[i] != b[i] {
            assert(a@.subrange(0, b@.len() as int)[i as int] == a@[i as int]);
            return false;
        }
        i += 1;
    }
    assert(a@.subrange(0, b@.len() as int) =~= b@);
    true
}

/// The part of a text between two character positions.
pub fn text_range(s: &str, from: usize, to: usize) -> (out: String)
    requires
        from <= to <= s@.len(),
    ensures
        out@ == s@.subrange(from as int, to as int),
{
    let chars = chars_of(s);
    text_of(vstd::slice::slice_subrange(chars.as_slice(), from, to))
}

/// What follows `prefix` in `s`, where `s` begins with it.
pub fn text_strip_prefix(s: &str, prefix: &str) -> (out: Option<String>)
    ensures
        match out {
            Some(rest) => s@ == prefix@ + rest@,
            None => !prefix@.is_prefix_of(s@),
        },
{
    if text_begins_with(s, prefix) {
        let chars = chars_of(s);
        let n: usize = chars_of(prefix).len();
        let rest = text_range(s, n, chars.len());
        assert(s@ =~= s@.subrange(0, n as int) + rest@);
        Some(rest)
    } else {
        None
    }
}

/// Two texts one after the other.
pub fn joined(a: &str, b: &str) -> (out: String)
    ensures
        out@ == a@ + b@,
{
    let mut out = a.to_owned();
    out.append(b);
    out
}

/// Three texts one after the other.
pub fn joined3(a: &str, b: &str, c: &str) -> (out: String)
    ensures
        out@ == a@ + b@ + c@,
{
    let mut out = a.to_owned();
    out.append(b);
    out.append(c);
    out
}

/// Position of the first `c` in `s`, or the length of `s` where it holds none.
pub open spec fn first_index(s: Seq<char>, c: char) -> int
    decreases s.len(),
{
    if s.len() == 0 || s[0] == c {
        0
    } else {
        1 + first_index(s.drop_first(), c)
    }
}

pub proof fn lemma_first_index(s: Seq<char>, c: char, i: int)
    requires
        0 <= i <= s.len(),
        forall|k: int| 0 <= k < i ==> s[k] != c,
        i == s.len() || s[i] == c,
    ensures
        first_index(s, c) == i,
    decreases i,
{
    if i > 0 {
        lemma_first_index(s.drop_first(), c, i - 1);
    }
}

/// What stands before and after the first `c`, where there is one.
pub open spec fn split_once_spec(s: Seq<char>, c: char) -> Option<(Seq<char>, Seq<char>)> {
    let i = first_index(s, c);
    if i < s.len() {
        Some((s.take(i), s.skip(i + 1)))
    } else {
        None
    }
}

/// What follows the first of a character is shorter than the whole.
pub proof fn lemma_split_shorter(s: Seq<char>, c: char)
    ensures
        split_once_spec(s, c) matches Some((_, rest)) ==> rest.len() < s.len(),
    decreases s.len(),
{
    lemma_first_index_bounds(s, c);
}

/// What stands before the first of a character begins the text.
pub proof fn lemma_split_front(s: Seq<char>, c: char)
    ensures
        split_once_spec(s, c) matches Some((front, _)) ==> front.is_prefix_of(s),
        s.is_prefix_of(s),
{
    lemma_first_index_bounds(s, c);
    if let Some((front, _)) = split_once_spec(s, c) {
        assert(front =~= s.subrange(0, front.len() as int));
    }
    assert(s =~= s.subrange(0, s.len() as int));
}

proof fn lemma_first_index_bounds(s: Seq<char>, c: char)
    ensures
        0 <= first_index(s, c) <= s.len(),
    decreases s.len(),
{
    if s.len() > 0 && s[0] != c {
        lemma_first_index_bounds(s.drop_first(), c);
    }
}

/// Splits a text at the first `c`.
pub fn split_once(s: &str, c: char) -> (out: Option<(String, String)>)
    ensures
        match out {
            Some(parts) => split_once_spec(s@, c) == Some((parts.0@, parts.1@)),
            None => split_once_spec(s@, c) is None,
        },
{
    let chars = chars_of(s);
    let mut i: usize = 0;
    while i < chars.len()
        invariant
            i <= chars@.len(),
            chars@ == s@,
            forall|k: int| 0 <= k < i ==> s@[k] != c,
        decreases chars@.len() - i,
    {
        if chars[i] == c {
            proof {
                lemma_first_index(s@, c, i as int);
                assert(s@.take(i as int) =~= s@.subrange(0, i as int));
                assert(s@.skip(i + 1) =~= s@.subrange(i + 1, s@.len() as int));
            }
            return Some((text_range(s, 0, i), text_range(s, i + 1, chars.len())));
        }
        i += 1;
    }
    proof {
        lemma_first_index(s@, c, s@.len() as int);
    }
    None
}

/// Lexicographic order by code point, a proper prefix coming first.
pub open spec fn text_below(a: Seq<char>, b: Seq<char>) -> bool
    decreases a.len(),
{
    if b.len() == 0 {
        false
    } else if a.len() == 0 {
        true
    } else if a[0] != b[0] {
        a[0] < b[0]
    } else {
        text_below(a.drop_first(), b.drop_first())
    }
}

proof fn lemma_text_below_at(a: Seq<char>, b: Seq<char>, i: int)
    requires
        0 <= i <= a.len(),
        i <= b.len(),
        forall|k: int| 0 <= k < i ==> a[k] == b[k],
    ensures
        text_below(a, b) == text_below(a.skip(i), b.skip(i)),
    decreases i,
{
    if i == 0 {
        assert(a.skip(0) =~= a);
        assert(b.skip(0) =~= b);
    } else {
        lemma_text_below_at(a.drop_first(), b.drop_first(), i - 1);
        assert(a.drop_first().skip(i - 1) =~= a.skip(i));
        assert(b.drop_first().skip(i - 1) =~= b.skip(i));
    }
}

/// Whether `a` comes strictly before `b`.
pub fn less_text(a: &str, b: &str) -> (less: bool)
    ensures
        less == text_below(a@, b@),
{
    let x = chars_of(a);
    let y = chars_of(b);
    let mut i: usize = 0;
    while i < x.len() && i < y.len()
        invariant
            x@ == a@,
            y@ == b@,
            i <= a@.len(),
            i <= b@.len(),
            forall|k: int| 0 <= k < i ==> a@[k] == b@[k],
        decreases a@.len() - i,
    {
        if x[i] != y[i] {
            proof {
                lemma_text_below_at(a@, b@, i as int);
                assert(a@.skip(i as int)[0] == a@[i as int]);
                assert(b@.skip(i as int)[0] == b@[i as int]);
            }
            return x[i] < y[i];
        }
        i += 1;
    }
    proof {
        lemma_text_below_at(a@, b@, i as int);
    }
    i < y.len()
}

/// The text order is irreflexive.
pub proof fn lemma_text_below_irreflexive(a: Seq<char>)
    ensures
        !text_below(a, a),
    decreases a.len(),
{
    if a.len() > 0 {
        lemma_text_below_irreflexive(a.drop_first());
    }
}

/// The text order is transitive.
pub proof fn lemma_text_below_transitive(a: Seq<char>, b: Seq<char>, c: Seq<char>)
    requires
        text_below(a, b),
        text_below(b, c),
    ensures
        text_below(a, c),
    decreases a.len(),
{
    if a.len() > 0 && a[0] == b[0] && b[0] == c[0] {
        lemma_text_below_transitive(a.drop_first(), b.drop_first(), c.drop_first());
    }
}

/// Two different texts are always ordered one way or the other.
pub proof fn lemma_text_below_total(a: Seq<char>, b: Seq<char>)
    ensures
        text_below(a, b) || text_below(b, a) || a == b,
    decreases a.len(),
{
    if a.len() > 0 && b.len() > 0 && a[0] == b[0] {
        lemma_text_below_total(a.drop_first(), b.drop_first());
        if a.drop_first() == b.drop_first() {
            assert(a.len() == a.drop_first().len() + 1);
            assert(b.len() == b.drop_first().len() + 1);
            assert forall|k: int| 0 <= k < a.len() implies a[k] == b[k] by {
                if k > 0 {
                    assert(a[k] == a.drop_first()[k - 1]);
                    assert(b[k] == b.drop_first()[k - 1]);
                }
            }
            assert(a =~= b);
        }
    } else if a.len() == 0 && b.len() == 0 {
        assert(a =~= b);
    }
}

/// The decimal digit of `d`.
pub open spec fn digit_char(d: int) -> char
    recommends
        0 <= d < 10,
{
    (48 + d) as char
}

/// The decimal numeral of `n`, without leading zeros.
pub open spec fn decimal(n: nat) -> Seq<char>
    decreases n,
{
    if n < 10 {
        seq![digit_char(n as int)]
    } else {
        decimal(n / 10).push(digit_char((n % 10) as int))
    }
}

/// Writes `n` as a decimal numeral.
pub fn decimal_text(n: u64) -> (out: String)
    ensures
        out@ == decimal(n as nat),
    decreases n,
{
    let d: u8 = (n % 10) as u8;
    let c: char = (48 + d) as char;
    if n < 10 {
        let mut out = String::new();
        out.push(c);
        assert(out@ =~= decimal(n as nat));
        out
    } else {
        let mut out = decimal_text(n / 10);
        out.push(c);
        out
    }
}

/// The number that a row of decimal digits stands for, if it is one.
#[verifier::opaque]
pub open spec fn digits_value(s: Seq<char>) -> Option<nat>
    decreases s.len(),
{
    if s.len() == 0 {
        Some(0)
    } else if !('0' <= s.last() <= '9') {
        None
    } else {
        match digits_value(s.drop_last()) {
            Some(v) => Some((v * 10 + (s.last() as int - 48)) as nat),
            None => None,
        }
    }
}

/// The unsigned 64-bit number that a numeral stands for: an optional `+`, then
/// at least one digit, in range.
pub open spec fn parse_u64_spec(s: Seq<char>) -> Option<u64> {
    let digits = if s.len() > 0 && s[0] == '+' { s.skip(1) } else { s };
    if digits.len() == 0 {
        None
    } else {
        match digits_value(digits) {
            Some(v) => if v <= u64::MAX { Some(v as u64) } else { None },
            None => None,
        }
    }
}

proof fn lemma_digits_value_prefix(s: Seq<char>, i: int)
    requires
        0 <= i <= s.len(),
        digits_value(s) is Some,
    ensures
        digits_value(s.take(i)) is Some,
        digits_value(s.take(i))->0 <= digits_value(s)->0,
    decreases s.len() - i,
{
    reveal_with_fuel(digits_value, 2);
    if i < s.len() {
        lemma_digits_value_prefix(s, i + 1);
        assert(s.take(i + 1).drop_last() =~= s.take(i));
    } else {
        assert(s.take(i) =~= s);
    }
}

proof fn lemma_digits_value_step(s: Seq<char>, i: int)
    requires
        0 <= i < s.len(),
        digits_value(s.take(i)) is Some,
    ensures
        !('0' <= s[i] <= '9') ==> digits_value(s) is None,
        ('0' <= s[i] <= '9') ==> {
            let v = digits_value(s.take(i))->0 * 10 + (s[i] as int - 48);
            &&& digits_value(s.take(i + 1)) == Some(v as nat)
            &&& digits_value(s) is Some ==> v <= digits_value(s)->0
        },
{
    reveal_with_fuel(digits_value, 2);
    assert(s.take(i + 1).drop_last() =~= s.take(i));
    assert(s.take(i + 1).last() == s[i]);
    if digits_value(s) is Some {
        lemma_digits_value_prefix(s, i + 1);
    }
}

/// Reads an unsigned 64-bit number.
pub fn parse_u64(s: &str) -> (out: Option<u64>)
    ensures
        out == parse_u64_spec(s@),
{
    let chars = chars_of(s);
    let start: usize = if chars.len() > 0 && chars[0] == '+' { 1 } else { 0 };
    if chars.len() == start {
        return None;
    }
    let ghost digits = s@.skip(start as int);
    assert(start == 0 ==> digits =~= s@);
    assert(digits_value(digits.take(0)) == Some(0nat)) by {
        reveal_with_fuel(digits_value, 1);
    }
    let mut value: u64 = 0;
    let mut i: usize = start;
    while i < chars.len()
        invariant
            start <= i <= chars@.len(),
            start <= 1,
            chars@ == s@,
            digits == s@.skip(start as int),
            digits.len() > 0,
            digits == (if s@.len() > 0 && s@[0] == '+' { s@.skip(1) } else { s@ }),
            digits_value(digits.take(i - start)) == Some(value as nat),
        decreases chars@.len() - i,
    {
        let c = chars[i];
        proof {
            lemma_digits_value_step(digits, i - start);
            assert(digits[i - start] == c);
        }
        if c < '0' || c > '9' {
            return None;
        }
        let d: u64 = (c as u64) - 48;
        if value > 1844674407370955161u64 || (value == 1844674407370955161u64 && d > 5) {
            return None;
        }
        value = value * 10 + d;
        i += 1;
    }
    assert(digits.take(i - start) =~= digits);
    Some(value)
}


/// The bytes of a decimal numeral.
pub open spec fn decimal_bytes(n: nat) -> Seq<u8> {
    encode_utf8(decimal(n))
}

/// A decimal numeral is made of digits and stands for its number.
pub proof fn lemma_decimal(n: nat)
    ensures
        decimal(n).len() > 0,
        forall|i: int| 0 <= i < decimal(n).len() ==> '0' <= #[trigger] decimal(n)[i] <= '9',
        digits_value(decimal(n)) == Some(n),
    decreases n,
{
    reveal_with_fuel(digits_value, 2);
    if n < 10 {
        let s = decimal(n);
        assert(s.drop_last() =~= Seq::<char>::empty());
        assert(digits_value(s.drop_last()) == Some(0nat));
    } else {
        lemma_decimal(n / 10);
        let s = decimal(n);
        assert(s.drop_last() =~= decimal(n / 10));
    }
}

/// Reading a decimal numeral gives its number back.
pub proof fn law_decimal_roundtrip(n: u64)
    ensures
        parse_u64_spec(decimal(n as nat)) == Some(n),
{
    lemma_decimal(n as nat);
}

/// The bytes of a decimal numeral are its digits, one byte each.
pub proof fn lemma_decimal_bytes(n: nat)
    ensures
        decimal_bytes(n).len() == decimal(n).len(),
        forall|i: int|
            0 <= i < decimal_bytes(n).len() ==> 48 <= #[trigger] decimal_bytes(n)[i] <= 57,
        valid_utf8(decimal_bytes(n)),
        decode_utf8(decimal_bytes(n)) == decimal(n),
{
    lemma_decimal(n);
    assert(is_ascii_chars(decimal(n)));
    is_ascii_chars_encode_utf8(decimal(n));
    encode_utf8_valid_utf8(decimal(n));
    encode_utf8_decode_utf8(decimal(n));
}

/// `String::from_utf8`: the text with these bytes; none where they are not
/// UTF-8.
#[verifier::external_body]
pub(crate) fn utf8_text(data: Vec<u8>) -> (out: Option<String>)
    ensures
        match out {
            Some(s) => valid_utf8(data@) && s@ == decode_utf8(data@) && encode_utf8(s@) == data@,
            None => !valid_utf8(data@),
        },
{
    String::from_utf8(data).ok()
}

// -- White space ------------------------------------------------------------------

/// Whether a character is white space, as Unicode defines it.
pub open spec fn is_white(c: char) -> bool {
    ||| '\t' <= c <= '\r'
    ||| c == ' '
    ||| c == '\u{85}'
    ||| c == '\u{a0}'
    ||| c == '\u{1680}'
    ||| '\u{2000}' <= c <= '\u{200a}'
    ||| c == '\u{2028}'
    ||| c == '\u{2029}'
    ||| c == '\u{202f}'
    ||| c == '\u{205f}'
    ||| c == '\u{3000}'
}

/// Whether a character is white space.
pub fn white(c: char) -> (yes: bool)
    ensures
        yes == is_white(c),
{
    ('\t' <= c && c <= '\r') || c == ' ' || c == '\u{85}' || c == '\u{a0}' || c == '\u{1680}' || (
    '\u{2000}' <= c && c <= '\u{200a}') || c == '\u{2028}' || c == '\u{2029}' || c == '\u{202f}'
        || c == '\u{205f}' || c == '\u{3000}'
}

/// A text without the white space it begins with.
pub open spec fn trimmed_front(s: Seq<char>) -> Seq<char>
    decreases s.len(),
{
    if s.len() > 0 && is_white(s[0]) {
        trimmed_front(s.skip(1))
    } else {
        s
    }
}

/// A text without the white space it ends with.
pub open spec fn trimmed_back(s: Seq<char>) -> Seq<char>
    decreases s.len(),
{
    if s.len() > 0 && is_white(s.last()) {
        trimmed_back(s.drop_last())
    } else {
        s
    }
}

/// A text without the white space around it.
pub open spec fn trimmed(s: Seq<char>) -> Seq<char> {
    trimmed_back(trimmed_front(s))
}

/// A text without the white space around it.
pub fn trim_text(s: &str) -> (out: String)
    ensures
        out@ == trimmed(s@),
{
    let chars = chars_of(s);
    let n: usize = chars.len();
    let mut from: usize = 0;
    assert(s@.skip(0) =~= s@);
    while from < n && white(chars[from])
        invariant
            chars@ == s@,
            n == chars@.len(),
            from <= n,
            trimmed_front(s@.skip(from as int)) == trimmed_front(s@),
        decreases n - from,
    {
        assert(s@.skip(from as int)[0] == s@[from as int]);
        assert(s@.skip(from as int).skip(1) =~= s@.skip(from + 1));
        from += 1;
    }
    assert(from < n ==> s@.skip(from as int)[0] == s@[from as int]);
    let mut to: usize = n;
    assert(s@.subrange(from as int, n as int) =~= s@.skip(from as int));
    while to > from && white(chars[to - 1])
        invariant
            chars@ == s@,
            n == chars@.len(),
            from <= to <= n,
            trimmed_back(s@.subrange(from as int, to as int)) == trimmed(s@),
        decreases to,
    {
        assert(s@.subrange(from as int, to as int).last() == s@[to - 1]);
        assert(s@.subrange(from as int, to as int).drop_last() =~= s@.subrange(
            from as int,
            to - 1,
        ));
        to -= 1;
    }
    assert(to > from ==> s@.subrange(from as int, to as int).last() == s@[to - 1]);
    text_range(s, from, to)
}

/// How many characters stand before the first white space.
pub open spec fn word_len(s: Seq<char>) -> nat
    decreases s.len(),
{
    if s.len() == 0 || is_white(s[0]) {
        0
    } else {
        1 + word_len(s.skip(1))
    }
}

proof fn lemma_word_len(s: Seq<char>, n: int)
    requires
        0 <= n <= s.len(),
        forall|k: int| 0 <= k < n ==> !is_white(s[k]),
        n < s.len() ==> is_white(s[n]),
    ensures
        word_len(s) == n,
    decreases n,
{
    if n > 0 {
        lemma_word_len(s.skip(1), n - 1);
    }
}

/// The words of a text: what white space separates.
pub open spec fn words(s: Seq<char>) -> Seq<Seq<char>>
    decreases s.len(),
    via words_shrink
{
    if s.len() == 0 {
        Seq::empty()
    } else if is_white(s[0]) {
        words(s.skip(1))
    } else {
        seq![s.take(word_len(s) as int)] + words(s.skip(word_len(s) as int))
    }
}

#[via_fn]
proof fn words_shrink(s: Seq<char>) {
    if s.len() > 0 && !is_white(s[0]) {
        lemma_word_bounds(s);
    }
}

/// A word does not reach past the text, and is not empty before white space.
pub proof fn lemma_word_bounds(s: Seq<char>)
    ensures
        word_len(s) <= s.len(),
        s.len() > 0 && !is_white(s[0]) ==> word_len(s) > 0,
    decreases s.len(),
{
    if s.len() > 0 && !is_white(s[0]) {
        lemma_word_bounds(s.skip(1));
    }
}

/// The words of a text.
pub fn words_of(s: &str) -> (out: Vec<String>)
    ensures
        out.deep_view() == words(s@),
{
    let chars = chars_of(s);
    let n: usize = chars.len();
    let mut out: Vec<String> = Vec::new();
    let mut at: usize = 0;
    proof {
        assert(s@.skip(0) =~= s@);
        assert(out.deep_view() + words(s@) =~= words(s@));
    }
    while at < n
        invariant
            chars@ == s@,
            n == chars@.len(),
            at <= n,
            out.deep_view() + words(s@.skip(at as int)) == words(s@),
        decreases n - at,
    {
        let ghost rest = s@.skip(at as int);
        assert(rest[0] == s@[at as int]);
        if white(chars[at]) {
            assert(rest.skip(1) =~= s@.skip(at + 1));
            at += 1;
        } else {
            let mut end: usize = at + 1;
            while end < n && !white(chars[end])
                invariant
                    chars@ == s@,
                    n == chars@.len(),
                    at < end <= n,
                    forall|k: int| at <= k < end ==> !is_white(s@[k]),
                decreases n - end,
            {
                end += 1;
            }
            let ghost had = out.deep_view();
            proof {
                assert forall|k: int| 0 <= k < end - at implies !is_white(rest[k]) by {
                    assert(rest[k] == s@[at + k]);
                }
                lemma_word_len(rest, end - at);
                assert(rest.take(end - at) =~= s@.subrange(at as int, end as int));
                assert(rest.skip(end - at) =~= s@.skip(end as int));
            }
            out.push(text_range(s, at, end));
            proof {
                let word = s@.subrange(at as int, end as int);
                assert(out.deep_view() =~= had.push(word));
                assert(had + (seq![word] + words(s@.skip(end as int))) =~= had.push(word) + words(
                    s@.skip(end as int),
                ));
            }
            at = end;
        }
    }
    assert(s@.skip(at as int) =~= Seq::<char>::empty());
    assert(out.deep_view() + Seq::<Seq<char>>::empty() =~= out.deep_view());
    out
}

/// Whether a list holds a text.
pub fn holds_text(list: &Vec<String>, s: &str) -> (yes: bool)
    ensures
        yes == list.deep_view().contains(s@),
{
    let mut i: usize = 0;
    while i < list.len()
        invariant
            i <= list@.len(),
            forall|k: int| 0 <= k < i ==> #[trigger] list.deep_view()[k] != s@,
        decreases list@.len() - i,
    {
        if same_text(list[i].as_str(), s) {
            assert(list.deep_view()[i as int] == s@);
            return true;
        }
        i += 1;
    }
    false
}

} // verus!
