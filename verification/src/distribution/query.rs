//! Query strings.

use vstd::prelude::*;
use vstd::utf8::encode_utf8;

use crate::text::{same_text, split_once, split_once_spec};

verus! {

/// The value of a hexadecimal digit.
pub open spec fn hex_value(b: u8) -> Option<u8> {
    if 48 <= b <= 57 {
        Some((b - 48) as u8)
    } else if 97 <= b <= 102 {
        Some((b - 87) as u8)
    } else if 65 <= b <= 70 {
        Some((b - 55) as u8)
    } else {
        None
    }
}

/// The value of a hexadecimal digit.
pub fn hex_val(b: u8) -> (out: Option<u8>)
    ensures
        out == hex_value(b),
{
    if 48 <= b && b <= 57 {
        Some(b - 48)
    } else if 97 <= b && b <= 102 {
        Some(b - 87)
    } else if 65 <= b && b <= 70 {
        Some(b - 55)
    } else {
        None
    }
}

/// The character that stands for a percent sign and the two bytes behind it: the
/// one with that code, or a percent sign where they are not hexadecimal digits.
pub open spec fn escaped(rest: Seq<u8>) -> char {
    match (
        if rest.len() > 0 {
            hex_value(rest[0])
        } else {
            None
        },
        if rest.len() > 1 {
            hex_value(rest[1])
        } else {
            None
        },
    ) {
        (Some(h), Some(l)) => ((16 * h + l) as u8) as char,
        _ => '%',
    }
}

/// Bytes behind a percent sign and the two bytes that follow it.
pub open spec fn after_escape(data: Seq<u8>) -> Seq<u8> {
    if data.len() >= 3 {
        data.skip(3)
    } else {
        Seq::empty()
    }
}

/// The text that percent-encoded bytes stand for, one character for a byte: a
/// plus sign is a space, and a percent sign takes two bytes with it.
pub open spec fn percent_decoded(data: Seq<u8>) -> Seq<char>
    decreases data.len(),
{
    if data.len() == 0 {
        Seq::empty()
    } else if data[0] == 37 {
        seq![escaped(data.skip(1))] + percent_decoded(after_escape(data))
    } else if data[0] == 43 {
        seq![' '] + percent_decoded(data.skip(1))
    } else {
        seq![data[0] as char] + percent_decoded(data.skip(1))
    }
}

fn digit_at(data: &[u8], i: usize) -> (out: Option<u8>)
    ensures
        out == (if i < data@.len() {
            hex_value(data@[i as int])
        } else {
            None
        }),
{
    if i < data.len() {
        hex_val(data[i])
    } else {
        None
    }
}

/// The text that percent-encoded text stands for.
pub fn percent_decode(s: &str) -> (out: String)
    ensures
        out@ == percent_decoded(encode_utf8(s@)),
{
    let data = s.as_bytes();
    let ghost all = data@;
    let mut chars: Vec<char> = Vec::new();
    let mut i: usize = 0;
    assert(all.skip(0) =~= all);
    while i < data.len()
        invariant
            i <= data@.len(),
            all == data@,
            chars@ + percent_decoded(all.skip(i as int)) == percent_decoded(all),
        decreases data@.len() - i,
    {
        let ghost rest = all.skip(i as int);
        let ghost had = chars@;
        let b: u8 = data[i];
        if b == 37 {
            let next: usize = if data.len() - i >= 3 {
                i + 3
            } else {
                data.len()
            };
            proof {
                assert(all.skip(next as int) =~= after_escape(rest));
                assert(rest.skip(1) =~= all.skip(i + 1));
            }
            let high = if data.len() - i >= 2 {
                digit_at(data, i + 1)
            } else {
                None
            };
            let low = if data.len() - i >= 3 {
                digit_at(data, i + 2)
            } else {
                None
            };
            let c = match (high, low) {
                (Some(h), Some(l)) => {
                    assert(16 * h + l < 256);
                    (16 * h + l) as char
                },
                _ => '%',
            };
            assert(c == escaped(rest.skip(1)));
            chars.push(c);
            assert(chars@ + percent_decoded(all.skip(next as int)) =~= had + (seq![c]
                + percent_decoded(after_escape(rest))));
            i = next;
        } else {
            let c = if b == 43 {
                ' '
            } else {
                b as char
            };
            chars.push(c);
            proof {
                assert(rest.skip(1) =~= all.skip(i + 1));
                assert(chars@ + percent_decoded(all.skip(i + 1)) =~= had + (seq![c]
                    + percent_decoded(rest.skip(1))));
            }
            i += 1;
        }
    }
    proof {
        assert(all.skip(i as int) =~= Seq::<u8>::empty());
        assert(chars@ =~= percent_decoded(all));
    }
    crate::text::text_of(chars.as_slice())
}

/// The value of the first pair with a key in a query string: pairs are divided
/// by ampersands, and a value stands behind an equals sign.
pub open spec fn raw_value(query: Seq<char>, key: Seq<char>) -> Option<Seq<char>>
    decreases query.len(),
{
    let (pair, rest) = match split_once_spec(query, '&') {
        Some((pair, rest)) => (pair, Some(rest)),
        None => (query, None),
    };
    match split_once_spec(pair, '=') {
        Some((k, v)) => if k == key {
            Some(v)
        } else {
            match rest {
                Some(r) => if r.len() < query.len() {
                    raw_value(r, key)
                } else {
                    None
                },
                None => None,
            }
        },
        None => match rest {
            Some(r) => if r.len() < query.len() {
                raw_value(r, key)
            } else {
                None
            },
            None => None,
        },
    }
}

/// The value of a key in a query string, decoded.
pub fn query_param(query: &str, key: &str) -> (out: Option<String>)
    ensures
        match (out, raw_value(query@, key@)) {
            (Some(v), Some(raw)) => v@ == percent_decoded(encode_utf8(raw)),
            (None, None) => true,
            _ => false,
        },
{
    match query_value(query, key) {
        Some(raw) => Some(percent_decode(raw.as_str())),
        None => None,
    }
}

/// The value of a key in a query string, as it stands there.
pub fn query_value(query: &str, key: &str) -> (out: Option<String>)
    ensures
        match (out, raw_value(query@, key@)) {
            (Some(v), Some(raw)) => v@ == raw,
            (None, None) => true,
            _ => false,
        },
    decreases query@.len(),
{
    let (pair, rest) = match split_once(query, '&') {
        Some((pair, rest)) => (pair, Some(rest)),
        None => (query.to_owned(), None),
    };
    if let Some((k, v)) = split_once(pair.as_str(), '=') {
        if same_text(k.as_str(), key) {
            return Some(v);
        }
    }
    match rest {
        Some(rest) => {
            proof {
                crate::text::lemma_split_shorter(query@, '&');
            }
            query_value(rest.as_str(), key)
        },
        None => None,
    }
}

// -- Laws ---------------------------------------------------------------------------

/// A percent sign and the two hexadecimal digits of a byte, in either case, stand
/// for that byte; a plus sign for a space; any other byte for itself.
pub proof fn law_percent_decoded(rest: Seq<u8>, b: u8, high: u8, low: u8)
    requires
        high == b / 16,
        low == b % 16,
    ensures
        percent_decoded(seq![37u8, upper_digit(high), upper_digit(low)] + rest) == seq![b as char]
            + percent_decoded(rest),
        percent_decoded(seq![37u8, lower_digit(high), lower_digit(low)] + rest) == seq![b as char]
            + percent_decoded(rest),
        percent_decoded(seq![43u8] + rest) == seq![' '] + percent_decoded(rest),
        b != 37 && b != 43 ==> percent_decoded(seq![b] + rest) == seq![b as char]
            + percent_decoded(rest),
        percent_decoded(Seq::empty()) == Seq::<char>::empty(),
{
    let upper = seq![37u8, upper_digit(high), upper_digit(low)] + rest;
    let lower = seq![37u8, lower_digit(high), lower_digit(low)] + rest;
    assert(upper.skip(3) =~= rest);
    assert(lower.skip(3) =~= rest);
    assert((seq![43u8] + rest).skip(1) =~= rest);
    assert((seq![b] + rest).skip(1) =~= rest);
    assert(16 * high + low == b);
}

/// The hexadecimal digit of a number, in upper case.
pub open spec fn upper_digit(n: u8) -> u8 {
    if n < 10 {
        (48 + n) as u8
    } else {
        (55 + n) as u8
    }
}

/// The hexadecimal digit of a number, in lower case.
pub open spec fn lower_digit(n: u8) -> u8 {
    if n < 10 {
        (48 + n) as u8
    } else {
        (87 + n) as u8
    }
}

/// The first pair with a key gives its value, whatever follows; and a pair with
/// another key is passed over.
pub proof fn law_raw_value(k: Seq<char>, v: Seq<char>, rest: Seq<char>, key: Seq<char>)
    requires
        !k.contains('&') && !k.contains('='),
        !v.contains('&'),
    ensures
        raw_value(k + seq!['='] + v, k) == Some(v),
        raw_value(k + seq!['='] + v + seq!['&'] + rest, k) == Some(v),
        key != k ==> raw_value(k + seq!['='] + v, key) is None,
        key != k ==> raw_value(k + seq!['='] + v + seq!['&'] + rest, key) == raw_value(rest, key),
{
    let pair = k + seq!['='] + v;
    let all = pair + seq!['&'] + rest;
    let n = k.len() as int;
    assert forall|i: int| 0 <= i < pair.len() implies pair[i] != '&' && all[i] != '&' by {
        assert(all[i] == pair[i]);
        if i < n {
            assert(k.contains(k[i]));
        } else if i > n {
            assert(pair[i] == v[i - n - 1]);
            assert(v.contains(v[i - n - 1]));
        }
    }
    crate::text::lemma_first_index(pair, '&', pair.len() as int);
    assert(all[pair.len() as int] == '&');
    crate::text::lemma_first_index(all, '&', pair.len() as int);
    assert(all.take(pair.len() as int) =~= pair);
    assert(all.skip(pair.len() as int + 1) =~= rest);
    assert forall|i: int| 0 <= i < n implies pair[i] != '=' by {
        assert(pair[i] == k[i]);
        assert(k.contains(k[i]));
    }
    assert(pair[n] == '=');
    crate::text::lemma_first_index(pair, '=', n);
    assert(pair.take(n) =~= k);
    assert(pair.skip(n + 1) =~= v);
}

} // verus!
