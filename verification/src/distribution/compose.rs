//! Composition: canonical forms of addresses taken together, and the witness of
//! each composition.

use vstd::prelude::*;
use vstd::utf8::encode_utf8;

use crate::bytes::{
    append_bytes, bytes_below, copy_bytes, copy_range, lemma_bytes_below_irreflexive,
    lemma_bytes_below_total, lemma_bytes_below_transitive, less_bytes,
};
use crate::distribution::records::{mark_type, typed};
use crate::hexadecimal::{hex_bytes, hex_decode, hex_encode, hex_of, law_hex_roundtrip};
use crate::json::{json_fields, json_object, json_object_of, JsonItem, JsonView};
use crate::kappa::{
    axis_len, axis_name, axis_named, axis_of, complement_of, compute_kappa, content_digest,
    content_label, kappa_of, label_parts, label_text, law_axis_named, law_label_roundtrip, Axis,
    KappaLabel,
};
use crate::store::edges::lemma_find_relationship;
use crate::store::memory::{addresses, InMemoryStore};
use crate::store::state::{listed, StoreState};
use crate::text::{
    decimal, decimal_text, joined, joined3, lemma_text_below_irreflexive, lemma_text_below_total,
    lemma_text_below_transitive, lemma_utf8_injective, less_text, same_text, split_once, split_once_spec, text_below,
};
use crate::types::{
    name_hash, Direction, Edge, EdgeQuery, EdgeRelation, EdgeView, NamespaceRef, StoreError,
};

verus! {

// -- Canonical forms ------------------------------------------------------------

/// What stands before the colon of an address.
pub open spec fn axis_text(kappa: Seq<char>) -> Option<Seq<char>> {
    match split_once_spec(kappa, ':') {
        Some((axis, _)) => Some(axis),
        None => None,
    }
}

/// What stands behind the colon of an address; nothing where it has none.
pub open spec fn digits_text(kappa: Seq<char>) -> Seq<char> {
    match split_once_spec(kappa, ':') {
        Some((_, digits)) => digits,
        None => Seq::empty(),
    }
}

fn digits_of(kappa: &str) -> (out: String)
    ensures
        out@ == digits_text(kappa@),
{
    match split_once(kappa, ':') {
        Some(parts) => parts.1,
        None => {
            let empty = String::new();
            assert(empty@ =~= Seq::<char>::empty());
            empty
        },
    }
}

/// The canonical form of a pair: the two addresses in the order that makes the
/// lesser bytes.
pub open spec fn pair_form(a: Seq<char>, b: Seq<char>) -> Seq<u8> {
    let ab = encode_utf8(a) + encode_utf8(b);
    let ba = encode_utf8(b) + encode_utf8(a);
    if bytes_below(ba, ab) {
        ba
    } else {
        ab
    }
}

/// The canonical form of a pair.
pub fn canonical_g2(a: &str, b: &str) -> (out: Vec<u8>)
    ensures
        out@ == pair_form(a@, b@),
{
    let mut ab: Vec<u8> = copy_bytes(a.as_bytes());
    append_bytes(&mut ab, b.as_bytes());
    let mut ba: Vec<u8> = copy_bytes(b.as_bytes());
    append_bytes(&mut ba, a.as_bytes());
    if less_bytes(ba.as_slice(), ab.as_slice()) {
        ba
    } else {
        ab
    }
}

/// The canonical form of an address and its complement: the lesser of the two.
pub open spec fn mirror_form(a: Seq<char>) -> Option<Seq<u8>> {
    match label_parts(a) {
        Some((axis, digest)) => {
            let other = label_text(axis, complement_of(digest));
            Some(
                encode_utf8(
                    if text_below(other, a) {
                        other
                    } else {
                        a
                    },
                ),
            )
        },
        None => None,
    }
}

/// The canonical form of an address and its complement; a malformed address is
/// refused.
pub fn canonical_f4(a: &str) -> (out: Result<Vec<u8>, String>)
    ensures
        match out {
            Ok(form) => mirror_form(a@) == Some(form@),
            Err(_) => mirror_form(a@) is None,
        },
{
    let label = match KappaLabel::parse(a) {
        Ok(label) => label,
        Err(e) => return Err(e.message()),
    };
    let other = label.complement();
    if less_text(other.as_str(), a) {
        Ok(copy_bytes(other.as_str().as_bytes()))
    } else {
        Ok(copy_bytes(a.as_bytes()))
    }
}

/// Why an address has no canonical form.
#[derive(Debug, Clone, Copy, PartialEq, Eq, Structural)]
pub enum FormFault {
    BadHex,
    EmptyDigest,
    NoAxis,
    NotQuarters,
}

impl FormFault {
    /// What went wrong, in words.
    pub fn message(&self) -> (out: String)
        ensures
            out@ == form_fault_text(*self),
    {
        match self {
            FormFault::BadHex => "bad hex in operand".to_owned(),
            FormFault::EmptyDigest => "empty digest".to_owned(),
            FormFault::NoAxis => "no axis".to_owned(),
            FormFault::NotQuarters => "digest not divisible by 4".to_owned(),
        }
    }
}

/// What went wrong, in words.
pub open spec fn form_fault_text(f: FormFault) -> Seq<char> {
    match f {
        FormFault::BadHex => "bad hex in operand"@,
        FormFault::EmptyDigest => "empty digest"@,
        FormFault::NoAxis => "no axis"@,
        FormFault::NotQuarters => "digest not divisible by 4"@,
    }
}

/// The canonical form of an address with the degree of its first byte: a tag,
/// then the address.
pub open spec fn degree_form(a: Seq<char>) -> Result<Seq<u8>, FormFault> {
    match hex_bytes(digits_text(a)) {
        None => Err(FormFault::BadHex),
        Some(digest) => if digest.len() == 0 {
            Err(FormFault::EmptyDigest)
        } else {
            Ok(
                seq![
                    if digest[0] % 9 <= 7 {
                        5u8
                    } else {
                        6u8
                    },
                ] + encode_utf8(a),
            )
        },
    }
}

/// The canonical form of an address with the degree of its first byte.
pub fn canonical_e6(a: &str) -> (out: Result<Vec<u8>, FormFault>)
    ensures
        match (out, degree_form(a@)) {
            (Ok(form), Ok(want)) => form@ == want,
            (Err(f), Err(want)) => f == want,
            _ => false,
        },
{
    let digits = digits_of(a);
    let digest = match hex_decode(digits.as_str()) {
        Some(digest) => digest,
        None => return Err(FormFault::BadHex),
    };
    if digest.len() == 0 {
        return Err(FormFault::EmptyDigest);
    }
    let tag: u8 = if digest[0] % 9 <= 7 {
        5
    } else {
        6
    };
    let mut out: Vec<u8> = Vec::new();
    out.push(tag);
    append_bytes(&mut out, a.as_bytes());
    assert(out@ =~= seq![tag] + encode_utf8(a@));
    Ok(out)
}

/// One quarter of a digest.
pub open spec fn quarter(digest: Seq<u8>, i: int) -> Seq<u8> {
    let q = (digest.len() / 4) as int;
    digest.subrange(i * q, (i + 1) * q)
}

/// Whether four numbers are the four quarters in some order.
pub open spec fn is_order(a: int, b: int, c: int, d: int) -> bool {
    &&& 0 <= a < 4 && 0 <= b < 4 && 0 <= c < 4 && 0 <= d < 4
    &&& a != b && a != c && a != d && b != c && b != d && c != d
}

/// The quarters of a digest put in an order.
pub open spec fn arranged(digest: Seq<u8>, a: int, b: int, c: int, d: int) -> Seq<u8> {
    quarter(digest, a) + quarter(digest, b) + quarter(digest, c) + quarter(digest, d)
}

/// Whether bytes are the quarters of a digest in some order.
pub open spec fn is_arranged(digest: Seq<u8>, bytes: Seq<u8>) -> bool {
    exists|a: int, b: int, c: int, d: int|
        is_order(a, b, c, d) && bytes == #[trigger] arranged(digest, a, b, c, d)
}

/// Whether bytes are the least that the quarters of a digest make in any order.
pub open spec fn is_least_arranged(digest: Seq<u8>, bytes: Seq<u8>) -> bool {
    &&& is_arranged(digest, bytes)
    &&& forall|a: int, b: int, c: int, d: int|
        is_order(a, b, c, d) ==> !bytes_below(#[trigger] arranged(digest, a, b, c, d), bytes)
}

/// The orders of the quarters by number: the digits of the number in base four.
spec fn digit(code: int, place: int) -> int {
    if place == 0 {
        code / 64
    } else if place == 1 {
        (code / 16) % 4
    } else if place == 2 {
        (code / 4) % 4
    } else {
        code % 4
    }
}

fn arrange(digest: &[u8], a: usize, b: usize, c: usize, d: usize) -> (out: Vec<u8>)
    requires
        digest@.len() % 4 == 0,
        a < 4,
        b < 4,
        c < 4,
        d < 4,
    ensures
        out@ == arranged(digest@, a as int, b as int, c as int, d as int),
{
    let q: usize = digest.len() / 4;
    assert(q * 4 == digest@.len());
    assert(a * q + q <= digest@.len() && b * q + q <= digest@.len() && c * q + q <= digest@.len()
        && d * q + q <= digest@.len()) by (nonlinear_arith)
        requires
            q * 4 == digest@.len(),
            a < 4,
            b < 4,
            c < 4,
            d < 4,
    {}
    assert((a + 1) * q == a * q + q && (b + 1) * q == b * q + q && (c + 1) * q == c * q + q && (d
        + 1) * q == d * q + q) by (nonlinear_arith);
    let mut out = copy_range(digest, a * q, a * q + q);
    append_bytes(&mut out, copy_range(digest, b * q, b * q + q).as_slice());
    append_bytes(&mut out, copy_range(digest, c * q, c * q + q).as_slice());
    append_bytes(&mut out, copy_range(digest, d * q, d * q + q).as_slice());
    out
}

/// The least bytes that the quarters of a digest make in any order.
fn least_arranged(digest: &[u8]) -> (out: Vec<u8>)
    requires
        digest@.len() % 4 == 0,
    ensures
        is_least_arranged(digest@, out@),
{
    let mut best = arrange(digest, 0, 1, 2, 3);
    assert(is_order(0, 1, 2, 3));
    assert(is_arranged(digest@, best@));
    let mut code: usize = 0;
    while code < 256
        invariant
            digest@.len() % 4 == 0,
            code <= 256,
            is_arranged(digest@, best@),
            forall|n: int|
                0 <= n < code && is_order(digit(n, 0), digit(n, 1), digit(n, 2), digit(n, 3))
                    ==> !bytes_below(
                    #[trigger] arranged(
                        digest@,
                        digit(n, 0),
                        digit(n, 1),
                        digit(n, 2),
                        digit(n, 3),
                    ),
                    best@,
                ),
        decreases 256 - code,
    {
        let a: usize = code / 64;
        let b: usize = (code / 16) % 4;
        let c: usize = (code / 4) % 4;
        let d: usize = code % 4;
        if a != b && a != c && a != d && b != c && b != d && c != d {
            let next = arrange(digest, a, b, c, d);
            assert(is_order(a as int, b as int, c as int, d as int));
            if less_bytes(next.as_slice(), best.as_slice()) {
                proof {
                    assert(is_arranged(digest@, next@));
                    assert forall|n: int|
                        0 <= n < code + 1 && is_order(
                            digit(n, 0),
                            digit(n, 1),
                            digit(n, 2),
                            digit(n, 3),
                        ) implies !bytes_below(
                        #[trigger] arranged(
                            digest@,
                            digit(n, 0),
                            digit(n, 1),
                            digit(n, 2),
                            digit(n, 3),
                        ),
                        next@,
                    ) by {
                        let x = arranged(
                            digest@,
                            digit(n, 0),
                            digit(n, 1),
                            digit(n, 2),
                            digit(n, 3),
                        );
                        if n < code {
                            if bytes_below(x, next@) {
                                lemma_bytes_below_transitive(x, next@, best@);
                            }
                        } else {
                            lemma_bytes_below_irreflexive(next@);
                        }
                    }
                }
                best = next;
            }
        }
        code += 1;
    }
    proof {
        assert forall|a: int, b: int, c: int, d: int| is_order(a, b, c, d) implies !bytes_below(
            #[trigger] arranged(digest@, a, b, c, d),
            best@,
        ) by {
            let n = 64 * a + 16 * b + 4 * c + d;
            assert(digit(n, 0) == a && digit(n, 1) == b && digit(n, 2) == c && digit(n, 3) == d);
            assert(0 <= n < 256);
        }
    }
    best
}

/// Why an address has no form with its quarters in order.
pub open spec fn quarters_fault(a: Seq<char>) -> Option<FormFault> {
    if axis_text(a) is None {
        Some(FormFault::NoAxis)
    } else {
        match hex_bytes(digits_text(a)) {
            None => Some(FormFault::BadHex),
            Some(digest) => if digest.len() == 0 || digest.len() % 4 != 0 {
                Some(FormFault::NotQuarters)
            } else {
                None
            },
        }
    }
}

/// Whether bytes are the canonical form of an address whose quarters may be in
/// any order: the address with its quarters in the least order.
pub open spec fn is_quarters_form(a: Seq<char>, form: Seq<u8>) -> bool {
    &&& quarters_fault(a) is None
    &&& exists|least: Seq<u8>| #[trigger]
        is_least_arranged(hex_bytes(digits_text(a))->0, least) && form == encode_utf8(
            axis_text(a)->0 + ":"@ + hex_of(least),
        )
}

/// The canonical form of an address whose quarters may be in any order.
pub fn canonical_e7(a: &str) -> (out: Result<Vec<u8>, FormFault>)
    ensures
        match out {
            Ok(form) => is_quarters_form(a@, form@),
            Err(f) => quarters_fault(a@) == Some(f),
        },
{
    let axis = match axis_of(a) {
        Some(axis) => axis,
        None => return Err(FormFault::NoAxis),
    };
    let digits = digits_of(a);
    let digest = match hex_decode(digits.as_str()) {
        Some(digest) => digest,
        None => return Err(FormFault::BadHex),
    };
    if digest.len() == 0 || digest.len() % 4 != 0 {
        return Err(FormFault::NotQuarters);
    }
    let least = least_arranged(digest.as_slice());
    let text = joined3(axis.as_str(), ":", hex_encode(least.as_slice()).as_str());
    assert(is_least_arranged(digest@, least@));
    Ok(copy_bytes(text.as_str().as_bytes()))
}

/// The witness of a composition: the two widths and a version, two bytes each in
/// little-endian order, then the trace.
pub open spec fn witness_of(label_width: u16, fingerprint_width: u16, trace: Seq<u8>) -> Seq<u8> {
    seq![
        (label_width % 256) as u8,
        (label_width / 256) as u8,
        (fingerprint_width % 256) as u8,
        (fingerprint_width / 256) as u8,
        1u8,
        0u8,
    ] + trace
}

/// The witness of a composition.
pub fn witness_blob(label_width: u16, fingerprint_width: u16, trace: &[u8]) -> (out: Vec<u8>)
    ensures
        out@ == witness_of(label_width, fingerprint_width, trace@),
{
    let mut out: Vec<u8> = Vec::new();
    out.push((label_width % 256) as u8);
    out.push((label_width / 256) as u8);
    out.push((fingerprint_width % 256) as u8);
    out.push((fingerprint_width / 256) as u8);
    out.push(1);
    out.push(0);
    append_bytes(&mut out, trace);
    assert(out@ =~= witness_of(label_width, fingerprint_width, trace@));
    out
}

/// Width of a label in a witness.
pub const LABEL_WIDTH: u16 = 71;

/// Width of a fingerprint in a witness.
pub const FINGERPRINT_WIDTH: u16 = 32;

// -- Laws of the canonical forms --------------------------------------------------

/// The form of a pair does not depend on the order of the two addresses.
pub proof fn law_pair_commutes(a: Seq<char>, b: Seq<char>)
    ensures
        pair_form(a, b) == pair_form(b, a),
{
    let ab = encode_utf8(a) + encode_utf8(b);
    let ba = encode_utf8(b) + encode_utf8(a);
    lemma_bytes_below_total(ab, ba);
    if bytes_below(ab, ba) && bytes_below(ba, ab) {
        lemma_bytes_below_transitive(ab, ba, ab);
        lemma_bytes_below_irreflexive(ab);
    }
}

/// An address and its complement have the same form.
pub proof fn law_mirror(axis: Axis, digest: Seq<u8>)
    requires
        digest.len() == axis_len(axis),
    ensures
        mirror_form(label_text(axis, digest)) is Some,
        mirror_form(label_text(axis, digest)) == mirror_form(
            label_text(axis, complement_of(digest)),
        ),
{
    let other = complement_of(digest);
    law_label_roundtrip(axis, digest);
    law_label_roundtrip(axis, other);
    assert(complement_of(other) =~= digest);
    let a = label_text(axis, digest);
    let b = label_text(axis, other);
    lemma_text_below_total(a, b);
    if text_below(a, b) && text_below(b, a) {
        lemma_text_below_transitive(a, b, a);
        lemma_text_below_irreflexive(a);
    }
}

/// Two addresses on one axis whose digests have the same quarters have the same
/// form, and an address has only one.
pub proof fn law_quarters(a: Seq<char>, b: Seq<char>, x: Seq<u8>, y: Seq<u8>)
    requires
        axis_text(a) == axis_text(b),
        is_quarters_form(a, x),
        is_quarters_form(b, y),
        hex_bytes(digits_text(a))->0.len() == hex_bytes(digits_text(b))->0.len(),
        forall|bytes: Seq<u8>| #[trigger]
            is_arranged(hex_bytes(digits_text(a))->0, bytes) == is_arranged(
                hex_bytes(digits_text(b))->0,
                bytes,
            ),
    ensures
        x == y,
{
    let p = hex_bytes(digits_text(a))->0;
    let q = hex_bytes(digits_text(b))->0;
    let l = choose|least: Seq<u8>| #[trigger]
        is_least_arranged(p, least) && x == encode_utf8(axis_text(a)->0 + ":"@ + hex_of(least));
    let m = choose|least: Seq<u8>| #[trigger]
        is_least_arranged(q, least) && y == encode_utf8(axis_text(b)->0 + ":"@ + hex_of(least));
    assert(is_arranged(p, m));
    assert(is_arranged(q, l));
    assert(!bytes_below(m, l));
    assert(!bytes_below(l, m));
    lemma_bytes_below_total(l, m);
}

// -- Composing ------------------------------------------------------------------

/// Why a composition was refused.
#[derive(Debug)]
pub enum ComposeError {
    /// The request is not JSON.
    NotJson,
    NoOperands,
    AxisMismatch,
    /// The operation takes this many operands.
    WrongCount(usize),
    UnknownOperation,
    /// An operand is not an address, or its axis is not known.
    Label(String),
    Form(FormFault),
    /// SHA-1 finds the traces of a collision attack.
    Collision,
}

/// Why a composition is refused.
pub enum Refusal {
    NoOperands,
    AxisMismatch,
    WrongCount(nat),
    UnknownOperation,
    Label,
    Form(FormFault),
    Collision,
}

/// Whether an error says what the refusal is.
pub open spec fn says(e: ComposeError, r: Refusal) -> bool {
    match (e, r) {
        (ComposeError::NoOperands, Refusal::NoOperands) => true,
        (ComposeError::AxisMismatch, Refusal::AxisMismatch) => true,
        (ComposeError::WrongCount(n), Refusal::WrongCount(m)) => n == m,
        (ComposeError::UnknownOperation, Refusal::UnknownOperation) => true,
        (ComposeError::Label(_), Refusal::Label) => true,
        (ComposeError::Form(f), Refusal::Form(g)) => f == g,
        (ComposeError::Collision, Refusal::Collision) => true,
        _ => false,
    }
}

/// What an error is reported as, given the operation.
pub open spec fn compose_error_text(e: ComposeError, op: Seq<char>) -> Seq<char> {
    match e {
        ComposeError::NotJson => "invalid JSON"@,
        ComposeError::NoOperands => "no operands"@,
        ComposeError::AxisMismatch => "composition operands differ in sigma-axis"@,
        ComposeError::WrongCount(n) => if n == 1 {
            op + " requires 1 operand"@
        } else {
            op + " requires "@ + decimal(n as nat) + " operands"@
        },
        ComposeError::UnknownOperation => "unknown operation"@,
        ComposeError::Label(m) => m@,
        ComposeError::Form(f) => form_fault_text(f),
        ComposeError::Collision => "sha1 collision detected"@,
    }
}

impl ComposeError {
    /// The status of the reply: operands on different axes cannot be processed,
    /// everything else is a bad request.
    pub fn status(&self) -> (out: u16)
        ensures
            out == (if self is AxisMismatch {
                422u16
            } else {
                400
            }),
    {
        match self {
            ComposeError::AxisMismatch => 422,
            _ => 400,
        }
    }

    /// The word by which a reply names the error, if it does.
    pub fn code(&self) -> (out: Option<&'static str>)
        ensures
            match out {
                Some(s) => self is AxisMismatch && s@ == "AXIS_MISMATCH"@,
                None => !(self is AxisMismatch),
            },
    {
        match self {
            ComposeError::AxisMismatch => Some("AXIS_MISMATCH"),
            _ => None,
        }
    }

    /// What the error is reported as, given the operation.
    pub fn message(&self, op: &str) -> (out: String)
        ensures
            out@ == compose_error_text(*self, op@),
    {
        match self {
            ComposeError::NotJson => "invalid JSON".to_owned(),
            ComposeError::NoOperands => "no operands".to_owned(),
            ComposeError::AxisMismatch => "composition operands differ in sigma-axis".to_owned(),
            ComposeError::WrongCount(n) => {
                if *n == 1 {
                    joined(op, " requires 1 operand")
                } else {
                    let front = joined(op, " requires ");
                    joined3(front.as_str(), decimal_text(*n as u64).as_str(), " operands")
                }
            },
            ComposeError::UnknownOperation => "unknown operation".to_owned(),
            ComposeError::Label(m) => m.clone(),
            ComposeError::Form(f) => f.message(),
            ComposeError::Collision => "sha1 collision detected".to_owned(),
        }
    }
}

/// What a composition made.
#[derive(Debug)]
pub struct Composed {
    pub composed: String,
    pub witness: String,
}

/// The axis of a composition: that of the first operand, SHA-256 where it has
/// none.
pub open spec fn shared_axis(operands: Seq<Seq<char>>) -> Seq<char> {
    match axis_text(operands[0]) {
        Some(axis) => axis,
        None => "sha256"@,
    }
}

/// Whether an operand after the first is on another axis.
pub open spec fn axes_differ(operands: Seq<Seq<char>>) -> bool {
    exists|i: int|
        1 <= i < operands.len() && axis_text(#[trigger] operands[i]) != Some(shared_axis(operands))
}

/// Number of operands that an operation takes; none for an unknown one.
pub open spec fn operand_count(op: Seq<char>) -> Option<nat> {
    if op == "g2"@ {
        Some(2)
    } else if op == "f4"@ || op == "e6"@ || op == "e7"@ || op == "e8"@ {
        Some(1)
    } else {
        None
    }
}

/// Why operands have no canonical form under an operation.
pub open spec fn form_refusal(op: Seq<char>, operands: Seq<Seq<char>>) -> Option<Refusal> {
    match operand_count(op) {
        None => Some(Refusal::UnknownOperation),
        Some(n) => if operands.len() != n {
            Some(Refusal::WrongCount(n))
        } else if op == "g2"@ {
            None
        } else if op == "f4"@ {
            if mirror_form(operands[0]) is None {
                Some(Refusal::Label)
            } else {
                None
            }
        } else if op == "e6"@ {
            match degree_form(operands[0]) {
                Ok(_) => None,
                Err(f) => Some(Refusal::Form(f)),
            }
        } else if op == "e7"@ {
            match quarters_fault(operands[0]) {
                None => None,
                Some(f) => Some(Refusal::Form(f)),
            }
        } else {
            None
        },
    }
}

/// Whether bytes are the canonical form of operands under an operation.
pub open spec fn is_form(op: Seq<char>, operands: Seq<Seq<char>>, form: Seq<u8>) -> bool {
    if op == "g2"@ {
        form == pair_form(operands[0], operands[1])
    } else if op == "f4"@ {
        mirror_form(operands[0]) == Some(form)
    } else if op == "e6"@ {
        degree_form(operands[0]) == Ok::<Seq<u8>, FormFault>(form)
    } else if op == "e7"@ {
        is_quarters_form(operands[0], form)
    } else {
        form == encode_utf8(operands[0])
    }
}

fn canonical_form(op: &str, operands: &[String]) -> (out: Result<Vec<u8>, ComposeError>)
    ensures
        match out {
            Ok(form) => form_refusal(op@, operands.deep_view()) is None && is_form(
                op@,
                operands.deep_view(),
                form@,
            ),
            Err(e) => form_refusal(op@, operands.deep_view()) is Some && says(
                e,
                form_refusal(op@, operands.deep_view())->0,
            ),
        },
{
    let n: usize = operands.len();
    proof {
        reveal_strlit("g2");
        reveal_strlit("f4");
        reveal_strlit("e6");
        reveal_strlit("e7");
        reveal_strlit("e8");
        assert("g2"@[0] == 'g' && "f4"@[0] == 'f' && "e6"@[0] == 'e' && "e7"@[0] == 'e'
            && "e8"@[0] == 'e');
        assert("e6"@[1] == '6' && "e7"@[1] == '7' && "e8"@[1] == '8');
    }
    if same_text(op, "g2") {
        if n != 2 {
            return Err(ComposeError::WrongCount(2));
        }
        return Ok(canonical_g2(operands[0].as_str(), operands[1].as_str()));
    }
    if same_text(op, "f4") {
        if n != 1 {
            return Err(ComposeError::WrongCount(1));
        }
        return match canonical_f4(operands[0].as_str()) {
            Ok(form) => Ok(form),
            Err(m) => Err(ComposeError::Label(m)),
        };
    }
    if same_text(op, "e6") {
        if n != 1 {
            return Err(ComposeError::WrongCount(1));
        }
        return match canonical_e6(operands[0].as_str()) {
            Ok(form) => Ok(form),
            Err(f) => Err(ComposeError::Form(f)),
        };
    }
    if same_text(op, "e7") {
        if n != 1 {
            return Err(ComposeError::WrongCount(1));
        }
        return match canonical_e7(operands[0].as_str()) {
            Ok(form) => Ok(form),
            Err(f) => Err(ComposeError::Form(f)),
        };
    }
    if same_text(op, "e8") {
        if n != 1 {
            return Err(ComposeError::WrongCount(1));
        }
        return Ok(copy_bytes(operands[0].as_str().as_bytes()));
    }
    Err(ComposeError::UnknownOperation)
}

/// Content ingested on an axis and marked with its type.
pub open spec fn filed_as(
    st: StoreState,
    ns: NamespaceRef,
    axis: Axis,
    content: Seq<u8>,
    kind: Seq<char>,
) -> StoreState {
    let kappa = label_text(axis, content_digest(axis, content)->0);
    typed(st.ingested(axis, kappa, content), ns, kappa, kind)
}

fn file_as(store: &mut InMemoryStore, ns: &NamespaceRef, axis: &str, content: &[u8], kind: &str) -> (out: Result<
    String,
    ComposeError,
>)
    requires
        old(store).wf(),
    ensures
        final(store).wf(),
        match out {
            Ok(kappa) => axis_named(axis@) is Some && content_digest(
                axis_named(axis@)->0,
                content@,
            ) is Some && kappa@ == label_text(
                axis_named(axis@)->0,
                content_digest(axis_named(axis@)->0, content@)->0,
            ) && final(store).state() == filed_as(
                old(store).state(),
                *ns,
                axis_named(axis@)->0,
                content@,
                kind@,
            ),
            Err(ComposeError::Label(_)) => axis_named(axis@) is None && final(store).state() == old(
                store).state(),
            Err(ComposeError::Collision) => axis_named(axis@) is Some && content_digest(
                axis_named(axis@)->0,
                content@,
            ) is None && final(store).state() == old(store).state(),
            Err(_) => false,
        },
{
    let label = match compute_kappa(axis, content) {
        Ok(label) => label,
        Err(crate::kappa::LabelError::UnknownAxis(name)) => return Err(
            ComposeError::Label(crate::text::joined("unknown axis: ", name.as_str())),
        ),
        Err(_) => return Err(ComposeError::Collision),
    };
    proof {
        label.lemma_wf();
        law_label_roundtrip(label.spec_axis(), label.spec_digest());
    }
    let kappa = label.as_str();
    let _ = store.ingest_verified(kappa, content);
    mark_type(store, ns, kappa, kind);
    Ok(kappa.to_owned())
}

/// The edge from a composition to one of its operands.
pub open spec fn operand_edge(
    composed: Seq<char>,
    operand: Seq<char>,
    op: Seq<char>,
    asserter: Seq<char>,
) -> EdgeView {
    EdgeView {
        source: composed,
        target: operand,
        relation: EdgeRelation::ComposedOf,
        asserter,
        value_kappa: None,
        metadata: Some(json_object_of(seq![("operation"@, JsonView::Text(op))])),
    }
}

/// The edge from a witness to its composition.
pub open spec fn witness_edge(witness: Seq<char>, composed: Seq<char>, asserter: Seq<char>) -> EdgeView {
    EdgeView {
        source: witness,
        target: composed,
        relation: EdgeRelation::WitnessReceipt,
        asserter,
        value_kappa: None,
        metadata: None,
    }
}

/// The edges from a composition to its operands put in place.
pub open spec fn operands_linked(
    st: StoreState,
    ns: NamespaceRef,
    composed: Seq<char>,
    operands: Seq<Seq<char>>,
    op: Seq<char>,
    asserter: Seq<char>,
) -> StoreState
    decreases operands.len(),
{
    if operands.len() == 0 {
        st
    } else {
        operands_linked(st, ns, composed, operands.drop_last(), op, asserter).edge_put(
            ns,
            operand_edge(composed, operands.last(), op, asserter),
        )
    }
}

/// A store with a composition in it: its canonical form and its witness, both
/// marked, an edge to each operand, and one from the witness.
pub open spec fn composition(
    st: StoreState,
    ns: NamespaceRef,
    axis: Axis,
    form: Seq<u8>,
    op: Seq<char>,
    operands: Seq<Seq<char>>,
    asserter: Seq<char>,
) -> StoreState {
    let trace = witness_of(LABEL_WIDTH, FINGERPRINT_WIDTH, form);
    let composed = label_text(axis, content_digest(axis, form)->0);
    let witness = label_text(axis, content_digest(axis, trace)->0);
    let stored = filed_as(
        filed_as(st, ns, axis, form, "composition"@),
        ns,
        axis,
        trace,
        "witness"@,
    );
    operands_linked(stored, ns, composed, operands, op, asserter).edge_put(
        ns,
        witness_edge(witness, composed, asserter),
    )
}

/// Whether composing did what it should, given the canonical form.
pub open spec fn composed_as(
    st: StoreState,
    after: StoreState,
    ns: NamespaceRef,
    form: Seq<u8>,
    op: Seq<char>,
    operands: Seq<Seq<char>>,
    asserter: Seq<char>,
    out: Result<Composed, ComposeError>,
) -> bool {
    let trace = witness_of(LABEL_WIDTH, FINGERPRINT_WIDTH, form);
    match axis_named(shared_axis(operands)) {
        None => out matches Err(e) && says(e, Refusal::Label) && after == st,
        Some(axis) => if content_digest(axis, form) is None {
            out matches Err(e) && says(e, Refusal::Collision) && after == st
        } else if content_digest(axis, trace) is None {
            out matches Err(e) && says(e, Refusal::Collision) && after == filed_as(
                st,
                ns,
                axis,
                form,
                "composition"@,
            )
        } else {
            out matches Ok(c) && c.composed@ == label_text(axis, content_digest(axis, form)->0)
                && c.witness@ == label_text(axis, content_digest(axis, trace)->0) && after
                == composition(st, ns, axis, form, op, operands, asserter)
        },
    }
}

/// Whether all operands after the first are on an axis.
fn on_axis(operands: &[String], axis: &str) -> (yes: bool)
    requires
        operands@.len() > 0,
        axis@ == shared_axis(operands.deep_view()),
    ensures
        yes == !axes_differ(operands.deep_view()),
{
    let ghost list = operands.deep_view();
    let mut i: usize = 1;
    while i < operands.len()
        invariant
            1 <= i <= operands@.len(),
            list == operands.deep_view(),
            list.len() == operands@.len(),
            axis@ == shared_axis(list),
            forall|j: int| 1 <= j < i ==> axis_text(#[trigger] list[j]) == Some(axis@),
        decreases operands@.len() - i,
    {
        assert(list[i as int] == operands@[i as int]@);
        let same = match axis_of(operands[i].as_str()) {
            Some(other) => same_text(other.as_str(), axis),
            None => false,
        };
        if !same {
            assert(axis_text(list[i as int]) != Some(axis@));
            return false;
        }
        i += 1;
    }
    true
}

fn link_operands(
    store: &mut InMemoryStore,
    ns: &NamespaceRef,
    composed: &str,
    operands: &[String],
    op: &str,
    asserter: &str,
)
    requires
        old(store).wf(),
    ensures
        final(store).wf(),
        final(store).state() == operands_linked(
            old(store).state(),
            *ns,
            composed@,
            operands.deep_view(),
            op@,
            asserter@,
        ),
{
    let ghost st = store.state();
    let ghost list = operands.deep_view();
    let mut k: usize = 0;
    assert(list.take(0) =~= Seq::<Seq<char>>::empty());
    while k < operands.len()
        invariant
            store.wf(),
            k <= operands@.len(),
            list == operands.deep_view(),
            list.len() == operands@.len(),
            store.state() == operands_linked(
                st,
                *ns,
                composed@,
                list.take(k as int),
                op@,
                asserter@,
            ),
        decreases operands@.len() - k,
    {
        let mut fields: Vec<(String, JsonItem)> = Vec::new();
        fields.push(("operation".to_owned(), JsonItem::Text(op.to_owned())));
        assert(json_fields(fields@) =~= seq![("operation"@, JsonView::Text(op@))]);
        let edge = Edge {
            source: composed.to_owned(),
            target: operands[k].clone(),
            relation: EdgeRelation::ComposedOf,
            asserter: asserter.to_owned(),
            value_kappa: None,
            metadata: Some(json_object(fields.as_slice())),
        };
        let _ = store.edge_put(ns, &edge);
        proof {
            assert(list[k as int] == operands@[k as int]@);
            assert(edge.deep_view() == operand_edge(composed@, list[k as int], op@, asserter@));
            assert(list.take(k + 1).drop_last() =~= list.take(k as int));
            assert(list.take(k + 1).last() == list[k as int]);
        }
        k += 1;
    }
    assert(list.take(list.len() as int) =~= list);
}

fn store_composition(
    store: &mut InMemoryStore,
    ns: &NamespaceRef,
    axis: &str,
    form: &[u8],
    op: &str,
    operands: &[String],
    asserter: &str,
) -> (out: Result<Composed, ComposeError>)
    requires
        old(store).wf(),
        axis@ == shared_axis(operands.deep_view()),
    ensures
        final(store).wf(),
        composed_as(
            old(store).state(),
            final(store).state(),
            *ns,
            form@,
            op@,
            operands.deep_view(),
            asserter@,
            out,
        ),
{
    let composed = match file_as(store, ns, axis, form, "composition") {
        Ok(kappa) => kappa,
        Err(e) => return Err(e),
    };
    let trace = witness_blob(LABEL_WIDTH, FINGERPRINT_WIDTH, form);
    let witness = match file_as(store, ns, axis, trace.as_slice(), "witness") {
        Ok(kappa) => kappa,
        Err(e) => return Err(e),
    };
    link_operands(store, ns, composed.as_str(), operands, op, asserter);
    let edge = Edge {
        source: witness.clone(),
        target: composed.clone(),
        relation: EdgeRelation::WitnessReceipt,
        asserter: asserter.to_owned(),
        value_kappa: None,
        metadata: None,
    };
    assert(edge.deep_view() == witness_edge(witness@, composed@, asserter@));
    let _ = store.edge_put(ns, &edge);
    Ok(Composed { composed, witness })
}

/// Whether composing did what it should: a refusal leaves everything as it was.
pub open spec fn compose_done(
    st: StoreState,
    after: StoreState,
    ns: NamespaceRef,
    op: Seq<char>,
    list: Seq<Seq<char>>,
    asserter: Seq<char>,
    out: Result<Composed, ComposeError>,
) -> bool {
    if list.len() == 0 {
        out matches Err(e) && says(e, Refusal::NoOperands) && after == st
    } else if axes_differ(list) {
        out matches Err(e) && says(e, Refusal::AxisMismatch) && after == st
    } else if form_refusal(op, list) is Some {
        out matches Err(e) && says(e, form_refusal(op, list)->0) && after == st
    } else {
        exists|form: Seq<u8>| #[trigger]
            is_form(op, list, form) && composed_as(st, after, ns, form, op, list, asserter, out)
    }
}

/// Composes addresses under an operation: stores the canonical form and a
/// witness of it, and links both.
pub fn compose(
    store: &mut InMemoryStore,
    ns: &NamespaceRef,
    op: &str,
    operands: &[String],
    asserter: &str,
) -> (out: Result<Composed, ComposeError>)
    requires
        old(store).wf(),
    ensures
        final(store).wf(),
        compose_done(
            old(store).state(),
            final(store).state(),
            *ns,
            op@,
            operands.deep_view(),
            asserter@,
            out,
        ),
{
    let ghost list = operands.deep_view();
    if operands.len() == 0 {
        return Err(ComposeError::NoOperands);
    }
    let axis = match axis_of(operands[0].as_str()) {
        Some(axis) => axis,
        None => "sha256".to_owned(),
    };
    assert(list[0] == operands@[0]@);
    if !on_axis(operands, axis.as_str()) {
        return Err(ComposeError::AxisMismatch);
    }
    let form = match canonical_form(op, operands) {
        Ok(form) => form,
        Err(e) => return Err(e),
    };
    assert(is_form(op@, list, form@));
    store_composition(store, ns, axis.as_str(), form.as_slice(), op, operands, asserter)
}

// -- Laws of composing -----------------------------------------------------------

/// Whether a store only gained content: what was stored stays as it was.
pub open spec fn only_gained(st: StoreState, after: StoreState) -> bool {
    forall|k: Seq<char>| #[trigger]
        st.blobs.dom().contains(k) ==> after.blobs.dom().contains(k) && after.blobs[k]
            == st.blobs[k]
}

proof fn lemma_linked_gains(
    st: StoreState,
    ns: NamespaceRef,
    composed: Seq<char>,
    operands: Seq<Seq<char>>,
    op: Seq<char>,
    asserter: Seq<char>,
)
    ensures
        only_gained(st, operands_linked(st, ns, composed, operands, op, asserter)),
    decreases operands.len(),
{
    if operands.len() > 0 {
        lemma_linked_gains(st, ns, composed, operands.drop_last(), op, asserter);
        let before = operands_linked(st, ns, composed, operands.drop_last(), op, asserter);
        lemma_put_gains(before, ns, operand_edge(composed, operands.last(), op, asserter));
        assert forall|k: Seq<char>| #[trigger]
            st.blobs.dom().contains(k) implies operands_linked(
            st,
            ns,
            composed,
            operands,
            op,
            asserter,
        ).blobs.dom().contains(k) && operands_linked(
            st,
            ns,
            composed,
            operands,
            op,
            asserter,
        ).blobs[k] == st.blobs[k] by {
            assert(before.blobs.dom().contains(k));
        }
    }
}

/// What composing stores, given that it went well.
proof fn lemma_composed(
    st: StoreState,
    after: StoreState,
    ns: NamespaceRef,
    op: Seq<char>,
    list: Seq<Seq<char>>,
    asserter: Seq<char>,
    c: Composed,
) -> (form: Seq<u8>)
    requires
        compose_done(st, after, ns, op, list, asserter, Ok(c)),
    ensures
        list.len() > 0,
        form_refusal(op, list) is None,
        is_form(op, list, form),
        ({
            let axis = axis_named(shared_axis(list));
            &&& axis is Some
            &&& content_digest(axis->0, form) is Some
            &&& c.composed@ == label_text(axis->0, content_digest(axis->0, form)->0)
            &&& content_digest(axis->0, witness_of(71, 32, form)) is Some
            &&& c.witness@ == label_text(
                axis->0,
                content_digest(axis->0, witness_of(71, 32, form))->0,
            )
        }),
        only_gained(st, after),
        after.blobs.dom().contains(c.composed@),
        !st.blobs.dom().contains(c.composed@) ==> after.blobs[c.composed@] == form,
        after.blobs.dom().contains(c.witness@),
        !st.blobs.dom().contains(c.witness@) && c.witness@ != c.composed@ && c.witness@ != kappa_of(
            form,
        ) ==> after.blobs[c.witness@] == witness_of(71, 32, form),
{
    let form = choose|form: Seq<u8>| #[trigger]
        is_form(op, list, form) && composed_as(st, after, ns, form, op, list, asserter, Ok(c));
    let axis = axis_named(shared_axis(list))->0;
    let trace = witness_of(LABEL_WIDTH, FINGERPRINT_WIDTH, form);
    let first = filed_as(st, ns, axis, form, "composition"@);
    let second = filed_as(first, ns, axis, trace, "witness"@);
    let linked = operands_linked(second, ns, c.composed@, list, op, asserter);
    lemma_linked_gains(second, ns, c.composed@, list, op, asserter);
    lemma_filed_gains(st, ns, axis, form, "composition"@);
    lemma_filed_gains(first, ns, axis, trace, "witness"@);
    lemma_put_gains(linked, ns, witness_edge(c.witness@, c.composed@, asserter));
    assert(after == linked.edge_put(ns, witness_edge(c.witness@, c.composed@, asserter)));
    assert(first.blobs.dom().contains(c.composed@));
    assert(second.blobs.dom().contains(c.composed@) && second.blobs.dom().contains(c.witness@));
    assert(linked.blobs.dom().contains(c.composed@) && linked.blobs.dom().contains(c.witness@));
    assert forall|k: Seq<char>| #[trigger] st.blobs.dom().contains(k) implies after.blobs.dom().contains(
        k,
    ) && after.blobs[k] == st.blobs[k] by {
        assert(first.blobs.dom().contains(k));
        assert(second.blobs.dom().contains(k));
        assert(linked.blobs.dom().contains(k));
    }
    form
}

/// An edge put in place leaves content as it was.
proof fn lemma_put_gains(st: StoreState, ns: NamespaceRef, edge: EdgeView)
    ensures
        only_gained(st, st.edge_put(ns, edge)),
{
}

/// Content filed is stored, beside what was.
proof fn lemma_filed_gains(
    st: StoreState,
    ns: NamespaceRef,
    axis: Axis,
    content: Seq<u8>,
    kind: Seq<char>,
)
    ensures
        ({
            let kappa = label_text(axis, content_digest(axis, content)->0);
            let after = filed_as(st, ns, axis, content, kind);
            &&& only_gained(st, after)
            &&& after.blobs.dom().contains(kappa)
            &&& !st.blobs.dom().contains(kappa) ==> after.blobs[kappa] == content
            &&& forall|k: Seq<char>| #[trigger]
                after.blobs.dom().contains(k) ==> st.blobs.dom().contains(k) || k == kappa || k
                    == kappa_of(content)
        }),
{
}

/// The parts of an address with a colon in it.
proof fn lemma_parts(name: Seq<char>, digits: Seq<char>)
    requires
        !name.contains(':'),
    ensures
        axis_text(name + ":"@ + digits) == Some(name),
        digits_text(name + ":"@ + digits) == digits,
{
    let s = name + ":"@ + digits;
    reveal_strlit(":");
    assert forall|k: int| 0 <= k < name.len() implies s[k] != ':' by {
        assert(s[k] == name[k]);
        assert(name.contains(name[k]));
    }
    crate::text::lemma_first_index(s, ':', name.len() as int);
    assert(s.take(name.len() as int) =~= name);
    assert(s.skip(name.len() as int + 1) =~= digits);
}

proof fn lemma_names_differ()
    ensures
        "g2"@ != "f4"@,
        "g2"@ != "e6"@,
        "g2"@ != "e7"@,
        "g2"@ != "e8"@,
        "f4"@ != "e6"@,
        "f4"@ != "e7"@,
        "f4"@ != "e8"@,
        "e6"@ != "e7"@,
        "e6"@ != "e8"@,
        "e7"@ != "e8"@,
{
    reveal_strlit("g2");
    reveal_strlit("f4");
    reveal_strlit("e6");
    reveal_strlit("e7");
    reveal_strlit("e8");
    assert("g2"@[0] == 'g' && "f4"@[0] == 'f' && "e6"@[0] == 'e' && "e7"@[0] == 'e' && "e8"@[0]
        == 'e');
    assert("e6"@[1] == '6' && "e7"@[1] == '7' && "e8"@[1] == '8');
}

/// Composing one address under `e8` stores that address itself, all of it, as
/// UTF-8: at the label of those bytes on the address's own axis. What is stored
/// already stays.
pub proof fn law_e8_stores_operand(
    st: StoreState,
    after: StoreState,
    ns: NamespaceRef,
    operand: Seq<char>,
    asserter: Seq<char>,
    c: Composed,
)
    requires
        compose_done(st, after, ns, "e8"@, seq![operand], asserter, Ok(c)),
    ensures
        after.blobs.dom().contains(c.composed@),
        !st.blobs.dom().contains(c.composed@) ==> after.blobs[c.composed@] == encode_utf8(operand),
        only_gained(st, after),
        forall|axis: Axis, digits: Seq<char>|
            operand == #[trigger] (axis_name(axis) + ":"@ + digits) ==> content_label(
                axis,
                encode_utf8(operand),
            ) == Some(c.composed@),
        !operand.contains(':') ==> c.composed@ == kappa_of(encode_utf8(operand)),
{
    let form = lemma_composed(st, after, ns, "e8"@, seq![operand], asserter, c);
    lemma_names_differ();
    assert(form == encode_utf8(operand));
    assert forall|axis: Axis, digits: Seq<char>|
        operand == #[trigger] (axis_name(axis) + ":"@ + digits) implies content_label(
        axis,
        encode_utf8(operand),
    ) == Some(c.composed@) by {
        law_axis_named(axis);
        lemma_no_colon(axis);
        lemma_parts(axis_name(axis), digits);
    }
    if !operand.contains(':') {
        assert forall|k: int| 0 <= k < operand.len() implies operand[k] != ':' by {
            assert(operand.contains(operand[k]));
        }
        crate::text::lemma_first_index(operand, ':', operand.len() as int);
        law_axis_named(Axis::Sha256);
        assert(axis_name(Axis::Sha256) == "sha256"@);
    }
}

/// No axis has a colon in its name.
proof fn lemma_no_colon(axis: Axis)
    ensures
        !axis_name(axis).contains(':'),
{
    reveal_strlit("sha256");
    reveal_strlit("sha512");
    reveal_strlit("blake3");
    reveal_strlit("sha3-256");
    reveal_strlit("keccak-256");
    reveal_strlit("sha1");
}

/// Composing under `e8` tells addresses apart: those that differ anywhere, in
/// axis or in digits, have different content stored for them.
pub proof fn law_e8_distinct(
    st: StoreState,
    after: StoreState,
    other_st: StoreState,
    other_after: StoreState,
    ns: NamespaceRef,
    a: Seq<char>,
    b: Seq<char>,
    asserter: Seq<char>,
    c: Composed,
    d: Composed,
)
    requires
        compose_done(st, after, ns, "e8"@, seq![a], asserter, Ok(c)),
        compose_done(other_st, other_after, ns, "e8"@, seq![b], asserter, Ok(d)),
        !st.blobs.dom().contains(c.composed@),
        !other_st.blobs.dom().contains(d.composed@),
        a != b,
    ensures
        after.blobs[c.composed@] != other_after.blobs[d.composed@],
{
    law_e8_stores_operand(st, after, ns, a, asserter, c);
    law_e8_stores_operand(other_st, other_after, ns, b, asserter, d);
    if encode_utf8(a) == encode_utf8(b) {
        lemma_utf8_injective(a, b);
    }
}

/// Composing two addresses under `g2` stores the two behind one another, in
/// whichever order gives the lesser bytes.
pub proof fn law_g2_stores_both(
    st: StoreState,
    after: StoreState,
    ns: NamespaceRef,
    a: Seq<char>,
    b: Seq<char>,
    asserter: Seq<char>,
    c: Composed,
)
    requires
        compose_done(st, after, ns, "g2"@, seq![a, b], asserter, Ok(c)),
        !st.blobs.dom().contains(c.composed@),
    ensures
        ({
            let form = after.blobs[c.composed@];
            let ab = encode_utf8(a) + encode_utf8(b);
            let ba = encode_utf8(b) + encode_utf8(a);
            &&& form == ab || form == ba
            &&& !bytes_below(ab, form) && !bytes_below(ba, form)
        }),
        axis_text(b) == Some(shared_axis(seq![a])),
{
    let form = lemma_composed(st, after, ns, "g2"@, seq![a, b], asserter, c);
    let ab = encode_utf8(a) + encode_utf8(b);
    let ba = encode_utf8(b) + encode_utf8(a);
    lemma_bytes_below_irreflexive(ab);
    lemma_bytes_below_irreflexive(ba);
    if bytes_below(ab, ba) && bytes_below(ba, ab) {
        lemma_bytes_below_transitive(ab, ba, ab);
    }
    let list = seq![a, b];
    assert(list[1] == b && list[0] == a);
    assert(shared_axis(list) == shared_axis(seq![a]));
    if axis_text(list[1]) != Some(shared_axis(list)) {
        assert(axes_differ(list));
    }
}

/// Composing an address under `f4` stores the address or the one whose digest
/// has every bit turned over, whichever is the lesser.
pub proof fn law_f4_stores_lesser(
    st: StoreState,
    after: StoreState,
    ns: NamespaceRef,
    axis: Axis,
    digest: Seq<u8>,
    asserter: Seq<char>,
    c: Composed,
)
    requires
        digest.len() == axis_len(axis),
        compose_done(st, after, ns, "f4"@, seq![label_text(axis, digest)], asserter, Ok(c)),
        !st.blobs.dom().contains(c.composed@),
    ensures
        ({
            let form = after.blobs[c.composed@];
            let a = label_text(axis, digest);
            let b = label_text(axis, Seq::new(digest.len(), |i: int| (255 - digest[i]) as u8));
            &&& form == encode_utf8(a) || form == encode_utf8(b)
            &&& text_below(a, b) ==> form == encode_utf8(a)
            &&& text_below(b, a) ==> form == encode_utf8(b)
        }),
{
    let a = label_text(axis, digest);
    let b = label_text(axis, Seq::new(digest.len(), |i: int| (255 - digest[i]) as u8));
    let form = lemma_composed(st, after, ns, "f4"@, seq![a], asserter, c);
    lemma_names_differ();
    law_label_roundtrip(axis, digest);
    if text_below(a, b) && text_below(b, a) {
        lemma_text_below_transitive(a, b, a);
        lemma_text_below_irreflexive(a);
    }
}

/// Composing an address under `e6` stores a byte for its degree, five where the
/// first byte of the digest leaves at most seven when divided by nine and six
/// otherwise, and behind it the address.
pub proof fn law_e6_stores_degree(
    st: StoreState,
    after: StoreState,
    ns: NamespaceRef,
    name: Seq<char>,
    digest: Seq<u8>,
    asserter: Seq<char>,
    c: Composed,
)
    requires
        !name.contains(':'),
        digest.len() > 0,
        compose_done(
            st,
            after,
            ns,
            "e6"@,
            seq![name + ":"@ + hex_of(digest)],
            asserter,
            Ok(c),
        ),
        !st.blobs.dom().contains(c.composed@),
    ensures
        after.blobs[c.composed@].len() == 1 + encode_utf8(name + ":"@ + hex_of(digest)).len(),
        after.blobs[c.composed@][0] == 5 <==> digest[0] % 9 != 8,
        after.blobs[c.composed@][0] == 6 <==> digest[0] % 9 == 8,
        after.blobs[c.composed@].skip(1) == encode_utf8(name + ":"@ + hex_of(digest)),
{
    let a = name + ":"@ + hex_of(digest);
    let form = lemma_composed(st, after, ns, "e6"@, seq![a], asserter, c);
    lemma_names_differ();
    lemma_parts(name, hex_of(digest));
    law_hex_roundtrip(digest);
    assert(form.skip(1) =~= encode_utf8(a));
}

/// Composing an address under `e7` stores an address on the same axis whose
/// digest has the same four quarters, and no order of them makes lesser bytes.
pub proof fn law_e7_stores_least(
    st: StoreState,
    after: StoreState,
    ns: NamespaceRef,
    name: Seq<char>,
    digest: Seq<u8>,
    asserter: Seq<char>,
    c: Composed,
) -> (least: Seq<u8>)
    requires
        !name.contains(':'),
        compose_done(
            st,
            after,
            ns,
            "e7"@,
            seq![name + ":"@ + hex_of(digest)],
            asserter,
            Ok(c),
        ),
        !st.blobs.dom().contains(c.composed@),
    ensures
        after.blobs[c.composed@] == encode_utf8(name + ":"@ + hex_of(least)),
        digest.len() > 0 && digest.len() % 4 == 0,
        is_arranged(digest, least),
        !bytes_below(digest, least),
        forall|other: Seq<u8>| #[trigger]
            is_arranged(digest, other) ==> !bytes_below(other, least),
{
    let a = name + ":"@ + hex_of(digest);
    let form = lemma_composed(st, after, ns, "e7"@, seq![a], asserter, c);
    lemma_names_differ();
    lemma_parts(name, hex_of(digest));
    law_hex_roundtrip(digest);
    let least = choose|least: Seq<u8>| #[trigger]
        is_least_arranged(digest, least) && form == encode_utf8(name + ":"@ + hex_of(least));
    lemma_as_it_is(digest);
    assert(is_order(0, 1, 2, 3));
    assert(!bytes_below(arranged(digest, 0, 1, 2, 3), least));
    assert forall|other: Seq<u8>| #[trigger] is_arranged(digest, other) implies !bytes_below(
        other,
        least,
    ) by {
        let (a, b, c, d) = choose|a: int, b: int, c: int, d: int|
            is_order(a, b, c, d) && other == #[trigger] arranged(digest, a, b, c, d);
        assert(!bytes_below(arranged(digest, a, b, c, d), least));
    }
    least
}

/// The quarters in their order are the digest.
proof fn lemma_as_it_is(digest: Seq<u8>)
    requires
        digest.len() % 4 == 0,
    ensures
        arranged(digest, 0, 1, 2, 3) == digest,
{
    let q = (digest.len() / 4) as int;
    assert(q * 4 == digest.len());
    assert(quarter(digest, 0) == digest.subrange(0, q));
    assert(quarter(digest, 1) == digest.subrange(q, 2 * q));
    assert(quarter(digest, 2) == digest.subrange(2 * q, 3 * q));
    assert(quarter(digest, 3) == digest.subrange(3 * q, 4 * q));
    assert(arranged(digest, 0, 1, 2, 3) =~= digest);
}

/// The witness of a composition is six bytes and the content stored for the
/// composition: the widths of a label and of a fingerprint, and the version. It
/// leads to the composition, by the asserter.
pub proof fn law_witness_stored(
    st: StoreState,
    after: StoreState,
    ns: NamespaceRef,
    op: Seq<char>,
    list: Seq<Seq<char>>,
    asserter: Seq<char>,
    c: Composed,
    query: EdgeQuery,
)
    requires
        compose_done(st, after, ns, op, list, asserter, Ok(c)),
        !st.blobs.dom().contains(c.composed@),
        !st.blobs.dom().contains(c.witness@),
        c.witness@ != c.composed@,
        c.witness@ != kappa_of(after.blobs[c.composed@]),
        query.anchor@ == c.witness@,
        query.direction == Direction::Outbound,
        query.relation == Some(EdgeRelation::WitnessReceipt),
        query.asserter is None,
    ensures
        after.blobs[c.witness@] == seq![71u8, 0, 32, 0, 1, 0] + after.blobs[c.composed@],
        exists|e: EdgeView| #[trigger]
            after.edge_query(ns, query).contains(e) && e.source == c.witness@ && e.target
                == c.composed@ && e.asserter == asserter,
{
    let form = lemma_composed(st, after, ns, op, list, asserter, c);
    assert(witness_of(71, 32, form) =~= seq![71u8, 0, 32, 0, 1, 0] + form);
    let axis = axis_named(shared_axis(list))->0;
    let trace = witness_of(LABEL_WIDTH, FINGERPRINT_WIDTH, form);
    let again = choose|form: Seq<u8>| #[trigger]
        is_form(op, list, form) && composed_as(st, after, ns, form, op, list, asserter, Ok(c));
    let other = witness_of(LABEL_WIDTH, FINGERPRINT_WIDTH, again);
    let stored = filed_as(
        filed_as(st, ns, axis, again, "composition"@),
        ns,
        axis,
        other,
        "witness"@,
    );
    let linked = operands_linked(stored, ns, c.composed@, list, op, asserter);
    let edge = witness_edge(c.witness@, c.composed@, asserter);
    assert(after == linked.edge_put(ns, edge));
    crate::store::edges::law_edge_put_query(linked, ns, edge, query);
}

/// Where the edge to an operand is filed.
spec fn operand_place(composed: Seq<char>, operand: Seq<char>, op: Seq<char>, asserter: Seq<char>) -> u64 {
    name_hash(StoreState::edge_kappa(operand_edge(composed, operand, op, asserter)))
}

/// Whether every edge of a namespace is one to an operand, filed in its place.
spec fn only_operands(
    st: StoreState,
    id: Seq<u8>,
    composed: Seq<char>,
    operands: Seq<Seq<char>>,
    op: Seq<char>,
    asserter: Seq<char>,
) -> bool {
    forall|h: u64| #[trigger]
        st.edges.dom().contains((id, h)) ==> exists|j: int|
            0 <= j < operands.len() && h == operand_place(
                composed,
                #[trigger] operands[j],
                op,
                asserter,
            ) && st.edges[(id, h)] == operand_edge(composed, operands[j], op, asserter)
}

/// Whether the edge to an operand is listed at the composition.
spec fn is_linked(st: StoreState, id: Seq<u8>, composed: Seq<char>, h: u64) -> bool {
    exists|i: int|
        0 <= i < listed(st.fwd, (id, name_hash(composed))).len() && name_hash(
            #[trigger] listed(st.fwd, (id, name_hash(composed)))[i],
        ) == h
}

proof fn lemma_linked(
    st: StoreState,
    ns: NamespaceRef,
    composed: Seq<char>,
    operands: Seq<Seq<char>>,
    op: Seq<char>,
    asserter: Seq<char>,
)
    requires
        forall|h: u64| !(#[trigger] st.edges.dom().contains((ns.id(), h))),
    ensures
        ({
            let after = operands_linked(st, ns, composed, operands, op, asserter);
            &&& only_operands(after, ns.id(), composed, operands, op, asserter)
            &&& forall|i: int|
                0 <= i < operands.len() ==> {
                    let h = operand_place(composed, #[trigger] operands[i], op, asserter);
                    &&& is_linked(after, ns.id(), composed, h)
                    &&& after.edges.dom().contains((ns.id(), h))
                }
        }),
    decreases operands.len(),
{
    if operands.len() > 0 {
        let id = ns.id();
        let front = operands.drop_last();
        lemma_linked(st, ns, composed, front, op, asserter);
        let before = operands_linked(st, ns, composed, front, op, asserter);
        let after = operands_linked(st, ns, composed, operands, op, asserter);
        let edge = operand_edge(composed, operands.last(), op, asserter);
        let kappa = StoreState::edge_kappa(edge);
        let here = before.ensured(ns).put_blob(kappa, crate::canonical::edge_blob(edge));
        let key = (id, name_hash(composed));
        let list = listed(here.fwd, key);
        let place = operand_place(composed, operands.last(), op, asserter);
        assert(here.edges == before.edges && here.fwd == before.fwd);
        lemma_find_relationship(here, id, list, edge);
        if let Some(k) = here.find_relationship(id, list, edge) {
            assert(before.edges.dom().contains((id, name_hash(k))));
            let j = choose|j: int|
                0 <= j < front.len() && name_hash(k) == operand_place(
                    composed,
                    #[trigger] front[j],
                    op,
                    asserter,
                ) && before.edges[(id, name_hash(k))] == operand_edge(
                    composed,
                    front[j],
                    op,
                    asserter,
                );
            assert(name_hash(k) == place);
            let i = choose|i: int| 0 <= i < list.len() && list[i] == k;
            assert(name_hash(listed(after.fwd, key)[i]) == place);
        } else {
            assert(listed(after.fwd, key) == list.push(kappa));
            assert(name_hash(listed(after.fwd, key)[list.len() as int]) == place);
        }
        assert(after.edges == before.edges.insert((id, place), edge));
        assert(operands[operands.len() - 1] == operands.last());
        assert forall|h: u64| #[trigger] after.edges.dom().contains((id, h)) implies exists|j: int|
            0 <= j < operands.len() && h == operand_place(
                composed,
                #[trigger] operands[j],
                op,
                asserter,
            ) && after.edges[(id, h)] == operand_edge(composed, operands[j], op, asserter) by {
            if h == place {
                assert(h == operand_place(composed, operands[operands.len() - 1], op, asserter));
            } else {
                assert(before.edges.dom().contains((id, h)));
                let j = choose|j: int|
                    0 <= j < front.len() && h == operand_place(
                        composed,
                        #[trigger] front[j],
                        op,
                        asserter,
                    ) && before.edges[(id, h)] == operand_edge(composed, front[j], op, asserter);
                assert(operands[j] == front[j]);
            }
        }
        assert forall|i: int| 0 <= i < operands.len() implies ({
            let h = operand_place(composed, #[trigger] operands[i], op, asserter);
            &&& is_linked(after, id, composed, h)
            &&& after.edges.dom().contains((id, h))
        }) by {
            if i < front.len() {
                assert(front[i] == operands[i]);
                let h = operand_place(composed, front[i], op, asserter);
                assert(is_linked(before, id, composed, h));
                let n = choose|n: int|
                    0 <= n < listed(before.fwd, key).len() && name_hash(
                        #[trigger] listed(before.fwd, key)[n],
                    ) == h;
                assert(listed(after.fwd, key)[n] == listed(before.fwd, key)[n]);
            }
        }
    }
}

/// A composition in a namespace without edges leads to each of its operands, by
/// the asserter: where no two of the new edges share a hash.
pub proof fn law_operands_linked(
    st: StoreState,
    after: StoreState,
    ns: NamespaceRef,
    op: Seq<char>,
    list: Seq<Seq<char>>,
    asserter: Seq<char>,
    c: Composed,
    i: int,
    query: EdgeQuery,
)
    requires
        compose_done(st, after, ns, op, list, asserter, Ok(c)),
        forall|h: u64| !(#[trigger] st.edges.dom().contains((ns.id(), h))),
        0 <= i < list.len(),
        forall|j: int|
            0 <= j < list.len() && #[trigger] list[j] != list[i] ==> name_hash(
                StoreState::edge_kappa(operand_edge(c.composed@, list[j], op, asserter)),
            ) != name_hash(
                StoreState::edge_kappa(operand_edge(c.composed@, list[i], op, asserter)),
            ),
        name_hash(StoreState::edge_kappa(witness_edge(c.witness@, c.composed@, asserter)))
            != name_hash(
            StoreState::edge_kappa(operand_edge(c.composed@, list[i], op, asserter)),
        ),
        query.anchor@ == c.composed@,
        query.direction == Direction::Outbound,
        query.relation == Some(EdgeRelation::ComposedOf),
        query.asserter is None,
    ensures
        exists|e: EdgeView| #[trigger]
            after.edge_query(ns, query).contains(e) && e.source == c.composed@ && e.target
                == list[i] && e.relation == EdgeRelation::ComposedOf && e.asserter == asserter,
{
    let id = ns.id();
    let form = choose|form: Seq<u8>| #[trigger]
        is_form(op, list, form) && composed_as(st, after, ns, form, op, list, asserter, Ok(c));
    let axis = axis_named(shared_axis(list))->0;
    let trace = witness_of(LABEL_WIDTH, FINGERPRINT_WIDTH, form);
    let stored = filed_as(
        filed_as(st, ns, axis, form, "composition"@),
        ns,
        axis,
        trace,
        "witness"@,
    );
    let linked = operands_linked(stored, ns, c.composed@, list, op, asserter);
    let edge = witness_edge(c.witness@, c.composed@, asserter);
    let kappa = StoreState::edge_kappa(edge);
    let here = linked.ensured(ns).put_blob(kappa, crate::canonical::edge_blob(edge));
    let h = operand_place(c.composed@, list[i], op, asserter);
    let want = operand_edge(c.composed@, list[i], op, asserter);
    let key = (id, name_hash(c.composed@));
    assert(stored.edges == st.edges);
    assert(after == linked.edge_put(ns, edge));
    lemma_linked(stored, ns, c.composed@, list, op, asserter);
    assert(linked.edges[(id, h)] == want) by {
        assert(linked.edges.dom().contains((id, h)));
        let j = choose|j: int|
            0 <= j < list.len() && h == operand_place(
                c.composed@,
                #[trigger] list[j],
                op,
                asserter,
            ) && linked.edges[(id, h)] == operand_edge(c.composed@, list[j], op, asserter);
        assert(list[j] == list[i]);
    }
    let from = listed(here.fwd, (id, name_hash(edge.source)));
    assert(here.edges == linked.edges && here.fwd == linked.fwd);
    lemma_find_relationship(here, id, from, edge);
    assert(after.edges.dom().contains((id, h)) && after.edges[(id, h)] == want);
    assert(is_linked(linked, id, c.composed@, h));
    let n = choose|n: int|
        0 <= n < listed(linked.fwd, key).len() && name_hash(
            #[trigger] listed(linked.fwd, key)[n],
        ) == h;
    assert(listed(after.fwd, key)[n] == listed(linked.fwd, key)[n]);
    crate::store::edges::lemma_edges_at_contains(
        after,
        id,
        listed(after.fwd, key),
        query.relation,
        None,
        n,
    );
    assert(after.edge_query(ns, query).contains(want));
}

/// Composing goes well on every list of addresses on one known axis that the
/// operation has a form for, where their digests can be had; and a refusal
/// leaves the store as it was.
pub proof fn law_composing_refused(
    st: StoreState,
    after: StoreState,
    ns: NamespaceRef,
    op: Seq<char>,
    list: Seq<Seq<char>>,
    asserter: Seq<char>,
    out: Result<Composed, ComposeError>,
)
    requires
        compose_done(st, after, ns, op, list, asserter, out),
    ensures
        list.len() == 0 ==> (out matches Err(ComposeError::NoOperands)),
        op != "g2"@ && op != "f4"@ && op != "e6"@ && op != "e7"@ && op != "e8"@ ==> out is Err,
        op == "g2"@ && list.len() != 2 || op != "g2"@ && list.len() != 1 ==> out is Err,
        (exists|i: int|
            0 < i < list.len() && axis_text(list[0]) is Some && axis_text(#[trigger] list[i])
                != axis_text(list[0])) ==> (out matches Err(ComposeError::AxisMismatch)),
        out matches Err(e) && !(e is Collision) ==> after == st,
{
    if list.len() > 0 && (exists|i: int|
        0 < i < list.len() && axis_text(list[0]) is Some && axis_text(#[trigger] list[i])
            != axis_text(list[0])) {
        assert(axes_differ(list));
    }
}

/// The witness that an address has: the source of the first receipt that leads
/// to it.
pub open spec fn witness_source(st: StoreState, ns: NamespaceRef, kappa: Seq<char>) -> Option<Seq<char>> {
    let receipts = st.edges_at(
        ns.id(),
        crate::store::state::listed(st.rev, (ns.id(), crate::types::name_hash(kappa))),
        Some(EdgeRelation::WitnessReceipt),
        None,
    );
    if receipts.len() == 0 {
        None
    } else {
        Some(receipts[0].source)
    }
}

/// The address and the content of the witness of a composition.
pub fn witness(store: &InMemoryStore, ns: &NamespaceRef, kappa: &str) -> (out: Result<
    (String, Vec<u8>),
    StoreError,
>)
    requires
        store.wf(),
    ensures
        match (out, witness_source(store.state(), *ns, kappa@)) {
            (Ok((w, content)), Some(source)) => w@ == source && store.state().blobs.dom().contains(
                source,
            ) && content@ == store.state().blobs[source],
            (Err(StoreError::NotFound(k)), Some(source)) => !store.state().blobs.dom().contains(
                source,
            ) && k@ == source,
            (Err(StoreError::NotFound(k)), None) => k@ == kappa@,
            _ => false,
        },
{
    let query = EdgeQuery {
        anchor: kappa.to_owned(),
        direction: Direction::Inbound,
        relation: Some(EdgeRelation::WitnessReceipt),
        asserter: None,
    };
    let edges = match store.edge_query(ns, &query) {
        Ok(edges) => edges,
        Err(e) => return Err(e),
    };
    if edges.len() == 0 {
        return Err(StoreError::NotFound(kappa.to_owned()));
    }
    assert(edges.deep_view()[0] == edges@[0].deep_view());
    match store.blob_get(edges[0].source.as_str()) {
        Ok(content) => Ok((edges[0].source.clone(), content)),
        Err(e) => Err(e),
    }
}

proof fn lemma_linked_inbound(
    st: StoreState,
    ns: NamespaceRef,
    composed: Seq<char>,
    operands: Seq<Seq<char>>,
    op: Seq<char>,
    asserter: Seq<char>,
    g: u64,
)
    requires
        forall|i: int| 0 <= i < operands.len() ==> name_hash(#[trigger] operands[i]) != g,
    ensures
        listed(
            operands_linked(st, ns, composed, operands, op, asserter).rev,
            (ns.id(), g),
        ) == listed(st.rev, (ns.id(), g)),
    decreases operands.len(),
{
    if operands.len() > 0 {
        let front = operands.drop_last();
        assert forall|i: int| 0 <= i < front.len() implies name_hash(#[trigger] front[i]) != g by {
            assert(front[i] == operands[i]);
        }
        lemma_linked_inbound(st, ns, composed, front, op, asserter, g);
        assert(name_hash(operands[operands.len() - 1]) != g);
    }
}

/// The witness that a composition is asked for is the one that composing gave, where
/// the namespace had no edges, nothing led to the composition yet, and no operand
/// shares its hash.
pub proof fn law_witness_found(
    st: StoreState,
    after: StoreState,
    ns: NamespaceRef,
    op: Seq<char>,
    list: Seq<Seq<char>>,
    asserter: Seq<char>,
    c: Composed,
)
    requires
        compose_done(st, after, ns, op, list, asserter, Ok(c)),
        forall|h: u64| !(#[trigger] st.edges.dom().contains((ns.id(), h))),
        listed(st.rev, (ns.id(), name_hash(c.composed@))).len() == 0,
        forall|i: int|
            0 <= i < list.len() ==> name_hash(#[trigger] list[i]) != name_hash(c.composed@),
    ensures
        witness_source(after, ns, c.composed@) == Some(c.witness@),
{
    let id = ns.id();
    let g = name_hash(c.composed@);
    let form = choose|form: Seq<u8>| #[trigger]
        is_form(op, list, form) && composed_as(st, after, ns, form, op, list, asserter, Ok(c));
    let axis = axis_named(shared_axis(list))->0;
    let trace = witness_of(LABEL_WIDTH, FINGERPRINT_WIDTH, form);
    let stored = filed_as(
        filed_as(st, ns, axis, form, "composition"@),
        ns,
        axis,
        trace,
        "witness"@,
    );
    let linked = operands_linked(stored, ns, c.composed@, list, op, asserter);
    let edge = witness_edge(c.witness@, c.composed@, asserter);
    let kappa = StoreState::edge_kappa(edge);
    let here = linked.ensured(ns).put_blob(kappa, crate::canonical::edge_blob(edge));
    assert(stored.edges == st.edges && stored.rev == st.rev);
    assert(after == linked.edge_put(ns, edge));
    lemma_linked(stored, ns, c.composed@, list, op, asserter);
    lemma_linked_inbound(stored, ns, c.composed@, list, op, asserter, g);
    let from = listed(here.fwd, (id, name_hash(edge.source)));
    assert(here.edges == linked.edges && here.fwd == linked.fwd && here.rev == linked.rev);
    lemma_find_relationship(here, id, from, edge);
    if let Some(k) = here.find_relationship(id, from, edge) {
        assert(linked.edges.dom().contains((id, name_hash(k))));
    }
    assert(here.find_relationship(id, from, edge) is None);
    let now = listed(after.rev, (id, g));
    assert(now =~= seq![kappa]);
    assert(now.drop_last() =~= Seq::<Seq<char>>::empty());
    let found = after.edges_at(id, now, Some(EdgeRelation::WitnessReceipt), None);
    assert(after.edges_at(
        id,
        Seq::<Seq<char>>::empty(),
        Some(EdgeRelation::WitnessReceipt),
        None,
    ).len() == 0);
    assert(found.len() == 1 && found[0] == edge);
}

} // verus!
