//! Content addresses: `axis:digest`, the digest in lower-case hexadecimal.

use vstd::prelude::*;

use crate::bytes::{copy_bytes, same_bytes};
use crate::digest::{
    blake3_hash, git_digest, keccak256, sha256, sha3_256, sha512,
};
use crate::git::object::HashKind;
use crate::hexadecimal::{hex_decode, hex_encode};
use crate::text::{joined3, same_text, split_once};

verus! {

/// A hash function that content can be addressed by.
#[derive(Debug, Clone, Copy, PartialEq, Eq, Structural)]
pub enum Axis {
    Sha256,
    Sha512,
    Blake3,
    Sha3,
    Keccak,
    Sha1,
}

/// Name of an axis, as it stands before the colon.
pub open spec fn axis_name(axis: Axis) -> Seq<char> {
    match axis {
        Axis::Sha256 => "sha256"@,
        Axis::Sha512 => "sha512"@,
        Axis::Blake3 => "blake3"@,
        Axis::Sha3 => "sha3-256"@,
        Axis::Keccak => "keccak-256"@,
        Axis::Sha1 => "sha1"@,
    }
}

/// Length of an axis's digests.
pub open spec fn axis_len(axis: Axis) -> nat {
    match axis {
        Axis::Sha512 => 64,
        Axis::Sha1 => 20,
        _ => 32,
    }
}

/// The axis with a given name.
pub open spec fn axis_named(name: Seq<char>) -> Option<Axis> {
    if name == axis_name(Axis::Sha256) {
        Some(Axis::Sha256)
    } else if name == axis_name(Axis::Sha512) {
        Some(Axis::Sha512)
    } else if name == axis_name(Axis::Blake3) {
        Some(Axis::Blake3)
    } else if name == axis_name(Axis::Sha3) {
        Some(Axis::Sha3)
    } else if name == axis_name(Axis::Keccak) {
        Some(Axis::Keccak)
    } else if name == axis_name(Axis::Sha1) {
        Some(Axis::Sha1)
    } else {
        None
    }
}

/// The digest of content on an axis; none where SHA-1 finds the traces of a
/// collision attack.
pub open spec fn content_digest(axis: Axis, content: Seq<u8>) -> Option<Seq<u8>> {
    match axis {
        Axis::Sha256 => Some(crate::digest::sha256_of(content)),
        Axis::Sha512 => Some(crate::digest::sha512_of(content)),
        Axis::Blake3 => Some(crate::digest::blake3_of(content)),
        Axis::Sha3 => Some(crate::digest::sha3_256_of(content)),
        Axis::Keccak => Some(crate::digest::keccak256_of(content)),
        Axis::Sha1 => crate::digest::git_digest_of(HashKind::Sha1, content),
    }
}

/// The label for a digest.
pub open spec fn label_text(axis: Axis, digest: Seq<u8>) -> Seq<char> {
    axis_name(axis) + seq![':'] + crate::hexadecimal::hex_of(digest)
}

/// The label of content on an axis.
pub open spec fn content_label(axis: Axis, content: Seq<u8>) -> Option<Seq<char>> {
    match content_digest(axis, content) {
        Some(digest) => Some(label_text(axis, digest)),
        None => None,
    }
}

/// The SHA-256 label of content.
pub open spec fn kappa_of(content: Seq<u8>) -> Seq<char> {
    label_text(Axis::Sha256, crate::digest::sha256_of(content))
}

/// The axis and digest of a well-formed label: a known axis, a colon, and as
/// many lower-case hexadecimal digits as the axis's digests have.
pub open spec fn label_parts(text: Seq<char>) -> Option<(Axis, Seq<u8>)> {
    match crate::text::split_once_spec(text, ':') {
        None => None,
        Some((name, digits)) => match axis_named(name) {
            None => None,
            Some(axis) => match crate::hexadecimal::hex_bytes(digits) {
                None => None,
                Some(digest) => if digest.len() == axis_len(axis)
                    && crate::hexadecimal::hex_of(digest) == digits {
                    Some((axis, digest))
                } else {
                    None
                },
            },
        },
    }
}

/// Why a label or content was refused.
#[derive(Debug)]
pub enum LabelError {
    /// The label holds no colon.
    NoSeparator,
    /// The axis is none that content can be addressed by.
    UnknownAxis(String),
    /// What follows the colon is not a digest of the axis.
    BadDigest,
    /// SHA-1 found the traces of a collision attack.
    CollisionDetected,
    /// The content has another digest than the label claims.
    DigestMismatch { expected: String, computed: String, axis: String },
}

/// What a label error is reported as.
pub open spec fn label_error_text(e: LabelError) -> Seq<char> {
    match e {
        LabelError::NoSeparator => "no separator in label"@,
        LabelError::UnknownAxis(axis) => "unknown axis: "@ + axis@,
        LabelError::BadDigest => "malformed digest in label"@,
        LabelError::CollisionDetected => "sha1 collision detected"@,
        LabelError::DigestMismatch { expected, computed, axis } => "digest mismatch on "@ + axis@
            + ": expected "@ + expected@ + (", computed "@ + computed@),
    }
}

impl LabelError {
    /// What went wrong, in words.
    pub fn message(&self) -> (out: String)
        ensures
            out@ == label_error_text(*self),
    {
        match self {
            LabelError::NoSeparator => "no separator in label".to_owned(),
            LabelError::UnknownAxis(axis) => crate::text::joined("unknown axis: ", axis.as_str()),
            LabelError::BadDigest => "malformed digest in label".to_owned(),
            LabelError::CollisionDetected => "sha1 collision detected".to_owned(),
            LabelError::DigestMismatch { expected, computed, axis } => {
                let head = joined3("digest mismatch on ", axis.as_str(), ": expected ");
                joined3(
                    head.as_str(),
                    expected.as_str(),
                    crate::text::joined(", computed ", computed.as_str()).as_str(),
                )
            },
        }
    }
}

proof fn lemma_axis_names_distinct()
    ensures
        forall|a: Axis, b: Axis| #[trigger] axis_name(a) == #[trigger] axis_name(b) ==> a == b,
        forall|a: Axis, i: int| 0 <= i < axis_name(a).len() ==> #[trigger] axis_name(a)[i] != ':',
{
    reveal_strlit("sha256");
    reveal_strlit("sha512");
    reveal_strlit("blake3");
    reveal_strlit("sha3-256");
    reveal_strlit("keccak-256");
    reveal_strlit("sha1");
    assert("sha256"@[3] == '2' && "sha512"@[3] == '5' && "blake3"@[3] == 'k');
    assert("sha256"@.len() == 6 && "sha512"@.len() == 6 && "blake3"@.len() == 6);
    assert("sha3-256"@.len() == 8 && "keccak-256"@.len() == 10 && "sha1"@.len() == 4);
    assert forall|a: Axis, b: Axis| #[trigger] axis_name(a) == #[trigger] axis_name(
        b,
    ) implies a == b by {
        assert(axis_name(a)[3] == axis_name(b)[3]);
    }
}

/// The name of an axis names that axis.
pub proof fn law_axis_named(axis: Axis)
    ensures
        axis_named(axis_name(axis)) == Some(axis),
{
    lemma_axis_names_distinct();
}

/// Reading a label that was written gives its axis and digest back.
pub proof fn law_label_roundtrip(axis: Axis, digest: Seq<u8>)
    requires
        digest.len() == axis_len(axis),
    ensures
        label_parts(label_text(axis, digest)) == Some((axis, digest)),
{
    let text = label_text(axis, digest);
    let n = axis_name(axis).len() as int;
    lemma_axis_names_distinct();
    assert forall|k: int| 0 <= k < n implies text[k] != ':' by {
        assert(text[k] == axis_name(axis)[k]);
    }
    crate::text::lemma_first_index(text, ':', n);
    assert(text.take(n) =~= axis_name(axis));
    assert(text.skip(n + 1) =~= crate::hexadecimal::hex_of(digest));
    crate::hexadecimal::law_hex_roundtrip(digest);
}

/// Two contents with the same label have the same digest on the same axis.
pub proof fn law_same_label_same_digest(a: Axis, x: Seq<u8>, b: Axis, y: Seq<u8>)
    requires
        x.len() == axis_len(a),
        y.len() == axis_len(b),
        label_text(a, x) == label_text(b, y),
    ensures
        a == b,
        x == y,
{
    law_label_roundtrip(a, x);
    law_label_roundtrip(b, y);
}

impl Axis {
    /// Name of the axis.
    pub fn as_str(&self) -> (out: &'static str)
        ensures
            out@ == axis_name(*self),
    {
        match self {
            Axis::Sha256 => "sha256",
            Axis::Sha512 => "sha512",
            Axis::Blake3 => "blake3",
            Axis::Sha3 => "sha3-256",
            Axis::Keccak => "keccak-256",
            Axis::Sha1 => "sha1",
        }
    }

    /// The axis with a given name.
    pub fn parse(name: &str) -> (out: Option<Axis>)
        ensures
            out == axis_named(name@),
    {
        if same_text(name, "sha256") {
            Some(Axis::Sha256)
        } else if same_text(name, "sha512") {
            Some(Axis::Sha512)
        } else if same_text(name, "blake3") {
            Some(Axis::Blake3)
        } else if same_text(name, "sha3-256") {
            Some(Axis::Sha3)
        } else if same_text(name, "keccak-256") {
            Some(Axis::Keccak)
        } else if same_text(name, "sha1") {
            Some(Axis::Sha1)
        } else {
            None
        }
    }

    fn digest(&self, content: &[u8]) -> (out: Option<Vec<u8>>)
        ensures
            match out {
                Some(d) => content_digest(*self, content@) == Some(d@) && d@.len() == axis_len(
                    *self,
                ),
                None => content_digest(*self, content@) is None && *self == Axis::Sha1,
            },
    {
        match self {
            Axis::Sha256 => Some(copy_bytes(sha256(content).as_slice())),
            Axis::Sha512 => Some(copy_bytes(sha512(content).as_slice())),
            Axis::Blake3 => Some(copy_bytes(blake3_hash(content).as_slice())),
            Axis::Sha3 => Some(copy_bytes(sha3_256(content).as_slice())),
            Axis::Keccak => Some(copy_bytes(keccak256(content).as_slice())),
            Axis::Sha1 => git_digest(HashKind::Sha1, content),
        }
    }

    fn digest_len(&self) -> (n: usize)
        ensures
            n == axis_len(*self),
    {
        match self {
            Axis::Sha512 => 64,
            Axis::Sha1 => 20,
            _ => 32,
        }
    }
}

/// A well-formed content address.
#[derive(Debug)]
pub struct KappaLabel {
    axis: Axis,
    digest: Vec<u8>,
    text: String,
}

impl KappaLabel {
    /// The text is the label of the digest, which has the axis's length.
    pub closed spec fn wf(&self) -> bool {
        &&& self.digest@.len() == axis_len(self.axis)
        &&& self.text@ == label_text(self.axis, self.digest@)
    }

    pub closed spec fn spec_axis(&self) -> Axis {
        self.axis
    }

    pub closed spec fn spec_digest(&self) -> Seq<u8> {
        self.digest@
    }

    /// A well-formed label is determined by its axis and digest.
    pub proof fn lemma_wf(&self)
        requires
            self.wf(),
        ensures
            self.spec_digest().len() == axis_len(self.spec_axis()),
    {
    }

    fn make(axis: Axis, digest: Vec<u8>) -> (out: KappaLabel)
        requires
            digest@.len() == axis_len(axis),
        ensures
            out.wf(),
            out.spec_axis() == axis,
            out.spec_digest() == digest@,
    {
        let digits = hex_encode(digest.as_slice());
        proof {
            reveal_strlit(":");
        }
        let text = joined3(axis.as_str(), ":", digits.as_str());
        assert(":"@ =~= seq![':']);
        KappaLabel { axis, digest, text }
    }

    /// The label of content on an axis.
    pub fn compute(axis: Axis, content: &[u8]) -> (out: Result<KappaLabel, LabelError>)
        ensures
            match out {
                Ok(label) => label.wf() && label.spec_axis() == axis && content_digest(
                    axis,
                    content@,
                ) == Some(label.spec_digest()),
                Err(e) => e is CollisionDetected && content_digest(axis, content@) is None && axis
                    == Axis::Sha1,
            },
    {
        match axis.digest(content) {
            Some(digest) => Ok(KappaLabel::make(axis, digest)),
            None => Err(LabelError::CollisionDetected),
        }
    }

    /// The SHA-256 label of content.
    pub fn sha256(content: &[u8]) -> (out: KappaLabel)
        ensures
            out.wf(),
            out.spec_axis() == Axis::Sha256,
            out.spec_digest() == crate::digest::sha256_of(content@),
    {
        KappaLabel::make(Axis::Sha256, copy_bytes(sha256(content).as_slice()))
    }

    /// The BLAKE3 label of content.
    pub fn blake3(content: &[u8]) -> (out: KappaLabel)
        ensures
            out.wf(),
            out.spec_axis() == Axis::Blake3,
            out.spec_digest() == crate::digest::blake3_of(content@),
    {
        KappaLabel::make(Axis::Blake3, copy_bytes(blake3_hash(content).as_slice()))
    }

    /// The SHA-1 label of content, unless a collision attack shows.
    pub fn sha1(content: &[u8]) -> (out: Result<KappaLabel, LabelError>)
        ensures
            match out {
                Ok(label) => label.wf() && label.spec_axis() == Axis::Sha1 && content_digest(
                    Axis::Sha1,
                    content@,
                ) == Some(label.spec_digest()),
                Err(e) => e is CollisionDetected && content_digest(Axis::Sha1, content@) is None,
            },
    {
        KappaLabel::compute(Axis::Sha1, content)
    }

    /// Reads a label.
    pub fn parse(s: &str) -> (out: Result<KappaLabel, LabelError>)
        ensures
            match out {
                Ok(label) => label.wf() && label_parts(s@) == Some(
                    (label.spec_axis(), label.spec_digest()),
                ) && label_text(label.spec_axis(), label.spec_digest()) == s@,
                Err(LabelError::NoSeparator) => crate::text::split_once_spec(s@, ':') is None,
                Err(LabelError::UnknownAxis(a)) => crate::text::split_once_spec(s@, ':') is Some
                    && a@ == (crate::text::split_once_spec(s@, ':')->0).0 && axis_named(a@) is None,
                Err(LabelError::BadDigest) => crate::text::split_once_spec(s@, ':') is Some
                    && axis_named((crate::text::split_once_spec(s@, ':')->0).0) is Some
                    && label_parts(s@) is None,
                Err(_) => false,
            },
    {
        let (name, digits) = match split_once(s, ':') {
            Some(parts) => parts,
            None => return Err(LabelError::NoSeparator),
        };
        let axis = match Axis::parse(name.as_str()) {
            Some(axis) => axis,
            None => return Err(LabelError::UnknownAxis(name)),
        };
        let digest = match hex_decode(digits.as_str()) {
            Some(digest) => digest,
            None => return Err(LabelError::BadDigest),
        };
        if digest.len() != axis.digest_len() {
            return Err(LabelError::BadDigest);
        }
        if !same_text(hex_encode(digest.as_slice()).as_str(), digits.as_str()) {
            return Err(LabelError::BadDigest);
        }
        proof {
            lemma_split_rejoins(s@, ':');
            lemma_axis_names_distinct();
            assert(axis_name(axis) == name@);
        }
        Ok(KappaLabel::make(axis, digest))
    }

    /// The label as text.
    pub fn as_str(&self) -> (out: &str)
        requires
            self.wf(),
        ensures
            out@ == label_text(self.spec_axis(), self.spec_digest()),
    {
        self.text.as_str()
    }

    /// Name of the label's axis.
    pub fn axis(&self) -> (out: &'static str)
        ensures
            out@ == axis_name(self.spec_axis()),
    {
        self.axis.as_str()
    }

    /// The label's axis.
    pub fn axis_enum(&self) -> (out: Axis)
        ensures
            out == self.spec_axis(),
    {
        self.axis
    }

    /// The label's digest.
    pub fn digest_bytes(&self) -> (out: &[u8])
        ensures
            out@ == self.spec_digest(),
    {
        self.digest.as_slice()
    }

    /// The label whose digest has every bit turned over.
    pub fn complement(&self) -> (out: KappaLabel)
        requires
            self.wf(),
        ensures
            out.wf(),
            out.spec_axis() == self.spec_axis(),
            out.spec_digest() == complement_of(self.spec_digest()),
    {
        let mut turned: Vec<u8> = Vec::new();
        let mut i: usize = 0;
        while i < self.digest.len()
            invariant
                i <= self.digest@.len(),
                turned@.len() == i,
                forall|k: int| 0 <= k < i ==> turned@[k] == 255 - self.digest@[k],
            decreases self.digest@.len() - i,
        {
            turned.push(255 - self.digest[i]);
            i += 1;
        }
        assert(turned@ =~= complement_of(self.digest@));
        KappaLabel::make(self.axis, turned)
    }
}

/// Every bit turned over.
pub open spec fn complement_of(digest: Seq<u8>) -> Seq<u8> {
    Seq::new(digest.len(), |i: int| (255 - digest[i]) as u8)
}

/// What was split at a character is that character between its parts.
proof fn lemma_split_rejoins(s: Seq<char>, c: char)
    ensures
        match crate::text::split_once_spec(s, c) {
            Some((a, b)) => s == a + seq![c] + b,
            None => true,
        },
    decreases s.len(),
{
    let i = crate::text::first_index(s, c);
    lemma_first_index_holds(s, c);
    if i < s.len() {
        assert(s =~= s.take(i) + seq![c] + s.skip(i + 1));
    }
}

proof fn lemma_first_index_holds(s: Seq<char>, c: char)
    ensures
        0 <= crate::text::first_index(s, c) <= s.len(),
        crate::text::first_index(s, c) < s.len() ==> s[crate::text::first_index(s, c)] == c,
    decreases s.len(),
{
    if s.len() > 0 && s[0] != c {
        lemma_first_index_holds(s.drop_first(), c);
    }
}

/// The label of content on the axis with a given name.
pub fn compute_kappa(axis: &str, content: &[u8]) -> (out: Result<KappaLabel, LabelError>)
    ensures
        match out {
            Ok(label) => label.wf() && axis_named(axis@) == Some(label.spec_axis())
                && content_digest(label.spec_axis(), content@) == Some(label.spec_digest()),
            Err(LabelError::UnknownAxis(a)) => a@ == axis@ && axis_named(axis@) is None,
            Err(LabelError::CollisionDetected) => axis_named(axis@) == Some(Axis::Sha1)
                && content_digest(Axis::Sha1, content@) is None,
            Err(_) => false,
        },
{
    match Axis::parse(axis) {
        Some(a) => KappaLabel::compute(a, content),
        None => Err(LabelError::UnknownAxis(axis.to_owned())),
    }
}

/// Whether content has the digest that a label claims.
pub fn verify_kappa(claimed: &str, content: &[u8]) -> (out: Result<bool, LabelError>)
    ensures
        match out {
            Ok(same) => label_parts(claimed@) is Some && content_digest(
                (label_parts(claimed@)->0).0,
                content@,
            ) is Some && same == (content_digest((label_parts(claimed@)->0).0, content@)
                == Some((label_parts(claimed@)->0).1)),
            Err(LabelError::CollisionDetected) => label_parts(claimed@) is Some && content_digest(
                (label_parts(claimed@)->0).0,
                content@,
            ) is None,
            Err(e) => label_parts(claimed@) is None,
        },
{
    let label = match KappaLabel::parse(claimed) {
        Ok(label) => label,
        Err(e) => return Err(e),
    };
    match label.axis.digest(content) {
        Some(digest) => Ok(same_bytes(digest.as_slice(), label.digest.as_slice())),
        None => Err(LabelError::CollisionDetected),
    }
}

/// The SHA-256 label of content, as text.
pub fn kappa_from_bytes(content: &[u8]) -> (out: String)
    ensures
        out@ == kappa_of(content@),
        label_parts(out@) == Some((Axis::Sha256, crate::digest::sha256_of(content@))),
{
    let label = KappaLabel::sha256(content);
    proof {
        law_label_roundtrip(label.axis, label.digest@);
    }
    label.text
}

/// What stands before the colon of a label.
pub fn axis_of(kappa: &str) -> (out: Option<String>)
    ensures
        match (out, crate::text::split_once_spec(kappa@, ':')) {
            (Some(a), Some((name, _))) => a@ == name,
            (None, None) => true,
            _ => false,
        },
{
    match split_once(kappa, ':') {
        Some(parts) => Some(parts.0),
        None => None,
    }
}

} // verus!
