//! Content that carries the proof of its own address.

use vstd::prelude::*;

use crate::kappa::{
    axis_name, content_digest, label_parts, label_text, Axis, KappaLabel, LabelError,
};
use crate::text::split_once;

verus! {

/// The labels that hashing a stream gave.
#[derive(Debug)]
pub struct StreamingVerificationProof {
    primary: String,
    additional: Vec<(String, String)>,
}

/// Texts of a list of pairs.
pub open spec fn pair_texts(pairs: Seq<(String, String)>) -> Seq<(Seq<char>, Seq<char>)> {
    Seq::new(pairs.len(), |i: int| (pairs[i].0@, pairs[i].1@))
}

impl StreamingVerificationProof {
    pub closed spec fn spec_primary(&self) -> Seq<char> {
        self.primary@
    }

    pub closed spec fn spec_additional(&self) -> Seq<(Seq<char>, Seq<char>)> {
        pair_texts(self.additional@)
    }

    /// The outcome of hashing on one axis.
    pub(crate) fn single(kappa: String) -> (out: Self)
        ensures
            out.spec_primary() == kappa@,
            out.spec_additional() == Seq::<(Seq<char>, Seq<char>)>::empty(),
    {
        let out = StreamingVerificationProof { primary: kappa, additional: Vec::new() };
        assert(out.spec_additional() =~= Seq::<(Seq<char>, Seq<char>)>::empty());
        out
    }

    /// The outcome of hashing on several axes at once.
    pub(crate) fn multi(primary: String, additional: Vec<(String, String)>) -> (out: Self)
        ensures
            out.spec_primary() == primary@,
            out.spec_additional() == pair_texts(additional@),
    {
        StreamingVerificationProof { primary, additional }
    }

    /// The primary label.
    pub fn kappa(&self) -> (out: &str)
        ensures
            out@ == self.spec_primary(),
    {
        self.primary.as_str()
    }

    /// Axis of the primary label; `sha256` where it names none.
    pub fn axis(&self) -> (out: String)
        ensures
            out@ == (match crate::text::split_once_spec(self.spec_primary(), ':') {
                Some((axis, _)) => axis,
                None => "sha256"@,
            }),
    {
        match split_once(self.primary.as_str(), ':') {
            Some(parts) => parts.0,
            None => "sha256".to_owned(),
        }
    }

    /// Further labels, each with its axis.
    pub fn additional(&self) -> (out: &[(String, String)])
        ensures
            pair_texts(out@) == self.spec_additional(),
    {
        self.additional.as_slice()
    }

    /// Further labels, without their axes.
    pub fn additional_kappas(&self) -> (out: Vec<String>)
        ensures
            out@.len() == self.spec_additional().len(),
            forall|i: int|
                0 <= i < out@.len() ==> (#[trigger] out@[i])@ == self.spec_additional()[i].1,
    {
        let mut out: Vec<String> = Vec::new();
        let mut i: usize = 0;
        while i < self.additional.len()
            invariant
                i <= self.additional@.len(),
                out@.len() == i,
                forall|k: int| 0 <= k < i ==> (#[trigger] out@[k])@ == self.additional@[k].1@,
            decreases self.additional@.len() - i,
        {
            out.push(self.additional[i].1.clone());
            i += 1;
        }
        out
    }

    /// The primary label and the further ones.
    pub fn into_parts(self) -> (out: (String, Vec<(String, String)>))
        ensures
            out.0@ == self.spec_primary(),
            pair_texts(out.1@) == self.spec_additional(),
    {
        (self.primary, self.additional)
    }
}

/// Hashes content on the axis with a given name.
pub fn streaming_compute_kappa(axis: &str, content: &[u8]) -> (out: Result<
    StreamingVerificationProof,
    LabelError,
>)
    ensures
        match out {
            Ok(p) => crate::kappa::axis_named(axis@) is Some && crate::kappa::content_label(
                crate::kappa::axis_named(axis@)->0,
                content@,
            ) == Some(p.spec_primary()) && label_parts(p.spec_primary()) == Some(
                (
                    crate::kappa::axis_named(axis@)->0,
                    content_digest(crate::kappa::axis_named(axis@)->0, content@)->0,
                ),
            ) && p.spec_additional().len() == 0,
            Err(LabelError::UnknownAxis(a)) => a@ == axis@ && crate::kappa::axis_named(
                axis@,
            ) is None,
            Err(LabelError::CollisionDetected) => crate::kappa::axis_named(axis@) == Some(
                Axis::Sha1,
            ) && content_digest(Axis::Sha1, content@) is None,
            Err(_) => false,
        },
{
    match crate::kappa::compute_kappa(axis, content) {
        Ok(label) => {
            proof {
                label.lemma_wf();
                crate::kappa::law_label_roundtrip(label.spec_axis(), label.spec_digest());
            }
            Ok(StreamingVerificationProof::single(label.as_str().to_owned()))
        },
        Err(e) => Err(e),
    }
}

/// Content together with an address that its hash was checked against.
#[derive(Debug)]
pub struct VerifiedContent {
    label: KappaLabel,
    content: Vec<u8>,
}

impl VerifiedContent {
    /// The label is that of the content.
    #[verifier::type_invariant]
    closed spec fn checked(&self) -> bool {
        &&& self.label.wf()
        &&& content_digest(self.label.spec_axis(), self.content@) == Some(self.label.spec_digest())
    }

    pub closed spec fn spec_axis(&self) -> Axis {
        self.label.spec_axis()
    }

    pub closed spec fn spec_digest(&self) -> Seq<u8> {
        self.label.spec_digest()
    }

    pub closed spec fn spec_content(&self) -> Seq<u8> {
        self.content@
    }

    /// Hashes content on an axis.
    pub fn compute(axis: Axis, content: Vec<u8>) -> (out: Result<Self, LabelError>)
        ensures
            match out {
                Ok(v) => v.spec_axis() == axis && v.spec_content() == content@ && content_digest(
                    axis,
                    content@,
                ) == Some(v.spec_digest()),
                Err(e) => e is CollisionDetected && content_digest(axis, content@) is None,
            },
    {
        match KappaLabel::compute(axis, content.as_slice()) {
            Ok(label) => Ok(VerifiedContent { label, content }),
            Err(e) => Err(e),
        }
    }

    /// Checks content against a claimed label.
    pub fn verify(claimed: &str, content: Vec<u8>) -> (out: Result<Self, LabelError>)
        ensures
            match out {
                Ok(v) => v.spec_content() == content@ && label_parts(claimed@) == Some(
                    (v.spec_axis(), v.spec_digest()),
                ) && content_digest(v.spec_axis(), content@) == Some(v.spec_digest()),
                Err(LabelError::DigestMismatch { expected, computed, axis }) => {
                    &&& label_parts(claimed@) is Some
                    &&& content_digest((label_parts(claimed@)->0).0, content@) is Some
                    &&& content_digest((label_parts(claimed@)->0).0, content@) != Some(
                        (label_parts(claimed@)->0).1,
                    )
                    &&& expected@ == claimed@
                    &&& computed@ == label_text(
                        (label_parts(claimed@)->0).0,
                        content_digest((label_parts(claimed@)->0).0, content@)->0,
                    )
                    &&& axis@ == axis_name((label_parts(claimed@)->0).0)
                },
                Err(LabelError::CollisionDetected) => label_parts(claimed@) is Some
                    && content_digest((label_parts(claimed@)->0).0, content@) is None,
                Err(_) => label_parts(claimed@) is None,
            },
    {
        let label = match KappaLabel::parse(claimed) {
            Ok(label) => label,
            Err(e) => return Err(e),
        };
        let computed = match KappaLabel::compute(label.axis_enum(), content.as_slice()) {
            Ok(computed) => computed,
            Err(e) => return Err(e),
        };
        if !crate::text::same_text(label.as_str(), computed.as_str()) {
            return Err(
                LabelError::DigestMismatch {
                    expected: claimed.to_owned(),
                    computed: computed.as_str().to_owned(),
                    axis: label.axis().to_owned(),
                },
            );
        }
        proof {
            label.lemma_wf();
            computed.lemma_wf();
            crate::kappa::law_same_label_same_digest(
                label.spec_axis(),
                label.spec_digest(),
                computed.spec_axis(),
                computed.spec_digest(),
            );
        }
        Ok(VerifiedContent { label, content })
    }

    /// The address.
    pub fn label(&self) -> (out: &KappaLabel)
        ensures
            out.wf(),
            out.spec_axis() == self.spec_axis(),
            out.spec_digest() == self.spec_digest(),
            content_digest(self.spec_axis(), self.spec_content()) == Some(self.spec_digest()),
    {
        proof {
            use_type_invariant(self);
        }
        &self.label
    }

    /// The address as text.
    pub fn kappa(&self) -> (out: &str)
        ensures
            out@ == label_text(self.spec_axis(), self.spec_digest()),
            crate::kappa::content_label(self.spec_axis(), self.spec_content()) == Some(out@),
    {
        proof {
            use_type_invariant(self);
        }
        self.label.as_str()
    }

    /// The content.
    pub fn content(&self) -> (out: &[u8])
        ensures
            out@ == self.spec_content(),
    {
        self.content.as_slice()
    }

    /// The content, by itself.
    pub fn into_content(self) -> (out: Vec<u8>)
        ensures
            out@ == self.spec_content(),
    {
        self.content
    }

    /// The axis.
    pub fn axis(&self) -> (out: Axis)
        ensures
            out == self.spec_axis(),
    {
        self.label.axis_enum()
    }

    /// Length of the content.
    pub fn len(&self) -> (n: usize)
        ensures
            n == self.spec_content().len(),
    {
        self.content.len()
    }

    /// Whether the content is empty.
    pub fn is_empty(&self) -> (yes: bool)
        ensures
            yes == (self.spec_content().len() == 0),
    {
        self.content.is_empty()
    }
}

} // verus!
