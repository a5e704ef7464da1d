//! Objects of a store as git's pack machinery asks for them.

use vstd::prelude::*;
use vstd::slice::slice_subrange;

use crate::bytes::{append_bytes, copy_range, find_byte, first_byte};
use crate::git::envelope::{hash_name, hash_prefix, oid_kappa, oid_to_kappa};
use crate::git::object::{hash_len, kind_from_bytes, kind_named, HashKind, Kind, ObjectId};
use crate::git::walk::digest_len;
use crate::store::memory::InMemoryStore;

verus! {

/// Gives the objects of a store by their names.
pub struct KappaStoreObjectProvider<'a> {
    store: &'a InMemoryStore,
    hash_kind: HashKind,
}

/// Why an object cannot be given.
#[derive(Debug, Clone, Copy, PartialEq, Eq, Structural)]
pub enum ProviderFault {
    /// No zero byte ends the header.
    NoNul,
    /// No space follows the kind.
    NoSpace,
    /// The kind is none of git's.
    UnknownKind,
}

/// What is said of a fault.
pub open spec fn provider_fault_text(f: ProviderFault) -> Seq<char> {
    match f {
        ProviderFault::NoNul => "invalid git envelope: no NUL"@,
        ProviderFault::NoSpace => "invalid git envelope: no space"@,
        ProviderFault::UnknownKind => "invalid git object kind"@,
    }
}

impl ProviderFault {
    /// What is said of the fault.
    pub fn message(&self) -> (out: String)
        ensures
            out@ == provider_fault_text(*self),
    {
        match self {
            ProviderFault::NoNul => "invalid git envelope: no NUL".to_owned(),
            ProviderFault::NoSpace => "invalid git envelope: no space".to_owned(),
            ProviderFault::UnknownKind => "invalid git object kind".to_owned(),
        }
    }
}

/// The kind and the content of a stored object. The size in its header is not
/// looked at.
pub open spec fn object_in(envelope: Seq<u8>) -> Result<(Kind, Seq<u8>), ProviderFault> {
    let nul = first_byte(envelope, 0);
    if nul >= envelope.len() {
        Err(ProviderFault::NoNul)
    } else {
        let header = envelope.take(nul);
        let space = first_byte(header, 32);
        if space >= header.len() {
            Err(ProviderFault::NoSpace)
        } else {
            match kind_named(header.take(space)) {
                Some(kind) => Ok((kind, envelope.skip(nul + 1))),
                None => Err(ProviderFault::UnknownKind),
            }
        }
    }
}

impl<'a> KappaStoreObjectProvider<'a> {
    /// What the store holds.
    pub closed spec fn blobs(&self) -> Map<Seq<char>, Seq<u8>> {
        self.store.state().blobs
    }

    /// The hash that names objects.
    pub closed spec fn spec_kind(&self) -> HashKind {
        self.hash_kind
    }

    /// The store is in order.
    pub closed spec fn wf(&self) -> bool {
        self.store.wf()
    }

    /// A provider of the objects of a store.
    pub fn new(store: &'a InMemoryStore, hash_kind: HashKind) -> (out: Self)
        requires
            store.wf(),
        ensures
            out.wf(),
            out.blobs() == store.state().blobs,
            out.spec_kind() == hash_kind,
    {
        KappaStoreObjectProvider { store, hash_kind }
    }

    /// Bytes of a name: 20 under SHA-1, 32 under SHA-256.
    pub fn hash_len(&self) -> (n: usize)
        ensures
            n == hash_len(self.spec_kind()),
    {
        digest_len(self.hash_kind)
    }

    /// What stands before the colon of an address: `sha1` or `sha256`.
    pub fn hash_prefix(&self) -> (out: &'static str)
        ensures
            out@ == hash_name(self.spec_kind()),
    {
        hash_prefix(self.hash_kind)
    }

    /// The hash that names objects.
    pub fn kind(&self) -> (out: HashKind)
        ensures
            out == self.spec_kind(),
    {
        self.hash_kind
    }

    /// Whether an object is stored.
    pub fn contains(&self, id: &ObjectId) -> (yes: bool)
        requires
            self.wf(),
        ensures
            yes == self.blobs().dom().contains(oid_kappa(id.kind, id.bytes@)),
    {
        match oid_to_kappa(id) {
            Ok(kappa) => match self.store.blob_exists(kappa.as_str()) {
                Ok(yes) => yes,
                Err(_) => false,
            },
            Err(_) => false,
        }
    }

    /// Puts the content of an object into a buffer, in place of what was there;
    /// its kind. Nothing where it is not stored, and the buffer stays as it was.
    pub fn try_find(&self, id: &ObjectId, buffer: &mut Vec<u8>) -> (out: Result<
        Option<Kind>,
        ProviderFault,
    >)
        requires
            self.wf(),
        ensures
            ({
                let kappa = oid_kappa(id.kind, id.bytes@);
                let envelope = self.blobs()[kappa];
                if !self.blobs().dom().contains(kappa) {
                    out == Ok::<Option<Kind>, ProviderFault>(None) && final(buffer)@ == old(buffer)@
                } else {
                    match object_in(envelope) {
                        Ok((kind, content)) => out == Ok::<Option<Kind>, ProviderFault>(Some(kind))
                            && final(buffer)@ == content,
                        Err(f) => out == Err::<Option<Kind>, ProviderFault>(f) && final(buffer)@
                            == envelope,
                    }
                }
            }),
    {
        let kappa = match oid_to_kappa(id) {
            Ok(kappa) => kappa,
            Err(_) => return Ok(None),
        };
        let envelope = match self.store.blob_get(kappa.as_str()) {
            Ok(envelope) => envelope,
            Err(_) => return Ok(None),
        };
        buffer.clear();
        append_bytes(buffer, envelope.as_slice());
        assert(buffer@ =~= envelope@);
        let nul: usize = match find_byte(envelope.as_slice(), 0) {
            Some(nul) => nul,
            None => return Err(ProviderFault::NoNul),
        };
        let header = slice_subrange(envelope.as_slice(), 0, nul);
        assert(header@ =~= envelope@.take(nul as int));
        let space: usize = match find_byte(header, 32) {
            Some(space) => space,
            None => return Err(ProviderFault::NoSpace),
        };
        let name = slice_subrange(header, 0, space);
        assert(name@ =~= header@.take(space as int));
        let kind = match kind_from_bytes(name) {
            Some(kind) => kind,
            None => return Err(ProviderFault::UnknownKind),
        };
        let content = copy_range(envelope.as_slice(), nul + 1, envelope.len());
        buffer.clear();
        append_bytes(buffer, content.as_slice());
        assert(buffer@ =~= envelope@.skip(nul + 1));
        Ok(Some(kind))
    }
}

/// What an envelope holds is what a provider gives of it.
pub proof fn law_provider_agrees(envelope: Seq<u8>)
    ensures
        crate::git::envelope::envelope_parts(envelope) matches Ok(parts) ==> object_in(envelope)
            == Ok::<(Kind, Seq<u8>), ProviderFault>(parts),
{
}

} // verus!
