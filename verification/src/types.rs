//! The registry's vocabulary: namespaces, tags, edges, epochs.

use vstd::prelude::*;
use vstd::string::*;
use vstd::utf8::encode_utf8;

use crate::bytes::{copy_bytes, same_bytes};
use crate::digest::{blake3_hash, blake3_keyed_hash, md5_digest};
use crate::hexadecimal::{hex_encode, hex_of};
use crate::text::{joined, same_text};

verus! {

/// Largest blob that a request may bring.
pub struct MaxBlobSize(pub usize);

/// Protocol that a request came in by.
#[derive(Debug, Clone, Copy, PartialEq, Eq, Structural)]
pub enum ProtocolHint {
    Oci,
    S3,
    Git,
    KappaDistribution,
    Nix,
    Unspecified,
}

// -- Namespaces ---------------------------------------------------------------

/// A namespace: sixteen bytes that identify it, and the name it was asked for by.
#[derive(Debug)]
pub struct NamespaceRef {
    uuid: [u8; 16],
    display_name: Option<String>,
    protocol: Option<ProtocolHint>,
}

/// The identifier of a well-known namespace: a keyed BLAKE3 hash of its name,
/// cut to sixteen bytes and marked as a custom UUID.
pub open spec fn deterministic_uuid(name: Seq<char>) -> Seq<u8> {
    let key = crate::digest::blake3_of("kappa-namespace-uuid".spec_bytes());
    let hash = crate::digest::blake3_keyed_of(key, encode_utf8(name));
    hash.take(16).update(6, (hash[6] % 16 + 128) as u8).update(8, (hash[8] % 64 + 128) as u8)
}

/// A time-ordered identifier: six bytes of milliseconds, most significant
/// first, the version, and eight random bytes with the variant set.
pub open spec fn generated_uuid(ms: u64, random: Seq<u8>) -> Seq<u8> {
    Seq::new(
        16,
        |i: int|
            if i == 0 {
                (ms / 1099511627776 % 256) as u8
            } else if i == 1 {
                (ms / 4294967296 % 256) as u8
            } else if i == 2 {
                (ms / 16777216 % 256) as u8
            } else if i == 3 {
                (ms / 65536 % 256) as u8
            } else if i == 4 {
                (ms / 256 % 256) as u8
            } else if i == 5 {
                (ms % 256) as u8
            } else if i == 6 {
                0x70
            } else if i == 7 {
                0
            } else if i == 8 {
                (random[0] % 64 + 128) as u8
            } else {
                random[i - 8]
            },
    )
}

impl NamespaceRef {
    /// The alias table's own namespace.
    pub const ALIASES_NS: [u8; 16] = [
        0x00, 0x00, 0x00, 0x00, 0x00, 0x00, 0x80, 0x00,
        0x80, 0x00, 0x6b, 0x61, 0x70, 0x70, 0x61, 0x00,
    ];

    /// The handle registry's namespace.
    pub const HANDLES_NS: [u8; 16] = [
        0x00, 0x00, 0x00, 0x00, 0x00, 0x01, 0x80, 0x00,
        0x80, 0x00, 0x6b, 0x61, 0x70, 0x70, 0x61, 0x00,
    ];

    /// The sixteen identifying bytes.
    pub closed spec fn id(&self) -> Seq<u8> {
        self.uuid@
    }

    /// The name it is known by, if any.
    pub closed spec fn spec_name(&self) -> Option<Seq<char>> {
        self.display_name.deep_view()
    }

    pub closed spec fn spec_protocol(&self) -> Option<ProtocolHint> {
        self.protocol
    }

    /// The name, or the identifier behind `ns:` where there is none.
    pub open spec fn shown(&self) -> Seq<char> {
        match self.spec_name() {
            Some(name) => name,
            None => "ns:"@ + hex_of(self.id()),
        }
    }

    /// A namespace without a name.
    pub fn new(uuid: [u8; 16]) -> (out: Self)
        ensures
            out.id() == uuid@,
            out.spec_name() is None,
            out.spec_protocol() is None,
    {
        NamespaceRef { uuid, display_name: None, protocol: None }
    }

    /// A namespace with a name.
    pub fn with_name(uuid: [u8; 16], name: String) -> (out: Self)
        ensures
            out.id() == uuid@,
            out.spec_name() == Some(name@),
            out.spec_protocol() is None,
    {
        NamespaceRef { uuid, display_name: Some(name), protocol: None }
    }

    /// The same namespace with a protocol hint.
    pub fn with_protocol(self, protocol: ProtocolHint) -> (out: Self)
        ensures
            out.id() == self.id(),
            out.spec_name() == self.spec_name(),
            out.spec_protocol() == Some(protocol),
    {
        NamespaceRef { uuid: self.uuid, display_name: self.display_name, protocol: Some(protocol) }
    }

    /// A copy.
    pub fn copied(&self) -> (out: Self)
        ensures
            out.id() == self.id(),
            out.spec_name() == self.spec_name(),
            out.spec_protocol() == self.spec_protocol(),
    {
        let display_name = match &self.display_name {
            Some(name) => Some(name.clone()),
            None => None,
        };
        NamespaceRef { uuid: self.uuid, display_name, protocol: self.protocol }
    }

    /// The sixteen identifying bytes.
    pub fn uuid(&self) -> (out: &[u8; 16])
        ensures
            out@ == self.id(),
    {
        &self.uuid
    }

    /// The identifying bytes in hexadecimal.
    pub fn uuid_hex(&self) -> (out: String)
        ensures
            out@ == hex_of(self.id()),
    {
        hex_encode(self.uuid.as_slice())
    }

    /// The name, if there is one.
    pub fn display_name(&self) -> (out: Option<&str>)
        ensures
            match (out, self.spec_name()) {
                (Some(s), Some(n)) => s@ == n,
                (None, None) => true,
                _ => false,
            },
    {
        match &self.display_name {
            Some(name) => Some(name.as_str()),
            None => None,
        }
    }

    /// The protocol hint, if there is one.
    pub fn protocol(&self) -> (out: Option<ProtocolHint>)
        ensures
            out == self.spec_protocol(),
    {
        self.protocol
    }

    /// The name, or the identifier behind `ns:` where there is none.
    pub fn as_str(&self) -> (out: String)
        ensures
            out@ == self.shown(),
    {
        match &self.display_name {
            Some(name) => name.clone(),
            None => joined("ns:", hex_encode(self.uuid.as_slice()).as_str()),
        }
    }

    /// Whether two references mean the same namespace: the name does not
    /// matter.
    pub fn same(&self, other: &Self) -> (yes: bool)
        ensures
            yes == (self.id() == other.id()),
    {
        same_bytes(self.uuid.as_slice(), other.uuid.as_slice())
    }

    /// The namespace that a well-known name has on every node.
    pub fn deterministic(name: &str) -> (out: Self)
        ensures
            out.id() == deterministic_uuid(name@),
            out.spec_name() == Some(name@),
            out.spec_protocol() is None,
    {
        let key = blake3_hash("kappa-namespace-uuid".as_bytes());
        let hash = blake3_keyed_hash(&key, name.as_bytes());
        let uuid: [u8; 16] = [
            hash[0],
            hash[1],
            hash[2],
            hash[3],
            hash[4],
            hash[5],
            hash[6] % 16 + 128,
            hash[7],
            hash[8] % 64 + 128,
            hash[9],
            hash[10],
            hash[11],
            hash[12],
            hash[13],
            hash[14],
            hash[15],
        ];
        assert(uuid@ =~= deterministic_uuid(name@));
        NamespaceRef { uuid, display_name: Some(name.to_owned()), protocol: None }
    }

    /// A new namespace from the time and random bytes.
    pub fn from_time_and_random(name: &str, ms: u64, random: [u8; 8]) -> (out: Self)
        ensures
            out.id() == generated_uuid(ms, random@),
            out.spec_name() == Some(name@),
            out.spec_protocol() is None,
    {
        let uuid: [u8; 16] = [
            (ms / 1099511627776 % 256) as u8,
            (ms / 4294967296 % 256) as u8,
            (ms / 16777216 % 256) as u8,
            (ms / 65536 % 256) as u8,
            (ms / 256 % 256) as u8,
            (ms % 256) as u8,
            0x70,
            0,
            random[0] % 64 + 128,
            random[1],
            random[2],
            random[3],
            random[4],
            random[5],
            random[6],
            random[7],
        ];
        assert(uuid@ =~= generated_uuid(ms, random@));
        NamespaceRef { uuid, display_name: Some(name.to_owned()), protocol: None }
    }

    /// A new namespace; none where the system gives no random bytes.
    pub fn generate(name: &str) -> (out: Option<Self>)
        ensures
            match out {
                Some(ns) => ns.spec_name() == Some(name@) && ns.spec_protocol() is None && exists|
                    ms: u64,
                    random: Seq<u8>,
                |
                    random.len() == 8 && ns.id() == #[trigger] generated_uuid(ms, random),
                None => true,
            },
    {
        match random_eight() {
            Some(random) => Some(Self::from_time_and_random(name, unix_millis(), random)),
            None => None,
        }
    }

    /// The alias table's namespace.
    pub fn aliases_ns() -> (out: Self)
        ensures
            out.id() == Self::ALIASES_NS@,
            out.spec_name() == Some("_aliases"@),
    {
        Self::with_name(Self::ALIASES_NS, "_aliases".to_owned())
    }

    /// The handle registry's namespace.
    pub fn handles_ns() -> (out: Self)
        ensures
            out.id() == Self::HANDLES_NS@,
            out.spec_name() == Some("_handles"@),
    {
        Self::with_name(Self::HANDLES_NS, "_handles".to_owned())
    }
}

/// `getrandom::fill`: eight bytes from the system's source of randomness;
/// none where it fails. Nothing is known of the bytes.
#[verifier::external_body]
pub(crate) fn random_eight() -> (out: Option<[u8; 8]>) {
    let mut out = [0u8; 8];
    getrandom::fill(&mut out).ok().map(|_| out)
}

/// `std::time::SystemTime::now`, as milliseconds since 1970. Nothing is known
/// of the value.
#[verifier::external_body]
pub(crate) fn unix_millis() -> (out: u64) {
    std::time::SystemTime::now()
        .duration_since(std::time::UNIX_EPOCH)
        .unwrap_or_default()
        .as_millis() as u64
}

// -- Errors -------------------------------------------------------------------

/// Why the store refused.
#[derive(Debug)]
pub enum StoreError {
    Io(String),
    NotFound(String),
    Conflict(String),
    Rejected(String),
    Canonical(String),
}

/// What an error is reported as.
pub open spec fn store_error_text(e: StoreError) -> Seq<char> {
    match e {
        StoreError::Io(m) => "io error: "@ + m@,
        StoreError::NotFound(m) => "not found: "@ + m@,
        StoreError::Conflict(m) => "conflict: "@ + m@,
        StoreError::Rejected(m) => "rejected: "@ + m@,
        StoreError::Canonical(m) => "canonical error: "@ + m@,
    }
}

impl StoreError {
    /// The error as text.
    pub fn message(&self) -> (out: String)
        ensures
            out@ == store_error_text(*self),
    {
        match self {
            StoreError::Io(m) => joined("io error: ", m.as_str()),
            StoreError::NotFound(m) => joined("not found: ", m.as_str()),
            StoreError::Conflict(m) => joined("conflict: ", m.as_str()),
            StoreError::Rejected(m) => joined("rejected: ", m.as_str()),
            StoreError::Canonical(m) => joined("canonical error: ", m.as_str()),
        }
    }
}

// -- Tags ---------------------------------------------------------------------

/// A name bound to an address, with the number of times it was bound.
#[derive(Debug)]
pub struct TagEntry {
    pub name: String,
    pub kappa: String,
    pub version: u64,
}

/// What a tag entry holds.
pub struct TagView {
    pub name: Seq<char>,
    pub kappa: Seq<char>,
    pub version: u64,
}

impl DeepView for TagEntry {
    type V = TagView;

    open spec fn deep_view(&self) -> TagView {
        TagView { name: self.name@, kappa: self.kappa@, version: self.version }
    }
}

impl TagEntry {
    /// A copy.
    pub fn copied(&self) -> (out: Self)
        ensures
            out.deep_view() == self.deep_view(),
    {
        TagEntry { name: self.name.clone(), kappa: self.kappa.clone(), version: self.version }
    }
}

/// A binding to make, if the name's version is still the expected one.
#[derive(Debug)]
pub struct TagUpdate {
    pub name: String,
    pub kappa: String,
    pub expected_version: Option<u64>,
}

/// What a binding to make holds.
pub struct UpdateView {
    pub name: Seq<char>,
    pub kappa: Seq<char>,
    pub expected_version: Option<u64>,
}

impl DeepView for TagUpdate {
    type V = UpdateView;

    open spec fn deep_view(&self) -> UpdateView {
        UpdateView {
            name: self.name@,
            kappa: self.kappa@,
            expected_version: self.expected_version,
        }
    }
}

// -- Edges --------------------------------------------------------------------

/// How two addresses are related.
#[derive(Debug, Clone, Copy, PartialEq, Eq, Structural)]
pub enum EdgeRelation {
    Owns,
    ComposedOf,
    Assertion,
    Revocation,
    Capability,
    RecoveryShare,
    EpochRoot,
    AkdTreeNode,
    ChunkManifest,
    WitnessReceipt,
    OffloadReceipt,
    DerivedFrom,
    CertifiedBy,
    EvidenceProvenance,
    SectionOf,
    RefersTo,
    Delegation,
}

/// Name of a relation.
pub open spec fn relation_name(r: EdgeRelation) -> Seq<char> {
    match r {
        EdgeRelation::Owns => "owns"@,
        EdgeRelation::ComposedOf => "composed-of"@,
        EdgeRelation::Assertion => "assertion"@,
        EdgeRelation::Revocation => "revocation"@,
        EdgeRelation::Capability => "capability"@,
        EdgeRelation::RecoveryShare => "recovery-share"@,
        EdgeRelation::EpochRoot => "epoch-root"@,
        EdgeRelation::AkdTreeNode => "akd-tree-node"@,
        EdgeRelation::ChunkManifest => "chunk-manifest"@,
        EdgeRelation::WitnessReceipt => "witness-receipt"@,
        EdgeRelation::OffloadReceipt => "offload-receipt"@,
        EdgeRelation::DerivedFrom => "derived-from"@,
        EdgeRelation::CertifiedBy => "certified-by"@,
        EdgeRelation::EvidenceProvenance => "evidence-provenance"@,
        EdgeRelation::SectionOf => "section-of"@,
        EdgeRelation::RefersTo => "refers-to"@,
        EdgeRelation::Delegation => "delegation"@,
    }
}

/// Whether a text names a relation: its own name, or an older one.
pub open spec fn names_relation(s: Seq<char>, r: EdgeRelation) -> bool {
    ||| s == relation_name(r)
    ||| r == EdgeRelation::WitnessReceipt && s == "witness-of"@
    ||| r == EdgeRelation::DerivedFrom && s == "derives-from"@
}

/// The number that stands for a relation in edge blobs and indexes.
pub open spec fn relation_number(r: EdgeRelation) -> u64 {
    match r {
        EdgeRelation::Owns => 0,
        EdgeRelation::ComposedOf => 1,
        EdgeRelation::Assertion => 2,
        EdgeRelation::Revocation => 3,
        EdgeRelation::Capability => 4,
        EdgeRelation::RecoveryShare => 5,
        EdgeRelation::EpochRoot => 6,
        EdgeRelation::AkdTreeNode => 7,
        EdgeRelation::ChunkManifest => 8,
        EdgeRelation::WitnessReceipt => 9,
        EdgeRelation::OffloadReceipt => 10,
        EdgeRelation::DerivedFrom => 11,
        EdgeRelation::CertifiedBy => 12,
        EdgeRelation::EvidenceProvenance => 13,
        EdgeRelation::SectionOf => 14,
        EdgeRelation::RefersTo => 15,
        EdgeRelation::Delegation => 16,
    }
}

proof fn lemma_relation_initials()
    ensures
        forall|r: EdgeRelation| (#[trigger] relation_name(r)).len() >= 4,
        forall|a: EdgeRelation, b: EdgeRelation|
            a != b ==> (#[trigger] relation_name(a))[0] != (#[trigger] relation_name(b))[0]
                || relation_name(a)[1] != relation_name(b)[1] || relation_name(a)[2]
                != relation_name(b)[2],
        forall|r: EdgeRelation|
            #[trigger] relation_name(r) == "witness-of"@ ==> r == EdgeRelation::WitnessReceipt,
        forall|r: EdgeRelation|
            #[trigger] relation_name(r) == "derives-from"@ ==> r == EdgeRelation::DerivedFrom,
        "witness-of"@ != "derives-from"@,
{
    reveal_strlit("owns");
    reveal_strlit("composed-of");
    reveal_strlit("assertion");
    reveal_strlit("revocation");
    reveal_strlit("capability");
    reveal_strlit("recovery-share");
    reveal_strlit("epoch-root");
    reveal_strlit("akd-tree-node");
    reveal_strlit("chunk-manifest");
    reveal_strlit("witness-receipt");
    reveal_strlit("offload-receipt");
    reveal_strlit("derived-from");
    reveal_strlit("certified-by");
    reveal_strlit("evidence-provenance");
    reveal_strlit("section-of");
    reveal_strlit("refers-to");
    reveal_strlit("delegation");
    reveal_strlit("witness-of");
    reveal_strlit("derives-from");
    assert("witness-of"@[0] == 'w' && "derives-from"@[0] == 'd' && "derives-from"@[2] == 'r');
    assert("delegation"@[2] == 'l' && "derived-from"@[2] == 'r');
}

/// Different relations are never named by the same text.
pub proof fn law_relation_names_differ(s: Seq<char>, a: EdgeRelation, b: EdgeRelation)
    requires
        names_relation(s, a),
        names_relation(s, b),
    ensures
        a == b,
{
    lemma_relation_initials();
    if a != b {
        assert(relation_name(a)[0] == relation_name(a)[0]);
        assert(relation_name(b)[0] == relation_name(b)[0]);
    }
}

impl EdgeRelation {
    /// Name of the relation.
    pub fn as_str(&self) -> (out: &'static str)
        ensures
            out@ == relation_name(*self),
    {
        match self {
            EdgeRelation::Owns => "owns",
            EdgeRelation::ComposedOf => "composed-of",
            EdgeRelation::Assertion => "assertion",
            EdgeRelation::Revocation => "revocation",
            EdgeRelation::Capability => "capability",
            EdgeRelation::RecoveryShare => "recovery-share",
            EdgeRelation::EpochRoot => "epoch-root",
            EdgeRelation::AkdTreeNode => "akd-tree-node",
            EdgeRelation::ChunkManifest => "chunk-manifest",
            EdgeRelation::WitnessReceipt => "witness-receipt",
            EdgeRelation::OffloadReceipt => "offload-receipt",
            EdgeRelation::DerivedFrom => "derived-from",
            EdgeRelation::CertifiedBy => "certified-by",
            EdgeRelation::EvidenceProvenance => "evidence-provenance",
            EdgeRelation::SectionOf => "section-of",
            EdgeRelation::RefersTo => "refers-to",
            EdgeRelation::Delegation => "delegation",
        }
    }

    /// The relation that a text names.
    pub fn parse(s: &str) -> (out: Option<Self>)
        ensures
            match out {
                Some(r) => names_relation(s@, r),
                None => forall|r: EdgeRelation| !names_relation(s@, r),
            },
    {
        if same_text(s, "owns") {
            Some(EdgeRelation::Owns)
        } else if same_text(s, "composed-of") {
            Some(EdgeRelation::ComposedOf)
        } else if same_text(s, "assertion") {
            Some(EdgeRelation::Assertion)
        } else if same_text(s, "revocation") {
            Some(EdgeRelation::Revocation)
        } else if same_text(s, "capability") {
            Some(EdgeRelation::Capability)
        } else if same_text(s, "recovery-share") {
            Some(EdgeRelation::RecoveryShare)
        } else if same_text(s, "epoch-root") {
            Some(EdgeRelation::EpochRoot)
        } else if same_text(s, "akd-tree-node") {
            Some(EdgeRelation::AkdTreeNode)
        } else if same_text(s, "chunk-manifest") {
            Some(EdgeRelation::ChunkManifest)
        } else if same_text(s, "witness-receipt") || same_text(s, "witness-of") {
            Some(EdgeRelation::WitnessReceipt)
        } else if same_text(s, "offload-receipt") {
            Some(EdgeRelation::OffloadReceipt)
        } else if same_text(s, "derived-from") || same_text(s, "derives-from") {
            Some(EdgeRelation::DerivedFrom)
        } else if same_text(s, "certified-by") {
            Some(EdgeRelation::CertifiedBy)
        } else if same_text(s, "evidence-provenance") {
            Some(EdgeRelation::EvidenceProvenance)
        } else if same_text(s, "section-of") {
            Some(EdgeRelation::SectionOf)
        } else if same_text(s, "refers-to") {
            Some(EdgeRelation::RefersTo)
        } else if same_text(s, "delegation") {
            Some(EdgeRelation::Delegation)
        } else {
            None
        }
    }

    /// Whether garbage collection follows edges of this relation: all of them.
    pub fn gc_reachable(&self) -> (yes: bool)
        ensures
            yes,
    {
        match self {
            EdgeRelation::Owns => true,
            EdgeRelation::ComposedOf => true,
            EdgeRelation::Assertion => true,
            EdgeRelation::Revocation => true,
            EdgeRelation::Capability => true,
            EdgeRelation::RecoveryShare => true,
            EdgeRelation::EpochRoot => true,
            EdgeRelation::AkdTreeNode => true,
            EdgeRelation::ChunkManifest => true,
            EdgeRelation::WitnessReceipt => true,
            EdgeRelation::OffloadReceipt => true,
            EdgeRelation::DerivedFrom => true,
            EdgeRelation::CertifiedBy => true,
            EdgeRelation::EvidenceProvenance => true,
            EdgeRelation::SectionOf => true,
            EdgeRelation::RefersTo => true,
            EdgeRelation::Delegation => true,
        }
    }

    /// The number that stands for the relation in edge blobs and indexes.
    pub fn number(&self) -> (out: u64)
        ensures
            out == relation_number(*self),
    {
        match self {
            EdgeRelation::Owns => 0,
            EdgeRelation::ComposedOf => 1,
            EdgeRelation::Assertion => 2,
            EdgeRelation::Revocation => 3,
            EdgeRelation::Capability => 4,
            EdgeRelation::RecoveryShare => 5,
            EdgeRelation::EpochRoot => 6,
            EdgeRelation::AkdTreeNode => 7,
            EdgeRelation::ChunkManifest => 8,
            EdgeRelation::WitnessReceipt => 9,
            EdgeRelation::OffloadReceipt => 10,
            EdgeRelation::DerivedFrom => 11,
            EdgeRelation::CertifiedBy => 12,
            EdgeRelation::EvidenceProvenance => 13,
            EdgeRelation::SectionOf => 14,
            EdgeRelation::RefersTo => 15,
            EdgeRelation::Delegation => 16,
        }
    }

    /// The relation that a number stands for.
    pub fn from_number(n: u64) -> (out: Option<Self>)
        ensures
            match out {
                Some(r) => relation_number(r) == n,
                None => n > 16,
            },
    {
        match n {
            0 => Some(EdgeRelation::Owns),
            1 => Some(EdgeRelation::ComposedOf),
            2 => Some(EdgeRelation::Assertion),
            3 => Some(EdgeRelation::Revocation),
            4 => Some(EdgeRelation::Capability),
            5 => Some(EdgeRelation::RecoveryShare),
            6 => Some(EdgeRelation::EpochRoot),
            7 => Some(EdgeRelation::AkdTreeNode),
            8 => Some(EdgeRelation::ChunkManifest),
            9 => Some(EdgeRelation::WitnessReceipt),
            10 => Some(EdgeRelation::OffloadReceipt),
            11 => Some(EdgeRelation::DerivedFrom),
            12 => Some(EdgeRelation::CertifiedBy),
            13 => Some(EdgeRelation::EvidenceProvenance),
            14 => Some(EdgeRelation::SectionOf),
            15 => Some(EdgeRelation::RefersTo),
            16 => Some(EdgeRelation::Delegation),
            _ => None,
        }
    }
}

/// What a delegation edge permits.
#[derive(Debug)]
pub struct DelegationScope {
    pub namespaces: Vec<String>,
    pub operations: Vec<String>,
    pub expires_at_ms: Option<u64>,
    pub delegation_depth: u32,
}

/// A typed relationship between two addresses.
#[derive(Debug)]
pub struct Edge {
    pub source: String,
    pub target: String,
    pub relation: EdgeRelation,
    pub asserter: String,
    pub value_kappa: Option<String>,
    pub metadata: Option<Vec<u8>>,
}

/// What an edge holds.
pub struct EdgeView {
    pub source: Seq<char>,
    pub target: Seq<char>,
    pub relation: EdgeRelation,
    pub asserter: Seq<char>,
    pub value_kappa: Option<Seq<char>>,
    pub metadata: Option<Seq<u8>>,
}

impl DeepView for Edge {
    type V = EdgeView;

    open spec fn deep_view(&self) -> EdgeView {
        EdgeView {
            source: self.source@,
            target: self.target@,
            relation: self.relation,
            asserter: self.asserter@,
            value_kappa: match self.value_kappa {
                Some(k) => Some(k@),
                None => None,
            },
            metadata: match self.metadata {
                Some(m) => Some(m@),
                None => None,
            },
        }
    }
}

impl Edge {
    /// A copy.
    pub fn copied(&self) -> (out: Self)
        ensures
            out.deep_view() == self.deep_view(),
    {
        let value_kappa = match &self.value_kappa {
            Some(k) => Some(k.clone()),
            None => None,
        };
        let metadata = match &self.metadata {
            Some(m) => Some(copy_bytes(m.as_slice())),
            None => None,
        };
        Edge {
            source: self.source.clone(),
            target: self.target.clone(),
            relation: self.relation,
            asserter: self.asserter.clone(),
            value_kappa,
            metadata,
        }
    }
}

/// The two ways along an edge.
#[derive(Debug, Clone, Copy, PartialEq, Eq, Structural)]
pub enum Direction {
    Outbound,
    Inbound,
}

/// Which edges to look for.
#[derive(Debug)]
pub struct EdgeQuery {
    pub anchor: String,
    pub direction: Direction,
    pub relation: Option<EdgeRelation>,
    pub asserter: Option<String>,
}

// -- Epochs -------------------------------------------------------------------

/// What an epoch records of a change.
#[derive(Debug)]
pub struct EpochMutation {
    pub op: MutationOp,
    pub namespace: String,
    pub tag_name: String,
    pub old_kappa: Option<String>,
    pub new_kappa: Option<String>,
}

/// The kinds of changes.
#[derive(Debug, Clone, Copy, PartialEq, Eq, Structural)]
pub enum MutationOp {
    TagSet,
    TagDelete,
    EdgePut,
    EdgeDelete,
    AssertionPublish,
    RevocationPublish,
    AnchorOrigin,
    BlobPut,
    BlobDelete,
}

/// The number that stands for a kind of change.
pub open spec fn mutation_number(op: MutationOp) -> u64 {
    match op {
        MutationOp::TagSet => 0,
        MutationOp::TagDelete => 1,
        MutationOp::EdgePut => 2,
        MutationOp::EdgeDelete => 3,
        MutationOp::AssertionPublish => 4,
        MutationOp::RevocationPublish => 5,
        MutationOp::AnchorOrigin => 6,
        MutationOp::BlobPut => 7,
        MutationOp::BlobDelete => 8,
    }
}

impl MutationOp {
    /// The number that stands for the kind of change.
    pub fn number(&self) -> (out: u64)
        ensures
            out == mutation_number(*self),
    {
        match self {
            MutationOp::TagSet => 0,
            MutationOp::TagDelete => 1,
            MutationOp::EdgePut => 2,
            MutationOp::EdgeDelete => 3,
            MutationOp::AssertionPublish => 4,
            MutationOp::RevocationPublish => 5,
            MutationOp::AnchorOrigin => 6,
            MutationOp::BlobPut => 7,
            MutationOp::BlobDelete => 8,
        }
    }
}

// -- Federation ---------------------------------------------------------------

/// How a namespace takes part in federation.
#[derive(Debug)]
pub struct FederationConfig {
    pub mode: FederationMode,
    pub peers: Vec<String>,
    pub sync_interval_secs: u64,
    pub conflict_resolution: ConflictResolution,
}

impl Default for FederationConfig {
    fn default() -> (out: Self)
        ensures
            out.mode == FederationMode::Disabled,
            out.peers@.len() == 0,
            out.sync_interval_secs == 300,
            out.conflict_resolution == ConflictResolution::Reject,
    {
        FederationConfig {
            mode: FederationMode::Disabled,
            peers: Vec::new(),
            sync_interval_secs: 300,
            conflict_resolution: ConflictResolution::Reject,
        }
    }
}

/// Whether a namespace pushes, pulls, or neither.
#[derive(Debug, Clone, Copy, PartialEq, Eq, Structural)]
pub enum FederationMode {
    Disabled,
    Active,
    Passive,
}

/// What to do where both sides bound a name.
#[derive(Debug, Clone, Copy, PartialEq, Eq, Structural)]
pub enum ConflictResolution {
    Reject,
    AcceptAll,
    VersionWins,
}

/// How many writers there are.
#[derive(Debug, Clone, Copy, PartialEq, Eq, Structural)]
pub enum WriterMode {
    SingleWriter,
    Contended,
}

/// How far a write has got.
#[derive(Debug, Clone, Copy, PartialEq, Eq, Structural)]
pub enum Durability {
    Ephemeral,
    Checkpoint,
    Replicated,
    Witnessed,
}

/// How nodes may fail.
#[derive(Debug, Clone, Copy, PartialEq, Eq, Structural)]
pub enum FaultModel {
    CrashFault,
    Byzantine,
}

// -- Requests -----------------------------------------------------------------

/// Who makes a request.
#[derive(Debug)]
pub struct CallerIdentity(pub String);

/// What became of the namespace that a request names.
#[derive(Debug)]
pub enum ResolvedNamespace {
    Exists(NamespaceRef),
    NotFound { name: String, protocol: String },
    NoNamespace,
}

/// What a request is about to do.
#[derive(Debug, Clone, Copy, PartialEq, Eq, Structural)]
pub enum DetectedOperation {
    Read,
    Write,
    WriteDiscovery,
}

impl DetectedOperation {
    /// Whether the request changes something or comes before one that does.
    pub fn is_write(&self) -> (yes: bool)
        ensures
            yes == (*self != DetectedOperation::Read),
    {
        match self {
            DetectedOperation::Read => false,
            DetectedOperation::Write => true,
            DetectedOperation::WriteDiscovery => true,
        }
    }
}

/// Why a request has no namespace to work on.
#[derive(Debug)]
pub enum NamespaceError {
    NotFound(String),
    NoNamespace,
}

impl ResolvedNamespace {
    /// The namespace, where it exists.
    pub fn expect_exists(&self) -> (out: Result<NamespaceRef, NamespaceError>)
        ensures
            match (self, out) {
                (ResolvedNamespace::Exists(ns), Ok(r)) => r.id() == ns.id() && r.spec_name()
                    == ns.spec_name() && r.spec_protocol() == ns.spec_protocol(),
                (
                    ResolvedNamespace::NotFound { name, protocol },
                    Err(NamespaceError::NotFound(n)),
                ) => n@ == name@,
                (ResolvedNamespace::NoNamespace, Err(NamespaceError::NoNamespace)) => true,
                _ => false,
            },
    {
        match self {
            ResolvedNamespace::Exists(ns) => Ok(ns.copied()),
            ResolvedNamespace::NotFound { name, protocol } => Err(
                NamespaceError::NotFound(name.clone()),
            ),
            ResolvedNamespace::NoNamespace => Err(NamespaceError::NoNamespace),
        }
    }

    /// Name and protocol, where the namespace does not exist.
    pub fn name_if_missing(&self) -> (out: Option<(&str, &str)>)
        ensures
            match (self, out) {
                (ResolvedNamespace::NotFound { name, protocol }, Some((n, p))) => n@ == name@ && p@
                    == protocol@,
                (ResolvedNamespace::NotFound { name, protocol }, None) => false,
                (_, o) => o is None,
            },
    {
        match self {
            ResolvedNamespace::NotFound { name, protocol } => Some(
                (name.as_str(), protocol.as_str()),
            ),
            _ => None,
        }
    }
}

// -- Attestation digests ------------------------------------------------------

/// Digests that attest to content but never address it.
#[derive(Debug, Clone, Copy, PartialEq, Eq, Structural)]
pub enum AttestationDigest {
    Md5,
    Crc32,
    Crc32c,
    Crc64Nvme,
}

/// The checksum algorithms among the attestation digests.
#[derive(Debug, Clone, Copy, PartialEq, Eq, Structural)]
pub enum CrcKind {
    Crc32,
    Crc32c,
    Crc64Nvme,
}

/// The checksum of a byte string.
pub uninterp spec fn crc_of(kind: CrcKind, data: Seq<u8>) -> u64;

/// `crc_fast::checksum` under CRC-32/ISO-HDLC, CRC-32/ISCSI or CRC-64/NVME.
#[verifier::external_body]
pub(crate) fn crc_checksum(kind: CrcKind, data: &[u8]) -> (out: u64)
    ensures
        out == crc_of(kind, data@),
{
    let algorithm = match kind {
        CrcKind::Crc32 => crc_fast::CrcAlgorithm::Crc32IsoHdlc,
        CrcKind::Crc32c => crc_fast::CrcAlgorithm::Crc32Iscsi,
        CrcKind::Crc64Nvme => crc_fast::CrcAlgorithm::Crc64Nvme,
    };
    crc_fast::checksum(algorithm, data)
}

/// The last `n` bytes of a number, most significant first.
pub open spec fn be_bytes(v: int, n: nat) -> Seq<u8>
    decreases n,
{
    if n == 0 {
        Seq::empty()
    } else {
        be_bytes(v / 256, (n - 1) as nat).push((v % 256) as u8)
    }
}

/// The last `n` bytes of a number, most significant first.
pub fn big_endian(v: u64, n: usize) -> (out: Vec<u8>)
    ensures
        out@ == be_bytes(v as int, n as nat),
    decreases n,
{
    if n == 0 {
        Vec::new()
    } else {
        let mut out = big_endian(v / 256, n - 1);
        out.push((v % 256) as u8);
        out
    }
}

/// The digest bytes that attest to content.
pub open spec fn attestation_of(digest: AttestationDigest, content: Seq<u8>) -> Seq<u8> {
    match digest {
        AttestationDigest::Md5 => crate::digest::md5_of(content),
        AttestationDigest::Crc32 => be_bytes(crc_of(CrcKind::Crc32, content) as int, 4),
        AttestationDigest::Crc32c => be_bytes(crc_of(CrcKind::Crc32c, content) as int, 4),
        AttestationDigest::Crc64Nvme => be_bytes(crc_of(CrcKind::Crc64Nvme, content) as int, 8),
    }
}

impl AttestationDigest {
    /// Name of the digest.
    pub fn as_str(&self) -> (out: &'static str)
        ensures
            out@ == (match self {
                AttestationDigest::Md5 => "md5"@,
                AttestationDigest::Crc32 => "crc32"@,
                AttestationDigest::Crc32c => "crc32c"@,
                AttestationDigest::Crc64Nvme => "crc64nvme"@,
            }),
    {
        match self {
            AttestationDigest::Md5 => "md5",
            AttestationDigest::Crc32 => "crc32",
            AttestationDigest::Crc32c => "crc32c",
            AttestationDigest::Crc64Nvme => "crc64nvme",
        }
    }

    /// The digest bytes of content.
    pub fn compute(&self, content: &[u8]) -> (out: Vec<u8>)
        ensures
            out@ == attestation_of(*self, content@),
    {
        match self {
            AttestationDigest::Md5 => copy_bytes(md5_digest(content).as_slice()),
            AttestationDigest::Crc32 => big_endian(crc_checksum(CrcKind::Crc32, content), 4),
            AttestationDigest::Crc32c => big_endian(crc_checksum(CrcKind::Crc32c, content), 4),
            AttestationDigest::Crc64Nvme => big_endian(
                crc_checksum(CrcKind::Crc64Nvme, content),
                8,
            ),
        }
    }
}

// -- Versioning ---------------------------------------------------------------

/// Whether a namespace keeps old versions.
#[derive(Debug, Clone, Copy, PartialEq, Eq, Structural)]
pub enum VersioningState {
    Unversioned,
    Enabled,
    Suspended,
}

/// One version of a name.
#[derive(Debug)]
pub struct VersionEntry {
    pub version_id: String,
    pub kappa: Option<String>,
    pub is_delete_marker: bool,
    pub timestamp_ms: u64,
    pub size: u64,
    pub etag: Option<String>,
}

/// What deleting a version did.
#[derive(Debug)]
pub struct DeleteResult {
    pub version_id: String,
    pub is_delete_marker: bool,
}

// -- Hashes of names ----------------------------------------------------------

/// The number in the first eight bytes, least significant first.
pub open spec fn le_front(data: Seq<u8>) -> u64 {
    (data[0] + 0x100 * data[1] + 0x1_0000 * data[2] + 0x100_0000 * data[3] + 0x1_0000_0000
        * data[4] + 0x100_0000_0000 * data[5] + 0x1_0000_0000_0000 * data[6]
        + 0x100_0000_0000_0000 * data[7]) as u64
}

/// The hash that a name is filed under.
pub open spec fn name_hash(name: Seq<char>) -> u64 {
    le_front(crate::digest::blake3_of(encode_utf8(name)))
}

/// The hash that a namespace name is filed under.
pub fn namespace_hash(ns: &str) -> (out: u64)
    ensures
        out == name_hash(ns@),
{
    let h = blake3_hash(ns.as_bytes());
    (h[0] as u64) + 0x100 * (h[1] as u64) + 0x1_0000 * (h[2] as u64) + 0x100_0000 * (h[3] as u64)
        + 0x1_0000_0000 * (h[4] as u64) + 0x100_0000_0000 * (h[5] as u64) + 0x1_0000_0000_0000 * (
    h[6] as u64) + 0x100_0000_0000_0000 * (h[7] as u64)
}

/// The hash that a tag name or an address is filed under.
pub fn item_hash(name: &str) -> (out: u64)
    ensures
        out == name_hash(name@),
{
    namespace_hash(name)
}

// -- Laws -----------------------------------------------------------------------------

/// No two relations have one number, and no two kinds of change.
pub proof fn law_numbers_differ(a: EdgeRelation, b: EdgeRelation, x: MutationOp, y: MutationOp)
    ensures
        relation_number(a) == relation_number(b) ==> a == b,
        mutation_number(x) == mutation_number(y) ==> x == y,
{
}

} // verus!
