//! Services that a deployment may plug in, and the ones that stand in for them.

use vstd::prelude::*;

verus! {

// -- Witnesses of epoch roots ---------------------------------------------------------------

/// Why a witness gave no receipt.
#[derive(Debug)]
pub enum WitnessError {
    Unavailable(String),
    Rejected(String),
}

/// What a witness attests.
#[derive(Debug)]
pub struct WitnessReceipt {
    pub epoch_root_kappa: String,
    pub witness_signature: Vec<u8>,
    pub witness_identity: String,
    pub timestamp_ms: Option<u64>,
}

/// An external witness of epoch roots.
pub trait EpochWitness {
    /// Asks for a receipt on an epoch root.
    fn witness(&self, epoch_root_kappa: &str, epoch_root_bytes: &[u8]) -> Result<
        WitnessReceipt,
        WitnessError,
    >;
}

/// The witness that attests nothing.
#[derive(Debug)]
pub struct NoOpWitness;

impl EpochWitness for NoOpWitness {
    fn witness(&self, epoch_root_kappa: &str, epoch_root_bytes: &[u8]) -> (out: Result<
        WitnessReceipt,
        WitnessError,
    >)
        ensures
            match out {
                Ok(r) => r.epoch_root_kappa@ == epoch_root_kappa@ && r.witness_signature@.len()
                    == 0 && r.witness_identity@ == "none"@ && r.timestamp_ms is None,
                Err(_) => false,
            },
    {
        Ok(
            WitnessReceipt {
                epoch_root_kappa: epoch_root_kappa.to_owned(),
                witness_signature: Vec::new(),
                witness_identity: "none".to_owned(),
                timestamp_ms: None,
            },
        )
    }
}

// -- Receipts for offloaded content -----------------------------------------------------------

/// Why a receipt was not accepted.
#[derive(Debug)]
pub enum OffloadError {
    VerificationFailed(String),
    InvalidReceipt(String),
    NotConfigured,
}

/// A destination's word that it holds content.
#[derive(Debug)]
pub struct OffloadReceipt {
    pub source_kappa: String,
    pub destination: String,
    pub destination_signature: Vec<u8>,
    pub timestamp_ms: u64,
}

/// A verifier of receipts for offloaded content.
pub trait OffloadVerifier {
    /// Whether a receipt is good.
    fn verify_offload(&self, receipt: &OffloadReceipt) -> Result<bool, OffloadError>;
}

/// The verifier that accepts nothing.
#[derive(Debug)]
pub struct NoOpOffloadVerifier;

impl OffloadVerifier for NoOpOffloadVerifier {
    fn verify_offload(&self, receipt: &OffloadReceipt) -> (out: Result<bool, OffloadError>)
        ensures
            out == Err::<bool, OffloadError>(OffloadError::NotConfigured),
    {
        Err(OffloadError::NotConfigured)
    }
}

// -- Peers --------------------------------------------------------------------------------------

/// Why a peer was not reached.
#[derive(Debug)]
pub enum TransportError {
    ConnectionFailed(String),
    Timeout(String),
    PeerNotFound(String),
    NotConfigured,
}

/// A way to other nodes.
pub trait PeerTransport {
    /// Sends a message that is not answered.
    fn send_batch(&self, peer: &str, data: &[u8]) -> Result<(), TransportError>;

    /// Sends a message and waits for the answer.
    fn call_peer(&self, peer: &str, data: &[u8]) -> Result<Vec<u8>, TransportError>;

    /// A peer's current epoch root for a namespace.
    fn fetch_epoch_root(&self, peer: &str, namespace: &str) -> Result<Vec<u8>, TransportError>;

    /// How long a peer takes to answer, in milliseconds.
    fn rtt_estimate(&self, peer: &str) -> Option<u64>;
}

/// The transport that reaches no one.
#[derive(Debug)]
pub struct NoOpTransport;

impl PeerTransport for NoOpTransport {
    fn send_batch(&self, peer: &str, data: &[u8]) -> (out: Result<(), TransportError>)
        ensures
            out == Err::<(), TransportError>(TransportError::NotConfigured),
    {
        Err(TransportError::NotConfigured)
    }

    fn call_peer(&self, peer: &str, data: &[u8]) -> (out: Result<Vec<u8>, TransportError>)
        ensures
            out == Err::<Vec<u8>, TransportError>(TransportError::NotConfigured),
    {
        Err(TransportError::NotConfigured)
    }

    fn fetch_epoch_root(&self, peer: &str, namespace: &str) -> (out: Result<
        Vec<u8>,
        TransportError,
    >)
        ensures
            out == Err::<Vec<u8>, TransportError>(TransportError::NotConfigured),
    {
        Err(TransportError::NotConfigured)
    }

    fn rtt_estimate(&self, peer: &str) -> (out: Option<u64>)
        ensures
            out is None,
    {
        None
    }
}

} // verus!
