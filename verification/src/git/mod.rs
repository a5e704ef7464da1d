//! Git objects, packs, refs and the smart protocol.

pub mod delta;
pub mod envelope;
pub mod fetch;
pub mod hooks;
pub mod ingest;
pub mod layout;
pub mod lfs;
pub mod need;
pub mod object;
pub mod packgen;
pub mod packheader;
pub mod pktline;
pub mod protocol;
pub mod provider;
pub mod receive;
pub mod refs;
pub mod request;
pub mod restore;
pub mod sideband;
pub mod walk;
pub mod zlib;
