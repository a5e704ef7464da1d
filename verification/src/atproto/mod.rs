//! Repositories of the AT Protocol.

pub mod account;
pub mod car;
pub mod cbor;
pub mod chain;
pub mod cid;
pub mod commit;
pub mod dag_cbor;
pub mod firehose;
pub mod mst;
pub mod node;
pub mod repo;
pub mod requests;
pub mod session;
pub mod tid;
pub mod walk;
pub mod writes;
