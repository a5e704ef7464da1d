//! The content-addressed store.

pub mod compression;
pub mod edges;
pub mod epochs;
pub mod identity;
pub mod memory;
pub mod namespaces;
pub mod state;
pub mod tags;
pub mod uploads;
pub mod upsert;
