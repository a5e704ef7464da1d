//! The registry's own protocol on top of the store.

pub mod bundle;
pub mod compose;
pub mod crdt;
pub mod edge;
pub mod events;
pub mod gc;
pub mod query;
pub mod reach;
pub mod reconcile;
pub mod records;
pub mod requests;
pub mod roots;
pub mod scoped;
