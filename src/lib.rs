//! A materialised index of a hierarchical on-chain namespace, rebuilt from
//! the registry's ordered event log.
pub mod text;
pub mod store;
pub mod render;
pub mod events;
pub mod sync;
pub mod laws;
