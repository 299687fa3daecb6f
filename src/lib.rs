//! Storage and data-movement core of a distributed in-memory compute engine:
//! a per-node block engine with memory-to-disk spill, an immutable block
//! location registry with clone-on-miss decisions, a replicated global
//! key/value store with client caches, and a resource manager state machine.
pub mod codec;
pub mod ids;
pub mod record;
pub mod block;
pub mod block_server;
pub mod kvmap;
pub mod global;
pub mod registry;
pub mod resources;
pub mod damper;
pub mod stream;
pub mod members;
pub mod storage;
pub mod dataset;
