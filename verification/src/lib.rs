//! An in-memory, network-accessible key-value cache core.
//!
//! Clients exchange fixed-length binary frames against a single shared
//! store.  This crate holds the verified core: the frame codec, the
//! command dispatcher, and the two storage backends (a concurrent hash
//! map and a manual memory arena).  Socket handling and process startup
//! are left to the surrounding binary, which feeds frames in and writes
//! replies out.

pub mod arena;
pub mod codec;
pub mod command;
pub mod dispatch;
pub mod instance;
pub mod laws;
pub mod store;

pub use arena::ArenaStore;
pub use codec::decode_key;
pub use command::Command;
pub use dispatch::Backend;
pub use instance::PaggoInstance;
pub use store::ConcurrentMap;
pub use store::StoreError;
