//! Sod: symmetric replication by exchanging hash-chained delta logs.
//!
//! A **sod** is a replica: a local database that always accepts writes and
//! converges with its peers by exchanging what the other is missing. There are
//! no client or server roles on the wire: client and server is a star of
//! pairwise symmetric sessions, p2p is any other graph of the same sessions.
//!
//! Convergence comes from algebra, not coordination: the write primitive is a
//! Z-set delta (datum + signed multiplicity), deltas commute, and views are
//! deterministic functions of the resulting multiset. Replicas that hold the
//! same set of frames hold the same views.
//!
//! Everything platform- or engine-specific enters through a trait:
//!
//! - [`engine::Engine`], "the bog machinery" that materializes deltas;
//!   [`engine::MemEngine`] is the oracle.
//! - [`store::LogStore`], the append-only frame log; [`store::MemLog`] keeps it
//!   in memory, and [`log_file::recover`] scans one kept in a file.
//! - transports drive the sans-io [`sync::Session`].
//!
//! What holds of the library as a whole is stated and proved in functions whose
//! names begin with `law_`.

use vstd::prelude::*;

pub mod bytes;
mod codec;
pub mod converge;
pub mod engine;
pub mod engine_fold;
pub mod error;
pub mod feeds;
pub mod frame;
mod idset;
pub mod log_file;
pub mod meaning;
pub mod mesh;
mod ordmap;
mod peak;
pub mod replica;
pub mod sinks;
pub mod store;
pub mod sync;
mod text;
pub mod time;
pub mod vector;
pub mod zset;

pub use crate::error::SodError;
pub use crate::frame::{decode_record, zero_hash, Frame, FrameHash, ReplicaId};
pub use crate::replica::Replica;
pub use crate::sync::{sync_pair, Msg, Session, SyncReport, PROTOCOL_VERSION};
pub use crate::vector::VersionVector;

verus! {

} // verus!
