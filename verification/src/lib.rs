//! A persistent, log-structured key/value store with a line-framed wire
//! protocol.
//!
//! The store appends `SET`/`REMOVE` records to numbered log segments, serves
//! lookups from an in-memory index, and reclaims overwritten space by
//! compaction.  The store itself operates on in-memory segment buffers and
//! reports every change it makes to those buffers as a journal of file
//! operations, so a thin shell can mirror them onto real files.

mod bytes;
mod client;
mod config;
mod entry;
mod error;
mod index;
mod kvmemory;
mod log;
mod protocols;
mod resp;
mod segment;
mod serialization;
mod server;
mod storage;
mod store;
mod threadpool;

pub use bytes::{u64_from_le_bytes, u64_to_le_bytes};
pub use client::{ClientTraitSync, ClientType};
pub use config::{ClientConfig, Config, ProtocolConfig, SerializationConfig, ServerConfig, StorageConfig};
pub use entry::Entry;
pub use error::TsaError;
pub use kvmemory::KvMemory;
pub use log::CommandPos;
pub use protocols::{Protocol, ProtocolTrait, Request, Response, RespProtocol};
pub use resp::{deserialize, serialize};
pub use segment::{Segment, SegmentStatus};
pub use serialization::{Binary, Serialization, SerializationTrait};
pub use server::{handle_request, ServerTrait, ServerType};
pub use storage::{check_engine, Engine, StoreTrait};
pub use store::{FileOp, KvStore, COMPACTION_THRESHOLD_BYTES, MAX_SEGMENT_BYTES};
pub use threadpool::{PoolType, ThreadPoolTrait};
