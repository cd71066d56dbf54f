//! The configuration's shape.  Reading it from a file is the shell's duty;
//! the library holds only the choices.

use vstd::prelude::*;

verus! {

/// The configured components.
#[derive(Debug, Clone, Copy, PartialEq, Eq, Structural)]
pub struct Config {
    /// Which engine stores the data.
    pub storage: StorageConfig,
    /// Which server front-end runs.
    pub server: ServerConfig,
    /// Which client is used.
    pub client: ClientConfig,
    /// Which wire protocol frames requests.
    pub protocol: ProtocolConfig,
    /// Which record serialization the log uses.
    pub serialization: SerializationConfig,
}

/// The engine choices.
#[derive(Debug, Clone, Copy, PartialEq, Eq, Structural)]
pub enum StorageConfig {
    /// The log-structured engine of this crate.
    Kvs,
    /// The embedded tree-based store.
    Sled,
    /// The in-memory map.
    Memory,
}

/// The server choices.
#[derive(Debug, Clone, Copy, PartialEq, Eq, Structural)]
pub enum ServerConfig {
    /// Blocking I/O.
    Sync,
}

/// The client choices.
#[derive(Debug, Clone, Copy, PartialEq, Eq, Structural)]
pub enum ClientConfig {
    /// Blocking I/O.
    Sync,
}

/// The wire-protocol choices.
#[derive(Debug, Clone, Copy, PartialEq, Eq, Structural)]
pub enum ProtocolConfig {
    /// The line-framed request/response protocol.
    Result,
}

/// The record-serialization choices.
#[derive(Debug, Clone, Copy, PartialEq, Eq, Structural)]
pub enum SerializationConfig {
    /// The length-prefixed binary record format.
    Binary,
}

} // verus!
