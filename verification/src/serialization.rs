//! The record-serialization interface, and its one concrete form.

use crate::config::{Config, SerializationConfig};
use crate::error::TsaError;
use vstd::prelude::*;

verus! {

/// A record serialization; the log's binary format is the one in use.
pub trait SerializationTrait {

}

/// The length-prefixed binary record format.
pub struct Binary;

impl SerializationTrait for Binary {

}

/// The serialization builder.
pub struct Serialization;

impl Serialization {
    /// The serialization the configuration picks.
    pub fn build(config: &Config) -> (r: Result<Binary, TsaError>)
        ensures
            r is Ok,
    {
        match config.serialization {
            SerializationConfig::Binary => Ok(Binary),
        }
    }
}

} // verus!
