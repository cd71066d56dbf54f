//! The client's interface: one request in, one response out.  The TCP
//! connection lives in the shell around the library.

use crate::error::TsaError;
use crate::protocols::{Request, Response};
use vstd::prelude::*;

verus! {

/// A blocking client: sends one request and reads one response.
pub trait ClientTraitSync {
    /// Sends one request and returns the server's response.
    fn send(&mut self, request: Request) -> Result<Response, TsaError>;
}

/// The client kinds.
#[derive(Debug, Clone, Copy, PartialEq, Eq, Structural)]
pub enum ClientType {
    /// Blocking I/O.
    Sync,
    /// Non-blocking I/O, driven by a runtime in the shell.
    Async,
}

impl ClientType {
    /// The kind's name.
    pub fn as_str(&self) -> (r: &'static str)
        ensures
            self is Sync ==> r@ == "sync"@,
            self is Async ==> r@ == "async"@,
    {
        match self {
            ClientType::Sync => "sync",
            ClientType::Async => "async",
        }
    }
}

} // verus!
