//! The server's verifiable core: the request dispatcher.  The accept loop,
//! the worker pool and the sockets live in the shell around the library.

use crate::error::TsaError;
use crate::protocols::{Request, Response};
use crate::storage::StoreTrait;
use vstd::prelude::*;

verus! {

/// The one-shot shutdown channel's sending half, from the standard
/// library; the library only passes it along.
#[verifier::external_type_specification]
#[verifier::external_body]
#[verifier::reject_recursive_types(T)]
pub struct ExSender<T>(std::sync::mpsc::Sender<T>);

/// A server front-end: an accept loop over a store, stopped from outside.
pub trait ServerTrait {
    /// Runs the accept loop until shutdown is signalled.
    fn run(&mut self) -> Result<(), TsaError>;

    /// A handle whose message stops the accept loop.
    fn shutdown(&self) -> std::sync::mpsc::Sender<()>;
}

/// The server kinds.
#[derive(Debug, Clone, Copy, PartialEq, Eq, Structural)]
pub enum ServerType {
    /// Blocking I/O, one worker per connection.
    Sync,
}

impl ServerType {
    /// The kind's name.
    pub fn as_str(&self) -> (r: &'static str)
        ensures
            r@ == "sync"@,
    {
        "sync"
    }
}

/// Executes one decoded request against the store and forms the response:
/// a successful SET or REMOVE answers `OK`; a GET answers the value or
/// `NOT_FOUND`; a REMOVE of a missing key answers `NOT_FOUND`; an engine
/// error on SET answers `ERROR` with its message.
pub fn handle_request<S: StoreTrait>(store: &mut S, req: Request) -> (r: Response)
    requires
        old(store).inv(),
    ensures
        final(store).inv(),
        match req {
            Request::Put { key, value } => {
                &&& (r is Done || r is Error)
                &&& r is Done ==> final(store).sview() == old(store).sview().insert(key@, value@)
                &&& r is Error ==> final(store).sview() == old(store).sview()
            },
            Request::Get { key } => {
                &&& final(store).sview() == old(store).sview()
                &&& match r {
                    Response::Value(v) => old(store).sview().contains_key(key@) && v@ == old(
                        store,
                    ).sview()[key@],
                    Response::NotFound => !old(store).sview().contains_key(key@),
                    Response::Error(_) => true,
                    Response::Done => false,
                }
            },
            Request::Remove { key } => {
                &&& (r is Done || r is NotFound)
                &&& r is Done ==> final(store).sview() == old(store).sview().remove(key@)
                &&& r is NotFound ==> final(store).sview() == old(store).sview()
            },
        },
{
    match req {
        Request::Put { key, value } => match store.set(key, value) {
            Ok(_) => Response::Done,
            Err(e) => Response::Error(e.message()),
        },
        Request::Get { key } => match store.get(key) {
            Ok(v) => match v {
                Some(value) => Response::Value(value),
                None => Response::NotFound,
            },
            Err(e) => Response::Error(e.message()),
        },
        Request::Remove { key } => match store.remove(key) {
            Ok(_) => Response::Done,
            Err(_) => Response::NotFound,
        },
    }
}

} // verus!
