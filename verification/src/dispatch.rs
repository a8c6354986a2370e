//! Errors of the command hub, and the directed-send decisions: locating the
//! sink for an address, and folding the transport outcome into a result.

use vstd::prelude::*;

use crate::registry::Registry;

verus! {

/// Returned by the registry when a second connection is attempted for an
/// address that already holds one.
#[derive(Debug, Clone, Copy, PartialEq, Eq, Structural)]
pub struct AlreadyConnected;

/// Failure of a directed send: either no connection is registered under the
/// target address, or the transport write itself failed.
#[derive(Debug, Clone, Copy, PartialEq, Eq, Structural)]
pub enum DispatchError {
    NoSuchConnection,
    SendFailed,
}

/// Locates the sink registered under `address` and pairs it with the message
/// to write there. With no entry under the address it fails at once with
/// `NoSuchConnection`, sending nothing and touching nothing: it never removes
/// an entry, since cleanup belongs solely to that connection's own lifecycle.
/// The caller performs the write and accounts for it with `send_result`.
pub fn send_command<'a, S>(registry: &'a Registry<S>, address: &String, message: String) -> (r:
    Result<(&'a S, String), DispatchError>)
    requires
        registry.well_formed(),
    ensures
        match r {
            Ok(p) => registry@.contains_key(address@) && *p.0 == registry@[address@] && p.1@
                == message@,
            Err(e) => e == DispatchError::NoSuchConnection && !registry@.contains_key(address@),
        },
{
    match registry.lookup(address) {
        Some(sink) => Ok((sink, message)),
        None => Err(DispatchError::NoSuchConnection),
    }
}

/// Folds the outcome of a transport write into the dispatcher's result.
/// Dispatch is fire-and-forget: success means the frame was handed to the
/// transport, never that the remote client acknowledged it.
pub fn send_result(sent: bool) -> (r: Result<(), DispatchError>)
    ensures
        r is Ok <==> sent,
        !sent ==> r == Err::<(), DispatchError>(DispatchError::SendFailed),
{
    if sent {
        Ok(())
    } else {
        Err(DispatchError::SendFailed)
    }
}

} // verus!
