//! Cancellation handles for in-flight network requests.
//!
//! Every outbound request is wrapped by the shell into an abortable future;
//! the paired handle is stored in the pending-request table and invoked to
//! cancel the request. The handle type and its `abort` method come from the
//! `futures` crate.

use vstd::prelude::*;

verus! {

/// `futures::future::AbortHandle`: the external handle paired with an
/// abortable future. Opaque here; aborting it makes the wrapped request
/// complete as cancelled.
#[verifier::external_type_specification]
#[verifier::external_body]
pub struct ExAbortHandle(futures::future::AbortHandle);

/// Relies on `futures::future::AbortHandle::abort`: it only flags the paired
/// future as aborted and wakes it, returns nothing and never panics.
pub assume_specification[ futures::future::AbortHandle::abort ](handle: &futures::future::AbortHandle)
;

} // verus!
