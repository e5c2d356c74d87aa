//! Error taxonomy for the capture/dissection layer.

use vstd::prelude::*;

verus! {

/// A capture-source failure: a numeric code plus an optional
/// human-readable diagnostic, propagated to the caller unchanged.
#[derive(Debug)]
pub struct WsError {
    pub err: i32,
    pub err_info: String,
}

impl WsError {
    /// A blank error value: code zero, empty diagnostic.
    pub fn new() -> (r: WsError)
        ensures
            r.err == 0,
            r.err_info@ == Seq::<char>::empty(),
    {
        WsError { err: 0, err_info: String::new() }
    }
}

/// Every failure this library reports.
///
/// A degraded decode (malformed input yielding a partial tree) is normal
/// operation, not an error, and has no variant here.
#[derive(Debug)]
pub enum Error {
    /// The capture source is exhausted; terminates a read loop.
    EOF,
    /// The capture source reported a failure.
    WsError(WsError),
    /// A tree query ran against a dissection result before `dissect`.
    NotDissected,
    /// Filter text failed expansion or compilation; carries the diagnostic.
    InvalidFilter(String),
}

} // verus!
