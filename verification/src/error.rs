//! Failure taxonomy of the ring.
//!
//! Frame-level decode failures are recovered locally: the frame is dropped
//! and no state changes. Everything else is fatal to the current run and
//! surfaced to the caller, which is expected to restart the process after a
//! fixed delay.

use vstd::prelude::*;

verus! {

/// A line did not match the frame shape it was decoded against. The
/// receiving duty drops the line and keeps its state.
#[derive(Clone, Copy, PartialEq, Eq, Structural, Debug)]
pub struct DecodeError;

/// A run-level failure: the current peer or coordinator run ends and the
/// external supervisor restarts the process.
#[derive(Clone, Copy, PartialEq, Eq, Structural, Debug)]
pub enum RunError {
    /// A bind, connect, accept, read or write failed. Raised by the driver
    /// that owns the sockets.
    Connection,
    /// The control channel was expected to deliver a `StartFlag` frame, and
    /// either the stream ended first or the line decoded to no `StartFlag`.
    Protocol,
}

} // verus!
