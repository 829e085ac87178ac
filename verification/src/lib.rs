//! Replay of captured dataflow event logs into a local analysis pipeline.
//!
//! A running distributed computation emits one event-log stream per worker.
//! This crate contains the verified core of a tool that ingests those
//! streams: claiming and partitioning the per-worker input slots across the
//! local analysis workers ([`slots`]), tracking the outstanding-progress
//! frontier ([`frontier`]), and the cooperative replay operator that turns
//! decoded log events into a progress-tracked stream and retracts all
//! outstanding progress exactly once on shutdown ([`replay`]).
//!
//! Connection handling, wire decoding and the downstream analyses live
//! outside this crate; they exchange plain values with the functions here.

use vstd::prelude::*;
use vstd::string::StringExecFns;

pub mod frontier;
pub mod replay;
pub mod slots;

verus! {

/// An error reported to the tool's command-line driver, carrying a
/// human-readable message.
pub struct DiagError(pub String);

/// A failure while acquiring a replay source: either an I/O failure,
/// carrying the underlying message, or any other setup failure.
pub enum ConnectError {
    IoError(String),
    Other(String),
}

impl DiagError {
    /// Converts a connection-layer failure into a reportable error,
    /// prefixing I/O failures so the two kinds stay distinguishable.
    pub fn from_connect(e: ConnectError) -> (r: DiagError)
        ensures
            match e {
                ConnectError::IoError(m) => r.0@ == "io error: "@ + m@,
                ConnectError::Other(m) => r.0@ == m@,
            },
    {
        match e {
            ConnectError::IoError(m) => {
                let mut s = String::from_str("io error: ");
                s.append(m.as_str());
                DiagError(s)
            },
            ConnectError::Other(m) => DiagError(m),
        }
    }

    /// The stored message, for display by the driver.
    pub fn message(&self) -> (r: &str)
        ensures
            r@ == self.0@,
    {
        self.0.as_str()
    }
}

} // verus!
