//! A point-in-time status report from the surrounding deployment tooling:
//! the protocol version, how many nodes are ready, and the lengths of the
//! code buffers still enqueued.

use vstd::prelude::*;

verus! {

/// A status snapshot, kept exactly as reported.
#[derive(Debug)]
pub struct Status {
    pub version: u8,
    pub ready_nodes: u32,
    pub enqueued_codes: Vec<u32>,
}

impl Status {
    /// Builds a status report from its three fields, stored unchanged.
    pub fn new(version: u8, ready_nodes: u32, enqueued_codes: Vec<u32>) -> (s: Status)
        ensures
            s.version == version,
            s.ready_nodes == ready_nodes,
            s.enqueued_codes@ == enqueued_codes@,
    {
        Status { version, ready_nodes, enqueued_codes }
    }
}

} // verus!
