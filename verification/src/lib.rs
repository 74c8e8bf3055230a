//! Boundary protocol for invoking a function inside an isolated guest from a
//! controlling host, when only plain scalars can cross the call boundary.
//!
//! Variable-length byte strings travel as fixed-width descriptors: a 64-bit
//! scalar packing a 32-bit guest address and a 32-bit byte length. The crate
//! covers the descriptor codec, a model of the guest's linear memory with its
//! allocation ledger, and the ownership-transfer protocol that guarantees no
//! buffer is ever released twice or read after release.

pub mod codec;
pub mod memory;
pub mod protocol;
pub mod status;
