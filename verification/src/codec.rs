//! The descriptor codec: packs an (address, length) pair into the single
//! 64-bit scalar that can cross the host/guest call boundary, and unpacks it
//! back. All bit-layout knowledge lives here; call sites never shift or mask.

use vstd::prelude::*;

verus! {

/// The packed form of a buffer descriptor: the address occupies the high
/// 32 bits, the length the low 32 bits.
pub open spec fn spec_encode(address: u32, length: u32) -> u64 {
    ((address as u64) << 32u64) | (length as u64)
}

/// The address field of a packed descriptor: its high 32 bits.
pub open spec fn spec_address(descriptor: u64) -> u32 {
    (descriptor >> 32u64) as u32
}

/// The length field of a packed descriptor: its low 32 bits.
pub open spec fn spec_length(descriptor: u64) -> u32 {
    (descriptor & 0xffff_ffffu64) as u32
}

/// Packs a buffer's starting address and byte length into one 64-bit
/// descriptor, the only currency that can cross the call boundary.
pub fn encode(address: u32, length: u32) -> (descriptor: u64)
    ensures
        descriptor == spec_encode(address, length),
{
    ((address as u64) << 32u64) | (length as u64)
}

/// Unpacks a descriptor into its (address, length) pair. The codec itself
/// imposes no validation beyond the fixed bit split; whether the denoted
/// range is a live buffer is the caller's concern.
pub fn decode(descriptor: u64) -> (pair: (u32, u32))
    ensures
        pair.0 == spec_address(descriptor),
        pair.1 == spec_length(descriptor),
{
    ((descriptor >> 32u64) as u32, (descriptor & 0xffff_ffffu64) as u32)
}

/// Law: decoding inverts encoding on every 32-bit pair, so a descriptor
/// loses neither the address nor the length it was built from.
pub proof fn lemma_decode_encode(address: u32, length: u32)
    ensures
        spec_address(spec_encode(address, length)) == address,
        spec_length(spec_encode(address, length)) == length,
{
    assert(((((address as u64) << 32u64) | (length as u64)) >> 32u64) as u32 == address)
        by (bit_vector);
    assert(((((address as u64) << 32u64) | (length as u64)) & 0xffff_ffffu64) as u32 == length)
        by (bit_vector);
}

/// Law: encoding inverts decoding on every 64-bit scalar; together with
/// `lemma_decode_encode` this makes the codec a bijection between
/// descriptors and (address, length) pairs.
pub proof fn lemma_encode_decode(descriptor: u64)
    ensures
        spec_encode(spec_address(descriptor), spec_length(descriptor)) == descriptor,
{
    assert(((((descriptor >> 32u64) as u32 as u64) << 32u64)
        | ((descriptor & 0xffff_ffffu64) as u32 as u64)) == descriptor) by (bit_vector);
}

} // verus!
