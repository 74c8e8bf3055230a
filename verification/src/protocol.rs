//! The ownership-transfer protocol: who allocates which buffer, who releases
//! it, and when.
//!
//! One exchange runs in six strictly ordered steps. The host reserves an
//! input buffer, writes its payload and hands the buffer to the guest by
//! invoking the entry point. The guest consumes and releases the input,
//! produces its result through the opaque engine, reserves an output buffer,
//! writes the result and hands the buffer back by returning its packed
//! descriptor. The host decodes the descriptor, copies the bytes out and
//! releases the output buffer, exactly once. Engine-level failures are not a
//! separate channel: they come back as ordinary result strings through the
//! identical output path.

use vstd::prelude::*;
use crate::codec;
use crate::memory::BufState;
use crate::memory::Entry;
use crate::memory::GuestMemory;
use crate::memory::Owner;

verus! {

/// Host side, steps one and two: reserves an input buffer, copies `input`
/// into it verbatim, and hands the buffer to the guest. From this instant
/// the host may not read, write or release the region. Returns the
/// (address, length) pair passed to the guest entry point — two scalars
/// already of known width, so no packing is needed at this call site.
pub fn host_send(m: &mut GuestMemory, input: &Vec<u8>) -> (r: (u32, u32))
    requires
        old(m).wf(),
        old(m).memory().len() + input@.len() + 1 <= 0xffff_ffff,
    ensures
        final(m).wf(),
        r.0 as int == old(m).memory().len(),
        r.1 as int == input@.len(),
        final(m).live_with(r.0, r.1, Owner::Guest),
        final(m).region(r.0, r.1) == input@,
        final(m).ledger() == old(m).ledger().push(
            (Entry { addr: r.0, len: r.1, state: BufState::Allocated(Owner::Guest) }),
        ),
        final(m).live_count() == old(m).live_count() + 1,
        final(m).memory().len() == old(m).memory().len() + if input@.len() == 0 {
            1int
        } else {
            input@.len() as int
        },
        forall|k: int|
            0 <= k < old(m).memory().len() ==> final(m).memory()[k] == old(m).memory()[k],
{
    let size: u32 = input.len() as u32;
    let ghost pre = *old(m);
    let addr = m.allocate(size, Owner::Host);
    m.write_bytes(addr, input, Owner::Host);
    proof {
        assert(m.live_with(addr, size, Owner::Host));
    }
    let ghost mid = *m;
    m.transfer(addr, size, Owner::Host, Owner::Guest);
    proof {
        let n: int = pre.ledger().len() as int;
        assert forall|k: int| 0 <= k < n implies m.ledger()[k] == pre.ledger()[k] by {
            assert((pre.ledger()[k].addr as int) < pre.memory().len());
            assert(mid.ledger()[k].addr != addr);
        }
        assert(mid.ledger()[n].addr == addr);
        assert(m.ledger() =~= pre.ledger().push(
            (Entry { addr, len: size, state: BufState::Allocated(Owner::Guest) }),
        ));
    }
    (addr, size)
}

/// Guest side, step three: the entry point consumes the input region it now
/// owns — it copies the statement out for the engine and releases the input
/// buffer, exactly once. Afterwards no live buffer starts at that address.
pub fn guest_receive(m: &mut GuestMemory, addr: u32, size: u32) -> (statement: Vec<u8>)
    requires
        old(m).wf(),
        old(m).live_with(addr, size, Owner::Guest),
    ensures
        final(m).wf(),
        statement@ == old(m).region(addr, size),
        !final(m).live_at(addr),
        final(m).memory() == old(m).memory(),
        final(m).ledger().len() == old(m).ledger().len(),
        forall|k: int|
            0 <= k < old(m).ledger().len() && old(m).ledger()[k].addr != addr ==> final(m).ledger()[k] == old(m).ledger()[k],
        forall|k: int|
            0 <= k < old(m).ledger().len() && old(m).ledger()[k].addr == addr ==> final(m).ledger()[k] == (Entry { addr, len: size, state: BufState::Released }),
        final(m).live_count() == old(m).live_count() - 1,
{
    let statement = m.read_bytes(addr, size, Owner::Guest);
    m.deallocate(addr, size, Owner::Guest);
    statement
}

/// Guest side, steps four and five: reserves an output buffer sized to the
/// engine's result, writes the bytes into it, and hands the buffer to the
/// host by returning the packed descriptor — the single 64-bit scalar the
/// call boundary can carry.
pub fn guest_reply(m: &mut GuestMemory, result: &Vec<u8>) -> (descriptor: u64)
    requires
        old(m).wf(),
        old(m).memory().len() + result@.len() + 1 <= 0xffff_ffff,
    ensures
        final(m).wf(),
        codec::spec_address(descriptor) as int == old(m).memory().len(),
        codec::spec_length(descriptor) as int == result@.len(),
        final(m).live_with(
            codec::spec_address(descriptor),
            codec::spec_length(descriptor),
            Owner::Host,
        ),
        final(m).region(codec::spec_address(descriptor), codec::spec_length(descriptor))
            == result@,
        final(m).ledger() == old(m).ledger().push(
            (Entry {
                addr: codec::spec_address(descriptor),
                len: codec::spec_length(descriptor),
                state: BufState::Allocated(Owner::Host),
            }),
        ),
        final(m).live_count() == old(m).live_count() + 1,
        final(m).memory().len() == old(m).memory().len() + if result@.len() == 0 {
            1int
        } else {
            result@.len() as int
        },
        forall|k: int|
            0 <= k < old(m).memory().len() ==> final(m).memory()[k] == old(m).memory()[k],
{
    let size: u32 = result.len() as u32;
    let ghost pre = *old(m);
    let addr = m.allocate(size, Owner::Guest);
    m.write_bytes(addr, result, Owner::Guest);
    proof {
        assert(m.live_with(addr, size, Owner::Guest));
    }
    let ghost mid = *m;
    m.transfer(addr, size, Owner::Guest, Owner::Host);
    let descriptor = codec::encode(addr, size);
    proof {
        codec::lemma_decode_encode(addr, size);
        let n: int = pre.ledger().len() as int;
        assert forall|k: int| 0 <= k < n implies m.ledger()[k] == pre.ledger()[k] by {
            assert((pre.ledger()[k].addr as int) < pre.memory().len());
            assert(mid.ledger()[k].addr != addr);
        }
        assert(mid.ledger()[n].addr == addr);
        assert(m.ledger() =~= pre.ledger().push(
            (Entry { addr, len: size, state: BufState::Allocated(Owner::Host) }),
        ));
    }
    descriptor
}

/// Host side, step six: decodes the returned descriptor, copies the result
/// out of guest memory byte for byte, and releases the output buffer,
/// exactly once. The copy's length is exactly the descriptor's length field,
/// and afterwards the descriptor's address holds no live buffer: the
/// descriptor must never be used again.
pub fn host_receive(m: &mut GuestMemory, descriptor: u64) -> (out: Vec<u8>)
    requires
        old(m).wf(),
        old(m).live_with(
            codec::spec_address(descriptor),
            codec::spec_length(descriptor),
            Owner::Host,
        ),
    ensures
        final(m).wf(),
        out@ == old(m).region(codec::spec_address(descriptor), codec::spec_length(descriptor)),
        out@.len() == codec::spec_length(descriptor),
        !final(m).live_at(codec::spec_address(descriptor)),
        final(m).memory() == old(m).memory(),
        final(m).ledger().len() == old(m).ledger().len(),
        forall|k: int|
            0 <= k < old(m).ledger().len() && old(m).ledger()[k].addr != codec::spec_address(
                descriptor,
            ) ==> final(m).ledger()[k] == old(m).ledger()[k],
        forall|k: int|
            0 <= k < old(m).ledger().len() && old(m).ledger()[k].addr == codec::spec_address(
                descriptor,
            ) ==> final(m).ledger()[k] == (Entry {
                addr: codec::spec_address(descriptor),
                len: codec::spec_length(descriptor),
                state: BufState::Released,
            }),
        final(m).live_count() == old(m).live_count() - 1,
{
    let pair = codec::decode(descriptor);
    let out = m.read_bytes(pair.0, pair.1, Owner::Host);
    m.deallocate(pair.0, pair.1, Owner::Host);
    out
}

/// The host call wrapper: one full exchange, steps one to six in order, with
/// exactly one allocation, one hand-off, one decode, one copy-out and one
/// release on each side of the boundary.
///
/// The engine reached by the guest entry point is an opaque collaborator and
/// no part of this protocol; `reply` stands for whatever result or error
/// string it produced for `input`. On return the copy-out is byte for byte —
/// `out` equals `reply` whatever bytes it holds — and no guest memory remains
/// referenced by the host: both buffers of the exchange are `Released` and
/// the number of live buffers is back exactly where it started.
pub fn call_and_read(m: &mut GuestMemory, input: &Vec<u8>, reply: &Vec<u8>) -> (out: Vec<u8>)
    requires
        old(m).wf(),
        old(m).memory().len() + input@.len() + reply@.len() + 2 <= 0xffff_ffff,
    ensures
        final(m).wf(),
        out@ == reply@,
        final(m).ledger().len() == old(m).ledger().len() + 2,
        forall|k: int|
            0 <= k < old(m).ledger().len() ==> final(m).ledger()[k] == old(m).ledger()[k],
        final(m).ledger()[old(m).ledger().len() as int].state is Released,
        final(m).ledger()[old(m).ledger().len() as int + 1].state is Released,
        final(m).live_count() == old(m).live_count(),
{
    let ghost pre = *old(m);
    let sent = host_send(m, input);
    let ghost st1 = *m;
    let _statement = guest_receive(m, sent.0, sent.1);
    let ghost st2 = *m;
    let descriptor = guest_reply(m, reply);
    let ghost st3 = *m;
    let out = host_receive(m, descriptor);
    proof {
        let n: int = pre.ledger().len() as int;
        let a_in = sent.0;
        let a_out = codec::spec_address(descriptor);
        assert(a_in as int == pre.memory().len());
        assert(a_out as int == st2.memory().len());
        assert(st2.ledger().len() == n + 1);
        // the input buffer's record after the guest consumed it
        assert(st1.ledger()[n].addr == a_in);
        assert(st2.ledger()[n] == (Entry {
            addr: a_in,
            len: sent.1,
            state: BufState::Released,
        }));
        assert forall|k: int| 0 <= k < n implies st2.ledger()[k] == pre.ledger()[k] by {
            assert((pre.ledger()[k].addr as int) < pre.memory().len());
            assert(st1.ledger()[k] == pre.ledger()[k]);
        }
        // the output buffer's record after the host released it
        assert(st3.ledger()[n + 1].addr == a_out);
        assert forall|k: int| 0 <= k < n + 1 implies m.ledger()[k] == st2.ledger()[k] by {
            assert(st3.ledger()[k] == st2.ledger()[k]);
            if k < n {
                assert((st2.ledger()[k].addr as int) < pre.memory().len());
            } else {
                assert(st2.ledger()[k].addr == a_in);
            }
            assert((st2.ledger()[k].addr as int) < st2.memory().len());
            assert(st3.ledger()[k].addr != a_out);
        }
        assert(m.ledger()[n + 1].state is Released) by {
            assert(st3.ledger()[n + 1].addr == a_out);
        }
        assert(m.ledger()[n] == st2.ledger()[n]);
    }
    out
}

} // verus!
