//! A model of the guest's linear memory together with its allocation ledger.
//!
//! Every buffer ever reserved is recorded as a state-tagged ledger entry:
//! `Allocated` with its single owner, or `Released`. Addresses are handed out
//! strictly increasing and never reused, so an address identifies its buffer
//! for the whole run. The raw read and write primitives demand that their
//! caller owns the buffer they touch, which is exactly the protocol rule that
//! a party must never touch a region whose ownership it has transferred away.

use vstd::prelude::*;
use vstd::pervasive::VecAdditionalExecFns;

verus! {

/// The party that currently owns a buffer: the controlling host or the
/// sandboxed guest.
#[derive(Clone, Copy, PartialEq, Eq, Structural, Debug)]
pub enum Owner {
    Host,
    Guest,
}

/// The lifecycle state of a recorded buffer. A buffer that was never
/// reserved has no ledger record at all, so the three protocol states are:
/// unrecorded, `Allocated` with exactly one owner, and `Released`.
#[derive(Clone, Copy, PartialEq, Eq, Structural, Debug)]
pub enum BufState {
    Allocated(Owner),
    Released,
}

/// One ledger record: a buffer's starting address, its byte length, and its
/// lifecycle state.
#[derive(Clone, Copy, PartialEq, Eq, Structural, Debug)]
pub struct Entry {
    pub addr: u32,
    pub len: u32,
    pub state: BufState,
}

/// The count of records among the first `n` of `s` that are still allocated.
pub open spec fn live_entries(s: Seq<Entry>, n: int) -> int
    decreases n,
{
    if n <= 0 {
        0
    } else {
        live_entries(s, n - 1) + if s[n - 1].state is Allocated {
            1int
        } else {
            0int
        }
    }
}

/// The count of records in [m, n) of `s` that are still allocated.
spec fn live_entries_between(s: Seq<Entry>, m: int, n: int) -> int
    decreases n - m,
{
    if n <= m {
        0
    } else {
        live_entries_between(s, m, n - 1) + if s[n - 1].state is Allocated {
            1int
        } else {
            0int
        }
    }
}

/// Counting from the start splits at any midpoint.
proof fn lemma_live_entries_split(s: Seq<Entry>, m: int, n: int)
    requires
        0 <= m <= n,
    ensures
        live_entries(s, n) == live_entries(s, m) + live_entries_between(s, m, n),
    decreases n - m,
{
    if m < n {
        lemma_live_entries_split(s, m, n - 1);
    }
}

/// Counting between two bounds splits at any midpoint.
proof fn lemma_live_entries_between_split(s: Seq<Entry>, m: int, mid: int, n: int)
    requires
        m <= mid <= n,
    ensures
        live_entries_between(s, m, n) == live_entries_between(s, m, mid)
            + live_entries_between(s, mid, n),
    decreases n - mid,
{
    if mid < n {
        lemma_live_entries_between_split(s, m, mid, n - 1);
    }
}

/// Two ledgers that agree record for record on [m, n) hold the same number
/// of live buffers there.
proof fn lemma_live_entries_agree_between(s1: Seq<Entry>, s2: Seq<Entry>, m: int, n: int)
    requires
        forall|k: int| m <= k < n ==> s1[k] == s2[k],
    ensures
        live_entries_between(s1, m, n) == live_entries_between(s2, m, n),
    decreases n - m,
{
    if m < n {
        lemma_live_entries_agree_between(s1, s2, m, n - 1);
    }
}

/// Changing exactly one record changes the live count by the difference of
/// the two indicator values at that index.
proof fn lemma_live_count_after_update(pre: Seq<Entry>, post: Seq<Entry>, i: int)
    requires
        pre.len() == post.len(),
        0 <= i < pre.len(),
        forall|k: int| 0 <= k < pre.len() && k != i ==> post[k] == pre[k],
    ensures
        live_entries(post, post.len() as int) == live_entries(pre, pre.len() as int) - (
        if pre[i].state is Allocated {
            1int
        } else {
            0int
        }) + (if post[i].state is Allocated {
            1int
        } else {
            0int
        }),
{
    let n: int = pre.len() as int;
    lemma_live_entries_split(pre, i, n);
    lemma_live_entries_split(post, i, n);
    lemma_live_entries_agree_between(pre, post, 0, i);
    lemma_live_entries_split(pre, 0, i);
    lemma_live_entries_split(post, 0, i);
    lemma_live_entries_between_split(pre, i, i + 1, n);
    lemma_live_entries_between_split(post, i, i + 1, n);
    lemma_live_entries_agree_between(pre, post, i + 1, n);
    assert(live_entries_between(pre, i, i) == 0);
    assert(live_entries_between(post, i, i) == 0);
    assert(live_entries_between(pre, i, i + 1) == if pre[i].state is Allocated {
        1int
    } else {
        0int
    });
    assert(live_entries_between(post, i, i + 1) == if post[i].state is Allocated {
        1int
    } else {
        0int
    });
}

/// The guest: its linear memory and the ledger of every buffer ever
/// reserved in it.
pub struct GuestMemory {
    mem: Vec<u8>,
    table: Vec<Entry>,
}

impl GuestMemory {
    /// The bytes of guest linear memory.
    pub closed spec fn memory(self) -> Seq<u8> {
        self.mem@
    }

    /// Every buffer ever reserved, in order of reservation.
    pub closed spec fn ledger(self) -> Seq<Entry> {
        self.table@
    }

    /// Well-formed: memory stays 32-bit addressable, every recorded buffer
    /// lies inside memory, and no two records share an address or overlap —
    /// addresses are handed out strictly increasing and never reused.
    pub open spec fn wf(self) -> bool {
        &&& self.memory().len() <= 0xffff_ffff
        &&& forall|i: int|
            0 <= i < self.ledger().len() ==> {
                &&& (#[trigger] self.ledger()[i]).addr as int + self.ledger()[i].len as int
                    <= self.memory().len()
                &&& (self.ledger()[i].addr as int) < self.memory().len()
            }
        &&& forall|i: int, j: int|
            0 <= i < j < self.ledger().len() ==> {
                &&& (#[trigger] self.ledger()[i]).addr as int + self.ledger()[i].len as int
                    <= (#[trigger] self.ledger()[j]).addr as int
                &&& self.ledger()[i].addr < self.ledger()[j].addr
            }
    }

    /// A live record of exactly this address, length and owner exists.
    pub open spec fn live_with(self, addr: u32, len: u32, owner: Owner) -> bool {
        exists|i: int|
            0 <= i < self.ledger().len() && (#[trigger] self.ledger()[i]) == (Entry {
                addr,
                len,
                state: BufState::Allocated(owner),
            })
    }

    /// Some live buffer starts at this address.
    pub open spec fn live_at(self, addr: u32) -> bool {
        exists|i: int|
            0 <= i < self.ledger().len() && (#[trigger] self.ledger()[i]).addr == addr
                && self.ledger()[i].state is Allocated
    }

    /// The bytes of the region [addr, addr + len).
    pub open spec fn region(self, addr: u32, len: u32) -> Seq<u8> {
        self.memory().subrange(addr as int, addr as int + len as int)
    }

    /// How many buffers are live right now.
    pub open spec fn live_count(self) -> int {
        live_entries(self.ledger(), self.ledger().len() as int)
    }

    /// A fresh guest: empty linear memory, empty ledger.
    pub fn new() -> (g: GuestMemory)
        ensures
            g.wf(),
            g.memory() == Seq::<u8>::empty(),
            g.ledger() == Seq::<Entry>::empty(),
    {
        GuestMemory { mem: Vec::new(), table: Vec::new() }
    }

    /// Reserves `size` bytes for `owner` and returns the region's starting
    /// address; the region's initial contents are unspecified. A zero-byte
    /// request still reserves a fresh region (one padding byte keeps its
    /// address distinct), so every buffer is identified by its address.
    /// A request the memory cannot hold is excluded up front: across the
    /// real boundary there is no recoverable out-of-memory path.
    #[verifier::loop_isolation(false)]
    pub fn allocate(&mut self, size: u32, owner: Owner) -> (addr: u32)
        requires
            old(self).wf(),
            old(self).memory().len() + size as int + 1 <= 0xffff_ffff,
        ensures
            final(self).wf(),
            addr as int == old(self).memory().len(),
            final(self).ledger() == old(self).ledger().push(
                (Entry { addr, len: size, state: BufState::Allocated(owner) }),
            ),
            final(self).live_with(addr, size, owner),
            final(self).live_count() == old(self).live_count() + 1,
            final(self).memory().len() == old(self).memory().len() + if size == 0 {
                1int
            } else {
                size as int
            },
            forall|k: int|
                0 <= k < old(self).memory().len() ==> final(self).memory()[k] == old(
                    self,
                ).memory()[k],
    {
        let addr = self.mem.len() as u32;
        let mut grow: usize = size as usize;
        if size == 0 {
            grow = 1;
        }
        let mut j: usize = 0;
        while j < grow
            invariant
                j <= grow,
                self.mem@.len() == old(self).mem@.len() + j,
                forall|k: int| 0 <= k < old(self).mem@.len() ==> self.mem@[k] == old(self).mem@[k],
                self.table@ == old(self).table@,
            decreases grow - j,
        {
            self.mem.push(0u8);
            j = j + 1;
        }
        let entry = Entry { addr, len: size, state: BufState::Allocated(owner) };
        self.table.push(entry);
        proof {
            let n: int = self.table@.len() - 1;
            assert(self.table@[n] == entry);
            assert(self.live_with(addr, size, owner));
            assert(live_entries(self.table@, n) == live_entries(old(self).table@, n)) by {
                lemma_live_entries_agree_between(self.table@, old(self).table@, 0, n);
                lemma_live_entries_split(self.table@, 0, n);
                lemma_live_entries_split(old(self).table@, 0, n);
            }
            assert forall|i: int| 0 <= i < self.ledger().len() implies {
                &&& (#[trigger] self.ledger()[i]).addr as int + self.ledger()[i].len as int
                    <= self.memory().len()
                &&& (self.ledger()[i].addr as int) < self.memory().len()
            } by {
                if i < n {
                    assert(self.ledger()[i] == old(self).ledger()[i]);
                }
            }
            assert forall|i: int, j2: int| 0 <= i < j2 < self.ledger().len() implies {
                &&& (#[trigger] self.ledger()[i]).addr as int + self.ledger()[i].len as int
                    <= (#[trigger] self.ledger()[j2]).addr as int
                &&& self.ledger()[i].addr < self.ledger()[j2].addr
            } by {
                assert(self.ledger()[i] == old(self).ledger()[i]);
                if j2 < n {
                    assert(self.ledger()[j2] == old(self).ledger()[j2]);
                } else {
                    assert(self.ledger()[j2] == entry);
                }
            }
        }
        addr
    }

    /// Releases the live buffer recorded as (`address`, `size`) and owned by
    /// `by`. Release is the owner's act, and only of a live buffer: a release
    /// without a matching prior reservation, or a second release of the same
    /// buffer, is ruled out by the precondition. Afterwards no live buffer
    /// starts at `address` any more; memory contents are untouched.
    #[verifier::loop_isolation(false)]
    pub fn deallocate(&mut self, address: u32, size: u32, by: Owner)
        requires
            old(self).wf(),
            old(self).live_with(address, size, by),
        ensures
            final(self).wf(),
            final(self).memory() == old(self).memory(),
            final(self).ledger().len() == old(self).ledger().len(),
            forall|k: int|
                0 <= k < old(self).ledger().len() && old(self).ledger()[k].addr != address
                    ==> final(self).ledger()[k] == old(self).ledger()[k],
            forall|k: int|
                0 <= k < old(self).ledger().len() && old(self).ledger()[k].addr == address
                    ==> final(self).ledger()[k] == (Entry {
                    addr: address,
                    len: size,
                    state: BufState::Released,
                }),
            !final(self).live_at(address),
            final(self).live_count() == old(self).live_count() - 1,
    {
        let target = Entry { addr: address, len: size, state: BufState::Allocated(by) };
        let n = self.table.len();
        let mut i: usize = 0;
        while i < n
            invariant
                i <= n,
                self.mem@ == old(self).mem@,
                self.table@ == old(self).table@,
                forall|k: int| 0 <= k < i ==> self.table@[k] != target,
            decreases n - i,
        {
            if self.table[i] == target {
                let released = Entry { addr: address, len: size, state: BufState::Released };
                proof {
                    assert(old(self).table@[i as int] == target);
                }
                self.table.set(i, released);
                proof {
                    self.lemma_after_state_change(*old(self), i as int, released);
                    assert forall|k: int|
                        0 <= k < old(self).ledger().len() && old(self).ledger()[k].addr == address
                            implies self.ledger()[k] == released by {
                        lemma_distinct_addresses(*old(self), k, i as int);
                    }
                    assert forall|k: int|
                        0 <= k < self.ledger().len() && (#[trigger] self.ledger()[k]).addr
                            == address implies !(self.ledger()[k].state is Allocated) by {
                        if k != i as int {
                            assert(self.ledger()[k] == old(self).ledger()[k]);
                            lemma_distinct_addresses(*old(self), k, i as int);
                        }
                    }
                    lemma_live_count_after_update(old(self).table@, self.table@, i as int);
                }
                return ;
            }
            i = i + 1;
        }
        proof {
            let w: int = choose|k: int|
                0 <= k < old(self).ledger().len() && (#[trigger] old(self).ledger()[k]) == (Entry {
                    addr: address,
                    len: size,
                    state: BufState::Allocated(by),
                });
            assert(self.table@[w] != target);
            assert(false);
        }
    }

    /// Frame helper: changing the state of one record keeps the ledger
    /// well-formed and the other records untouched.
    proof fn lemma_after_state_change(self, pre: GuestMemory, i: int, e: Entry)
        requires
            pre.wf(),
            0 <= i < pre.ledger().len(),
            self.memory() == pre.memory(),
            e.addr == pre.ledger()[i].addr,
            e.len == pre.ledger()[i].len,
            self.ledger() == pre.ledger().update(i, e),
        ensures
            self.wf(),
            self.ledger().len() == pre.ledger().len(),
            forall|k: int|
                0 <= k < pre.ledger().len() && k != i ==> self.ledger()[k] == pre.ledger()[k],
    {
        assert forall|k: int| 0 <= k < self.ledger().len() implies {
            &&& (#[trigger] self.ledger()[k]).addr as int + self.ledger()[k].len as int
                <= self.memory().len()
            &&& (self.ledger()[k].addr as int) < self.memory().len()
        } by {
            assert(pre.ledger()[k].addr as int + pre.ledger()[k].len as int <= pre.memory().len());
            assert((pre.ledger()[k].addr as int) < pre.memory().len());
        }
        assert forall|k: int, j: int| 0 <= k < j < self.ledger().len() implies {
            &&& (#[trigger] self.ledger()[k]).addr as int + self.ledger()[k].len as int
                <= (#[trigger] self.ledger()[j]).addr as int
            &&& self.ledger()[k].addr < self.ledger()[j].addr
        } by {
            assert(pre.ledger()[k].addr as int + pre.ledger()[k].len as int <= pre.ledger()[j].addr
                as int);
            assert(pre.ledger()[k].addr < pre.ledger()[j].addr);
        }
    }

    /// Hands the live buffer recorded as (`address`, `size`) over from owner
    /// `from` to owner `to`: the single hand-off act of the protocol. From
    /// this instant only `to` may read, write or release the region.
    #[verifier::loop_isolation(false)]
    pub fn transfer(&mut self, address: u32, size: u32, from: Owner, to: Owner)
        requires
            old(self).wf(),
            old(self).live_with(address, size, from),
        ensures
            final(self).wf(),
            final(self).memory() == old(self).memory(),
            final(self).ledger().len() == old(self).ledger().len(),
            forall|k: int|
                0 <= k < old(self).ledger().len() && old(self).ledger()[k].addr != address
                    ==> final(self).ledger()[k] == old(self).ledger()[k],
            forall|k: int|
                0 <= k < old(self).ledger().len() && old(self).ledger()[k].addr == address
                    ==> final(self).ledger()[k] == (Entry {
                    addr: address,
                    len: size,
                    state: BufState::Allocated(to),
                }),
            final(self).live_with(address, size, to),
            final(self).live_count() == old(self).live_count(),
    {
        let target = Entry { addr: address, len: size, state: BufState::Allocated(from) };
        let n = self.table.len();
        let mut i: usize = 0;
        while i < n
            invariant
                i <= n,
                self.mem@ == old(self).mem@,
                self.table@ == old(self).table@,
                forall|k: int| 0 <= k < i ==> self.table@[k] != target,
            decreases n - i,
        {
            if self.table[i] == target {
                let handed = Entry { addr: address, len: size, state: BufState::Allocated(to) };
                proof {
                    assert(old(self).table@[i as int] == target);
                }
                self.table.set(i, handed);
                proof {
                    self.lemma_after_state_change(*old(self), i as int, handed);
                    assert forall|k: int|
                        0 <= k < old(self).ledger().len() && old(self).ledger()[k].addr == address
                            implies self.ledger()[k] == handed by {
                        lemma_distinct_addresses(*old(self), k, i as int);
                    }
                    assert(self.table@[i as int] == handed);
                    assert(self.live_with(address, size, to));
                    lemma_live_count_after_update(old(self).table@, self.table@, i as int);
                }
                return ;
            }
            i = i + 1;
        }
        proof {
            let w: int = choose|k: int|
                0 <= k < old(self).ledger().len() && (#[trigger] old(self).ledger()[k]) == (Entry {
                    addr: address,
                    len: size,
                    state: BufState::Allocated(from),
                });
            assert(self.table@[w] != target);
            assert(false);
        }
    }

    /// Raw write of `data` over the whole live buffer at `addr`. The writer
    /// must own that buffer: a party never mutates a region whose ownership
    /// it has transferred away.
    #[verifier::loop_isolation(false)]
    pub fn write_bytes(&mut self, addr: u32, data: &Vec<u8>, writer: Owner)
        requires
            old(self).wf(),
            data@.len() <= 0xffff_ffff,
            old(self).live_with(addr, data@.len() as u32, writer),
        ensures
            final(self).wf(),
            final(self).ledger() == old(self).ledger(),
            final(self).memory().len() == old(self).memory().len(),
            forall|k: int|
                0 <= k < old(self).memory().len() && !(addr as int <= k < addr as int
                    + data@.len()) ==> final(self).memory()[k] == old(self).memory()[k],
            final(self).region(addr, data@.len() as u32) == data@,
    {
        proof {
            let w: int = choose|k: int|
                0 <= k < old(self).ledger().len() && (#[trigger] old(self).ledger()[k]) == (Entry {
                    addr,
                    len: data@.len() as u32,
                    state: BufState::Allocated(writer),
                });
            assert(old(self).ledger()[w].addr as int + old(self).ledger()[w].len as int <= old(
                self,
            ).memory().len());
        }
        let n = data.len();
        let mut j: usize = 0;
        while j < n
            invariant
                j <= n,
                addr as int + n as int <= self.mem@.len(),
                self.mem@.len() == old(self).mem@.len(),
                self.table@ == old(self).table@,
                forall|k: int|
                    0 <= k < self.mem@.len() && !(addr as int <= k < addr as int + j)
                        ==> self.mem@[k] == old(self).mem@[k],
                forall|k: int| 0 <= k < j ==> self.mem@[addr as int + k] == data@[k],
            decreases n - j,
        {
            let idx: usize = addr as usize + j;
            self.mem.set(idx, data[j]);
            j = j + 1;
        }
        proof {
            assert(self.region(addr, data@.len() as u32) =~= data@);
        }
    }

    /// Raw read of the whole live buffer at (`addr`, `size`). The reader
    /// must own that buffer; the copy out is byte for byte.
    #[verifier::loop_isolation(false)]
    pub fn read_bytes(&self, addr: u32, size: u32, reader: Owner) -> (data: Vec<u8>)
        requires
            self.wf(),
            self.live_with(addr, size, reader),
        ensures
            data@ == self.region(addr, size),
    {
        proof {
            let w: int = choose|k: int|
                0 <= k < self.ledger().len() && (#[trigger] self.ledger()[k]) == (Entry {
                    addr,
                    len: size,
                    state: BufState::Allocated(reader),
                });
            assert(self.ledger()[w].addr as int + self.ledger()[w].len as int
                <= self.memory().len());
        }
        let n = size as usize;
        let mut out: Vec<u8> = Vec::new();
        let mut j: usize = 0;
        while j < n
            invariant
                j <= n,
                addr as int + n as int <= self.mem@.len(),
                out@.len() == j,
                forall|k: int| 0 <= k < j ==> out@[k] == self.mem@[addr as int + k],
            decreases n - j,
        {
            out.push(self.mem[addr as usize + j]);
            j = j + 1;
        }
        proof {
            assert(out@ =~= self.region(addr, size));
        }
        out
    }

    /// The current size of the guest's linear memory in bytes; callers use
    /// it to check that a payload still fits before starting an exchange.
    pub fn memory_size(&self) -> (n: usize)
        ensures
            n == self.memory().len(),
    {
        self.mem.len()
    }

    /// Counts the buffers that are live right now; a full protocol exchange
    /// leaves this count exactly where it found it.
    #[verifier::loop_isolation(false)]
    pub fn live_buffers(&self) -> (n: usize)
        ensures
            n as int == self.live_count(),
    {
        let mut c: usize = 0;
        let mut i: usize = 0;
        while i < self.table.len()
            invariant
                i <= self.table@.len(),
                c <= i,
                c as int == live_entries(self.table@, i as int),
            decreases self.table@.len() - i,
        {
            match self.table[i].state {
                BufState::Allocated(_) => {
                    c = c + 1;
                },
                BufState::Released => {},
            }
            i = i + 1;
        }
        c
    }
}

/// In a well-formed guest, distinct ledger records never share an address.
pub proof fn lemma_distinct_addresses(g: GuestMemory, i: int, j: int)
    requires
        g.wf(),
        0 <= i < g.ledger().len(),
        0 <= j < g.ledger().len(),
        g.ledger()[i].addr == g.ledger()[j].addr,
    ensures
        i == j,
{
    if i < j {
        assert(g.ledger()[i].addr < g.ledger()[j].addr);
    } else if j < i {
        assert(g.ledger()[j].addr < g.ledger()[i].addr);
    }
}

/// Law — no double release: once no live buffer starts at `address` (which
/// `deallocate` guarantees of the address it has just released), no release
/// of that address can meet `deallocate`'s precondition again, whatever
/// length or party is supplied. A released buffer's address is never the
/// target of a second release.
pub proof fn lemma_no_double_release(g: GuestMemory, address: u32, size: u32, by: Owner)
    requires
        !g.live_at(address),
    ensures
        !g.live_with(address, size, by),
{
    if g.live_with(address, size, by) {
        let i: int = choose|i: int|
            0 <= i < g.ledger().len() && (#[trigger] g.ledger()[i]) == (Entry {
                addr: address,
                len: size,
                state: BufState::Allocated(by),
            });
        assert(g.ledger()[i].addr == address && g.ledger()[i].state is Allocated);
    }
}

/// Law — ownership exclusivity, part one: two distinct ledger records never
/// share their address and never overlap, so every byte of a live buffer
/// belongs to that buffer alone.
pub proof fn lemma_ownership_exclusive(g: GuestMemory, i: int, j: int)
    requires
        g.wf(),
        0 <= i < g.ledger().len(),
        0 <= j < g.ledger().len(),
        i != j,
    ensures
        g.ledger()[i].addr != g.ledger()[j].addr,
        g.ledger()[i].addr as int + g.ledger()[i].len as int <= g.ledger()[j].addr as int
            || g.ledger()[j].addr as int + g.ledger()[j].len as int <= g.ledger()[i].addr as int,
{
    if i < j {
        assert(g.ledger()[i].addr as int + g.ledger()[i].len as int <= g.ledger()[j].addr as int);
    } else {
        assert(g.ledger()[j].addr as int + g.ledger()[j].len as int <= g.ledger()[i].addr as int);
    }
}

/// Law — ownership exclusivity, part two: while a buffer is allocated it has
/// exactly one owner. Its single `Allocated` record names one owner, never
/// none, and two live records of the same address coincide, so their length
/// and owner do too.
pub proof fn lemma_owner_unique(
    g: GuestMemory,
    address: u32,
    len1: u32,
    len2: u32,
    owner1: Owner,
    owner2: Owner,
)
    requires
        g.wf(),
        g.live_with(address, len1, owner1),
        g.live_with(address, len2, owner2),
    ensures
        len1 == len2,
        owner1 == owner2,
{
    let i: int = choose|i: int|
        0 <= i < g.ledger().len() && (#[trigger] g.ledger()[i]) == (Entry {
            addr: address,
            len: len1,
            state: BufState::Allocated(owner1),
        });
    let j: int = choose|j: int|
        0 <= j < g.ledger().len() && (#[trigger] g.ledger()[j]) == (Entry {
            addr: address,
            len: len2,
            state: BufState::Allocated(owner2),
        });
    lemma_distinct_addresses(g, i, j);
}

} // verus!
