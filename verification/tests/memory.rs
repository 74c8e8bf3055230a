use guest_call::memory::GuestMemory;
use guest_call::memory::Owner;

#[test]
fn allocate_then_release_leaves_nothing_live() {
    let mut m = GuestMemory::new();
    let addr = m.allocate(4, Owner::Host);
    assert_eq!(addr, 0);
    assert_eq!(m.live_buffers(), 1);
    m.deallocate(addr, 4, Owner::Host);
    assert_eq!(m.live_buffers(), 0);
}

#[test]
fn write_and_read_copy_byte_for_byte() {
    let mut m = GuestMemory::new();
    let data = vec![1u8, 2, 3];
    let addr = m.allocate(3, Owner::Host);
    m.write_bytes(addr, &data, Owner::Host);
    assert_eq!(m.read_bytes(addr, 3, Owner::Host), data);
}

#[test]
fn zero_length_buffers_get_distinct_addresses() {
    let mut m = GuestMemory::new();
    let first = m.allocate(0, Owner::Host);
    let second = m.allocate(0, Owner::Host);
    assert_ne!(first, second);
    assert_eq!(m.live_buffers(), 2);
    m.deallocate(first, 0, Owner::Host);
    m.deallocate(second, 0, Owner::Host);
    assert_eq!(m.live_buffers(), 0);
}

#[test]
fn transfer_hands_the_buffer_to_the_other_party() {
    let mut m = GuestMemory::new();
    let data = vec![9u8];
    let addr = m.allocate(1, Owner::Host);
    m.write_bytes(addr, &data, Owner::Host);
    m.transfer(addr, 1, Owner::Host, Owner::Guest);
    assert_eq!(m.read_bytes(addr, 1, Owner::Guest), data);
    m.deallocate(addr, 1, Owner::Guest);
    assert_eq!(m.live_buffers(), 0);
}

#[test]
fn memory_grows_with_each_reservation() {
    let mut m = GuestMemory::new();
    assert_eq!(m.memory_size(), 0);
    m.allocate(5, Owner::Guest);
    assert_eq!(m.memory_size(), 5);
    m.allocate(0, Owner::Guest);
    assert_eq!(m.memory_size(), 6);
}
