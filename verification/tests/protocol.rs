use guest_call::codec::decode;
use guest_call::memory::GuestMemory;
use guest_call::protocol::call_and_read;
use guest_call::protocol::guest_receive;
use guest_call::protocol::guest_reply;
use guest_call::protocol::host_receive;
use guest_call::protocol::host_send;

#[test]
fn create_table_round_trips_through_all_six_steps() {
    let mut m = GuestMemory::new();
    let input = b"CREATE TABLE Users(id INT, name TEXT, age INT)".to_vec();

    let (addr, len) = host_send(&mut m, &input);
    let statement = guest_receive(&mut m, addr, len);
    assert_eq!(statement, input);

    // stand-in for the opaque engine
    let reply = if statement.starts_with(b"CREATE TABLE") {
        b"table created\n".to_vec()
    } else {
        b"[error] unsupported statement".to_vec()
    };
    let descriptor = guest_reply(&mut m, &reply);

    let (_, descriptor_len) = decode(descriptor);
    let out = host_receive(&mut m, descriptor);
    assert_eq!(out, b"table created\n".to_vec());
    assert_eq!(out.len(), 14);
    assert_eq!(descriptor_len as usize, out.len());
    assert_eq!(m.live_buffers(), 0);
}

#[test]
fn empty_statement_still_completes_the_protocol_without_leaks() {
    let mut m = GuestMemory::new();
    let input: Vec<u8> = Vec::new();

    let (addr, len) = host_send(&mut m, &input);
    assert_eq!(len, 0);
    let statement = guest_receive(&mut m, addr, len);
    assert!(statement.is_empty());

    // stand-in for the opaque engine: an error comes back as an ordinary
    // marker-tagged string through the same output path
    let reply = if statement.is_empty() {
        b"[error] empty statement".to_vec()
    } else {
        b"ok".to_vec()
    };
    let descriptor = guest_reply(&mut m, &reply);
    let out = host_receive(&mut m, descriptor);
    assert!(!out.is_empty());
    assert_eq!(out, reply);
    assert_eq!(m.live_buffers(), 0);
}

#[test]
fn non_ascii_reply_is_copied_out_byte_for_byte() {
    let mut m = GuestMemory::new();
    let input = b"SELECT caf\xc3\xa9 FROM Users".to_vec();
    let reply = b"[error] unrecognized symbol: caf\xc3\xa9".to_vec();
    let out = call_and_read(&mut m, &input, &reply);
    assert_eq!(out, reply);
    assert!(String::from_utf8(out).is_ok());
    assert_eq!(m.live_buffers(), 0);
}

#[test]
fn result_length_always_matches_the_descriptor_length_field() {
    let inputs: Vec<Vec<u8>> = vec![
        Vec::new(),
        b"x".to_vec(),
        b"caf\xc3\xa9".to_vec(),
        b"a longer statement with several words".to_vec(),
    ];
    for input in inputs {
        let mut m = GuestMemory::new();
        let (addr, len) = host_send(&mut m, &input);
        let statement = guest_receive(&mut m, addr, len);
        // echoing engine: the reply is the statement itself
        let descriptor = guest_reply(&mut m, &statement);
        let (_, descriptor_len) = decode(descriptor);
        let out = host_receive(&mut m, descriptor);
        assert_eq!(out.len(), descriptor_len as usize);
        assert_eq!(out, input);
        assert_eq!(m.live_buffers(), 0);
    }
}

#[test]
fn call_and_read_runs_one_exchange_and_returns_the_reply() {
    let mut m = GuestMemory::new();
    let out = call_and_read(&mut m, &b"abc".to_vec(), &b"xyz".to_vec());
    assert_eq!(out, b"xyz".to_vec());
    assert_eq!(m.live_buffers(), 0);

    // a second, serialized exchange on the same guest works the same way
    let out2 = call_and_read(&mut m, &b"next".to_vec(), &b"reply two".to_vec());
    assert_eq!(out2, b"reply two".to_vec());
    assert_eq!(m.live_buffers(), 0);
}
