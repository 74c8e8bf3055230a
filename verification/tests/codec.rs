use guest_call::codec::decode;
use guest_call::codec::encode;

#[test]
fn encode_puts_address_high_and_length_low() {
    assert_eq!(encode(0x1234_5678, 0x9abc_def0), 0x1234_5678_9abc_def0u64);
    assert_eq!(encode(1, 0), 0x0000_0001_0000_0000u64);
    assert_eq!(encode(0, 1), 1u64);
}

#[test]
fn decode_returns_the_two_halves() {
    assert_eq!(decode(0x1234_5678_9abc_def0u64), (0x1234_5678, 0x9abc_def0));
    assert_eq!(decode(0), (0, 0));
}

#[test]
fn decode_inverts_encode() {
    assert_eq!(decode(encode(0, 0)), (0, 0));
    assert_eq!(decode(encode(42, 14)), (42, 14));
    assert_eq!(decode(encode(u32::MAX, u32::MAX)), (u32::MAX, u32::MAX));
    assert_eq!(decode(encode(0, u32::MAX)), (0, u32::MAX));
    assert_eq!(decode(encode(u32::MAX, 0)), (u32::MAX, 0));
}

#[test]
fn encode_inverts_decode() {
    let descriptor = 0xfedc_ba98_7654_3210u64;
    let (address, length) = decode(descriptor);
    assert_eq!(encode(address, length), descriptor);
}
