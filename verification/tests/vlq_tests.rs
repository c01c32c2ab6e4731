use digital_composer::midi::{encode_varlen, extract_varlen, MidiError};

#[test]
fn decode_three_byte_example() {
    // 0b11000000 0b10100000 0b00000001 holds 0b1_0000000_1000000_0000001
    let data = vec![0xC0u8, 0xA0, 0x01];
    assert_eq!(extract_varlen(&data, 0), Ok((0b100000001000000000001, 3)));
    assert_eq!(0b100000001000000000001u32, 1052673);
}

#[test]
fn decode_single_byte() {
    assert_eq!(extract_varlen(&vec![0x00], 0), Ok((0, 1)));
    assert_eq!(extract_varlen(&vec![0x7F], 0), Ok((127, 1)));
}

#[test]
fn decode_two_bytes() {
    assert_eq!(extract_varlen(&vec![0x81, 0x48], 0), Ok((200, 2)));
}

#[test]
fn decode_stops_at_first_clear_bit() {
    let data = vec![0x7Fu8, 0x7F, 0x7F];
    assert_eq!(extract_varlen(&data, 0), Ok((127, 1)));
}

#[test]
fn decode_mid_buffer() {
    let data = vec![0x00u8, 0x81, 0x00, 0x55];
    assert_eq!(extract_varlen(&data, 1), Ok((128, 3)));
}

#[test]
fn decode_truncated_is_error() {
    assert_eq!(extract_varlen(&vec![], 0), Err(MidiError::TruncatedStream));
    assert_eq!(
        extract_varlen(&vec![0x80, 0x80], 0),
        Err(MidiError::TruncatedStream)
    );
}

#[test]
fn encode_examples() {
    assert_eq!(encode_varlen(0), vec![0x00]);
    assert_eq!(encode_varlen(127), vec![0x7F]);
    assert_eq!(encode_varlen(128), vec![0x81, 0x00]);
    assert_eq!(encode_varlen(200), vec![0x81, 0x48]);
    assert_eq!(encode_varlen(1052673), vec![0xC0, 0xA0, 0x01]);
    assert_eq!(encode_varlen(0x0FFF_FFFF), vec![0xFF, 0xFF, 0xFF, 0x7F]);
}

#[test]
fn round_trip_values() {
    let values = [
        0u32,
        1,
        127,
        128,
        200,
        16383,
        16384,
        1052673,
        2097151,
        2097152,
        0x0FFF_FFFF,
        0x1000_0000,
        u32::MAX,
    ];
    for &v in values.iter() {
        let encoded = encode_varlen(v);
        let decoded = extract_varlen(&encoded, 0);
        assert_eq!(decoded, Ok((v, encoded.len())));
    }
}

#[test]
fn round_trip_bytes() {
    // encode(decode(s)) == s for a minimal well-formed quantity
    let streams: [&[u8]; 4] = [&[0x00], &[0x7F], &[0x81, 0x48], &[0xC0, 0xA0, 0x01]];
    for s in streams.iter() {
        let data = s.to_vec();
        let (v, consumed) = extract_varlen(&data, 0).unwrap();
        assert_eq!(consumed, data.len());
        assert_eq!(encode_varlen(v), data);
    }
}
