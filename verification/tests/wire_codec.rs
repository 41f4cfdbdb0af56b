use server::wire::{decode_packet, encode_packet, encoded_len, DecodeError, Field, Packet, WireValue};

fn packet(fields: Vec<Field>) -> Packet {
    Packet { fields }
}

#[test]
fn default_packet_encodes_to_nothing() {
    let p = Packet::default();
    let buf = encode_packet(&p);
    assert_eq!(buf, Vec::<u8>::new());
    assert_eq!(encoded_len(&p), 0);
}

#[test]
fn empty_input_decodes_to_default_packet() {
    let p = decode_packet(&[]).unwrap();
    assert_eq!(p, Packet::default());
}

#[test]
fn varint_field_layout() {
    let p = packet(vec![Field { number: 1, value: WireValue::Varint(5) }]);
    let buf = encode_packet(&p);
    assert_eq!(buf, vec![0x08, 0x05]);
    assert_eq!(encoded_len(&p), 2);
}

#[test]
fn multi_byte_varint_layout() {
    let p = packet(vec![Field { number: 1, value: WireValue::Varint(300) }]);
    let buf = encode_packet(&p);
    assert_eq!(buf, vec![0x08, 0xAC, 0x02]);
}

#[test]
fn bytes_field_layout() {
    let p = packet(vec![Field { number: 2, value: WireValue::Bytes(vec![97, 98, 99]) }]);
    let buf = encode_packet(&p);
    assert_eq!(buf, vec![0x12, 0x03, 97, 98, 99]);
}

#[test]
fn fixed32_field_layout() {
    let p = packet(vec![Field { number: 3, value: WireValue::Fixed32(0x0102_0304) }]);
    let buf = encode_packet(&p);
    assert_eq!(buf, vec![0x1D, 0x04, 0x03, 0x02, 0x01]);
}

#[test]
fn fixed64_field_layout() {
    let p = packet(vec![Field { number: 4, value: WireValue::Fixed64(1) }]);
    let buf = encode_packet(&p);
    assert_eq!(buf, vec![0x21, 1, 0, 0, 0, 0, 0, 0, 0]);
}

#[test]
fn round_trip_all_wire_types() {
    let p = packet(vec![
        Field { number: 1, value: WireValue::Varint(u64::MAX) },
        Field { number: 2, value: WireValue::Bytes(vec![]) },
        Field { number: 3, value: WireValue::Bytes(vec![0xFF, 0x00, 0x7F]) },
        Field { number: 4, value: WireValue::Fixed64(u64::MAX) },
        Field { number: 5, value: WireValue::Fixed32(0) },
        Field { number: 0x1FFF_FFFF, value: WireValue::Varint(0) },
    ]);
    let buf = encode_packet(&p);
    assert_eq!(buf.len(), encoded_len(&p));
    let back = decode_packet(buf.as_slice()).unwrap();
    assert_eq!(back, p);
}

#[test]
fn well_formed_packets_are_recognised() {
    let good = packet(vec![Field { number: 1, value: WireValue::Varint(5) }]);
    assert!(good.is_well_formed());
    assert!(Packet::default().is_well_formed());
    let number_zero = packet(vec![Field { number: 0, value: WireValue::Varint(5) }]);
    assert!(!number_zero.is_well_formed());
    let number_too_big = packet(vec![Field { number: 0x2000_0000, value: WireValue::Varint(5) }]);
    assert!(!number_too_big.is_well_formed());
}

#[test]
fn truncated_varint_is_rejected() {
    assert_eq!(decode_packet(&[0xFF, 0xFF, 0xFF, 0xFF]), Err(DecodeError::Truncated));
}

#[test]
fn field_number_zero_is_rejected() {
    assert_eq!(decode_packet(&[0x00]), Err(DecodeError::InvalidFieldNumber));
}

#[test]
fn deprecated_wire_type_is_rejected() {
    // field 1, wire type 3 (group start)
    assert_eq!(decode_packet(&[0x0B]), Err(DecodeError::InvalidWireType));
}

#[test]
fn varint_overflow_is_rejected() {
    let bytes = [0x08, 0xFF, 0xFF, 0xFF, 0xFF, 0xFF, 0xFF, 0xFF, 0xFF, 0xFF, 0x02];
    assert_eq!(decode_packet(&bytes), Err(DecodeError::VarintOverflow));
}

#[test]
fn truncated_fixed32_is_rejected() {
    assert_eq!(decode_packet(&[0x0D, 0x01]), Err(DecodeError::Truncated));
}

#[test]
fn truncated_length_delimited_is_rejected() {
    assert_eq!(decode_packet(&[0x12, 0x05, 0x01]), Err(DecodeError::Truncated));
}

#[test]
fn trailing_garbage_is_rejected() {
    // one good field, then a lone continuation byte
    assert_eq!(decode_packet(&[0x08, 0x05, 0x80]), Err(DecodeError::Truncated));
}
