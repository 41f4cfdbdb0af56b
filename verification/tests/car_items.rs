use server::items::{CallFinished, Car, Model};
use server::wire::DecodeError;
use server::{create_car, create_val, deserialize_car, serialize_car};

#[test]
fn create_val_is_default() {
    assert_eq!(create_val(), CallFinished::default());
}

#[test]
fn create_car_is_blue_rev6() {
    let car = create_car();
    assert_eq!(car.color, "blue".to_string());
    assert_eq!(car.model, Model::Rev6);
}

#[test]
fn default_car_serializes_to_nothing() {
    let buf = serialize_car(&Car::default());
    assert_eq!(buf, Vec::<u8>::new());
}

#[test]
fn empty_input_deserializes_to_default_car() {
    assert_eq!(deserialize_car(&[]), Ok(Car::default()));
}

#[test]
fn blue_rev6_layout() {
    let buf = serialize_car(&create_car());
    assert_eq!(buf, vec![0x0A, 0x04, b'b', b'l', b'u', b'e', 0x10, 0x01]);
}

#[test]
fn car_round_trip() {
    let car = create_car();
    let back = deserialize_car(serialize_car(&car).as_slice()).unwrap();
    assert_eq!(back, car);
}

#[test]
fn car_round_trip_color_only() {
    let car = Car { color: "weiß".to_string(), model: Model::Unspecified };
    let back = deserialize_car(serialize_car(&car).as_slice()).unwrap();
    assert_eq!(back, car);
}

#[test]
fn invalid_utf8_color_is_rejected() {
    // field 1, length 1, a lone continuation byte
    assert_eq!(deserialize_car(&[0x0A, 0x01, 0xFF]), Err(DecodeError::InvalidUtf8));
}

#[test]
fn unknown_field_is_skipped() {
    // field 3 (unknown to Car), varint 5
    assert_eq!(deserialize_car(&[0x18, 0x05]), Ok(Car::default()));
}

#[test]
fn unknown_model_code_is_skipped() {
    // field 2, varint 99: not a known model line
    assert_eq!(deserialize_car(&[0x10, 0x63]), Ok(Car::default()));
}

#[test]
fn last_color_wins() {
    // two color fields: "a", then "b"
    let car = deserialize_car(&[0x0A, 0x01, b'a', 0x0A, 0x01, b'b']).unwrap();
    assert_eq!(car.color, "b".to_string());
}

#[test]
fn malformed_envelope_is_rejected() {
    assert_eq!(deserialize_car(&[0x0A]), Err(DecodeError::Truncated));
}
