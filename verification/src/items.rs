//! Sample application records carried through the envelope codec.
//!
//! A [`Car`] is a demonstration record with a string field and an enum field,
//! serialized as two wire-format fields: field 1 holds the color's UTF-8
//! bytes, field 2 the model's code as a varint, each omitted at its default
//! value. [`lemma_car_round_trip`] proves that parsing a serialized car gives
//! the car back.

use crate::wire::dec_message;
use crate::wire::decode_packet;
use crate::wire::encode_packet;
use crate::wire::message_bytes;
use crate::wire::packet_wf;
use crate::wire::DecodeError;
use crate::wire::Field;
use crate::wire::FieldV;
use crate::wire::Packet;
use crate::wire::WireValue;
use crate::wire::WireValueV;
use vstd::prelude::*;
use vstd::string::StringSliceAdditionalSpecFns;
use vstd::string::StrSliceExecFns;
use vstd::utf8::decode_utf8;
use vstd::utf8::encode_utf8;
use vstd::utf8::valid_utf8;

verus! {

/// A placeholder record for a finished call; the schema defines no fields for
/// it yet.
#[derive(Clone, Copy, Debug, PartialEq, Eq, Structural)]
pub struct CallFinished {}

impl Default for CallFinished {
    fn default() -> (r: CallFinished)
        ensures
            r == (CallFinished {  }),
    {
        CallFinished {}
    }
}

/// Returns a fresh, default-valued [`CallFinished`] record.
pub fn create_val() -> (r: CallFinished)
    ensures
        r == (CallFinished {  }),
{
    let output = CallFinished::default();
    output
}

/// A car's model line. The first value is the default and stands for an
/// unset field.
#[derive(Clone, Copy, Debug, PartialEq, Eq, Structural)]
pub enum Model {
    Unspecified,
    Rev6,
}

/// The varint code a model is carried as on the wire.
pub open spec fn model_number(m: Model) -> u64 {
    match m {
        Model::Unspecified => 0,
        Model::Rev6 => 1,
    }
}

/// The demonstration record: a color and a model line.
#[derive(Clone, Debug, PartialEq, Eq)]
pub struct Car {
    pub color: String,
    pub model: Model,
}

/// The mathematical value of a [`Car`].
pub struct CarV {
    pub color: Seq<char>,
    pub model: Model,
}

impl View for Car {
    type V = CarV;

    open spec fn view(&self) -> CarV {
        CarV { color: self.color@, model: self.model }
    }
}

impl DeepView for Car {
    type V = CarV;

    open spec fn deep_view(&self) -> CarV {
        self.view()
    }
}

/// The default car: no color, unspecified model.
pub open spec fn car_default() -> CarV {
    CarV { color: Seq::empty(), model: Model::Unspecified }
}

impl Default for Car {
    fn default() -> (c: Car)
        ensures
            c@ == car_default(),
    {
        Car { color: String::new(), model: Model::Unspecified }
    }
}

impl Car {
    /// Sets the model line, leaving the color as it was.
    pub fn set_model(&mut self, model: Model)
        ensures
            final(self)@ == (CarV { color: old(self)@.color, model }),
    {
        self.model = model;
    }
}

/// Returns the demonstration car: blue, model line Rev6.
pub fn create_car() -> (car: Car)
    ensures
        car@.color == "blue"@,
        car@.model == Model::Rev6,
{
    let mut car = Car::default();
    car.color = "blue".to_owned();
    car.set_model(Model::Rev6);
    car
}

/// The wire-format fields a car is serialized as: the color's UTF-8 bytes in
/// field 1, the model's code in field 2, each omitted at its default value.
pub open spec fn car_fields(c: CarV) -> Seq<FieldV> {
    (if c.color.len() == 0 {
        Seq::<FieldV>::empty()
    } else {
        seq![FieldV { number: 1, value: WireValueV::Bytes(encode_utf8(c.color)) }]
    }) + (if c.model == Model::Unspecified {
        Seq::<FieldV>::empty()
    } else {
        seq![FieldV { number: 2, value: WireValueV::Varint(model_number(c.model)) }]
    })
}

/// Serializes a car into the envelope's byte encoding of its fields.
pub fn serialize_car(car: &Car) -> (buf: Vec<u8>)
    ensures
        buf@ == message_bytes(car_fields(car@)),
{
    let mut fields: Vec<Field> = Vec::new();
    if !car.color.as_str().is_empty() {
        let bytes = car.color.as_str().as_bytes_vec();
        fields.push(Field { number: 1, value: WireValue::Bytes(bytes) });
    }
    match car.model {
        Model::Unspecified => {},
        Model::Rev6 => {
            fields.push(Field { number: 2, value: WireValue::Varint(1) });
        },
    }
    let packet = Packet { fields };
    proof {
        assert(packet@ =~= car_fields(car@));
    }
    encode_packet(&packet)
}

/// One parsed field folded into a car: field 1 replaces the color (and must
/// be valid UTF-8), field 2 replaces the model where the code is known; any
/// other field, wire type, or model code leaves the car as it was.
pub open spec fn apply_field(c: CarV, f: FieldV) -> Result<CarV, DecodeError> {
    if f.number == 1 {
        match f.value {
            WireValueV::Bytes(b) => {
                if valid_utf8(b) {
                    Ok(CarV { color: decode_utf8(b), model: c.model })
                } else {
                    Err(DecodeError::InvalidUtf8)
                }
            },
            _ => Ok(c),
        }
    } else if f.number == 2 {
        match f.value {
            WireValueV::Varint(v) => {
                if v == 0 {
                    Ok(CarV { color: c.color, model: Model::Unspecified })
                } else if v == 1 {
                    Ok(CarV { color: c.color, model: Model::Rev6 })
                } else {
                    Ok(c)
                }
            },
            _ => Ok(c),
        }
    } else {
        Ok(c)
    }
}

/// A field sequence folded into a car, left to right, starting from the
/// default: the last occurrence of a field wins.
pub open spec fn car_from_fields(fields: Seq<FieldV>) -> Result<CarV, DecodeError>
    decreases fields.len(),
{
    if fields.len() == 0 {
        Ok(car_default())
    } else {
        match car_from_fields(fields.drop_last()) {
            Err(e) => Err(e),
            Ok(c) => apply_field(c, fields.last()),
        }
    }
}

/// What a byte slice means as a car: the envelope's fields, folded.
pub open spec fn car_decode(bytes: Seq<u8>) -> Result<CarV, DecodeError> {
    match dec_message(bytes) {
        Err(e) => Err(e),
        Ok(fields) => car_from_fields(fields),
    }
}

/// Once the fold has failed, the remaining fields cannot revive it.
proof fn lemma_car_error_propagates(fields: Seq<FieldV>, i: int)
    requires
        0 <= i < fields.len(),
        car_from_fields(fields.take(i + 1)) is Err,
    ensures
        car_from_fields(fields) == car_from_fields(fields.take(i + 1)),
    decreases fields.len() - i,
{
    if i + 1 == fields.len() {
        assert(fields.take(i + 1) =~= fields);
    } else {
        assert(fields.take(i + 2).drop_last() =~= fields.take(i + 1));
        lemma_car_error_propagates(fields, i + 1);
    }
}

/// Relies on `String::from_utf8`: it succeeds exactly on valid UTF-8 input
/// and returns the string those bytes encode.
#[verifier::external_body]
fn string_from_utf8(bytes: &[u8]) -> (r: Option<String>)
    ensures
        r is Some <==> valid_utf8(bytes@),
        r matches Some(s) ==> encode_utf8(s@) == bytes@,
{
    String::from_utf8(bytes.to_vec()).ok()
}

/// Parses a byte slice as a car: the envelope is decoded, then its fields are
/// folded into the record. Fails exactly where the envelope does not parse or
/// a color field is not valid UTF-8.
pub fn deserialize_car(buf: &[u8]) -> (r: Result<Car, DecodeError>)
    ensures
        match r {
            Ok(c) => car_decode(buf@) == Ok::<CarV, DecodeError>(c@),
            Err(e) => car_decode(buf@) == Err::<CarV, DecodeError>(e),
        },
{
    let packet = match decode_packet(buf) {
        Ok(p) => p,
        Err(e) => {
            return Err(e);
        },
    };
    let mut car = Car::default();
    let mut i: usize = 0;
    proof {
        assert(packet@.take(0) =~= Seq::<FieldV>::empty());
    }
    while i < packet.fields.len()
        invariant
            i <= packet.fields@.len(),
            dec_message(buf@) == Ok::<Seq<FieldV>, DecodeError>(packet@),
            car_from_fields(packet@.take(i as int)) == Ok::<CarV, DecodeError>(car@),
        decreases packet.fields@.len() - i,
    {
        proof {
            assert(packet@.take(i + 1).drop_last() =~= packet@.take(i as int));
            assert(packet@.take(i + 1).last() == packet@[i as int]);
        }
        let field = &packet.fields[i];
        if field.number == 1 {
            match &field.value {
                WireValue::Bytes(b) => match string_from_utf8(b.as_slice()) {
                    Some(color) => {
                        proof {
                            vstd::utf8::encode_utf8_decode_utf8(color@);
                        }
                        car.color = color;
                    },
                    None => {
                        proof {
                            lemma_car_error_propagates(packet@, i as int);
                        }
                        return Err(DecodeError::InvalidUtf8);
                    },
                },
                _ => {},
            }
        } else if field.number == 2 {
            match &field.value {
                WireValue::Varint(v) => {
                    if *v == 0 {
                        car.model = Model::Unspecified;
                    } else if *v == 1 {
                        car.model = Model::Rev6;
                    }
                },
                _ => {},
            }
        }
        i = i + 1;
    }
    proof {
        assert(packet@.take(packet.fields@.len() as int) =~= packet@);
    }
    Ok(car)
}

/// Round trip for the demonstration record: parsing a serialized car gives
/// the car back, as long as the color's UTF-8 form is short enough for its
/// length to ride in a varint.
pub proof fn lemma_car_round_trip(c: CarV)
    requires
        encode_utf8(c.color).len() < 0x1_0000_0000_0000_0000,
    ensures
        car_decode(message_bytes(car_fields(c))) == Ok::<CarV, DecodeError>(c),
{
    let fields = car_fields(c);
    assert(packet_wf(fields));
    crate::wire::lemma_packet_round_trip(fields);
    vstd::utf8::encode_utf8_valid_utf8(c.color);
    vstd::utf8::encode_utf8_decode_utf8(c.color);
    reveal_with_fuel(car_from_fields, 3);
    let color_field = FieldV { number: 1, value: WireValueV::Bytes(encode_utf8(c.color)) };
    let model_field = FieldV { number: 2, value: WireValueV::Varint(model_number(c.model)) };
    if c.color.len() == 0 {
        if c.model == Model::Unspecified {
            assert(fields =~= Seq::<FieldV>::empty());
        } else {
            assert(fields =~= seq![model_field]);
            assert(fields.drop_last() =~= Seq::<FieldV>::empty());
        }
    } else {
        if c.model == Model::Unspecified {
            assert(fields =~= seq![color_field]);
            assert(fields.drop_last() =~= Seq::<FieldV>::empty());
        } else {
            assert(fields =~= seq![color_field, model_field]);
            assert(fields.drop_last() =~= seq![color_field]);
            assert(fields.drop_last().drop_last() =~= Seq::<FieldV>::empty());
        }
    }
}

} // verus!
