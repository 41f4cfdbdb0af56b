//! The envelope codec: a length-delimited protocol-buffer wire encoding.
//!
//! A [`Packet`] is the top-level application envelope carried inside each
//! WebSocket binary frame. Its schema lives outside this crate, so the codec
//! is schema-agnostic: a packet is the sequence of wire-format fields it
//! carries, each a field number tagged with one of the four live wire types
//! (varint, 64-bit, length-delimited, 32-bit). Encoding and decoding are
//! verified against the spec-level byte layout, and [`lemma_packet_round_trip`]
//! proves that decoding inverts encoding on every well-formed packet.

use vstd::prelude::*;

verus! {

/// One decoded wire-format value, tagged by its wire type.
#[derive(Clone, Debug, PartialEq, Eq)]
pub enum WireValue {
    /// Wire type 0: a base-128 varint.
    Varint(u64),
    /// Wire type 1: a little-endian 64-bit value.
    Fixed64(u64),
    /// Wire type 2: a length-delimited byte string.
    Bytes(Vec<u8>),
    /// Wire type 5: a little-endian 32-bit value.
    Fixed32(u32),
}

/// The mathematical value of a [`WireValue`].
pub enum WireValueV {
    Varint(u64),
    Fixed64(u64),
    Bytes(Seq<u8>),
    Fixed32(u32),
}

impl View for WireValue {
    type V = WireValueV;

    open spec fn view(&self) -> WireValueV {
        match self {
            WireValue::Varint(v) => WireValueV::Varint(*v),
            WireValue::Fixed64(v) => WireValueV::Fixed64(*v),
            WireValue::Bytes(b) => WireValueV::Bytes(b@),
            WireValue::Fixed32(v) => WireValueV::Fixed32(*v),
        }
    }
}

impl DeepView for WireValue {
    type V = WireValueV;

    open spec fn deep_view(&self) -> WireValueV {
        self.view()
    }
}

/// One field of the envelope: a field number and its value.
#[derive(Clone, Debug, PartialEq, Eq)]
pub struct Field {
    pub number: u32,
    pub value: WireValue,
}

/// The mathematical value of a [`Field`].
pub struct FieldV {
    pub number: u32,
    pub value: WireValueV,
}

impl View for Field {
    type V = FieldV;

    open spec fn view(&self) -> FieldV {
        FieldV { number: self.number, value: self.value@ }
    }
}

impl DeepView for Field {
    type V = FieldV;

    open spec fn deep_view(&self) -> FieldV {
        self.view()
    }
}

/// The top-level application envelope: the sequence of wire-format fields it
/// carries.
#[derive(Clone, Debug, PartialEq, Eq)]
pub struct Packet {
    pub fields: Vec<Field>,
}

impl View for Packet {
    type V = Seq<FieldV>;

    open spec fn view(&self) -> Seq<FieldV> {
        self.fields.deep_view()
    }
}

impl DeepView for Packet {
    type V = Seq<FieldV>;

    open spec fn deep_view(&self) -> Seq<FieldV> {
        self.view()
    }
}

impl Default for Packet {
    /// The default envelope carries no fields; it encodes to no bytes at all.
    fn default() -> (p: Packet)
        ensures
            p@ == Seq::<FieldV>::empty(),
    {
        Packet { fields: Vec::new() }
    }
}

/// Why a byte slice failed to parse.
#[derive(Clone, Copy, Debug, PartialEq, Eq)]
pub enum DecodeError {
    /// The input ended inside a varint, a fixed-width value, or a
    /// length-delimited payload.
    Truncated,
    /// A varint encodes a value above `u64::MAX`.
    VarintOverflow,
    /// A tag carries field number zero or one at or above `2^29`.
    InvalidFieldNumber,
    /// A tag carries a wire type other than 0, 1, 2 or 5.
    InvalidWireType,
    /// A string field holds bytes that are not valid UTF-8.
    InvalidUtf8,
}

/// The base-128 varint encoding of `v`: seven value bits per byte, low bits
/// first, high bit set on every byte but the last.
pub open spec fn varint_bytes(v: u64) -> Seq<u8>
    decreases v,
{
    if v < 0x80 {
        seq![v as u8]
    } else {
        seq![(v % 0x80 + 0x80) as u8] + varint_bytes(v / 0x80)
    }
}

/// Reads one varint off the front of `s`: the value and the count of bytes
/// consumed.
pub open spec fn dec_varint(s: Seq<u8>) -> Result<(u64, nat), DecodeError>
    decreases s.len(),
{
    if s.len() == 0 {
        Err(DecodeError::Truncated)
    } else {
        let b = s[0];
        if b < 0x80 {
            Ok((b as u64, 1))
        } else {
            match dec_varint(s.drop_first()) {
                Err(e) => Err(e),
                Ok((v, n)) => {
                    let low = (b - 0x80) as u64;
                    if v > (u64::MAX - low) / 0x80 {
                        Err(DecodeError::VarintOverflow)
                    } else {
                        Ok(((low + v * 0x80) as u64, n + 1))
                    }
                },
            }
        }
    }
}

/// A decoded varint consumes at least one byte and no more than the input.
pub proof fn lemma_dec_varint_len(s: Seq<u8>)
    ensures
        dec_varint(s) matches Ok((v, n)) ==> 1 <= n <= s.len(),
    decreases s.len(),
{
    if s.len() > 0 && s[0] >= 0x80 {
        lemma_dec_varint_len(s.drop_first());
    }
}

/// Decoding inverts the varint encoding, whatever bytes follow it.
pub proof fn lemma_varint_round_trip(v: u64, rest: Seq<u8>)
    ensures
        dec_varint(varint_bytes(v) + rest) == Ok::<(u64, nat), DecodeError>(
            (v, varint_bytes(v).len()),
        ),
    decreases v,
{
    let s = varint_bytes(v) + rest;
    if v < 0x80 {
        assert(s[0] == v as u8);
    } else {
        let b = (v % 0x80 + 0x80) as u8;
        assert(s[0] == b);
        lemma_varint_round_trip(v / 0x80, rest);
        assert(s.drop_first() =~= varint_bytes(v / 0x80) + rest);
        let low = (b - 0x80) as u64;
        assert(low == v % 0x80);
        assert(v % 0x80 + 0x80 * (v / 0x80) == v) by {
            vstd::arithmetic::div_mod::lemma_fundamental_div_mod(v as int, 0x80);
        }
        assert((v / 0x80) <= (u64::MAX - low) / 0x80) by {
            vstd::arithmetic::div_mod::lemma_div_is_ordered(
                (v - low) as int,
                (u64::MAX - low) as int,
                0x80,
            );
            vstd::arithmetic::div_mod::lemma_div_by_multiple((v / 0x80) as int, 0x80);
        }
        assert(low + (v / 0x80) * 0x80 == v);
    }
}

/// The `count`-byte little-endian encoding of `v` (higher bytes dropped).
pub open spec fn le_bytes(v: u64, count: nat) -> Seq<u8>
    decreases count,
{
    if count == 0 {
        Seq::empty()
    } else {
        seq![(v % 0x100) as u8] + le_bytes(v / 0x100, (count - 1) as nat)
    }
}

/// The value of a little-endian byte string.
pub open spec fn le_value(s: Seq<u8>) -> nat
    decreases s.len(),
{
    if s.len() == 0 {
        0
    } else {
        (s[0] + 0x100 * le_value(s.drop_first())) as nat
    }
}

/// 256 to the power `count`: the count of values a `count`-byte string holds.
pub open spec fn pow256(count: nat) -> nat
    decreases count,
{
    if count == 0 {
        1
    } else {
        0x100 * pow256((count - 1) as nat)
    }
}

pub proof fn lemma_le_bytes_len(v: u64, count: nat)
    ensures
        le_bytes(v, count).len() == count,
    decreases count,
{
    if count > 0 {
        lemma_le_bytes_len(v / 0x100, (count - 1) as nat);
    }
}

/// A little-endian byte string of length `count` holds a value under
/// `pow256(count)`.
pub proof fn lemma_le_value_bound(s: Seq<u8>)
    ensures
        le_value(s) < pow256(s.len()),
    decreases s.len(),
{
    if s.len() > 0 {
        lemma_le_value_bound(s.drop_first());
    }
}

/// Reading a little-endian byte string gives back the value it was written
/// from, as long as that value fits in `count` bytes.
pub proof fn lemma_le_round_trip(v: u64, count: nat)
    requires
        v < pow256(count),
    ensures
        le_value(le_bytes(v, count)) == v,
    decreases count,
{
    if count > 0 {
        assert(v / 0x100 < pow256((count - 1) as nat)) by {
            vstd::arithmetic::div_mod::lemma_fundamental_div_mod(v as int, 0x100);
        }
        lemma_le_round_trip(v / 0x100, (count - 1) as nat);
        assert(le_bytes(v, count).drop_first() =~= le_bytes(v / 0x100, (count - 1) as nat));
        assert(v % 0x100 + 0x100 * (v / 0x100) == v) by {
            vstd::arithmetic::div_mod::lemma_fundamental_div_mod(v as int, 0x100);
        }
    }
}

/// The wire type carried in a field's tag.
pub open spec fn wire_type_of(w: WireValueV) -> u64 {
    match w {
        WireValueV::Varint(_) => 0,
        WireValueV::Fixed64(_) => 1,
        WireValueV::Bytes(_) => 2,
        WireValueV::Fixed32(_) => 5,
    }
}

/// The encoding of a field's value, after its tag.
pub open spec fn value_bytes(w: WireValueV) -> Seq<u8> {
    match w {
        WireValueV::Varint(v) => varint_bytes(v),
        WireValueV::Fixed64(v) => le_bytes(v, 8),
        WireValueV::Bytes(b) => varint_bytes(b.len() as u64) + b,
        WireValueV::Fixed32(v) => le_bytes(v as u64, 4),
    }
}

/// A field's tag: the field number shifted past the three wire-type bits.
pub open spec fn field_tag(f: FieldV) -> u64 {
    ((f.number as u64) * 8 + wire_type_of(f.value)) as u64
}

/// The encoding of one field: its tag as a varint, then its value.
pub open spec fn field_bytes(f: FieldV) -> Seq<u8> {
    varint_bytes(field_tag(f)) + value_bytes(f.value)
}

/// The encoding of a whole envelope: its fields, one after the other.
pub open spec fn message_bytes(fields: Seq<FieldV>) -> Seq<u8>
    decreases fields.len(),
{
    if fields.len() == 0 {
        Seq::empty()
    } else {
        field_bytes(fields[0]) + message_bytes(fields.drop_first())
    }
}

/// A field the wire format can carry: the field number is in the protocol's
/// range, and a byte string is short enough for its length to ride in a
/// varint.
pub open spec fn field_wf(f: FieldV) -> bool {
    &&& 1 <= f.number < 0x2000_0000
    &&& (f.value matches WireValueV::Bytes(b) ==> b.len() < 0x1_0000_0000_0000_0000)
}

/// A legal envelope: every field is well-formed.
pub open spec fn packet_wf(fields: Seq<FieldV>) -> bool {
    forall|i: int| 0 <= i < fields.len() ==> field_wf(#[trigger] fields[i])
}

impl Packet {
    /// Whether every field of this envelope is legal for the wire format.
    /// Decoding inverts encoding exactly on such packets
    /// ([`lemma_packet_round_trip`]); a field number outside the protocol's
    /// range still encodes, but decoding would reject its tag.
    pub fn is_well_formed(&self) -> (r: bool)
        ensures
            r == packet_wf(self@),
    {
        let mut i: usize = 0;
        while i < self.fields.len()
            invariant
                i <= self.fields@.len(),
                forall|j: int| 0 <= j < i ==> field_wf(#[trigger] self@[j]),
            decreases self.fields@.len() - i,
        {
            let field = &self.fields[i];
            if field.number == 0 || field.number >= 0x2000_0000 {
                assert(!field_wf(self@[i as int]));
                return false;
            }
            match &field.value {
                WireValue::Bytes(bytes) => {
                    // a byte string in memory always fits the length varint
                    let _count: usize = bytes.len();
                    assert(field_wf(self@[i as int]));
                },
                _ => {
                    assert(field_wf(self@[i as int]));
                },
            }
            i = i + 1;
        }
        true
    }
}

/// Reads one field off the front of `s`: the field and the count of bytes
/// consumed.
pub open spec fn dec_field(s: Seq<u8>) -> Result<(FieldV, nat), DecodeError> {
    match dec_varint(s) {
        Err(e) => Err(e),
        Ok((tag, n)) => {
            let number = tag / 8;
            let wt = tag % 8;
            if number == 0 || number >= 0x2000_0000 {
                Err(DecodeError::InvalidFieldNumber)
            } else if wt == 0 {
                match dec_varint(s.skip(n as int)) {
                    Err(e) => Err(e),
                    Ok((v, m)) => Ok(
                        (FieldV { number: number as u32, value: WireValueV::Varint(v) }, n + m),
                    ),
                }
            } else if wt == 1 {
                if s.len() >= n + 8 {
                    let v = le_value(s.subrange(n as int, n as int + 8)) as u64;
                    Ok((FieldV { number: number as u32, value: WireValueV::Fixed64(v) }, n + 8))
                } else {
                    Err(DecodeError::Truncated)
                }
            } else if wt == 2 {
                match dec_varint(s.skip(n as int)) {
                    Err(e) => Err(e),
                    Ok((len, m)) => {
                        if s.len() >= n + m + len {
                            let b = s.subrange(n + m as int, n + m + len as int);
                            Ok(
                                (
                                    FieldV { number: number as u32, value: WireValueV::Bytes(b) },
                                    n + m + len as nat,
                                ),
                            )
                        } else {
                            Err(DecodeError::Truncated)
                        }
                    },
                }
            } else if wt == 5 {
                if s.len() >= n + 4 {
                    let v = le_value(s.subrange(n as int, n as int + 4)) as u32;
                    Ok((FieldV { number: number as u32, value: WireValueV::Fixed32(v) }, n + 4))
                } else {
                    Err(DecodeError::Truncated)
                }
            } else {
                Err(DecodeError::InvalidWireType)
            }
        },
    }
}

/// A decoded field consumes at least one byte and no more than the input.
pub proof fn lemma_dec_field_len(s: Seq<u8>)
    ensures
        dec_field(s) matches Ok((f, n)) ==> 1 <= n <= s.len(),
{
    lemma_dec_varint_len(s);
    match dec_varint(s) {
        Ok((tag, n)) => {
            lemma_dec_varint_len(s.skip(n as int));
        },
        Err(_) => {},
    }
}

/// Parses a whole byte string as an envelope: the concatenation of its
/// fields, with nothing left over.
pub open spec fn dec_message(s: Seq<u8>) -> Result<Seq<FieldV>, DecodeError>
    decreases s.len(),
    via dec_message_decreases
{
    if s.len() == 0 {
        Ok(Seq::empty())
    } else {
        match dec_field(s) {
            Err(e) => Err(e),
            Ok((f, n)) => match dec_message(s.skip(n as int)) {
                Err(e) => Err(e),
                Ok(fields) => Ok(seq![f] + fields),
            },
        }
    }
}

#[via_fn]
proof fn dec_message_decreases(s: Seq<u8>) {
    if s.len() > 0 {
        lemma_dec_field_len(s);
    }
}

/// Decoding inverts the field encoding, whatever bytes follow it.
pub proof fn lemma_field_round_trip(f: FieldV, rest: Seq<u8>)
    requires
        field_wf(f),
    ensures
        dec_field(field_bytes(f) + rest) == Ok::<(FieldV, nat), DecodeError>(
            (f, field_bytes(f).len()),
        ),
{
    let tag = field_tag(f);
    let wt = wire_type_of(f.value);
    let s = field_bytes(f) + rest;
    let tail = value_bytes(f.value) + rest;
    assert(s =~= varint_bytes(tag) + tail);
    lemma_varint_round_trip(tag, tail);
    let n = varint_bytes(tag).len();
    assert(s.skip(n as int) =~= tail);
    assert(tag / 8 == f.number && tag % 8 == wt) by {
        vstd::arithmetic::div_mod::lemma_fundamental_div_mod_converse(
            tag as int,
            8,
            f.number as int,
            wt as int,
        );
    }
    match f.value {
        WireValueV::Varint(v) => {
            lemma_varint_round_trip(v, rest);
        },
        WireValueV::Fixed64(v) => {
            lemma_le_bytes_len(v, 8);
            assert(pow256(8) == 0x1_0000_0000_0000_0000) by {
                reveal_with_fuel(pow256, 9);
            }
            lemma_le_round_trip(v, 8);
            assert(s.subrange(n as int, n as int + 8) =~= le_bytes(v, 8));
        },
        WireValueV::Bytes(b) => {
            let len = b.len() as u64;
            lemma_varint_round_trip(len, b + rest);
            assert(tail =~= varint_bytes(len) + (b + rest));
            let m = varint_bytes(len).len();
            assert(dec_varint(s.skip(n as int)) == Ok::<(u64, nat), DecodeError>((len, m)));
            assert(s.subrange(n + m as int, n + m + len as int) =~= b);
        },
        WireValueV::Fixed32(v) => {
            lemma_le_bytes_len(v as u64, 4);
            assert(pow256(4) == 0x1_0000_0000) by {
                reveal_with_fuel(pow256, 5);
            }
            lemma_le_round_trip(v as u64, 4);
            assert(s.subrange(n as int, n as int + 4) =~= le_bytes(v as u64, 4));
        },
    }
}

/// Decoding inverts the envelope encoding: the round trip over a whole,
/// well-formed field sequence.
pub proof fn lemma_packet_round_trip(fields: Seq<FieldV>)
    requires
        packet_wf(fields),
    ensures
        dec_message(message_bytes(fields)) == Ok::<Seq<FieldV>, DecodeError>(fields),
    decreases fields.len(),
{
    if fields.len() == 0 {
        assert(dec_message(message_bytes(fields)) == Ok::<Seq<FieldV>, DecodeError>(Seq::empty()));
        assert(fields =~= Seq::<FieldV>::empty());
    } else {
        let f = fields[0];
        let tail = fields.drop_first();
        let rest = message_bytes(tail);
        let s = message_bytes(fields);
        lemma_field_round_trip(f, rest);
        assert(packet_wf(tail)) by {
            assert(forall|i: int|
                0 <= i < tail.len() ==> #[trigger] tail[i] == fields[i + 1] && field_wf(
                    fields[i + 1],
                ));
        }
        lemma_packet_round_trip(tail);
        let n = field_bytes(f).len();
        assert(s.len() > 0) by {
            assert(field_bytes(f).len() >= varint_bytes(field_tag(f)).len());
            assert(varint_bytes(field_tag(f)).len() >= 1);
        }
        assert(s.skip(n as int) =~= rest);
        assert(seq![f] + tail =~= fields);
    }
}

/// The view of an exec field sequence.
pub open spec fn fields_view(fields: Seq<Field>) -> Seq<FieldV> {
    fields.map_values(|f: Field| f@)
}

/// Appending one field extends the encoding by that field's bytes.
pub proof fn lemma_message_bytes_push(fields: Seq<FieldV>, f: FieldV)
    ensures
        message_bytes(fields.push(f)) == message_bytes(fields) + field_bytes(f),
    decreases fields.len(),
{
    if fields.len() == 0 {
        reveal_with_fuel(message_bytes, 2);
        assert(fields.push(f)[0] == f);
        assert(fields.push(f).drop_first() =~= Seq::<FieldV>::empty());
        assert(message_bytes(Seq::<FieldV>::empty()) == Seq::<u8>::empty());
        assert(message_bytes(fields.push(f)) =~= field_bytes(f));
        assert(message_bytes(fields) + field_bytes(f) =~= field_bytes(f));
    } else {
        lemma_message_bytes_push(fields.drop_first(), f);
        assert(fields.push(f).drop_first() =~= fields.drop_first().push(f));
        assert(message_bytes(fields.push(f)) =~= message_bytes(fields) + field_bytes(f));
    }
}

/// Writes the varint encoding of `v` onto the end of `buf`.
fn encode_varint_into(v: u64, buf: &mut Vec<u8>)
    ensures
        final(buf)@ == old(buf)@ + varint_bytes(v),
    decreases v,
{
    if v < 0x80 {
        buf.push(v as u8);
        assert(buf@ =~= old(buf)@ + varint_bytes(v));
    } else {
        buf.push((v % 0x80 + 0x80) as u8);
        encode_varint_into(v / 0x80, buf);
        assert(buf@ =~= old(buf)@ + varint_bytes(v));
    }
}

/// Writes the `count`-byte little-endian encoding of `v` onto the end of
/// `buf`.
fn encode_le_into(v: u64, count: usize, buf: &mut Vec<u8>)
    ensures
        final(buf)@ == old(buf)@ + le_bytes(v, count as nat),
    decreases count,
{
    if count == 0 {
        assert(buf@ =~= old(buf)@ + le_bytes(v, 0));
    } else {
        buf.push((v % 0x100) as u8);
        encode_le_into(v / 0x100, count - 1, buf);
        assert(buf@ =~= old(buf)@ + le_bytes(v, count as nat));
    }
}

/// Copies `bytes` onto the end of `buf`.
fn push_bytes(bytes: &[u8], buf: &mut Vec<u8>)
    ensures
        final(buf)@ == old(buf)@ + bytes@,
{
    let mut i: usize = 0;
    while i < bytes.len()
        invariant
            i <= bytes@.len(),
            buf@ == old(buf)@ + bytes@.take(i as int),
        decreases bytes@.len() - i,
    {
        let b = *vstd::slice::slice_index_get(bytes, i);
        buf.push(b);
        assert(old(buf)@ + bytes@.take(i as int) + seq![bytes@[i as int]] =~= old(buf)@
            + bytes@.take(i + 1));
        i = i + 1;
    }
    assert(bytes@.take(bytes@.len() as int) =~= bytes@);
}

/// Writes the encoding of one field's value onto the end of `buf`.
fn encode_value_into(value: &WireValue, buf: &mut Vec<u8>)
    ensures
        final(buf)@ == old(buf)@ + value_bytes(value@),
{
    match value {
        WireValue::Varint(v) => {
            encode_varint_into(*v, buf);
        },
        WireValue::Fixed64(v) => {
            encode_le_into(*v, 8, buf);
        },
        WireValue::Bytes(b) => {
            encode_varint_into(b.len() as u64, buf);
            push_bytes(b.as_slice(), buf);
            assert(buf@ =~= old(buf)@ + value_bytes(value@));
        },
        WireValue::Fixed32(v) => {
            encode_le_into(*v as u64, 4, buf);
        },
    }
}

/// Writes the encoding of one field, tag then value, onto the end of `buf`.
fn encode_field_into(field: &Field, buf: &mut Vec<u8>)
    ensures
        final(buf)@ == old(buf)@ + field_bytes(field@),
{
    let tag: u64 = (field.number as u64) * 8 + wire_type_code(&field.value);
    encode_varint_into(tag, buf);
    encode_value_into(&field.value, buf);
    assert(buf@ =~= old(buf)@ + field_bytes(field@));
}

/// The wire-type code of a value, as carried in the tag.
fn wire_type_code(value: &WireValue) -> (code: u64)
    ensures
        code == wire_type_of(value@),
{
    match value {
        WireValue::Varint(_) => 0,
        WireValue::Fixed64(_) => 1,
        WireValue::Bytes(_) => 2,
        WireValue::Fixed32(_) => 5,
    }
}

/// Serializes an envelope into a contiguous byte buffer: each field in order,
/// with nothing else. The buffer holds exactly the spec-level encoding, so
/// its length equals the declared encoded length.
pub fn encode_packet(packet: &Packet) -> (buf: Vec<u8>)
    ensures
        buf@ == message_bytes(packet@),
        buf@.len() == message_bytes(packet@).len(),
{
    let mut buf: Vec<u8> = Vec::new();
    let mut i: usize = 0;
    while i < packet.fields.len()
        invariant
            i <= packet.fields@.len(),
            buf@ == message_bytes(packet@.take(i as int)),
        decreases packet.fields@.len() - i,
    {
        let ghost done = packet@.take(i as int);
        encode_field_into(&packet.fields[i], &mut buf);
        proof {
            lemma_message_bytes_push(done, packet@[i as int]);
            assert(done.push(packet@[i as int]) =~= packet@.take(i + 1));
        }
        i = i + 1;
    }
    assert(packet@.take(packet.fields@.len() as int) =~= packet@);
    buf
}

/// The declared encoded length of an envelope: the count of bytes
/// [`encode_packet`] writes.
pub fn encoded_len(packet: &Packet) -> (len: usize)
    ensures
        len == message_bytes(packet@).len(),
{
    let buf = encode_packet(packet);
    buf.len()
}

/// Reads one varint from `buf` at `pos`: the value and the count of bytes
/// consumed.
fn decode_varint_at(buf: &[u8], pos: usize) -> (r: Result<(u64, usize), DecodeError>)
    requires
        pos <= buf@.len(),
    ensures
        match r {
            Ok((v, n)) => dec_varint(buf@.skip(pos as int)) == Ok::<(u64, nat), DecodeError>(
                (v, n as nat),
            ) && 1 <= n && pos + n <= buf@.len(),
            Err(e) => dec_varint(buf@.skip(pos as int)) == Err::<(u64, nat), DecodeError>(e),
        },
    decreases buf@.len() - pos,
{
    let ghost s = buf@.skip(pos as int);
    if pos == buf.len() {
        return Err(DecodeError::Truncated);
    }
    let b = *vstd::slice::slice_index_get(buf, pos);
    assert(b == s[0]);
    if b < 0x80 {
        Ok((b as u64, 1))
    } else {
        assert(s.drop_first() =~= buf@.skip(pos + 1));
        match decode_varint_at(buf, pos + 1) {
            Err(e) => Err(e),
            Ok((v, n)) => {
                let low = (b - 0x80) as u64;
                if v > (u64::MAX - low) / 0x80 {
                    Err(DecodeError::VarintOverflow)
                } else {
                    assert(v * 0x80 <= u64::MAX - low) by {
                        vstd::arithmetic::div_mod::lemma_fundamental_div_mod(
                            (u64::MAX - low) as int,
                            0x80,
                        );
                        vstd::arithmetic::div_mod::lemma_mod_bound((u64::MAX - low) as int, 0x80);
                        vstd::arithmetic::mul::lemma_mul_inequality(
                            v as int,
                            ((u64::MAX - low) / 0x80) as int,
                            0x80,
                        );
                    }
                    Ok((low + v * 0x80, n + 1))
                }
            },
        }
    }
}

/// `pow256` grows with its argument.
proof fn lemma_pow256_monotone(a: nat, b: nat)
    requires
        a <= b,
    ensures
        pow256(a) <= pow256(b),
    decreases b,
{
    if a < b {
        lemma_pow256_monotone(a, (b - 1) as nat);
        assert(pow256((b - 1) as nat) >= 1) by {
            lemma_pow256_monotone(0, (b - 1) as nat);
        }
    }
}

/// Reads `count` little-endian bytes from `buf` at `pos`.
fn decode_le_at(buf: &[u8], pos: usize, count: usize) -> (v: u64)
    requires
        pos + count <= buf@.len(),
        count <= 8,
    ensures
        v == le_value(buf@.subrange(pos as int, pos + count as int)),
    decreases count,
{
    let ghost s = buf@.subrange(pos as int, pos + count as int);
    let len: usize = buf.len();
    if count == 0 {
        0
    } else {
        assert(pos + 1 <= len);
        let b = *vstd::slice::slice_index_get(buf, pos);
        let rest = decode_le_at(buf, pos + 1, count - 1);
        proof {
            assert(s[0] == b);
            assert(s.drop_first() =~= buf@.subrange(pos + 1, pos + 1 + (count - 1)));
            lemma_le_value_bound(s.drop_first());
            lemma_pow256_monotone((count - 1) as nat, 7);
            assert(pow256(7) == 0x100_0000_0000_0000) by {
                reveal_with_fuel(pow256, 8);
            }
        }
        b as u64 + 0x100 * rest
    }
}

/// Reads one field from `buf` at `pos`: the field and the count of bytes
/// consumed.
fn decode_field_at(buf: &[u8], pos: usize) -> (r: Result<(Field, usize), DecodeError>)
    requires
        pos <= buf@.len(),
    ensures
        match r {
            Ok((f, n)) => dec_field(buf@.skip(pos as int)) == Ok::<(FieldV, nat), DecodeError>(
                (f@, n as nat),
            ) && 1 <= n && pos + n <= buf@.len(),
            Err(e) => dec_field(buf@.skip(pos as int)) == Err::<(FieldV, nat), DecodeError>(e),
        },
{
    let ghost s = buf@.skip(pos as int);
    let len: usize = buf.len();
    let (tag, n) = match decode_varint_at(buf, pos) {
        Err(e) => {
            return Err(e);
        },
        Ok(x) => x,
    };
    let number = tag / 8;
    let wt = tag % 8;
    if number == 0 || number >= 0x2000_0000 {
        return Err(DecodeError::InvalidFieldNumber);
    }
    if wt == 0 {
        assert(s.skip(n as int) =~= buf@.skip(pos + n));
        match decode_varint_at(buf, pos + n) {
            Err(e) => Err(e),
            Ok((v, m)) => Ok(
                (Field { number: number as u32, value: WireValue::Varint(v) }, n + m),
            ),
        }
    } else if wt == 1 {
        if len - pos - n >= 8 {
            let v = decode_le_at(buf, pos + n, 8);
            proof {
                assert(s.subrange(n as int, n as int + 8) =~= buf@.subrange(
                    pos + n,
                    pos + n + 8,
                ));
                lemma_le_value_bound(s.subrange(n as int, n as int + 8));
                reveal_with_fuel(pow256, 9);
            }
            Ok((Field { number: number as u32, value: WireValue::Fixed64(v) }, n + 8))
        } else {
            Err(DecodeError::Truncated)
        }
    } else if wt == 2 {
        assert(s.skip(n as int) =~= buf@.skip(pos + n));
        match decode_varint_at(buf, pos + n) {
            Err(e) => Err(e),
            Ok((blen, m)) => {
                if blen <= (len - pos - n - m) as u64 {
                    let bl = blen as usize;
                    let bytes = vstd::slice::slice_to_vec(
                        vstd::slice::slice_subrange(buf, pos + n + m, pos + n + m + bl),
                    );
                    proof {
                        assert(bytes@ =~= s.subrange(
                            n + m as int,
                            n + m + blen as int,
                        ));
                    }
                    Ok((Field { number: number as u32, value: WireValue::Bytes(bytes) }, n + m + bl))
                } else {
                    Err(DecodeError::Truncated)
                }
            },
        }
    } else if wt == 5 {
        if len - pos - n >= 4 {
            let v = decode_le_at(buf, pos + n, 4);
            proof {
                assert(s.subrange(n as int, n as int + 4) =~= buf@.subrange(
                    pos + n,
                    pos + n + 4,
                ));
                lemma_le_value_bound(s.subrange(n as int, n as int + 4));
                reveal_with_fuel(pow256, 9);
                lemma_pow256_monotone(4, 8);
            }
            Ok((Field { number: number as u32, value: WireValue::Fixed32(v as u32) }, n + 4))
        } else {
            Err(DecodeError::Truncated)
        }
    } else {
        Err(DecodeError::InvalidWireType)
    }
}

/// `pre` prepended onto a decode result: errors pass through.
pub open spec fn prepend_fields(pre: Seq<FieldV>, r: Result<Seq<FieldV>, DecodeError>) -> Result<
    Seq<FieldV>,
    DecodeError,
> {
    match r {
        Ok(fields) => Ok(pre + fields),
        Err(e) => Err(e),
    }
}

/// Parses a byte slice as an envelope. The input is not retained: the fields
/// own copies of their payload bytes. Succeeds exactly when the whole slice
/// is a well-formed field sequence, and then returns exactly those fields.
pub fn decode_packet(buf: &[u8]) -> (r: Result<Packet, DecodeError>)
    ensures
        match r {
            Ok(p) => dec_message(buf@) == Ok::<Seq<FieldV>, DecodeError>(p@),
            Err(e) => dec_message(buf@) == Err::<Seq<FieldV>, DecodeError>(e),
        },
{
    let mut fields: Vec<Field> = Vec::new();
    let mut pos: usize = 0;
    proof {
        assert(buf@.skip(0) =~= buf@);
        match dec_message(buf@) {
            Ok(fs) => {
                assert(fields_view(fields@) + fs =~= fs);
            },
            Err(_) => {},
        }
    }
    while pos < buf.len()
        invariant
            pos <= buf@.len(),
            prepend_fields(fields_view(fields@), dec_message(buf@.skip(pos as int)))
                == dec_message(buf@),
        decreases buf@.len() - pos,
    {
        let ghost s = buf@.skip(pos as int);
        match decode_field_at(buf, pos) {
            Err(e) => {
                return Err(e);
            },
            Ok((f, n)) => {
                proof {
                    assert(s.skip(n as int) =~= buf@.skip(pos + n));
                    match dec_message(buf@.skip(pos + n)) {
                        Ok(fs) => {
                            assert(fields@.push(f).map_values(|x: Field| x@) =~= fields_view(
                                fields@,
                            ).push(f@));
                            assert(fields_view(fields@).push(f@) + fs =~= fields_view(fields@) + (
                            seq![f@] + fs));
                        },
                        Err(_) => {},
                    }
                }
                fields.push(f);
                pos = pos + n;
            },
        }
    }
    proof {
        assert(buf@.skip(pos as int) =~= Seq::<u8>::empty());
        assert(fields_view(fields@) + Seq::<FieldV>::empty() =~= fields_view(fields@));
        assert(fields.deep_view() =~= fields_view(fields@));
    }
    Ok(Packet { fields })
}

} // verus!
