use vstd::prelude::*;
use crate::codec::{Deserialize, Serialize};
use crate::error::{DeserializationError, SerializationError};
use crate::reader::ReaderContext;

verus! {

/// Big-endian bytes of a 16-bit value.
pub open spec fn be16(v: u16) -> Seq<u8> {
    seq![(v / 256) as u8, (v % 256) as u8]
}

/// Big-endian bytes of a 32-bit value.
pub open spec fn be32(v: u32) -> Seq<u8> {
    seq![(v / 0x100_0000) as u8, ((v / 0x1_0000) % 256) as u8, ((v / 256) % 256) as u8, (v % 256) as u8]
}

/// The 16-bit value whose big-endian bytes start at `pos`.
pub open spec fn read16(input: Seq<u8>, pos: int) -> u16 {
    (input[pos] * 256 + input[pos + 1]) as u16
}

/// The 32-bit value whose big-endian bytes start at `pos`.
pub open spec fn read32(input: Seq<u8>, pos: int) -> u32 {
    (input[pos] * 0x100_0000 + input[pos + 1] * 0x1_0000 + input[pos + 2] * 256 + input[pos
        + 3]) as u32
}

/// Whether `n` bytes can be read at `pos`.
pub open spec fn fits(input: Seq<u8>, pos: int, n: int) -> bool {
    0 <= pos && pos + n <= input.len()
}

pub(crate) fn read_u16(c: &mut ReaderContext) -> (r: Result<u16, DeserializationError>)
    ensures
        final(c).input@ == old(c).input@,
        final(c).origins() == old(c).origins(),
        fits(old(c).input@, old(c).ptr as int, 2) ==> r == Ok::<u16, DeserializationError>(
            read16(old(c).input@, old(c).ptr as int),
        ) && final(c).ptr == old(c).ptr + 2,
        !fits(old(c).input@, old(c).ptr as int, 2) ==> r == Err::<u16, DeserializationError>(
            DeserializationError::UnexpectedEof,
        ),
{
    match c.consume(2) {
        Ok(b) => Ok(b[0] as u16 * 256 + b[1] as u16),
        Err(e) => Err(e),
    }
}

pub(crate) fn write_u16(v: u16, data: &mut Vec<u8>)
    ensures
        final(data)@ == old(data)@ + be16(v),
{
    data.push((v / 256) as u8);
    data.push((v % 256) as u8);
    assert(final(data)@ =~= old(data)@ + be16(v));
}

impl Serialize for u8 {
    open spec fn ser_ok(&self) -> bool {
        true
    }

    open spec fn ser_spec(&self) -> Seq<u8> {
        seq![*self]
    }

    fn to_bytes(&self, data: &mut Vec<u8>) -> (r: Result<(), SerializationError>) {
        data.push(*self);
        Ok(())
    }
}

impl Deserialize for u8 {
    open spec fn de_spec(input: Seq<u8>, pos: int) -> Option<(u8, int)> {
        if fits(input, pos, 1) {
            Some((input[pos], pos + 1))
        } else {
            None
        }
    }

    fn from_bytes(c: &mut ReaderContext) -> (r: Result<Self, DeserializationError>) {
        match c.consume(1) {
            Ok(b) => Ok(b[0]),
            Err(e) => Err(e),
        }
    }
}

impl Serialize for u16 {
    open spec fn ser_ok(&self) -> bool {
        true
    }

    open spec fn ser_spec(&self) -> Seq<u8> {
        be16(*self)
    }

    fn to_bytes(&self, data: &mut Vec<u8>) -> (r: Result<(), SerializationError>) {
        write_u16(*self, data);
        Ok(())
    }
}

impl Deserialize for u16 {
    open spec fn de_spec(input: Seq<u8>, pos: int) -> Option<(u16, int)> {
        if fits(input, pos, 2) {
            Some((read16(input, pos), pos + 2))
        } else {
            None
        }
    }

    fn from_bytes(c: &mut ReaderContext) -> (r: Result<Self, DeserializationError>) {
        read_u16(c)
    }
}

impl Serialize for i16 {
    open spec fn ser_ok(&self) -> bool {
        true
    }

    open spec fn ser_spec(&self) -> Seq<u8> {
        be16(*self as u16)
    }

    fn to_bytes(&self, data: &mut Vec<u8>) -> (r: Result<(), SerializationError>) {
        write_u16(*self as u16, data);
        Ok(())
    }
}

impl Deserialize for i16 {
    open spec fn de_spec(input: Seq<u8>, pos: int) -> Option<(i16, int)> {
        if fits(input, pos, 2) {
            Some((read16(input, pos) as i16, pos + 2))
        } else {
            None
        }
    }

    fn from_bytes(c: &mut ReaderContext) -> (r: Result<Self, DeserializationError>) {
        match read_u16(c) {
            Ok(v) => Ok(v as i16),
            Err(e) => Err(e),
        }
    }
}

impl Serialize for u32 {
    open spec fn ser_ok(&self) -> bool {
        true
    }

    open spec fn ser_spec(&self) -> Seq<u8> {
        be32(*self)
    }

    fn to_bytes(&self, data: &mut Vec<u8>) -> (r: Result<(), SerializationError>) {
        let v = *self;
        data.push((v / 0x100_0000) as u8);
        data.push(((v / 0x1_0000) % 256) as u8);
        data.push(((v / 256) % 256) as u8);
        data.push((v % 256) as u8);
        assert(final(data)@ =~= old(data)@ + be32(v));
        Ok(())
    }
}

impl Deserialize for u32 {
    open spec fn de_spec(input: Seq<u8>, pos: int) -> Option<(u32, int)> {
        if fits(input, pos, 4) {
            Some((read32(input, pos), pos + 4))
        } else {
            None
        }
    }

    fn from_bytes(c: &mut ReaderContext) -> (r: Result<Self, DeserializationError>) {
        match c.consume(4) {
            Ok(b) => Ok(
                b[0] as u32 * 0x100_0000 + b[1] as u32 * 0x1_0000 + b[2] as u32 * 256 + b[3] as u32,
            ),
            Err(e) => Err(e),
        }
    }
}

/// A 16-bit value reads back from its bytes, wherever they stand.
pub proof fn lemma_u16_round_trip(v: u16, before: Seq<u8>, after: Seq<u8>)
    ensures
        u16::de_spec(before + v.ser_spec() + after, before.len() as int) == Some(
            (v, before.len() as int + 2),
        ),
{
    let all = before + v.ser_spec() + after;
    assert(all[before.len() as int] == (v / 256) as u8);
    assert(all[before.len() as int + 1] == (v % 256) as u8);
}

/// A 32-bit value reads back from its bytes, wherever they stand.
pub proof fn lemma_u32_round_trip(v: u32, before: Seq<u8>, after: Seq<u8>)
    ensures
        u32::de_spec(before + v.ser_spec() + after, before.len() as int) == Some(
            (v, before.len() as int + 4),
        ),
{
    let all = before + v.ser_spec() + after;
    let p = before.len() as int;
    assert(all[p] == (v / 0x100_0000) as u8);
    assert(all[p + 1] == ((v / 0x1_0000) % 256) as u8);
    assert(all[p + 2] == ((v / 256) % 256) as u8);
    assert(all[p + 3] == (v % 256) as u8);
    assert(read32(all, p) == v);
}

} // verus!

verus! {

/// One point of an axis's segment map: a normalized coordinate and what it
/// maps to, each a 2.14 fixed-point number held as its raw 16 bits.
#[derive(Clone, Copy, Debug, PartialEq, Eq, Structural)]
#[allow(non_snake_case)]
pub struct AxisValueMap {
    /// The coordinate mapped from, raw 2.14 bits.
    pub fromCoordinate: i16,
    /// The coordinate mapped to, raw 2.14 bits.
    pub toCoordinate: i16,
}

impl View for AxisValueMap {
    type V = (i16, i16);

    open spec fn view(&self) -> (i16, i16) {
        (self.fromCoordinate, self.toCoordinate)
    }
}

impl Serialize for AxisValueMap {
    open spec fn ser_ok(&self) -> bool {
        true
    }

    open spec fn ser_spec(&self) -> Seq<u8> {
        be16(self.fromCoordinate as u16) + be16(self.toCoordinate as u16)
    }

    fn to_bytes(&self, data: &mut Vec<u8>) -> (r: Result<(), SerializationError>) {
        write_u16(self.fromCoordinate as u16, data);
        write_u16(self.toCoordinate as u16, data);
        assert(final(data)@ =~= old(data)@ + self.ser_spec());
        Ok(())
    }
}

impl Deserialize for AxisValueMap {
    open spec fn de_spec(input: Seq<u8>, pos: int) -> Option<((i16, i16), int)> {
        if fits(input, pos, 4) {
            Some(((read16(input, pos) as i16, read16(input, pos + 2) as i16), pos + 4))
        } else {
            None
        }
    }

    fn from_bytes(c: &mut ReaderContext) -> (r: Result<Self, DeserializationError>) {
        let from = match read_u16(c) {
            Ok(v) => v,
            Err(e) => {
                return Err(e);
            },
        };
        let to = match read_u16(c) {
            Ok(v) => v,
            Err(e) => {
                return Err(e);
            },
        };
        Ok(AxisValueMap { fromCoordinate: from as i16, toCoordinate: to as i16 })
    }
}

/// An axis value map reads back from its bytes, wherever they stand.
pub proof fn lemma_axis_value_map_round_trip(v: AxisValueMap, before: Seq<u8>, after: Seq<u8>)
    ensures
        AxisValueMap::de_spec(before + v.ser_spec() + after, before.len() as int) == Some(
            (v@, before.len() as int + 4),
        ),
{
    let all = before + v.ser_spec() + after;
    let p = before.len() as int;
    let a = v.fromCoordinate as u16;
    let b = v.toCoordinate as u16;
    assert(all[p] == (a / 256) as u8);
    assert(all[p + 1] == (a % 256) as u8);
    assert(all[p + 2] == (b / 256) as u8);
    assert(all[p + 3] == (b % 256) as u8);
    assert(read16(all, p) == a);
    assert(read16(all, p + 2) == b);
    let x = v.fromCoordinate;
    let y = v.toCoordinate;
    assert(((x as u16) as i16) == x) by (bit_vector);
    assert(((y as u16) as i16) == y) by (bit_vector);
}

} // verus!

verus! {

impl Serialize for i8 {
    open spec fn ser_ok(&self) -> bool {
        true
    }

    open spec fn ser_spec(&self) -> Seq<u8> {
        seq![*self as u8]
    }

    fn to_bytes(&self, data: &mut Vec<u8>) -> (r: Result<(), SerializationError>) {
        data.push(*self as u8);
        Ok(())
    }
}

impl Deserialize for i8 {
    open spec fn de_spec(input: Seq<u8>, pos: int) -> Option<(i8, int)> {
        if fits(input, pos, 1) {
            Some((input[pos] as i8, pos + 1))
        } else {
            None
        }
    }

    fn from_bytes(c: &mut ReaderContext) -> (r: Result<Self, DeserializationError>) {
        match c.consume(1) {
            Ok(b) => Ok(b[0] as i8),
            Err(e) => Err(e),
        }
    }
}

impl Serialize for i32 {
    open spec fn ser_ok(&self) -> bool {
        true
    }

    open spec fn ser_spec(&self) -> Seq<u8> {
        be32(*self as u32)
    }

    fn to_bytes(&self, data: &mut Vec<u8>) -> (r: Result<(), SerializationError>) {
        (*self as u32).to_bytes(data)
    }
}

impl Deserialize for i32 {
    open spec fn de_spec(input: Seq<u8>, pos: int) -> Option<(i32, int)> {
        if fits(input, pos, 4) {
            Some((read32(input, pos) as i32, pos + 4))
        } else {
            None
        }
    }

    fn from_bytes(c: &mut ReaderContext) -> (r: Result<Self, DeserializationError>) {
        match u32::from_bytes(c) {
            Ok(v) => Ok(v as i32),
            Err(e) => Err(e),
        }
    }
}

/// Big-endian bytes of a 64-bit value: its high word, then its low word.
pub open spec fn be64(v: u64) -> Seq<u8> {
    be32((v / 0x1_0000_0000) as u32) + be32((v % 0x1_0000_0000) as u32)
}

impl Serialize for i64 {
    open spec fn ser_ok(&self) -> bool {
        true
    }

    open spec fn ser_spec(&self) -> Seq<u8> {
        be64(*self as u64)
    }

    fn to_bytes(&self, data: &mut Vec<u8>) -> (r: Result<(), SerializationError>) {
        let v = *self as u64;
        let _hi = ((v / 0x1_0000_0000) as u32).to_bytes(data);
        let ghost mid = data@;
        let _lo = ((v % 0x1_0000_0000) as u32).to_bytes(data);
        assert(final(data)@ =~= old(data)@ + be64(v));
        Ok(())
    }
}

impl Deserialize for i64 {
    open spec fn de_spec(input: Seq<u8>, pos: int) -> Option<(i64, int)> {
        if fits(input, pos, 8) {
            Some(((read32(input, pos) as u64 * 0x1_0000_0000 + read32(input, pos + 4) as u64) as i64, pos + 8))
        } else {
            None
        }
    }

    fn from_bytes(c: &mut ReaderContext) -> (r: Result<Self, DeserializationError>) {
        let hi = match u32::from_bytes(c) {
            Ok(v) => v,
            Err(e) => {
                return Err(e);
            },
        };
        let lo = match u32::from_bytes(c) {
            Ok(v) => v,
            Err(e) => {
                return Err(e);
            },
        };
        Ok((hi as u64 * 0x1_0000_0000 + lo as u64) as i64)
    }
}

} // verus!
