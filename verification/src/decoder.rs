//! The decode side: a cursor over the input and one method per kind of
//! value.

use crate::config::{Endianess, LengthWidth};
use crate::error::{DeserializeError, Fault};
use crate::format::{
    after, decoded, decoded_all, decoded_pairs, decoded_repeat, gives, lemma_after_after,
    lemma_decoded_all_step, stops, take_counted, take_len, take_uint, Decoded,
};
use crate::value::{
    lemma_shape_all, lemma_view_all_push, lemma_view_pairs_push, shape_all, view_all, view_pairs,
    Datum, Kind, Shape, Value,
};
use crate::wire::{
    be_value, le_value, lemma_limit_monotonic, lemma_limit_values, lemma_value_bound, limit,
};
use vstd::prelude::*;
use vstd::slice::slice_to_vec;
use vstd::string::{StrSliceExecFns, StringSliceAdditionalSpecFns};
use vstd::utf8::encode_utf8_decode_utf8;

verus! {

/// A cursor over the bytes that are still to be decoded.
pub struct Decoder<'a> {
    /// Byte order of every integer read.
    pub endianess: Endianess,
    /// Width of the length prefixes read.
    pub length_width: LengthWidth,
    /// The bytes not yet consumed.
    pub data: &'a [u8],
}

/// The number that `bytes` spell, least significant byte first.
fn le_number(bytes: &[u8]) -> (n: u128)
    requires
        bytes@.len() <= 16,
    ensures
        n == le_value(bytes@),
{
    let len = bytes.len();
    let mut n: u128 = 0;
    let mut i: usize = len;
    proof {
        assert(bytes@.subrange(len as int, len as int) =~= Seq::<u8>::empty());
        lemma_limit_values();
    }
    while i > 0
        invariant
            i <= len,
            len == bytes@.len(),
            len <= 16,
            n == le_value(bytes@.subrange(i as int, len as int)),
            n < limit((len - i) as nat),
        decreases i,
    {
        proof {
            lemma_limit_monotonic((len - i) as nat, 15);
            lemma_limit_values();
            assert(limit(16) == 256 * limit(15));
            let next = bytes@.subrange(i - 1, len as int);
            assert(next.drop_first() =~= bytes@.subrange(i as int, len as int));
            assert(limit((len - i + 1) as nat) == 256 * limit((len - i) as nat));
        }
        i = i - 1;
        n = n * 256 + bytes[i] as u128;
    }
    proof {
        assert(bytes@.subrange(0, len as int) =~= bytes@);
    }
    n
}

/// The number that `bytes` spell, most significant byte first.
fn be_number(bytes: &[u8]) -> (n: u128)
    requires
        bytes@.len() <= 16,
    ensures
        n == be_value(bytes@),
{
    let len = bytes.len();
    let mut n: u128 = 0;
    let mut i: usize = 0;
    proof {
        assert(bytes@.subrange(0, 0) =~= Seq::<u8>::empty());
        lemma_limit_values();
    }
    while i < len
        invariant
            i <= len,
            len == bytes@.len(),
            len <= 16,
            n == be_value(bytes@.subrange(0, i as int)),
            n < limit(i as nat),
        decreases len - i,
    {
        proof {
            lemma_limit_monotonic(i as nat, 15);
            lemma_limit_values();
            assert(limit(16) == 256 * limit(15));
            let next = bytes@.subrange(0, i + 1);
            assert(next.drop_last() =~= bytes@.subrange(0, i as int));
            assert(limit((i + 1) as nat) == 256 * limit(i as nat));
        }
        n = n * 256 + bytes[i] as u128;
        i = i + 1;
    }
    proof {
        assert(bytes@.subrange(0, len as int) =~= bytes@);
    }
    n
}

/// The result `r` of decoding a value, with `rest` left in the cursor, is
/// what the format says: the value that `expected` names and the same rest,
/// or an error of the fault that `expected` names, stopped at the same
/// place.
pub open spec fn agrees<'a>(
    r: Result<Value<'a>, DeserializeError>,
    rest: Seq<u8>,
    expected: Decoded<Datum>,
) -> bool {
    match r {
        Ok(v) => gives(expected, v@, rest),
        Err(e) => stops(expected, e.fault(), rest),
    }
}

/// As `agrees`, for a run of values.
pub open spec fn agree_all<'a>(
    r: Result<Vec<Value<'a>>, DeserializeError>,
    rest: Seq<u8>,
    expected: Decoded<Seq<Datum>>,
) -> bool {
    match r {
        Ok(items) => gives(expected, view_all(items@), rest),
        Err(e) => stops(expected, e.fault(), rest),
    }
}

impl<'a> Decoder<'a> {
    /// A cursor at the start of `data`.
    pub fn new(endianess: Endianess, length_width: LengthWidth, data: &'a [u8]) -> (decoder:
        Decoder<'a>)
        ensures
            decoder.endianess == endianess,
            decoder.length_width == length_width,
            decoder.data@ == data@,
    {
        Decoder { endianess, length_width, data }
    }

    /// What decoding a value of kind `shape` at the cursor gives.
    pub open spec fn next(self, shape: Shape) -> Decoded<Datum> {
        decoded(self.endianess, self.length_width, shape, self.data@)
    }

    /// What decoding one value of each of `shapes` at the cursor gives.
    pub open spec fn next_all(self, shapes: Seq<Shape>) -> Decoded<Seq<Datum>> {
        decoded_all(self.endianess, self.length_width, shapes, self.data@)
    }

    /// What reading an unsigned integer of `width` bytes at the cursor gives.
    pub open spec fn next_uint(self, width: nat) -> Decoded<nat> {
        take_uint(self.endianess, width, self.data@)
    }

    /// What reading a length prefix at the cursor gives.
    pub open spec fn next_len(self) -> Decoded<nat> {
        take_len(self.endianess, self.length_width, self.data@)
    }

    /// What reading a counted run of bytes at the cursor gives.
    pub open spec fn next_counted(self) -> Decoded<Seq<u8>> {
        take_counted(self.endianess, self.length_width, self.data@)
    }

    /// Reads an unsigned integer of `width` bytes in the configured order.
    /// Fails with `InvalidLength`, and consumes nothing, exactly when fewer
    /// than `width` bytes remain.
    pub fn read_uint(&mut self, width: usize) -> (r: Result<u128, DeserializeError>)
        requires
            width <= 16,
        ensures
            final(self).endianess == old(self).endianess,
            final(self).length_width == old(self).length_width,
            match r {
                Ok(n) => {
                    &&& gives(old(self).next_uint(width as nat), n as nat, final(self).data@)
                    &&& n < limit(width as nat)
                },
                Err(e) => {
                    &&& e is InvalidLength
                    &&& stops(old(self).next_uint(width as nat), Fault::InvalidLength, final(self).data@)
                    &&& final(self).data@ == old(self).data@
                },
            },
    {
        if self.data.len() < width {
            return Err(DeserializeError::InvalidLength);
        }
        let (head, rest) = self.data.split_at(width);
        self.data = rest;
        proof {
            lemma_value_bound(self.endianess, head@);
        }
        let n = match self.endianess {
            Endianess::Little => le_number(head),
            Endianess::Big => be_number(head),
        };
        Ok(n)
    }

    /// Reads an unsigned integer of one byte. Fails with `InvalidLength`, and consumes nothing,
    /// exactly when too few bytes remain.
    pub fn read_u8(&mut self) -> (r: Result<u8, DeserializeError>)
        ensures
            final(self).endianess == old(self).endianess,
            final(self).length_width == old(self).length_width,
            match r {
                Ok(v) => gives(old(self).next(Shape::U8), Datum::U8(v), final(self).data@),
                Err(e) => {
                    &&& e is InvalidLength
                    &&& stops(old(self).next(Shape::U8), Fault::InvalidLength, final(self).data@)
                    &&& final(self).data@ == old(self).data@
                },
            },
    {
        proof {
            lemma_limit_values();
        }
        match self.read_uint(1) {
            Err(e) => Err(e),
            Ok(n) => Ok(n as u8),
        }
    }

    /// Reads an unsigned integer of two bytes in the configured order. Fails
    /// with `InvalidLength`, and consumes nothing, exactly when too few bytes
    /// remain.
    pub fn read_u16(&mut self) -> (r: Result<u16, DeserializeError>)
        ensures
            final(self).endianess == old(self).endianess,
            final(self).length_width == old(self).length_width,
            match r {
                Ok(v) => gives(old(self).next(Shape::U16), Datum::U16(v), final(self).data@),
                Err(e) => {
                    &&& e is InvalidLength
                    &&& stops(old(self).next(Shape::U16), Fault::InvalidLength, final(self).data@)
                    &&& final(self).data@ == old(self).data@
                },
            },
    {
        proof {
            lemma_limit_values();
        }
        match self.read_uint(2) {
            Err(e) => Err(e),
            Ok(n) => Ok(n as u16),
        }
    }

    /// Reads an unsigned integer of four bytes in the configured order. Fails
    /// with `InvalidLength`, and consumes nothing, exactly when too few bytes
    /// remain.
    pub fn read_u32(&mut self) -> (r: Result<u32, DeserializeError>)
        ensures
            final(self).endianess == old(self).endianess,
            final(self).length_width == old(self).length_width,
            match r {
                Ok(v) => gives(old(self).next(Shape::U32), Datum::U32(v), final(self).data@),
                Err(e) => {
                    &&& e is InvalidLength
                    &&& stops(old(self).next(Shape::U32), Fault::InvalidLength, final(self).data@)
                    &&& final(self).data@ == old(self).data@
                },
            },
    {
        proof {
            lemma_limit_values();
        }
        match self.read_uint(4) {
            Err(e) => Err(e),
            Ok(n) => Ok(n as u32),
        }
    }

    /// Reads an unsigned integer of eight bytes in the configured order. Fails
    /// with `InvalidLength`, and consumes nothing, exactly when too few bytes
    /// remain.
    pub fn read_u64(&mut self) -> (r: Result<u64, DeserializeError>)
        ensures
            final(self).endianess == old(self).endianess,
            final(self).length_width == old(self).length_width,
            match r {
                Ok(v) => gives(old(self).next(Shape::U64), Datum::U64(v), final(self).data@),
                Err(e) => {
                    &&& e is InvalidLength
                    &&& stops(old(self).next(Shape::U64), Fault::InvalidLength, final(self).data@)
                    &&& final(self).data@ == old(self).data@
                },
            },
    {
        proof {
            lemma_limit_values();
        }
        match self.read_uint(8) {
            Err(e) => Err(e),
            Ok(n) => Ok(n as u64),
        }
    }

    /// Reads an unsigned integer of sixteen bytes in the configured order.
    /// Fails with `InvalidLength`, and consumes nothing, exactly when too few
    /// bytes remain.
    pub fn read_u128(&mut self) -> (r: Result<u128, DeserializeError>)
        ensures
            final(self).endianess == old(self).endianess,
            final(self).length_width == old(self).length_width,
            match r {
                Ok(v) => gives(old(self).next(Shape::U128), Datum::U128(v), final(self).data@),
                Err(e) => {
                    &&& e is InvalidLength
                    &&& stops(old(self).next(Shape::U128), Fault::InvalidLength, final(self).data@)
                    &&& final(self).data@ == old(self).data@
                },
            },
    {
        proof {
            lemma_limit_values();
        }
        match self.read_uint(16) {
            Err(e) => Err(e),
            Ok(n) => Ok(n as u128),
        }
    }

    /// Reads a two's complement integer of one byte. Fails with
    /// `InvalidLength`, and consumes nothing, exactly when too few bytes
    /// remain.
    pub fn read_i8(&mut self) -> (r: Result<i8, DeserializeError>)
        ensures
            final(self).endianess == old(self).endianess,
            final(self).length_width == old(self).length_width,
            match r {
                Ok(v) => gives(old(self).next(Shape::I8), Datum::I8(v), final(self).data@),
                Err(e) => {
                    &&& e is InvalidLength
                    &&& stops(old(self).next(Shape::I8), Fault::InvalidLength, final(self).data@)
                    &&& final(self).data@ == old(self).data@
                },
            },
    {
        proof {
            lemma_limit_values();
        }
        match self.read_uint(1) {
            Err(e) => Err(e),
            Ok(n) => {
                let pattern: u8 = n as u8;
                if pattern < 0x80u8 {
                    Ok(pattern as i8)
                } else {
                    Ok((pattern - 0x80u8) as i8 + i8::MIN)
                }
            },
        }
    }

    /// Reads a two's complement integer of two bytes in the configured order.
    /// Fails with `InvalidLength`, and consumes nothing, exactly when too few
    /// bytes remain.
    pub fn read_i16(&mut self) -> (r: Result<i16, DeserializeError>)
        ensures
            final(self).endianess == old(self).endianess,
            final(self).length_width == old(self).length_width,
            match r {
                Ok(v) => gives(old(self).next(Shape::I16), Datum::I16(v), final(self).data@),
                Err(e) => {
                    &&& e is InvalidLength
                    &&& stops(old(self).next(Shape::I16), Fault::InvalidLength, final(self).data@)
                    &&& final(self).data@ == old(self).data@
                },
            },
    {
        proof {
            lemma_limit_values();
        }
        match self.read_uint(2) {
            Err(e) => Err(e),
            Ok(n) => {
                let pattern: u16 = n as u16;
                if pattern < 0x8000u16 {
                    Ok(pattern as i16)
                } else {
                    Ok((pattern - 0x8000u16) as i16 + i16::MIN)
                }
            },
        }
    }

    /// Reads a two's complement integer of four bytes in the configured order.
    /// Fails with `InvalidLength`, and consumes nothing, exactly when too few
    /// bytes remain.
    pub fn read_i32(&mut self) -> (r: Result<i32, DeserializeError>)
        ensures
            final(self).endianess == old(self).endianess,
            final(self).length_width == old(self).length_width,
            match r {
                Ok(v) => gives(old(self).next(Shape::I32), Datum::I32(v), final(self).data@),
                Err(e) => {
                    &&& e is InvalidLength
                    &&& stops(old(self).next(Shape::I32), Fault::InvalidLength, final(self).data@)
                    &&& final(self).data@ == old(self).data@
                },
            },
    {
        proof {
            lemma_limit_values();
        }
        match self.read_uint(4) {
            Err(e) => Err(e),
            Ok(n) => {
                let pattern: u32 = n as u32;
                if pattern < 0x8000_0000u32 {
                    Ok(pattern as i32)
                } else {
                    Ok((pattern - 0x8000_0000u32) as i32 + i32::MIN)
                }
            },
        }
    }

    /// Reads a two's complement integer of eight bytes in the configured
    /// order. Fails with `InvalidLength`, and consumes nothing, exactly when
    /// too few bytes remain.
    pub fn read_i64(&mut self) -> (r: Result<i64, DeserializeError>)
        ensures
            final(self).endianess == old(self).endianess,
            final(self).length_width == old(self).length_width,
            match r {
                Ok(v) => gives(old(self).next(Shape::I64), Datum::I64(v), final(self).data@),
                Err(e) => {
                    &&& e is InvalidLength
                    &&& stops(old(self).next(Shape::I64), Fault::InvalidLength, final(self).data@)
                    &&& final(self).data@ == old(self).data@
                },
            },
    {
        proof {
            lemma_limit_values();
        }
        match self.read_uint(8) {
            Err(e) => Err(e),
            Ok(n) => {
                let pattern: u64 = n as u64;
                if pattern < 0x8000_0000_0000_0000u64 {
                    Ok(pattern as i64)
                } else {
                    Ok((pattern - 0x8000_0000_0000_0000u64) as i64 + i64::MIN)
                }
            },
        }
    }

    /// Reads a two's complement integer of sixteen bytes in the configured
    /// order. Fails with `InvalidLength`, and consumes nothing, exactly when
    /// too few bytes remain.
    pub fn read_i128(&mut self) -> (r: Result<i128, DeserializeError>)
        ensures
            final(self).endianess == old(self).endianess,
            final(self).length_width == old(self).length_width,
            match r {
                Ok(v) => gives(old(self).next(Shape::I128), Datum::I128(v), final(self).data@),
                Err(e) => {
                    &&& e is InvalidLength
                    &&& stops(old(self).next(Shape::I128), Fault::InvalidLength, final(self).data@)
                    &&& final(self).data@ == old(self).data@
                },
            },
    {
        proof {
            lemma_limit_values();
        }
        match self.read_uint(16) {
            Err(e) => Err(e),
            Ok(n) => {
                let pattern: u128 = n as u128;
                if pattern < 0x8000_0000_0000_0000_0000_0000_0000_0000u128 {
                    Ok(pattern as i128)
                } else {
                    Ok(
                        (pattern - 0x8000_0000_0000_0000_0000_0000_0000_0000u128) as i128
                            + i128::MIN,
                    )
                }
            },
        }
    }

    /// Reads the bit pattern of an IEEE-754 single: four bytes in the
    /// configured order. Fails with `InvalidLength`, and consumes nothing,
    /// exactly when too few bytes remain.
    pub fn read_f32(&mut self) -> (r: Result<u32, DeserializeError>)
        ensures
            final(self).endianess == old(self).endianess,
            final(self).length_width == old(self).length_width,
            match r {
                Ok(v) => gives(old(self).next(Shape::F32), Datum::F32(v), final(self).data@),
                Err(e) => {
                    &&& e is InvalidLength
                    &&& stops(old(self).next(Shape::F32), Fault::InvalidLength, final(self).data@)
                    &&& final(self).data@ == old(self).data@
                },
            },
    {
        proof {
            lemma_limit_values();
        }
        match self.read_uint(4) {
            Err(e) => Err(e),
            Ok(n) => Ok(n as u32),
        }
    }

    /// Reads the bit pattern of an IEEE-754 double: eight bytes in the
    /// configured order. Fails with `InvalidLength`, and consumes nothing,
    /// exactly when too few bytes remain.
    pub fn read_f64(&mut self) -> (r: Result<u64, DeserializeError>)
        ensures
            final(self).endianess == old(self).endianess,
            final(self).length_width == old(self).length_width,
            match r {
                Ok(v) => gives(old(self).next(Shape::F64), Datum::F64(v), final(self).data@),
                Err(e) => {
                    &&& e is InvalidLength
                    &&& stops(old(self).next(Shape::F64), Fault::InvalidLength, final(self).data@)
                    &&& final(self).data@ == old(self).data@
                },
            },
    {
        proof {
            lemma_limit_values();
        }
        match self.read_uint(8) {
            Err(e) => Err(e),
            Ok(n) => Ok(n as u64),
        }
    }

    /// Reads one byte as a truth value: `00` is `false`, `01` is `true`.
    /// Fails with `InvalidLength`, and consumes nothing, when no byte
    /// remains; fails with `InvalidData`, and consumes the byte, when the
    /// byte is neither.
    pub fn read_bool(&mut self) -> (r: Result<bool, DeserializeError>)
        ensures
            final(self).endianess == old(self).endianess,
            final(self).length_width == old(self).length_width,
            match r {
                Ok(v) => gives(old(self).next(Shape::Bool), Datum::Bool(v), final(self).data@),
                Err(e) => {
                    &&& stops(old(self).next(Shape::Bool), e.fault(), final(self).data@)
                    &&& e is InvalidLength || e is InvalidData
                    &&& e is InvalidLength ==> final(self).data@ == old(self).data@
                    &&& e is InvalidData ==> final(self).data@ == old(self).data@.drop_first()
                },
            },
    {
        if self.data.len() < 1 {
            return Err(DeserializeError::InvalidLength);
        }
        let (head, rest) = self.data.split_at(1);
        self.data = rest;
        let tag = head[0];
        if tag == 0 {
            Ok(false)
        } else if tag == 1 {
            Ok(true)
        } else {
            Err(DeserializeError::InvalidData)
        }
    }

    /// Reads a length prefix. Fails with `InvalidLength`, and consumes
    /// nothing, when too few bytes remain; fails with `InvalidSize`, and
    /// consumes the prefix, when the count is larger than this platform can
    /// address.
    pub fn read_len(&mut self) -> (r: Result<usize, DeserializeError>)
        ensures
            final(self).endianess == old(self).endianess,
            final(self).length_width == old(self).length_width,
            match r {
                Ok(count) => gives(old(self).next_len(), count as nat, final(self).data@),
                Err(e) => {
                    &&& stops(old(self).next_len(), e.fault(), final(self).data@)
                    &&& e is InvalidLength || e is InvalidSize
                },
            },
    {
        match self.read_uint(self.length_width.bytes()) {
            Err(e) => Err(e),
            Ok(n) => {
                if n > usize::MAX as u128 {
                    Err(DeserializeError::InvalidSize)
                } else {
                    Ok(n as usize)
                }
            },
        }
    }

    /// Reads a byte string and hands it out as a borrow of the input.
    /// Fails with `InvalidLength` when the length prefix is cut short or
    /// counts more bytes than remain after it, with `InvalidSize` when the
    /// count is larger than this platform can address. On failure the
    /// length prefix, where there was one, is consumed and nothing more.
    pub fn read_bytes(&mut self) -> (r: Result<&'a [u8], DeserializeError>)
        ensures
            final(self).endianess == old(self).endianess,
            final(self).length_width == old(self).length_width,
            match r {
                Ok(bytes) => gives(old(self).next_counted(), bytes@, final(self).data@),
                Err(e) => {
                    &&& stops(old(self).next_counted(), e.fault(), final(self).data@)
                    &&& e is InvalidLength || e is InvalidSize
                },
            },
    {
        match self.read_len() {
            Err(e) => Err(e),
            Ok(count) => {
                if self.data.len() < count {
                    Err(DeserializeError::InvalidLength)
                } else {
                    let (head, rest) = self.data.split_at(count);
                    self.data = rest;
                    Ok(head)
                }
            },
        }
    }

    /// Reads a byte string into a buffer of its own.
    pub fn read_byte_buf(&mut self) -> (r: Result<Vec<u8>, DeserializeError>)
        ensures
            final(self).endianess == old(self).endianess,
            final(self).length_width == old(self).length_width,
            match r {
                Ok(bytes) => gives(old(self).next_counted(), bytes@, final(self).data@),
                Err(e) => {
                    &&& stops(old(self).next_counted(), e.fault(), final(self).data@)
                    &&& e is InvalidLength || e is InvalidSize
                },
            },
    {
        match self.read_bytes() {
            Err(e) => Err(e),
            Ok(bytes) => Ok(slice_to_vec(bytes)),
        }
    }

    /// Reads a text and hands it out as a borrow of the input. Fails as
    /// `read_bytes` does, and with `InvalidUtf8`, the bytes consumed, when
    /// the bytes are not UTF-8.
    pub fn read_str(&mut self) -> (r: Result<&'a str, DeserializeError>)
        ensures
            final(self).endianess == old(self).endianess,
            final(self).length_width == old(self).length_width,
            match r {
                Ok(text) => gives(
                    old(self).next(Shape::Str),
                    Datum::Text(text@),
                    final(self).data@,
                ),
                Err(e) => {
                    &&& stops(old(self).next(Shape::Str), e.fault(), final(self).data@)
                },
            },
    {
        match self.read_bytes() {
            Err(e) => Err(e),
            Ok(bytes) => match core::str::from_utf8(bytes) {
                Err(detail) => Err(DeserializeError::InvalidUtf8(detail)),
                Ok(text) => {
                    proof {
                        encode_utf8_decode_utf8(text@);
                    }
                    Ok(text)
                },
            },
        }
    }

    /// Reads a text into a buffer of its own.
    pub fn read_string(&mut self) -> (r: Result<String, DeserializeError>)
        ensures
            final(self).endianess == old(self).endianess,
            final(self).length_width == old(self).length_width,
            match r {
                Ok(text) => gives(
                    old(self).next(Shape::String),
                    Datum::Text(text@),
                    final(self).data@,
                ),
                Err(e) => {
                    &&& stops(old(self).next(Shape::String), e.fault(), final(self).data@)
                },
            },
    {
        match self.read_str() {
            Err(e) => Err(e),
            Ok(text) => Ok(text.to_owned()),
        }
    }

    /// Reads a character: a text of which the first character counts.
    /// Fails as `read_str` does, and with `InvalidLength` when the text is
    /// empty.
    pub fn read_char(&mut self) -> (r: Result<char, DeserializeError>)
        ensures
            final(self).endianess == old(self).endianess,
            final(self).length_width == old(self).length_width,
            match r {
                Ok(c) => gives(old(self).next(Shape::Char), Datum::Char(c), final(self).data@),
                Err(e) => {
                    &&& stops(old(self).next(Shape::Char), e.fault(), final(self).data@)
                },
            },
    {
        match self.read_str() {
            Err(e) => Err(e),
            Ok(text) => {
                if text.is_empty() {
                    Err(DeserializeError::InvalidLength)
                } else {
                    Ok(text.get_char(0))
                }
            },
        }
    }

    /// Reads the tag of an optional value: `00` for absent, `01` for
    /// present. Fails with `InvalidLength`, and consumes nothing, when no
    /// byte remains; fails with `InvalidData`, and consumes the byte, when
    /// the byte is neither.
    pub fn read_option_tag(&mut self) -> (r: Result<bool, DeserializeError>)
        ensures
            final(self).endianess == old(self).endianess,
            final(self).length_width == old(self).length_width,
            match r {
                Ok(present) => {
                    &&& old(self).data@.len() > 0
                    &&& old(self).data@[0] == (if present {
                        1u8
                    } else {
                        0u8
                    })
                    &&& final(self).data@ == old(self).data@.drop_first()
                },
                Err(e) => {
                    &&& e is InvalidLength || e is InvalidData
                    &&& e is InvalidLength ==> old(self).data@.len() == 0 && final(self).data@
                        == old(self).data@
                    &&& e is InvalidData ==> old(self).data@.len() > 0 && old(self).data@[0] > 1
                        && final(self).data@ == old(self).data@.drop_first()
                },
            },
    {
        if self.data.len() < 1 {
            return Err(DeserializeError::InvalidLength);
        }
        let (head, rest) = self.data.split_at(1);
        self.data = rest;
        let tag = head[0];
        if tag == 0 {
            Ok(false)
        } else if tag == 1 {
            Ok(true)
        } else {
            Err(DeserializeError::InvalidData)
        }
    }

    /// Reads the index of a variant of a sum type with `variants` arms: one
    /// byte. Fails with `InvalidLength`, and consumes nothing, when no byte
    /// remains; fails with `InvalidData`, and consumes the byte, when the
    /// index names no arm.
    pub fn read_variant(&mut self, variants: usize) -> (r: Result<u8, DeserializeError>)
        ensures
            final(self).endianess == old(self).endianess,
            final(self).length_width == old(self).length_width,
            match r {
                Ok(index) => {
                    &&& old(self).data@.len() > 0
                    &&& old(self).data@[0] == index
                    &&& index < variants
                    &&& final(self).data@ == old(self).data@.drop_first()
                },
                Err(e) => {
                    &&& e is InvalidLength || e is InvalidData
                    &&& e is InvalidLength ==> old(self).data@.len() == 0 && final(self).data@
                        == old(self).data@
                    &&& e is InvalidData ==> old(self).data@.len() > 0 && old(self).data@[0]
                        >= variants && final(self).data@ == old(self).data@.drop_first()
                },
            },
    {
        if self.data.len() < 1 {
            return Err(DeserializeError::InvalidLength);
        }
        let (head, rest) = self.data.split_at(1);
        self.data = rest;
        let index = head[0];
        if index as usize >= variants {
            Err(DeserializeError::InvalidData)
        } else {
            Ok(index)
        }
    }

    /// Reads a value of kind `kind`. Text and bytes of the borrowing kinds
    /// are handed out as borrows of the input, those of the owning kinds as
    /// copies. Fails with the fault that the format names for this input,
    /// and stops where the format says that decoding stops.
    pub fn decode(&mut self, kind: &Kind) -> (r: Result<Value<'a>, DeserializeError>)
        ensures
            final(self).endianess == old(self).endianess,
            final(self).length_width == old(self).length_width,
            agrees(r, final(self).data@, old(self).next(kind@)),
            r matches Ok(value) ==> value.held_as(kind@),
        decreases kind, 1nat,
    {
        match kind {
            Kind::Bool => match self.read_bool() {
                Err(e) => Err(e),
                Ok(v) => Ok(Value::Bool(v)),
            },
            Kind::U8 => match self.read_u8() {
                Err(e) => Err(e),
                Ok(v) => Ok(Value::U8(v)),
            },
            Kind::U16 => match self.read_u16() {
                Err(e) => Err(e),
                Ok(v) => Ok(Value::U16(v)),
            },
            Kind::U32 => match self.read_u32() {
                Err(e) => Err(e),
                Ok(v) => Ok(Value::U32(v)),
            },
            Kind::U64 => match self.read_u64() {
                Err(e) => Err(e),
                Ok(v) => Ok(Value::U64(v)),
            },
            Kind::U128 => match self.read_u128() {
                Err(e) => Err(e),
                Ok(v) => Ok(Value::U128(v)),
            },
            Kind::I8 => match self.read_i8() {
                Err(e) => Err(e),
                Ok(v) => Ok(Value::I8(v)),
            },
            Kind::I16 => match self.read_i16() {
                Err(e) => Err(e),
                Ok(v) => Ok(Value::I16(v)),
            },
            Kind::I32 => match self.read_i32() {
                Err(e) => Err(e),
                Ok(v) => Ok(Value::I32(v)),
            },
            Kind::I64 => match self.read_i64() {
                Err(e) => Err(e),
                Ok(v) => Ok(Value::I64(v)),
            },
            Kind::I128 => match self.read_i128() {
                Err(e) => Err(e),
                Ok(v) => Ok(Value::I128(v)),
            },
            Kind::F32 => match self.read_f32() {
                Err(e) => Err(e),
                Ok(v) => Ok(Value::F32(v)),
            },
            Kind::F64 => match self.read_f64() {
                Err(e) => Err(e),
                Ok(v) => Ok(Value::F64(v)),
            },
            Kind::Char => match self.read_char() {
                Err(e) => Err(e),
                Ok(v) => Ok(Value::Char(v)),
            },
            Kind::Str => match self.read_str() {
                Err(e) => Err(e),
                Ok(v) => Ok(Value::Str(v)),
            },
            Kind::String => match self.read_string() {
                Err(e) => Err(e),
                Ok(v) => Ok(Value::String(v)),
            },
            Kind::Bytes => match self.read_bytes() {
                Err(e) => Err(e),
                Ok(v) => Ok(Value::Bytes(v)),
            },
            Kind::ByteBuf => match self.read_byte_buf() {
                Err(e) => Err(e),
                Ok(v) => Ok(Value::ByteBuf(v)),
            },
            Kind::Optional(inner) => self.decode_optional(inner),
            Kind::Unit => Ok(Value::Unit),
            Kind::Newtype(inner) => match self.decode(inner) {
                Err(e) => Err(e),
                Ok(v) => Ok(Value::Newtype(Box::new(v))),
            },
            Kind::Tuple(kinds) => match self.decode_all(kinds) {
                Err(e) => Err(e),
                Ok(items) => {
                    proof {
                        lemma_shape_all(kinds@);
                    }
                    Ok(Value::Tuple(items))
                },
            },
            Kind::Sequence(inner) => self.decode_sequence(inner),
            Kind::Mapping(_, _) => self.decode_mapping(kind),
            Kind::Enum(variants) => self.decode_enum(variants),
            Kind::Any => Err(DeserializeError::NotDescriptive),
            Kind::IgnoredAny => Err(DeserializeError::NotDescriptive),
        }
    }

    /// Reads an optional value whose content is of kind `inner`.
    fn decode_optional(&mut self, inner: &Kind) -> (r: Result<Value<'a>, DeserializeError>)
        ensures
            final(self).endianess == old(self).endianess,
            final(self).length_width == old(self).length_width,
            agrees(r, final(self).data@, old(self).next(Shape::Optional(Box::new(inner@)))),
            r matches Ok(value) ==> value.held_as(Shape::Optional(Box::new(inner@))),
        decreases inner, 2nat,
    {
        match self.read_option_tag() {
            Err(e) => Err(e),
            Ok(false) => Ok(Value::Optional(None)),
            Ok(true) => match self.decode(inner) {
                Err(e) => Err(e),
                Ok(v) => Ok(Value::Optional(Some(Box::new(v)))),
            },
        }
    }

    /// Reads one value of each of `kinds`, in order.
    pub fn decode_all(&mut self, kinds: &Vec<Kind>) -> (r: Result<
        Vec<Value<'a>>,
        DeserializeError,
    >)
        ensures
            final(self).endianess == old(self).endianess,
            final(self).length_width == old(self).length_width,
            agree_all(r, final(self).data@, old(self).next_all(shape_all(kinds@))),
            r matches Ok(items) ==> items@.len() == kinds@.len() && forall|i: int|
                0 <= i < items@.len() ==> (#[trigger] items@[i]).held_as(kinds@[i]@),
        decreases kinds, 0nat,
    {
        let ghost start = self.data@;
        let ghost endianess = self.endianess;
        let ghost width = self.length_width;
        let ghost shapes = shape_all(kinds@);
        let mut items: Vec<Value<'a>> = Vec::new();
        let mut i: usize = 0;
        proof {
            lemma_shape_all(kinds@);
            assert(shapes.subrange(0, shapes.len() as int) =~= shapes);
            let whole = decoded_all(endianess, width, shapes, start);
            assert(view_all(items@) =~= Seq::<Datum>::empty());
            assert(after(Seq::<Datum>::empty(), whole) == whole) by {
                if let Ok((more, rest)) = whole {
                    assert(Seq::<Datum>::empty() + more =~= more);
                }
            }
        }
        while i < kinds.len()
            invariant
                i <= kinds.len(),
                self.endianess == endianess,
                self.length_width == width,
                endianess == old(self).endianess,
                width == old(self).length_width,
                start == old(self).data@,
                shapes == shape_all(kinds@),
                shapes.len() == kinds@.len(),
                forall|j: int| 0 <= j < kinds@.len() ==> (#[trigger] shapes[j]) == kinds@[j]@,
                items@.len() == i,
                forall|j: int| 0 <= j < i ==> (#[trigger] items@[j]).held_as(kinds@[j]@),
                decoded_all(endianess, width, shapes, start) == after(
                    view_all(items@),
                    decoded_all(
                        endianess,
                        width,
                        shapes.subrange(i as int, shapes.len() as int),
                        self.data@,
                    ),
                ),
            decreases kinds.len() - i,
        {
            proof {
                lemma_decoded_all_step(endianess, width, shapes, i as int, self.data@);
            }
            let ghost before = items@;
            match self.decode(&kinds[i]) {
                Err(e) => {
                    return Err(e);
                },
                Ok(v) => {
                    proof {
                        lemma_view_all_push(before, v);
                        lemma_after_after(
                            view_all(before),
                            seq![v@],
                            decoded_all(
                                endianess,
                                width,
                                shapes.subrange(i + 1, shapes.len() as int),
                                self.data@,
                            ),
                        );
                        assert(view_all(before).push(v@) =~= view_all(before) + seq![v@]);
                    }
                    items.push(v);
                },
            }
            i = i + 1;
        }
        proof {
            assert(shapes.subrange(i as int, shapes.len() as int) =~= Seq::<Shape>::empty());
            assert(view_all(items@) + Seq::<Datum>::empty() =~= view_all(items@));
        }
        Ok(items)
    }

    /// Reads a sequence whose elements are of kind `inner`.
    fn decode_sequence(&mut self, inner: &Kind) -> (r: Result<Value<'a>, DeserializeError>)
        ensures
            final(self).endianess == old(self).endianess,
            final(self).length_width == old(self).length_width,
            agrees(r, final(self).data@, old(self).next(Shape::Sequence(Box::new(inner@)))),
            r matches Ok(value) ==> value.held_as(Shape::Sequence(Box::new(inner@))),
        decreases inner, 2nat,
    {
        let ghost endianess = self.endianess;
        let ghost width = self.length_width;
        let count = match self.read_len() {
            Err(e) => {
                return Err(e);
            },
            Ok(count) => count,
        };
        let ghost start = self.data@;
        let mut items: Vec<Value<'a>> = Vec::new();
        let mut i: usize = 0;
        proof {
            let whole = decoded_repeat(endianess, width, inner@, count as nat, start);
            assert(view_all(items@) =~= Seq::<Datum>::empty());
            assert(after(Seq::<Datum>::empty(), whole) == whole) by {
                if let Ok((more, rest)) = whole {
                    assert(Seq::<Datum>::empty() + more =~= more);
                }
            }
        }
        while i < count
            invariant
                i <= count,
                self.endianess == endianess,
                self.length_width == width,
                endianess == old(self).endianess,
                width == old(self).length_width,
                gives(take_len(endianess, width, old(self).data@), count as nat, start),
                forall|j: int| 0 <= j < items@.len() ==> (#[trigger] items@[j]).held_as(inner@),
                decoded_repeat(endianess, width, inner@, count as nat, start) == after(
                    view_all(items@),
                    decoded_repeat(endianess, width, inner@, (count - i) as nat, self.data@),
                ),
            decreases count - i,
        {
            let ghost before = items@;
            match self.decode(inner) {
                Err(e) => {
                    return Err(e);
                },
                Ok(v) => {
                    proof {
                        lemma_view_all_push(before, v);
                        lemma_after_after(
                            view_all(before),
                            seq![v@],
                            decoded_repeat(
                                endianess,
                                width,
                                inner@,
                                (count - i - 1) as nat,
                                self.data@,
                            ),
                        );
                        assert(view_all(before).push(v@) =~= view_all(before) + seq![v@]);
                    }
                    items.push(v);
                },
            }
            i = i + 1;
        }
        proof {
            assert(view_all(items@) + Seq::<Datum>::empty() =~= view_all(items@));
        }
        Ok(Value::Sequence(items))
    }

    /// Reads a map of the mapping kind `kind`.
    fn decode_mapping(&mut self, kind: &Kind) -> (r: Result<Value<'a>, DeserializeError>)
        requires
            kind is Mapping,
        ensures
            final(self).endianess == old(self).endianess,
            final(self).length_width == old(self).length_width,
            agrees(r, final(self).data@, old(self).next(kind@)),
            r matches Ok(value) ==> value.held_as(kind@),
        decreases kind, 0nat,
    {
        let ghost endianess = self.endianess;
        let ghost width = self.length_width;
        let count = match self.read_len() {
            Err(e) => {
                return Err(e);
            },
            Ok(count) => count,
        };
        let ghost start = self.data@;
        let mut entries: Vec<(Value<'a>, Value<'a>)> = Vec::new();
        let mut i: usize = 0;
        proof {
            let whole = decoded_pairs(endianess, width, kind@, count as nat, start);
            assert(view_pairs(entries@) =~= Seq::<(Datum, Datum)>::empty());
            assert(after(Seq::<(Datum, Datum)>::empty(), whole) == whole) by {
                if let Ok((more, rest)) = whole {
                    assert(Seq::<(Datum, Datum)>::empty() + more =~= more);
                }
            }
        }
        while i < count
            invariant
                i <= count,
                kind is Mapping,
                self.endianess == endianess,
                self.length_width == width,
                endianess == old(self).endianess,
                width == old(self).length_width,
                gives(take_len(endianess, width, old(self).data@), count as nat, start),
                forall|j: int|
                    0 <= j < entries@.len() ==> (#[trigger] entries@[j]).0.held_as(
                        *kind@->Mapping_0,
                    ) && entries@[j].1.held_as(*kind@->Mapping_1),
                decoded_pairs(endianess, width, kind@, count as nat, start) == after(
                    view_pairs(entries@),
                    decoded_pairs(endianess, width, kind@, (count - i) as nat, self.data@),
                ),
            decreases count - i,
        {
            let ghost before = entries@;
            let entry = match kind {
                Kind::Mapping(key_kind, value_kind) => {
                    let key = match self.decode(key_kind) {
                        Err(e) => {
                            return Err(e);
                        },
                        Ok(key) => key,
                    };
                    let value = match self.decode(value_kind) {
                        Err(e) => {
                            return Err(e);
                        },
                        Ok(value) => value,
                    };
                    (key, value)
                },
                _ => {
                    return Err(DeserializeError::BadData);
                },
            };
            proof {
                lemma_view_pairs_push(before, entry);
                lemma_after_after(
                    view_pairs(before),
                    seq![(entry.0@, entry.1@)],
                    decoded_pairs(endianess, width, kind@, (count - i - 1) as nat, self.data@),
                );
                assert(view_pairs(before).push((entry.0@, entry.1@)) =~= view_pairs(before)
                    + seq![(entry.0@, entry.1@)]);
            }
            entries.push(entry);
            i = i + 1;
        }
        proof {
            assert(view_pairs(entries@) + Seq::<(Datum, Datum)>::empty() =~= view_pairs(entries@));
        }
        Ok(Value::Mapping(entries))
    }

    /// Reads one arm of a sum type whose arms have the payload kinds
    /// `variants`.
    fn decode_enum(&mut self, variants: &Vec<Kind>) -> (r: Result<Value<'a>, DeserializeError>)
        ensures
            final(self).endianess == old(self).endianess,
            final(self).length_width == old(self).length_width,
            agrees(r, final(self).data@, old(self).next(Shape::Enum(shape_all(variants@)))),
            r matches Ok(value) ==> value.held_as(Shape::Enum(shape_all(variants@))),
        decreases variants, 0nat,
    {
        proof {
            lemma_shape_all(variants@);
        }
        match self.read_variant(variants.len()) {
            Err(e) => Err(e),
            Ok(index) => match self.decode(&variants[index as usize]) {
                Err(e) => Err(e),
                Ok(payload) => Ok(Value::Variant(index as u32, Box::new(payload))),
            },
        }
    }
}

} // verus!
