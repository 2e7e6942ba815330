//! The encode side: a growing buffer and one method per kind of value.

use crate::bindings::char_to_string;
use crate::config::{Endianess, LengthWidth};
use crate::error::SerializeError;
use crate::format::{
    addressable, counted, encoded, encoded_all, encoded_pairs, joined, lemma_encoded_all_step,
    lemma_encoded_pairs_step, length_prefix,
};
use crate::value::{lemma_view_all, lemma_view_pairs, view_all, view_pairs, Datum, Value};
use crate::wire::{
    le_bytes, lemma_endian_reverse, lemma_limit_values, lemma_uint_bytes_len, twos, uint_bytes,
};
use vstd::pervasive::VecAdditionalExecFns;
use vstd::prelude::*;
use vstd::string::StringSliceAdditionalSpecFns;
use vstd::utf8::encode_utf8;

verus! {

/// A buffer that values are appended to in their wire form.
pub struct Encoder {
    /// Byte order of every integer written.
    pub endianess: Endianess,
    /// Width of the length prefixes written.
    pub length_width: LengthWidth,
    /// The bytes written so far.
    pub data: Vec<u8>,
}

/// The `width` low bytes of `value`, least significant first.
fn le_vec(value: u128, width: usize) -> (bytes: Vec<u8>)
    ensures
        bytes@ == le_bytes(value as nat, width as nat),
{
    let mut bytes: Vec<u8> = Vec::new();
    let mut rest: u128 = value;
    let mut i: usize = 0;
    while i < width
        invariant
            i <= width,
            bytes@ + le_bytes(rest as nat, (width - i) as nat) == le_bytes(
                value as nat,
                width as nat,
            ),
        decreases width - i,
    {
        let ghost before = bytes@;
        let low: u8 = (rest % 256) as u8;
        bytes.push(low);
        proof {
            let tail = le_bytes((rest / 256) as nat, (width - i - 1) as nat);
            assert(le_bytes(rest as nat, (width - i) as nat) == seq![low] + tail);
            assert(before.push(low) + tail =~= before + (seq![low] + tail));
        }
        rest = rest / 256;
        i = i + 1;
    }
    assert(bytes@ + Seq::<u8>::empty() =~= bytes@);
    bytes
}

impl Encoder {
    /// An empty buffer for the given byte order and length-prefix width.
    pub fn new(endianess: Endianess, length_width: LengthWidth) -> (encoder: Encoder)
        ensures
            encoder.endianess == endianess,
            encoder.length_width == length_width,
            encoder.data@ == Seq::<u8>::empty(),
    {
        Encoder { endianess, length_width, data: Vec::new() }
    }

    /// The bytes that `datum` is written as.
    pub open spec fn form(self, datum: Datum) -> Option<Seq<u8>> {
        encoded(self.endianess, self.length_width, datum)
    }

    /// The bytes that `items` are written as, one after the other.
    pub open spec fn form_all(self, items: Seq<Datum>) -> Option<Seq<u8>> {
        encoded_all(self.endianess, self.length_width, items)
    }

    /// The bytes that `entries` are written as, each key followed by its
    /// value.
    pub open spec fn form_pairs(self, entries: Seq<(Datum, Datum)>) -> Option<Seq<u8>> {
        encoded_pairs(self.endianess, self.length_width, entries)
    }

    /// The bytes that a length prefix for `count` elements is written as.
    pub open spec fn prefix(self, count: nat) -> Option<Seq<u8>> {
        length_prefix(self.endianess, self.length_width, count)
    }

    /// The bytes that the counted run `body` is written as.
    pub open spec fn form_counted(self, body: Seq<u8>) -> Option<Seq<u8>> {
        counted(self.endianess, self.length_width, body)
    }

    /// `next` is this encoder after `bytes` have been appended.
    pub open spec fn appended(self, next: Encoder, bytes: Seq<u8>) -> bool {
        &&& next.endianess == self.endianess
        &&& next.length_width == self.length_width
        &&& next.data@ == self.data@ + bytes
    }

    /// Appends the `width` low bytes of `value` in the configured order.
    pub fn write_uint(&mut self, value: u128, width: usize)
        ensures
            old(self).appended(
                *final(self),
                uint_bytes(old(self).endianess, value as nat, width as nat),
            ),
    {
        let bytes = le_vec(value, width);
        let ghost before = self.data@;
        proof {
            lemma_uint_bytes_len(self.endianess, value as nat, width as nat);
            lemma_endian_reverse(value as nat, width as nat);
        }
        match self.endianess {
            Endianess::Little => {
                let mut i: usize = 0;
                while i < width
                    invariant
                        i <= width,
                        bytes@.len() == width,
                        self.endianess == old(self).endianess,
                        self.length_width == old(self).length_width,
                        self.data@ == before + bytes@.subrange(0, i as int),
                    decreases width - i,
                {
                    self.data.push(bytes[i]);
                    i = i + 1;
                    assert(self.data@ =~= before + bytes@.subrange(0, i as int));
                }
                assert(bytes@.subrange(0, width as int) =~= bytes@);
            },
            Endianess::Big => {
                let mut i: usize = width;
                while i > 0
                    invariant
                        i <= width,
                        bytes@.len() == width,
                        self.endianess == old(self).endianess,
                        self.length_width == old(self).length_width,
                        self.data@ == before + bytes@.reverse().subrange(0, width - i),
                    decreases i,
                {
                    i = i - 1;
                    self.data.push(bytes[i]);
                    assert(self.data@ =~= before + bytes@.reverse().subrange(0, width - i));
                }
                assert(bytes@.reverse().subrange(0, width as int) =~= bytes@.reverse());
            },
        }
    }

    /// Appends `bytes` as they are.
    pub fn write_raw(&mut self, bytes: &[u8])
        ensures
            old(self).appended(*final(self), bytes@),
    {
        let ghost before = self.data@;
        self.data.extend_from_slice(bytes);
        assert(self.data@ =~= before + bytes@);
    }

    /// Appends one byte: `01` for `true`, `00` for `false`.
    pub fn write_bool(&mut self, v: bool)
        ensures
            old(self).appended(*final(self), old(self).form(Datum::Bool(v))->0),
    {
        let ghost before = self.data@;
        self.data.push(if v { 1u8 } else { 0u8 });
        assert(self.data@ =~= before + seq![if v { 1u8 } else { 0u8 }]);
    }

    /// Appends the one byte of `v`.
    pub fn write_u8(&mut self, v: u8)
        ensures
            old(self).appended(*final(self), uint_bytes(old(self).endianess, v as nat, 1)),
    {
        self.write_uint(v as u128, 1);
    }

    /// Appends the two bytes of `v` in the configured order.
    pub fn write_u16(&mut self, v: u16)
        ensures
            old(self).appended(*final(self), uint_bytes(old(self).endianess, v as nat, 2)),
    {
        self.write_uint(v as u128, 2);
    }

    /// Appends the four bytes of `v` in the configured order.
    pub fn write_u32(&mut self, v: u32)
        ensures
            old(self).appended(*final(self), uint_bytes(old(self).endianess, v as nat, 4)),
    {
        self.write_uint(v as u128, 4);
    }

    /// Appends the eight bytes of `v` in the configured order.
    pub fn write_u64(&mut self, v: u64)
        ensures
            old(self).appended(*final(self), uint_bytes(old(self).endianess, v as nat, 8)),
    {
        self.write_uint(v as u128, 8);
    }

    /// Appends the sixteen bytes of `v` in the configured order.
    pub fn write_u128(&mut self, v: u128)
        ensures
            old(self).appended(*final(self), uint_bytes(old(self).endianess, v as nat, 16)),
    {
        self.write_uint(v, 16);
    }

    /// Appends the two's complement pattern of `v`: one byte.
    pub fn write_i8(&mut self, v: i8)
        ensures
            old(self).appended(*final(self), uint_bytes(old(self).endianess, twos(v as int, 1), 1)),
    {
        proof {
            lemma_limit_values();
        }
        let pattern: u8 = if v >= 0 {
            v as u8
        } else {
            (v - i8::MIN) as u8 + 0x80u8
        };
        self.write_uint(pattern as u128, 1);
    }

    /// Appends the two's complement pattern of `v`: two bytes in the
    /// configured order.
    pub fn write_i16(&mut self, v: i16)
        ensures
            old(self).appended(*final(self), uint_bytes(old(self).endianess, twos(v as int, 2), 2)),
    {
        proof {
            lemma_limit_values();
        }
        let pattern: u16 = if v >= 0 {
            v as u16
        } else {
            (v - i16::MIN) as u16 + 0x8000u16
        };
        self.write_uint(pattern as u128, 2);
    }

    /// Appends the two's complement pattern of `v`: four bytes in the
    /// configured order.
    pub fn write_i32(&mut self, v: i32)
        ensures
            old(self).appended(*final(self), uint_bytes(old(self).endianess, twos(v as int, 4), 4)),
    {
        proof {
            lemma_limit_values();
        }
        let pattern: u32 = if v >= 0 {
            v as u32
        } else {
            (v - i32::MIN) as u32 + 0x8000_0000u32
        };
        self.write_uint(pattern as u128, 4);
    }

    /// Appends the two's complement pattern of `v`: eight bytes in the
    /// configured order.
    pub fn write_i64(&mut self, v: i64)
        ensures
            old(self).appended(*final(self), uint_bytes(old(self).endianess, twos(v as int, 8), 8)),
    {
        proof {
            lemma_limit_values();
        }
        let pattern: u64 = if v >= 0 {
            v as u64
        } else {
            (v - i64::MIN) as u64 + 0x8000_0000_0000_0000u64
        };
        self.write_uint(pattern as u128, 8);
    }

    /// Appends the two's complement pattern of `v`: sixteen bytes in the
    /// configured order.
    pub fn write_i128(&mut self, v: i128)
        ensures
            old(self).appended(
                *final(self),
                uint_bytes(old(self).endianess, twos(v as int, 16), 16),
            ),
    {
        proof {
            lemma_limit_values();
        }
        let pattern: u128 = if v >= 0 {
            v as u128
        } else {
            (v - i128::MIN) as u128 + 0x8000_0000_0000_0000_0000_0000_0000_0000u128
        };
        self.write_uint(pattern, 16);
    }

    /// Appends an IEEE-754 single, given as its bit pattern: four bytes in
    /// the configured order.
    pub fn write_f32(&mut self, bits: u32)
        ensures
            old(self).appended(*final(self), uint_bytes(old(self).endianess, bits as nat, 4)),
    {
        self.write_uint(bits as u128, 4);
    }

    /// Appends an IEEE-754 double, given as its bit pattern: eight bytes in
    /// the configured order.
    pub fn write_f64(&mut self, bits: u64)
        ensures
            old(self).appended(*final(self), uint_bytes(old(self).endianess, bits as nat, 8)),
    {
        self.write_uint(bits as u128, 8);
    }

    /// Appends the length prefix for `count` elements. Fails with `TooLong`,
    /// and appends nothing, exactly when `count` does not fit the configured
    /// width.
    pub fn write_len(&mut self, count: usize) -> (r: Result<(), SerializeError>)
        ensures
            match r {
                Ok(()) => {
                    &&& old(self).prefix(count as nat) is Some
                    &&& old(self).appended(*final(self), old(self).prefix(count as nat)->0)
                },
                Err(e) => {
                    &&& e is TooLong
                    &&& old(self).prefix(count as nat) is None
                    &&& old(self).appended(*final(self), Seq::empty())
                },
            },
    {
        if count as u64 > self.length_width.max() {
            assert(self.data@ + Seq::<u8>::empty() =~= self.data@);
            Err(SerializeError::TooLong)
        } else {
            self.write_uint(count as u128, self.length_width.bytes());
            Ok(())
        }
    }

    /// Appends the length prefix for `count` elements and then `body`, the
    /// encodings of those elements. Fails with `TooLong`, and appends
    /// nothing, exactly when `count` does not fit the configured width.
    pub fn write_counted(&mut self, count: usize, body: &[u8]) -> (r: Result<(), SerializeError>)
        ensures
            match r {
                Ok(()) => {
                    &&& old(self).prefix(count as nat) is Some
                    &&& old(self).appended(*final(self), old(self).prefix(count as nat)->0 + body@)
                },
                Err(e) => {
                    &&& e is TooLong
                    &&& old(self).prefix(count as nat) is None
                    &&& old(self).appended(*final(self), Seq::empty())
                },
            },
    {
        let ghost before = self.data@;
        match self.write_len(count) {
            Err(e) => Err(e),
            Ok(()) => {
                let ghost prefix = length_prefix(
                    self.endianess,
                    self.length_width,
                    count as nat,
                )->0;
                self.write_raw(body);
                assert(self.data@ =~= before + (prefix + body@));
                Ok(())
            },
        }
    }

    /// Appends a byte string: its length in bytes as a length prefix, then
    /// the bytes. Fails with `TooLong`, and appends nothing, exactly when
    /// the length does not fit the configured width.
    pub fn write_bytes(&mut self, v: &[u8]) -> (r: Result<(), SerializeError>)
        ensures
            v@.len() <= usize::MAX,
            match r {
                Ok(()) => {
                    &&& old(self).form_counted(v@) is Some
                    &&& old(self).appended(*final(self), old(self).form_counted(v@)->0)
                },
                Err(e) => {
                    &&& e is TooLong
                    &&& old(self).form_counted(v@) is None
                    &&& old(self).appended(*final(self), Seq::empty())
                },
            },
    {
        self.write_counted(v.len(), v)
    }

    /// Appends a text as the byte string of its UTF-8 form.
    pub fn write_str(&mut self, v: &str) -> (r: Result<(), SerializeError>)
        ensures
            encode_utf8(v@).len() <= usize::MAX,
            match r {
                Ok(()) => {
                    &&& old(self).form_counted(encode_utf8(v@)) is Some
                    &&& old(self).appended(*final(self), old(self).form_counted(encode_utf8(v@))->0)
                },
                Err(e) => {
                    &&& e is TooLong
                    &&& old(self).form_counted(encode_utf8(v@)) is None
                    &&& old(self).appended(*final(self), Seq::empty())
                },
            },
    {
        self.write_bytes(v.as_bytes())
    }

    /// Appends a character as the byte string of its UTF-8 form.
    pub fn write_char(&mut self, v: char) -> (r: Result<(), SerializeError>)
        ensures
            match r {
                Ok(()) => {
                    &&& old(self).form_counted(encode_utf8(seq![v])) is Some
                    &&& old(self).appended(
                        *final(self),
                        old(self).form_counted(encode_utf8(seq![v]))->0,
                    )
                },
                Err(e) => {
                    &&& e is TooLong
                    &&& old(self).form_counted(encode_utf8(seq![v])) is None
                    &&& old(self).appended(*final(self), Seq::empty())
                },
            },
    {
        let text = char_to_string(v);
        self.write_str(text.as_str())
    }

    /// Appends the tag of an absent optional value: the byte `00`.
    pub fn write_none(&mut self)
        ensures
            old(self).appended(*final(self), seq![0u8]),
    {
        let ghost before = self.data@;
        self.data.push(0u8);
        assert(self.data@ =~= before + seq![0u8]);
    }

    /// Appends the tag of a present optional value: the byte `01`. The
    /// value follows.
    pub fn write_some(&mut self)
        ensures
            old(self).appended(*final(self), seq![1u8]),
    {
        let ghost before = self.data@;
        self.data.push(1u8);
        assert(self.data@ =~= before + seq![1u8]);
    }

    /// Appends a variant index as one byte. Fails with `TooLong`, and
    /// appends nothing, exactly when the index is above 255.
    pub fn write_variant(&mut self, index: u32) -> (r: Result<(), SerializeError>)
        ensures
            match r {
                Ok(()) => index <= 0xff && old(self).appended(*final(self), seq![index as u8]),
                Err(e) => e is TooLong && index > 0xff && old(self).appended(
                    *final(self),
                    Seq::empty(),
                ),
            },
    {
        let ghost before = self.data@;
        if index > 0xff {
            assert(self.data@ + Seq::<u8>::empty() =~= self.data@);
            Err(SerializeError::TooLong)
        } else {
            self.data.push(index as u8);
            assert(self.data@ =~= before + seq![index as u8]);
            Ok(())
        }
    }

    /// Appends the wire form of `value`. Fails with `TooLong` exactly when a
    /// length, a count or a variant index in `value` does not fit its
    /// field; what has been appended by then is not taken back.
    pub fn encode(&mut self, value: &Value) -> (r: Result<(), SerializeError>)
        ensures
            final(self).endianess == old(self).endianess,
            final(self).length_width == old(self).length_width,
            match r {
                Ok(()) => {
                    &&& addressable(value@)
                    &&& old(self).form(value@) is Some
                    &&& final(self).data@ == old(self).data@ + old(self).form(value@)->0
                },
                Err(e) => {
                    &&& e is TooLong
                    &&& old(self).form(value@) is None
                },
            },
        decreases value, 0nat,
    {
        let ghost before = self.data@;
        match value {
            Value::Bool(v) => {
                self.write_bool(*v);
                Ok(())
            },
            Value::U8(v) => {
                self.write_u8(*v);
                Ok(())
            },
            Value::U16(v) => {
                self.write_u16(*v);
                Ok(())
            },
            Value::U32(v) => {
                self.write_u32(*v);
                Ok(())
            },
            Value::U64(v) => {
                self.write_u64(*v);
                Ok(())
            },
            Value::U128(v) => {
                self.write_u128(*v);
                Ok(())
            },
            Value::I8(v) => {
                self.write_i8(*v);
                Ok(())
            },
            Value::I16(v) => {
                self.write_i16(*v);
                Ok(())
            },
            Value::I32(v) => {
                self.write_i32(*v);
                Ok(())
            },
            Value::I64(v) => {
                self.write_i64(*v);
                Ok(())
            },
            Value::I128(v) => {
                self.write_i128(*v);
                Ok(())
            },
            Value::F32(bits) => {
                self.write_f32(*bits);
                Ok(())
            },
            Value::F64(bits) => {
                self.write_f64(*bits);
                Ok(())
            },
            Value::Char(c) => self.write_char(*c),
            Value::Str(text) => self.write_str(text),
            Value::String(text) => self.write_str(text.as_str()),
            Value::Bytes(bytes) => self.write_bytes(bytes),
            Value::ByteBuf(bytes) => self.write_bytes(bytes.as_slice()),
            Value::Optional(inner) => self.encode_optional(inner),
            Value::Unit => {
                assert(self.data@ =~= before + Seq::<u8>::empty());
                Ok(())
            },
            Value::Newtype(inner) => self.encode(inner),
            Value::Tuple(items) => {
                proof {
                    lemma_view_all(items@);
                }
                self.encode_all(items)
            },
            Value::Sequence(items) => self.encode_sequence(items),
            Value::Mapping(entries) => self.encode_mapping(entries),
            Value::Variant(index, payload) => self.encode_variant(*index, payload),
        }
    }

    /// Appends an optional value: the tag `00` alone, or the tag `01` and
    /// the value.
    pub fn encode_optional(&mut self, value: &Option<Box<Value>>) -> (r: Result<
        (),
        SerializeError,
    >)
        ensures
            final(self).endianess == old(self).endianess,
            final(self).length_width == old(self).length_width,
            match r {
                Ok(()) => {
                    &&& addressable(Value::Optional(*value)@)
                    &&& old(self).form(Value::Optional(*value)@) is Some
                    &&& final(self).data@ == old(self).data@ + old(self).form(Value::Optional(*value)@)->0
                },
                Err(e) => {
                    &&& e is TooLong
                    &&& old(self).form(Value::Optional(*value)@) is None
                },
            },
        decreases value, 0nat,
    {
        let ghost before = self.data@;
        match value {
            None => {
                self.write_none();
                Ok(())
            },
            Some(inner) => {
                self.write_some();
                match self.encode(inner) {
                    Err(e) => Err(e),
                    Ok(()) => {
                        assert(self.data@ =~= before + (seq![1u8] + encoded(
                            self.endianess,
                            self.length_width,
                            inner@,
                        )->0));
                        Ok(())
                    },
                }
            },
        }
    }

    /// Appends a sequence: the number of its elements as a length prefix,
    /// then the elements.
    pub fn encode_sequence(&mut self, items: &Vec<Value>) -> (r: Result<(), SerializeError>)
        ensures
            final(self).endianess == old(self).endianess,
            final(self).length_width == old(self).length_width,
            match r {
                Ok(()) => {
                    &&& addressable(Datum::Sequence(view_all(items@)))
                    &&& old(self).form(Datum::Sequence(view_all(items@))) is Some
                    &&& final(self).data@ == old(self).data@ + old(self).form(Datum::Sequence(view_all(items@)))->0
                },
                Err(e) => {
                    &&& e is TooLong
                    &&& old(self).form(Datum::Sequence(view_all(items@))) is None
                },
            },
        decreases items, 1nat,
    {
        let ghost before = self.data@;
        proof {
            lemma_view_all(items@);
        }
        match self.write_len(items.len()) {
            Err(e) => Err(e),
            Ok(()) => match self.encode_all(items) {
                Err(e) => Err(e),
                Ok(()) => {
                    assert(self.data@ =~= before + (length_prefix(
                        self.endianess,
                        self.length_width,
                        items@.len(),
                    )->0 + encoded_all(self.endianess, self.length_width, view_all(items@))->0));
                    Ok(())
                },
            },
        }
    }

    /// Appends a map: the number of its entries as a length prefix, then
    /// each key followed by its value.
    pub fn encode_mapping(&mut self, entries: &Vec<(Value, Value)>) -> (r: Result<
        (),
        SerializeError,
    >)
        ensures
            final(self).endianess == old(self).endianess,
            final(self).length_width == old(self).length_width,
            match r {
                Ok(()) => {
                    &&& addressable(Datum::Mapping(view_pairs(entries@)))
                    &&& old(self).form(Datum::Mapping(view_pairs(entries@))) is Some
                    &&& final(self).data@ == old(self).data@ + old(self).form(Datum::Mapping(view_pairs(entries@)))->0
                },
                Err(e) => {
                    &&& e is TooLong
                    &&& old(self).form(Datum::Mapping(view_pairs(entries@))) is None
                },
            },
        decreases entries, 1nat,
    {
        let ghost before = self.data@;
        proof {
            lemma_view_pairs(entries@);
        }
        match self.write_len(entries.len()) {
            Err(e) => Err(e),
            Ok(()) => match self.encode_pairs(entries) {
                Err(e) => Err(e),
                Ok(()) => {
                    assert(self.data@ =~= before + (length_prefix(
                        self.endianess,
                        self.length_width,
                        entries@.len(),
                    )->0 + encoded_pairs(
                        self.endianess,
                        self.length_width,
                        view_pairs(entries@),
                    )->0));
                    Ok(())
                },
            },
        }
    }

    /// Appends one arm of a sum type: its index as one byte, then its
    /// payload.
    pub fn encode_variant(&mut self, index: u32, payload: &Value) -> (r: Result<
        (),
        SerializeError,
    >)
        ensures
            final(self).endianess == old(self).endianess,
            final(self).length_width == old(self).length_width,
            match r {
                Ok(()) => {
                    &&& addressable(payload@)
                    &&& old(self).form(Datum::Variant(index, Box::new(payload@))) is Some
                    &&& final(self).data@ == old(self).data@ + old(self).form(Datum::Variant(index, Box::new(payload@)))->0
                },
                Err(e) => {
                    &&& e is TooLong
                    &&& old(self).form(Datum::Variant(index, Box::new(payload@))) is None
                },
            },
        decreases payload, 1nat,
    {
        let ghost before = self.data@;
        match self.write_variant(index) {
            Err(e) => Err(e),
            Ok(()) => match self.encode(payload) {
                Err(e) => Err(e),
                Ok(()) => {
                    assert(self.data@ =~= before + (seq![index as u8] + encoded(
                        self.endianess,
                        self.length_width,
                        payload@,
                    )->0));
                    Ok(())
                },
            },
        }
    }

    /// Appends the wire forms of `items`, one after the other.
    pub fn encode_all(&mut self, items: &Vec<Value>) -> (r: Result<(), SerializeError>)
        ensures
            final(self).endianess == old(self).endianess,
            final(self).length_width == old(self).length_width,
            match r {
                Ok(()) => {
                    &&& forall|j: int|
                        0 <= j < items@.len() ==> addressable(#[trigger] view_all(items@)[j])
                    &&& old(self).form_all(view_all(items@)) is Some
                    &&& final(self).data@ == old(self).data@ + old(self).form_all(view_all(items@))->0
                },
                Err(e) => {
                    &&& e is TooLong
                    &&& old(self).form_all(view_all(items@)) is None
                },
            },
        decreases items, 0nat,
    {
        let ghost before = self.data@;
        let ghost all = view_all(items@);
        let ghost endianess = self.endianess;
        let ghost width = self.length_width;
        let ghost done = Seq::<u8>::empty();
        proof {
            lemma_view_all(items@);
            assert(all.subrange(0, all.len() as int) =~= all);
            assert(before + done =~= before);
        }
        let mut i: usize = 0;
        while i < items.len()
            invariant
                i <= items.len(),
                all == view_all(items@),
                all.len() == items@.len(),
                forall|j: int| 0 <= j < items@.len() ==> (#[trigger] all[j]) == items@[j].datum(),
                self.endianess == endianess,
                self.length_width == width,
                endianess == old(self).endianess,
                width == old(self).length_width,
                before == old(self).data@,
                self.data@ == before + done,
                forall|j: int| 0 <= j < i ==> addressable(#[trigger] all[j]),
                encoded_all(endianess, width, all) == joined(
                    Some(done),
                    encoded_all(endianess, width, all.subrange(i as int, all.len() as int)),
                ),
            decreases items.len() - i,
        {
            proof {
                lemma_encoded_all_step(endianess, width, all, i as int);
            }
            match self.encode(&items[i]) {
                Err(e) => {
                    return Err(e);
                },
                Ok(()) => {
                    proof {
                        let piece = encoded(endianess, width, all[i as int])->0;
                        let tail = encoded_all(
                            endianess,
                            width,
                            all.subrange(i + 1, all.len() as int),
                        );
                        assert(self.data@ =~= before + (done + piece));
                        if tail is Some {
                            assert(done + (piece + tail->0) =~= (done + piece) + tail->0);
                        }
                        done = done + piece;
                    }
                },
            }
            i = i + 1;
        }
        proof {
            assert(all.subrange(i as int, all.len() as int) =~= Seq::<Datum>::empty());
            assert(done + Seq::<u8>::empty() =~= done);
        }
        Ok(())
    }

    /// Appends the wire forms of `entries`, each key followed by its value.
    pub fn encode_pairs(&mut self, entries: &Vec<(Value, Value)>) -> (r: Result<
        (),
        SerializeError,
    >)
        ensures
            final(self).endianess == old(self).endianess,
            final(self).length_width == old(self).length_width,
            match r {
                Ok(()) => {
                    &&& forall|j: int|
                        0 <= j < entries@.len() ==> addressable(
                            (#[trigger] view_pairs(entries@)[j]).0,
                        ) && addressable(view_pairs(entries@)[j].1)
                    &&& old(self).form_pairs(view_pairs(entries@)) is Some
                    &&& final(self).data@ == old(self).data@ + old(self).form_pairs(view_pairs(entries@))->0
                },
                Err(e) => {
                    &&& e is TooLong
                    &&& old(self).form_pairs(view_pairs(entries@)) is None
                },
            },
        decreases entries, 0nat,
    {
        let ghost before = self.data@;
        let ghost all = view_pairs(entries@);
        let ghost endianess = self.endianess;
        let ghost width = self.length_width;
        let ghost done = Seq::<u8>::empty();
        proof {
            lemma_view_pairs(entries@);
            assert(all.subrange(0, all.len() as int) =~= all);
            assert(before + done =~= before);
        }
        let mut i: usize = 0;
        while i < entries.len()
            invariant
                i <= entries.len(),
                all == view_pairs(entries@),
                all.len() == entries@.len(),
                forall|j: int|
                    0 <= j < entries@.len() ==> (#[trigger] all[j]) == (
                        entries@[j].0.datum(),
                        entries@[j].1.datum(),
                    ),
                self.endianess == endianess,
                self.length_width == width,
                endianess == old(self).endianess,
                width == old(self).length_width,
                before == old(self).data@,
                self.data@ == before + done,
                forall|j: int|
                    0 <= j < i ==> addressable((#[trigger] all[j]).0) && addressable(all[j].1),
                encoded_pairs(endianess, width, all) == joined(
                    Some(done),
                    encoded_pairs(endianess, width, all.subrange(i as int, all.len() as int)),
                ),
            decreases entries.len() - i,
        {
            proof {
                lemma_encoded_pairs_step(endianess, width, all, i as int);
            }
            let entry = &entries[i];
            match self.encode(&entry.0) {
                Err(e) => {
                    return Err(e);
                },
                Ok(()) => {},
            }
            match self.encode(&entry.1) {
                Err(e) => {
                    return Err(e);
                },
                Ok(()) => {},
            }
            proof {
                let key = encoded(endianess, width, all[i as int].0)->0;
                let value = encoded(endianess, width, all[i as int].1)->0;
                let tail = encoded_pairs(endianess, width, all.subrange(i + 1, all.len() as int));
                assert(self.data@ =~= before + (done + (key + value)));
                if tail is Some {
                    assert(done + ((key + value) + tail->0) =~= (done + (key + value)) + tail->0);
                }
                done = done + (key + value);
            }
            i = i + 1;
        }
        proof {
            assert(all.subrange(i as int, all.len() as int) =~= Seq::<(Datum, Datum)>::empty());
            assert(done + Seq::<u8>::empty() =~= done);
        }
        Ok(())
    }

    /// Overwrites the two bytes at `at` with `value` in the configured
    /// order.
    pub fn patch_u16(&mut self, at: usize, value: u16)
        requires
            at + 2 <= old(self).data@.len(),
        ensures
            final(self).endianess == old(self).endianess,
            final(self).length_width == old(self).length_width,
            final(self).data@ == old(self).data@.subrange(0, at as int) + uint_bytes(
                old(self).endianess,
                value as nat,
                2,
            ) + old(self).data@.subrange(at + 2, old(self).data@.len() as int),
    {
        let ghost before = self.data@;
        let len = self.data.len();
        let mut field = Encoder::new(self.endianess, self.length_width);
        field.write_u16(value);
        proof {
            lemma_uint_bytes_len(self.endianess, value as nat, 2);
            assert(field.data@ =~= uint_bytes(self.endianess, value as nat, 2));
        }
        self.data.set(at, field.data[0]);
        self.data.set(at + 1, field.data[1]);
        assert(self.data@ =~= before.subrange(0, at as int) + field.data@ + before.subrange(
            at + 2,
            before.len() as int,
        ));
    }
}

} // verus!
