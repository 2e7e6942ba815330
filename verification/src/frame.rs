//! The frame layer: sentinel, length field, body and checksum around an
//! encoded value, and the operations of the codec on whole packets.

use crate::config::AglioConfig;
use crate::decoder::Decoder;
use crate::encoder::Encoder;
use crate::error::{DeserializeError, Fault, SerializeError};
use crate::format::{addressable, checked, deserialized, encoded, packet, serialized, unpacked};
use crate::value::{Datum, Kind, Value};
use crate::wire::{lemma_limit_values, lemma_uint_bytes_len, lemma_value_bound, uint_bytes};
use vstd::prelude::*;

verus! {

/// What a decode call returned, as the format speaks of it: the model of
/// the value, or the fault without its detail.
pub open spec fn outcome<'a>(r: Result<Value<'a>, DeserializeError>) -> Result<Datum, Fault> {
    match r {
        Ok(value) => Ok(value@),
        Err(e) => Err(e.fault()),
    }
}

/// Whether `data` opens with `prefix`.
pub fn starts_with(data: &[u8], prefix: &[u8]) -> (r: bool)
    ensures
        r == prefix@.is_prefix_of(data@),
{
    if data.len() < prefix.len() {
        return false;
    }
    let mut i: usize = 0;
    while i < prefix.len()
        invariant
            i <= prefix.len(),
            prefix.len() <= data.len(),
            forall|j: int| 0 <= j < i ==> prefix@[j] == data@[j],
        decreases prefix.len() - i,
    {
        if data[i] != prefix[i] {
            assert(data@.subrange(0, prefix@.len() as int)[i as int] != prefix@[i as int]);
            return false;
        }
        i = i + 1;
    }
    assert(prefix@ =~= data@.subrange(0, prefix@.len() as int));
    true
}

/// Encodes `value` into a packet under the default configuration: little
/// endian, sentinel `AA 55`, 32-bit length prefixes, CRC-16/USB.
pub fn serialize(value: &Value) -> (r: Result<Vec<u8>, SerializeError>)
    ensures
        match r {
            Ok(bytes) => serialized(AglioConfig::spec_default(), value@) == Some(bytes@)
                && addressable(value@),
            Err(e) => e is TooLong && serialized(AglioConfig::spec_default(), value@) is None,
        },
{
    serialize_with_config(AglioConfig::default(), value)
}

/// Encodes `value` into a packet: the sentinel, the length field, the
/// encoded value and, where one is configured, the checksum over all that
/// precedes it. Fails with `TooLong` exactly when a length, a count or a
/// variant index in `value` does not fit its field, or the body with the
/// length field is longer than 65535 bytes.
pub fn serialize_with_config(config: AglioConfig, value: &Value) -> (r: Result<
    Vec<u8>,
    SerializeError,
>)
    ensures
        match r {
            Ok(bytes) => serialized(config@, value@) == Some(bytes@) && addressable(value@),
            Err(e) => e is TooLong && serialized(config@, value@) is None,
        },
{
    let mut encoder = Encoder::new(config.endianess, config.length_width);
    encoder.write_raw(config.packet_start.as_slice());
    encoder.write_u16(0);
    let start = config.packet_start.len();
    proof {
        lemma_uint_bytes_len(config.endianess, 0, 2);
    }
    match encoder.encode(value) {
        Err(e) => {
            return Err(e);
        },
        Ok(()) => {},
    }
    let ghost body = encoded(config.endianess, config.length_width, value@)->0;
    let size = encoder.data.len() - start;
    if size > 0xffff {
        return Err(SerializeError::TooLong);
    }
    encoder.patch_u16(start, size as u16);
    let ghost covered = config@.packet_start + uint_bytes(config.endianess, size as nat, 2) + body;
    proof {
        lemma_uint_bytes_len(config.endianess, size as nat, 2);
        assert(encoder.data@ =~= covered);
    }
    match config.body_crc {
        Some(algorithm) => {
            let sum = algorithm.checksum(encoder.data.as_slice());
            encoder.write_u16(sum);
        },
        None => {
            assert(encoder.data@ =~= covered + Seq::<u8>::empty());
        },
    }
    Ok(encoder.data)
}

/// Decodes the packet `data` into a value of kind `kind` under the default
/// configuration.
pub fn deserialize<'de>(kind: &Kind, data: &'de [u8]) -> (r: Result<Value<'de>, DeserializeError>)
    ensures
        outcome(r) == deserialized(AglioConfig::spec_default(), kind@, data@),
        r matches Ok(value) ==> value.held_as(kind@),
{
    deserialize_with_config(AglioConfig::default(), kind, data)
}

/// Frames an encoded body into a packet: the sentinel, the length field,
/// the body and, where one is configured, the checksum over all that
/// precedes it. Fails with `TooLong` exactly when the body with the length
/// field is longer than 65535 bytes.
pub fn pack(config: &AglioConfig, body: &[u8]) -> (r: Result<Vec<u8>, SerializeError>)
    ensures
        match r {
            Ok(bytes) => packet(config@, body@) == Some(bytes@),
            Err(e) => e is TooLong && packet(config@, body@) is None,
        },
{
    if body.len() > 0xffff - 2 {
        return Err(SerializeError::TooLong);
    }
    let size = (body.len() + 2) as u16;
    let mut encoder = Encoder::new(config.endianess, config.length_width);
    encoder.write_raw(config.packet_start.as_slice());
    encoder.write_u16(size);
    encoder.write_raw(body);
    let ghost covered = config@.packet_start + uint_bytes(config.endianess, size as nat, 2)
        + body@;
    proof {
        assert(encoder.data@ =~= covered);
    }
    match config.body_crc {
        Some(algorithm) => {
            let sum = algorithm.checksum(encoder.data.as_slice());
            encoder.write_u16(sum);
        },
        None => {
            assert(encoder.data@ =~= covered + Seq::<u8>::empty());
        },
    }
    Ok(encoder.data)
}

/// Takes the frame off a packet and hands out its body, a borrow of
/// `data`. In this order: the checksum, where one is configured, is taken
/// off the end and checked (`InvalidLength` under two bytes,
/// `ChecksumError` on a mismatch); the sentinel is taken off the front
/// (`InvalidPacketStart`); the length field is read (`InvalidLength`) and
/// compared with what follows it (`InvalidData`).
pub fn unpack<'de>(config: &AglioConfig, data: &'de [u8]) -> (r: Result<
    &'de [u8],
    DeserializeError,
>)
    ensures
        match r {
            Ok(body) => unpacked(config@, data@) == Ok::<Seq<u8>, Fault>(body@),
            Err(e) => unpacked(config@, data@) == Err::<Seq<u8>, Fault>(e.fault()),
        },
{
    let covered = match config.body_crc {
        None => data,
        Some(algorithm) => {
            if data.len() < 2 {
                return Err(DeserializeError::InvalidLength);
            }
            let (covered, field) = data.split_at(data.len() - 2);
            let mut reader = Decoder::new(config.endianess, config.length_width, field);
            let stored = match reader.read_u16() {
                Err(e) => {
                    return Err(e);
                },
                Ok(stored) => stored,
            };
            proof {
                assert(field@.subrange(0, 2) =~= field@);
                lemma_limit_values();
                lemma_value_bound(config.endianess, field@);
            }
            let sum = algorithm.checksum(covered);
            if sum != stored {
                return Err(DeserializeError::ChecksumError);
            }
            covered
        },
    };
    assert(checked(config@, data@) == Ok::<Seq<u8>, Fault>(covered@));
    if !starts_with(covered, config.packet_start.as_slice()) {
        return Err(DeserializeError::InvalidPacketStart);
    }
    let (_, framed) = covered.split_at(config.packet_start.len());
    let total = framed.len();
    let mut decoder = Decoder::new(config.endianess, config.length_width, framed);
    let size = match decoder.read_u16() {
        Err(e) => {
            return Err(e);
        },
        Ok(size) => size,
    };
    proof {
        lemma_limit_values();
        lemma_value_bound(config.endianess, framed@.subrange(0, 2));
    }
    if size as usize != total {
        return Err(DeserializeError::InvalidData);
    }
    Ok(decoder.data)
}

/// Decodes the packet `data` into a value of kind `kind`: takes the frame
/// off as `unpack` does, with its faults, and decodes the value from the
/// body, with the faults of the format. Bytes of the body after the value
/// are not looked at. Texts and byte strings of the borrowing kinds are
/// borrows of `data`, those of the owning kinds are copies.
pub fn deserialize_with_config<'de>(config: AglioConfig, kind: &Kind, data: &'de [u8]) -> (r:
    Result<Value<'de>, DeserializeError>)
    ensures
        outcome(r) == deserialized(config@, kind@, data@),
        r matches Ok(value) ==> value.held_as(kind@),
{
    let body = match unpack(&config, data) {
        Err(e) => {
            return Err(e);
        },
        Ok(body) => body,
    };
    let mut decoder = Decoder::new(config.endianess, config.length_width, body);
    decoder.decode(kind)
}

} // verus!
