//! The wire format of a value, stated as mathematics: which bytes a value
//! encodes to and which value a run of bytes decodes to under a kind.

use crate::bindings::crc16;
use crate::config::{ConfigView, Endianess, LengthWidth};
use crate::error::Fault;
use crate::value::{Datum, Shape};
use crate::wire::{twos, uint_bytes, uint_value, untwos};
use vstd::prelude::*;
use vstd::utf8::{decode_utf8, encode_utf8, valid_utf8};

verus! {

/// The length prefix for `count` elements, or `None` where `count` does not
/// fit the width.
pub open spec fn length_prefix(endianess: Endianess, width: LengthWidth, count: nat) -> Option<
    Seq<u8>,
> {
    if count > width.spec_max() {
        None
    } else {
        Some(uint_bytes(endianess, count, width.spec_bytes()))
    }
}

/// A length prefix that counts the bytes of `body`, then `body`.
pub open spec fn counted(endianess: Endianess, width: LengthWidth, body: Seq<u8>) -> Option<
    Seq<u8>,
> {
    match length_prefix(endianess, width, body.len()) {
        Some(prefix) => Some(prefix + body),
        None => None,
    }
}

/// `head` followed by `tail`, where both exist.
pub open spec fn joined(head: Option<Seq<u8>>, tail: Option<Seq<u8>>) -> Option<Seq<u8>> {
    match (head, tail) {
        (Some(a), Some(b)) => Some(a + b),
        _ => None,
    }
}

/// The bytes that `datum` encodes to, or `None` where a length, a count or
/// a variant index in it does not fit its field.
pub open spec fn encoded(endianess: Endianess, width: LengthWidth, datum: Datum) -> Option<
    Seq<u8>,
>
    decreases datum,
{
    match datum {
        Datum::Bool(b) => Some(seq![if b { 1u8 } else { 0u8 }]),
        Datum::U8(x) => Some(uint_bytes(endianess, x as nat, 1)),
        Datum::U16(x) => Some(uint_bytes(endianess, x as nat, 2)),
        Datum::U32(x) => Some(uint_bytes(endianess, x as nat, 4)),
        Datum::U64(x) => Some(uint_bytes(endianess, x as nat, 8)),
        Datum::U128(x) => Some(uint_bytes(endianess, x as nat, 16)),
        Datum::I8(x) => Some(uint_bytes(endianess, twos(x as int, 1), 1)),
        Datum::I16(x) => Some(uint_bytes(endianess, twos(x as int, 2), 2)),
        Datum::I32(x) => Some(uint_bytes(endianess, twos(x as int, 4), 4)),
        Datum::I64(x) => Some(uint_bytes(endianess, twos(x as int, 8), 8)),
        Datum::I128(x) => Some(uint_bytes(endianess, twos(x as int, 16), 16)),
        Datum::F32(bits) => Some(uint_bytes(endianess, bits as nat, 4)),
        Datum::F64(bits) => Some(uint_bytes(endianess, bits as nat, 8)),
        Datum::Char(c) => counted(endianess, width, encode_utf8(seq![c])),
        Datum::Text(chars) => counted(endianess, width, encode_utf8(chars)),
        Datum::Blob(bytes) => counted(endianess, width, bytes),
        Datum::Optional(None) => Some(seq![0u8]),
        Datum::Optional(Some(inner)) => joined(Some(seq![1u8]), encoded(endianess, width, *inner)),
        Datum::Unit => Some(Seq::empty()),
        Datum::Newtype(inner) => encoded(endianess, width, *inner),
        Datum::Tuple(items) => encoded_all(endianess, width, items),
        Datum::Sequence(items) => joined(
            length_prefix(endianess, width, items.len()),
            encoded_all(endianess, width, items),
        ),
        Datum::Mapping(entries) => joined(
            length_prefix(endianess, width, entries.len()),
            encoded_pairs(endianess, width, entries),
        ),
        Datum::Variant(index, payload) => if index > 0xff {
            None
        } else {
            joined(Some(seq![index as u8]), encoded(endianess, width, *payload))
        },
    }
}

/// The encodings of `items`, one after the other.
pub open spec fn encoded_all(endianess: Endianess, width: LengthWidth, items: Seq<Datum>) -> Option<
    Seq<u8>,
>
    decreases items,
{
    if items.len() == 0 {
        Some(Seq::empty())
    } else {
        joined(
            encoded(endianess, width, items[0]),
            encoded_all(endianess, width, items.drop_first()),
        )
    }
}

/// The encodings of `entries`, each key followed by its value.
pub open spec fn encoded_pairs(
    endianess: Endianess,
    width: LengthWidth,
    entries: Seq<(Datum, Datum)>,
) -> Option<Seq<u8>>
    decreases entries,
{
    if entries.len() == 0 {
        Some(Seq::empty())
    } else {
        joined(
            joined(
                encoded(endianess, width, entries[0].0),
                encoded(endianess, width, entries[0].1),
            ),
            encoded_pairs(endianess, width, entries.drop_first()),
        )
    }
}

/// The number that the first `width` bytes of `input` spell, and the bytes
/// after them.
pub open spec fn take_uint(endianess: Endianess, width: nat, input: Seq<u8>) -> Decoded<nat> {
    if input.len() < width {
        Err((Fault::InvalidLength, input))
    } else {
        Ok(
            (
                uint_value(endianess, input.subrange(0, width as int)),
                input.subrange(width as int, input.len() as int),
            ),
        )
    }
}

/// The count that a length prefix at the start of `input` gives, and the
/// bytes after the prefix.
pub open spec fn take_len(endianess: Endianess, width: LengthWidth, input: Seq<u8>) -> Decoded<
    nat,
> {
    match take_uint(endianess, width.spec_bytes(), input) {
        Err(failure) => Err(failure),
        Ok((count, rest)) => if count > usize::MAX {
            Err((Fault::InvalidSize, rest))
        } else {
            Ok((count, rest))
        },
    }
}

/// The bytes that a length prefix at the start of `input` counts, and the
/// bytes after them.
pub open spec fn take_counted(endianess: Endianess, width: LengthWidth, input: Seq<u8>) -> Decoded<
    Seq<u8>,
> {
    match take_len(endianess, width, input) {
        Err(failure) => Err(failure),
        Ok((count, rest)) => if rest.len() < count {
            Err((Fault::InvalidLength, rest))
        } else {
            Ok((rest.subrange(0, count as int), rest.subrange(count as int, rest.len() as int)))
        },
    }
}

/// An unsigned integer of `width` bytes at the start of `input`.
pub open spec fn decoded_uint(endianess: Endianess, kind: Shape, input: Seq<u8>) -> Decoded<
    Datum,
> {
    match take_uint(endianess, kind.spec_width(), input) {
        Err(failure) => Err(failure),
        Ok((n, rest)) => Ok((kind.spec_number(n), rest)),
    }
}

impl Shape {
    /// Number of bytes of a fixed-width numeric kind; zero for the others.
    pub open spec fn spec_width(self) -> nat {
        match self {
            Shape::U8 | Shape::I8 => 1,
            Shape::U16 | Shape::I16 => 2,
            Shape::U32 | Shape::I32 | Shape::F32 => 4,
            Shape::U64 | Shape::I64 | Shape::F64 => 8,
            Shape::U128 | Shape::I128 => 16,
            _ => 0,
        }
    }

    /// The value of a numeric kind whose bytes spell `n`.
    pub open spec fn spec_number(self, n: nat) -> Datum {
        match self {
            Shape::U8 => Datum::U8(n as u8),
            Shape::U16 => Datum::U16(n as u16),
            Shape::U32 => Datum::U32(n as u32),
            Shape::U64 => Datum::U64(n as u64),
            Shape::U128 => Datum::U128(n as u128),
            Shape::I8 => Datum::I8(untwos(n, 1) as i8),
            Shape::I16 => Datum::I16(untwos(n, 2) as i16),
            Shape::I32 => Datum::I32(untwos(n, 4) as i32),
            Shape::I64 => Datum::I64(untwos(n, 8) as i64),
            Shape::I128 => Datum::I128(untwos(n, 16) as i128),
            Shape::F32 => Datum::F32(n as u32),
            Shape::F64 => Datum::F64(n as u64),
            _ => Datum::Unit,
        }
    }
}

/// What decoding one thing gave: it and the bytes after it, or the fault
/// and the bytes from where decoding stopped.
pub type Decoded<T> = Result<(T, Seq<u8>), (Fault, Seq<u8>)>;

/// `outcome` is the fault `fault`, wherever decoding stopped.
pub open spec fn fails_with<T>(outcome: Decoded<T>, fault: Fault) -> bool {
    outcome matches Err(failure) && failure.0 == fault
}

/// `outcome` is the fault `fault` with `rest` not consumed.
pub open spec fn stops<T>(outcome: Decoded<T>, fault: Fault, rest: Seq<u8>) -> bool {
    outcome == Err::<(T, Seq<u8>), (Fault, Seq<u8>)>((fault, rest))
}

/// `outcome` is `value` with `rest` left over.
pub open spec fn gives<T>(outcome: Decoded<T>, value: T, rest: Seq<u8>) -> bool {
    outcome == Ok::<(T, Seq<u8>), (Fault, Seq<u8>)>((value, rest))
}

/// `items` put in front of what `tail` gave.
pub open spec fn after<T>(items: Seq<T>, tail: Decoded<Seq<T>>) -> Decoded<Seq<T>> {
    match tail {
        Ok((more, rest)) => Ok((items + more, rest)),
        Err(failure) => Err(failure),
    }
}

/// The value of kind `kind` at the start of `input` and the bytes after it,
/// or the fault that decoding stops with and the bytes from where it stops.
/// Decoding stops where the fault is found; a truth value, the tag of an
/// optional value or a variant index that is wrong has been consumed by
/// then.
pub open spec fn decoded(
    endianess: Endianess,
    width: LengthWidth,
    kind: Shape,
    input: Seq<u8>,
) -> Decoded<Datum>
    decreases kind, 1nat, 0nat,
{
    match kind {
        Shape::Bool => if input.len() == 0 {
            Err((Fault::InvalidLength, input))
        } else if input[0] == 0 {
            Ok((Datum::Bool(false), input.drop_first()))
        } else if input[0] == 1 {
            Ok((Datum::Bool(true), input.drop_first()))
        } else {
            Err((Fault::InvalidData, input.drop_first()))
        },
        Shape::U8 | Shape::U16 | Shape::U32 | Shape::U64 | Shape::U128 | Shape::I8 | Shape::I16
        | Shape::I32 | Shape::I64 | Shape::I128 | Shape::F32 | Shape::F64 => decoded_uint(
            endianess,
            kind,
            input,
        ),
        Shape::Char => match take_counted(endianess, width, input) {
            Err(failure) => Err(failure),
            Ok((bytes, rest)) => if !valid_utf8(bytes) {
                Err((Fault::InvalidUtf8, rest))
            } else if decode_utf8(bytes).len() == 0 {
                Err((Fault::InvalidLength, rest))
            } else {
                Ok((Datum::Char(decode_utf8(bytes)[0]), rest))
            },
        },
        Shape::Str | Shape::String => match take_counted(endianess, width, input) {
            Err(failure) => Err(failure),
            Ok((bytes, rest)) => if !valid_utf8(bytes) {
                Err((Fault::InvalidUtf8, rest))
            } else {
                Ok((Datum::Text(decode_utf8(bytes)), rest))
            },
        },
        Shape::Bytes | Shape::ByteBuf => match take_counted(endianess, width, input) {
            Err(failure) => Err(failure),
            Ok((bytes, rest)) => Ok((Datum::Blob(bytes), rest)),
        },
        Shape::Optional(inner) => if input.len() == 0 {
            Err((Fault::InvalidLength, input))
        } else if input[0] == 0 {
            Ok((Datum::Optional(None), input.drop_first()))
        } else if input[0] == 1 {
            match decoded(endianess, width, *inner, input.drop_first()) {
                Err(failure) => Err(failure),
                Ok((datum, rest)) => Ok((Datum::Optional(Some(Box::new(datum))), rest)),
            }
        } else {
            Err((Fault::InvalidData, input.drop_first()))
        },
        Shape::Unit => Ok((Datum::Unit, input)),
        Shape::Newtype(inner) => match decoded(endianess, width, *inner, input) {
            Err(failure) => Err(failure),
            Ok((datum, rest)) => Ok((Datum::Newtype(Box::new(datum)), rest)),
        },
        Shape::Tuple(kinds) => match decoded_all(endianess, width, kinds, input) {
            Err(failure) => Err(failure),
            Ok((items, rest)) => Ok((Datum::Tuple(items), rest)),
        },
        Shape::Sequence(inner) => match take_len(endianess, width, input) {
            Err(failure) => Err(failure),
            Ok((count, body)) => match decoded_repeat(endianess, width, *inner, count, body) {
                Err(failure) => Err(failure),
                Ok((items, rest)) => Ok((Datum::Sequence(items), rest)),
            },
        },
        Shape::Mapping(key, value) => match take_len(endianess, width, input) {
            Err(failure) => Err(failure),
            Ok((count, body)) => match decoded_pairs(endianess, width, kind, count, body) {
                Err(failure) => Err(failure),
                Ok((entries, rest)) => Ok((Datum::Mapping(entries), rest)),
            },
        },
        Shape::Enum(variants) => if input.len() == 0 {
            Err((Fault::InvalidLength, input))
        } else if input[0] >= variants.len() {
            Err((Fault::InvalidData, input.drop_first()))
        } else {
            match decoded(endianess, width, variants[input[0] as int], input.drop_first()) {
                Err(failure) => Err(failure),
                Ok((payload, rest)) => Ok(
                    (Datum::Variant(input[0] as u32, Box::new(payload)), rest),
                ),
            }
        },
        Shape::Any | Shape::IgnoredAny => Err((Fault::NotDescriptive, input)),
    }
}

/// One value of each of `kinds`, in order.
pub open spec fn decoded_all(
    endianess: Endianess,
    width: LengthWidth,
    kinds: Seq<Shape>,
    input: Seq<u8>,
) -> Decoded<Seq<Datum>>
    decreases kinds, 0nat, 0nat,
{
    if kinds.len() == 0 {
        Ok((Seq::empty(), input))
    } else {
        match decoded(endianess, width, kinds[0], input) {
            Err(failure) => Err(failure),
            Ok((first, rest)) => after(
                seq![first],
                decoded_all(endianess, width, kinds.drop_first(), rest),
            ),
        }
    }
}

/// `count` values of kind `kind`, one after the other.
pub open spec fn decoded_repeat(
    endianess: Endianess,
    width: LengthWidth,
    kind: Shape,
    count: nat,
    input: Seq<u8>,
) -> Decoded<Seq<Datum>>
    decreases kind, 2nat, count,
{
    if count == 0 {
        Ok((Seq::empty(), input))
    } else {
        match decoded(endianess, width, kind, input) {
            Err(failure) => Err(failure),
            Ok((first, rest)) => after(
                seq![first],
                decoded_repeat(endianess, width, kind, (count - 1) as nat, rest),
            ),
        }
    }
}

/// `count` pairs of a key and a value, of the kinds that the mapping kind
/// `mapping` names.
pub open spec fn decoded_pairs(
    endianess: Endianess,
    width: LengthWidth,
    mapping: Shape,
    count: nat,
    input: Seq<u8>,
) -> Decoded<Seq<(Datum, Datum)>>
    decreases mapping, 0nat, count,
{
    match mapping {
        Shape::Mapping(key, value) => if count == 0 {
            Ok((Seq::empty(), input))
        } else {
            match decoded(endianess, width, *key, input) {
                Err(failure) => Err(failure),
                Ok((k, after_key)) => match decoded(endianess, width, *value, after_key) {
                    Err(failure) => Err(failure),
                    Ok((v, rest)) => after(
                        seq![(k, v)],
                        decoded_pairs(endianess, width, mapping, (count - 1) as nat, rest),
                    ),
                },
            }
        },
        _ => Ok((Seq::empty(), input)),
    }
}

/// The checksum field that follows `covered`: the 16-bit checksum in the
/// configured byte order, or nothing where no checksum is configured.
pub open spec fn checksum_field(config: ConfigView, covered: Seq<u8>) -> Seq<u8> {
    match config.body_crc {
        Some(algorithm) => uint_bytes(config.endianess, crc16(algorithm, covered) as nat, 2),
        None => Seq::empty(),
    }
}

/// The packet around `body`: sentinel, length field, body, checksum. The
/// length field counts itself and the body. `None` where that count does
/// not fit 16 bits.
pub open spec fn packet(config: ConfigView, body: Seq<u8>) -> Option<Seq<u8>> {
    if body.len() + 2 > 0xffff {
        None
    } else {
        let covered = config.packet_start + uint_bytes(
            config.endianess,
            (body.len() + 2) as nat,
            2,
        ) + body;
        Some(covered + checksum_field(config, covered))
    }
}

/// The packet that carries `datum`, or `None` where the value or the
/// packet is too long.
pub open spec fn serialized(config: ConfigView, datum: Datum) -> Option<Seq<u8>> {
    match encoded(config.endianess, config.length_width, datum) {
        None => None,
        Some(body) => packet(config, body),
    }
}

/// `input` without its checksum field, once the checksum has been found
/// right. Without a configured checksum, `input` itself.
pub open spec fn checked(config: ConfigView, input: Seq<u8>) -> Result<Seq<u8>, Fault> {
    match config.body_crc {
        None => Ok(input),
        Some(algorithm) => if input.len() < 2 {
            Err(Fault::InvalidLength)
        } else {
            let covered = input.subrange(0, input.len() - 2);
            let stored = uint_value(
                config.endianess,
                input.subrange(input.len() - 2, input.len() as int),
            );
            if crc16(algorithm, covered) != stored {
                Err(Fault::ChecksumError)
            } else {
                Ok(covered)
            }
        },
    }
}

/// The body of the packet `input`: what remains once checksum, sentinel and
/// length field have been checked and taken off, in this order.
pub open spec fn unpacked(config: ConfigView, input: Seq<u8>) -> Result<Seq<u8>, Fault> {
    match checked(config, input) {
        Err(fault) => Err(fault),
        Ok(covered) => if !config.packet_start.is_prefix_of(covered) {
            Err(Fault::InvalidPacketStart)
        } else {
            let framed = covered.subrange(config.packet_start.len() as int, covered.len() as int);
            match take_uint(config.endianess, 2, framed) {
                Err(failure) => Err(failure.0),
                Ok((size, body)) => if size != body.len() + 2 {
                    Err(Fault::InvalidData)
                } else {
                    Ok(body)
                },
            }
        },
    }
}

/// The value of kind `kind` that the packet `input` carries. Bytes of the
/// body after the value are not looked at.
pub open spec fn deserialized(config: ConfigView, kind: Shape, input: Seq<u8>) -> Result<
    Datum,
    Fault,
> {
    match unpacked(config, input) {
        Err(fault) => Err(fault),
        Ok(body) => match decoded(config.endianess, config.length_width, kind, body) {
            Err(failure) => Err(failure.0),
            Ok((datum, rest)) => Ok(datum),
        },
    }
}

/// Whether `datum` is a value of kind `kind`.
pub open spec fn conforms(datum: Datum, kind: Shape) -> bool
    decreases datum,
{
    match (datum, kind) {
        (Datum::Bool(_), Shape::Bool) => true,
        (Datum::U8(_), Shape::U8) => true,
        (Datum::U16(_), Shape::U16) => true,
        (Datum::U32(_), Shape::U32) => true,
        (Datum::U64(_), Shape::U64) => true,
        (Datum::U128(_), Shape::U128) => true,
        (Datum::I8(_), Shape::I8) => true,
        (Datum::I16(_), Shape::I16) => true,
        (Datum::I32(_), Shape::I32) => true,
        (Datum::I64(_), Shape::I64) => true,
        (Datum::I128(_), Shape::I128) => true,
        (Datum::F32(_), Shape::F32) => true,
        (Datum::F64(_), Shape::F64) => true,
        (Datum::Char(_), Shape::Char) => true,
        (Datum::Text(_), Shape::Str) => true,
        (Datum::Text(_), Shape::String) => true,
        (Datum::Blob(_), Shape::Bytes) => true,
        (Datum::Blob(_), Shape::ByteBuf) => true,
        (Datum::Optional(None), Shape::Optional(_)) => true,
        (Datum::Optional(Some(inner)), Shape::Optional(inner_kind)) => conforms(
            *inner,
            *inner_kind,
        ),
        (Datum::Unit, Shape::Unit) => true,
        (Datum::Newtype(inner), Shape::Newtype(inner_kind)) => conforms(*inner, *inner_kind),
        (Datum::Tuple(items), Shape::Tuple(kinds)) => {
            &&& items.len() == kinds.len()
            &&& forall|i: int| 0 <= i < items.len() ==> conforms(#[trigger] items[i], kinds[i])
        },
        (Datum::Sequence(items), Shape::Sequence(inner_kind)) => forall|i: int|
            0 <= i < items.len() ==> conforms(#[trigger] items[i], *inner_kind),
        (Datum::Mapping(entries), Shape::Mapping(key_kind, value_kind)) => forall|i: int|
            0 <= i < entries.len() ==> conforms((#[trigger] entries[i]).0, *key_kind) && conforms(
                entries[i].1,
                *value_kind,
            ),
        (Datum::Variant(index, payload), Shape::Enum(variants)) => {
            &&& index < variants.len()
            &&& conforms(*payload, variants[index as int])
        },
        _ => false,
    }
}

/// Whether this platform can address every text, byte string, sequence and
/// map in `datum`: none is longer than `usize::MAX`. Every value held in
/// memory is.
pub open spec fn addressable(datum: Datum) -> bool
    decreases datum,
{
    match datum {
        Datum::Text(chars) => encode_utf8(chars).len() <= usize::MAX,
        Datum::Blob(bytes) => bytes.len() <= usize::MAX,
        Datum::Optional(Some(inner)) => addressable(*inner),
        Datum::Newtype(inner) => addressable(*inner),
        Datum::Tuple(items) => forall|i: int|
            0 <= i < items.len() ==> addressable(#[trigger] items[i]),
        Datum::Sequence(items) => {
            &&& items.len() <= usize::MAX
            &&& forall|i: int| 0 <= i < items.len() ==> addressable(#[trigger] items[i])
        },
        Datum::Mapping(entries) => {
            &&& entries.len() <= usize::MAX
            &&& forall|i: int|
                0 <= i < entries.len() ==> addressable((#[trigger] entries[i]).0) && addressable(
                    entries[i].1,
                )
        },
        Datum::Variant(_, payload) => addressable(*payload),
        _ => true,
    }
}

/// Putting `a` in front of what comes after `b` is putting `a` and `b` in
/// front.
pub proof fn lemma_after_after<T>(a: Seq<T>, b: Seq<T>, tail: Decoded<Seq<T>>)
    ensures
        after(a, after(b, tail)) == after(a + b, tail),
{
    if let Ok((more, rest)) = tail {
        assert(a + (b + more) =~= (a + b) + more);
    }
}

/// Decoding a run of kinds from the `i`-th on is decoding that kind and
/// then the run after it.
pub proof fn lemma_decoded_all_step(
    endianess: Endianess,
    width: LengthWidth,
    kinds: Seq<Shape>,
    i: int,
    input: Seq<u8>,
)
    requires
        0 <= i < kinds.len(),
    ensures
        decoded_all(
            endianess,
            width,
            kinds.subrange(i, kinds.len() as int),
            input,
        ) == (match decoded(
            endianess,
            width,
            kinds[i],
            input,
        ) {
            Err(failure) => Err(failure),
            Ok((first, rest)) => after(
                seq![first],
                decoded_all(endianess, width, kinds.subrange(i + 1, kinds.len() as int), rest),
            ),
        }),
{
    let from_i = kinds.subrange(i, kinds.len() as int);
    assert(from_i.drop_first() =~= kinds.subrange(i + 1, kinds.len() as int));
}

/// The encoding of a run from its `i`-th item on is the encoding of that
/// item followed by the encoding of the run after it.
pub proof fn lemma_encoded_all_step(
    endianess: Endianess,
    width: LengthWidth,
    items: Seq<Datum>,
    i: int,
)
    requires
        0 <= i < items.len(),
    ensures
        encoded_all(endianess, width, items.subrange(i, items.len() as int)) == joined(
            encoded(endianess, width, items[i]),
            encoded_all(endianess, width, items.subrange(i + 1, items.len() as int)),
        ),
{
    let from_i = items.subrange(i, items.len() as int);
    assert(from_i.drop_first() =~= items.subrange(i + 1, items.len() as int));
}

/// The encoding of a run of pairs from its `i`-th pair on is the encoding
/// of that pair followed by the encoding of the run after it.
pub proof fn lemma_encoded_pairs_step(
    endianess: Endianess,
    width: LengthWidth,
    entries: Seq<(Datum, Datum)>,
    i: int,
)
    requires
        0 <= i < entries.len(),
    ensures
        encoded_pairs(endianess, width, entries.subrange(i, entries.len() as int)) == joined(
            joined(
                encoded(endianess, width, entries[i].0),
                encoded(endianess, width, entries[i].1),
            ),
            encoded_pairs(endianess, width, entries.subrange(i + 1, entries.len() as int)),
        ),
{
    let from_i = entries.subrange(i, entries.len() as int);
    assert(from_i.drop_first() =~= entries.subrange(i + 1, entries.len() as int));
}

} // verus!
