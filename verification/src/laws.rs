//! What holds of the wire format as a whole.

use crate::bindings::crc16;
use crate::config::{ConfigView, Endianess, LengthWidth};
use crate::error::Fault;
use crate::format::{
    addressable, after, checked, conforms, counted, decoded, decoded_all, decoded_pairs,
    fails_with, gives, stops, decoded_repeat, deserialized, encoded, encoded_all, encoded_pairs,
    length_prefix, packet, serialized, take_counted, take_len, take_uint, unpacked,
};
use crate::value::{Datum, Shape};
use crate::wire::{
    be_bytes, le_bytes, lemma_endian_reverse, lemma_limit_values, lemma_uint_bytes_len,
    lemma_untwos_of_twos, lemma_value_of_bytes, limit, twos, uint_bytes,
};
use vstd::prelude::*;
use vstd::utf8::{encode_scalar, encode_utf8, encode_utf8_decode_utf8, encode_utf8_valid_utf8};

verus! {

/// An integer that fits its field, written and followed by anything, is
/// read back as it was, and what followed is left over.
pub proof fn lemma_take_uint_of_bytes(endianess: Endianess, n: nat, width: nat, tail: Seq<u8>)
    requires
        n < limit(width),
    ensures
        gives(take_uint(endianess, width, uint_bytes(endianess, n, width) + tail), n, tail),
{
    let bytes = uint_bytes(endianess, n, width);
    let input = bytes + tail;
    lemma_uint_bytes_len(endianess, n, width);
    lemma_value_of_bytes(endianess, n, width);
    assert(input.subrange(0, width as int) =~= bytes);
    assert(input.subrange(width as int, input.len() as int) =~= tail);
}

/// A counted run of bytes, followed by anything, is read back as it was,
/// and what followed is left over.
pub proof fn lemma_take_counted_of_counted(
    endianess: Endianess,
    width: LengthWidth,
    body: Seq<u8>,
    tail: Seq<u8>,
)
    requires
        counted(endianess, width, body) is Some,
        body.len() <= usize::MAX,
    ensures
        gives(
            take_counted(endianess, width, counted(endianess, width, body)->0 + tail),
            body,
            tail,
        ),
{
    let prefix = length_prefix(endianess, width, body.len())->0;
    let input = counted(endianess, width, body)->0 + tail;
    lemma_limit_values();
    lemma_take_uint_of_bytes(endianess, body.len(), width.spec_bytes(), body + tail);
    assert(input =~= prefix + (body + tail));
    assert((body + tail).subrange(0, body.len() as int) =~= body);
    assert((body + tail).subrange(body.len() as int, (body + tail).len() as int) =~= tail);
}

/// Whether `datum` is a number of fixed width: an integer or a float.
pub open spec fn is_number(datum: Datum) -> bool {
    datum is U8 || datum is U16 || datum is U32 || datum is U64 || datum is U128 || datum is I8
        || datum is I16 || datum is I32 || datum is I64 || datum is I128 || datum is F32
        || datum is F64
}

/// Round trip of the numbers of fixed width.
proof fn lemma_round_trip_number(
    endianess: Endianess,
    width: LengthWidth,
    datum: Datum,
    kind: Shape,
    tail: Seq<u8>,
)
    requires
        is_number(datum),
        conforms(datum, kind),
    ensures
        encoded(endianess, width, datum) is Some,
        gives(
            decoded(endianess, width, kind, encoded(endianess, width, datum)->0 + tail),
            datum,
            tail,
        ),
{
    lemma_limit_values();
    match datum {
        Datum::U8(x) => {
            lemma_take_uint_of_bytes(endianess, x as nat, 1, tail);
        },
        Datum::U16(x) => {
            lemma_take_uint_of_bytes(endianess, x as nat, 2, tail);
        },
        Datum::U32(x) => {
            lemma_take_uint_of_bytes(endianess, x as nat, 4, tail);
        },
        Datum::U64(x) => {
            lemma_take_uint_of_bytes(endianess, x as nat, 8, tail);
        },
        Datum::U128(x) => {
            lemma_take_uint_of_bytes(endianess, x as nat, 16, tail);
        },
        Datum::I8(x) => {
            lemma_untwos_of_twos(x as int, 1);
            lemma_take_uint_of_bytes(endianess, twos(x as int, 1), 1, tail);
        },
        Datum::I16(x) => {
            lemma_untwos_of_twos(x as int, 2);
            lemma_take_uint_of_bytes(endianess, twos(x as int, 2), 2, tail);
        },
        Datum::I32(x) => {
            lemma_untwos_of_twos(x as int, 4);
            lemma_take_uint_of_bytes(endianess, twos(x as int, 4), 4, tail);
        },
        Datum::I64(x) => {
            lemma_untwos_of_twos(x as int, 8);
            lemma_take_uint_of_bytes(endianess, twos(x as int, 8), 8, tail);
        },
        Datum::I128(x) => {
            lemma_untwos_of_twos(x as int, 16);
            lemma_take_uint_of_bytes(endianess, twos(x as int, 16), 16, tail);
        },
        Datum::F32(x) => {
            lemma_take_uint_of_bytes(endianess, x as nat, 4, tail);
        },
        Datum::F64(x) => {
            lemma_take_uint_of_bytes(endianess, x as nat, 8, tail);
        },
        _ => {},
    }
}

/// The UTF-8 form of one character is at most four bytes long.
pub proof fn lemma_char_bytes(c: char)
    ensures
        1 <= encode_utf8(seq![c]).len() <= 4,
{
    let chars = seq![c];
    assert(chars.drop_first() =~= Seq::<char>::empty());
    assert(encode_utf8(chars) == encode_scalar(c as u32) + encode_utf8(chars.drop_first()));
    assert(encode_utf8(Seq::<char>::empty()) =~= Seq::<u8>::empty());
}

/// Round trip of texts, byte strings and characters.
proof fn lemma_round_trip_counted(
    endianess: Endianess,
    width: LengthWidth,
    datum: Datum,
    kind: Shape,
    tail: Seq<u8>,
)
    requires
        datum is Char || datum is Text || datum is Blob,
        conforms(datum, kind),
        addressable(datum),
        encoded(endianess, width, datum) is Some,
    ensures
        gives(
            decoded(endianess, width, kind, encoded(endianess, width, datum)->0 + tail),
            datum,
            tail,
        ),
{
    match datum {
        Datum::Char(c) => {
            let body = encode_utf8(seq![c]);
            lemma_char_bytes(c);
            lemma_take_counted_of_counted(endianess, width, body, tail);
            encode_utf8_valid_utf8(seq![c]);
            encode_utf8_decode_utf8(seq![c]);
        },
        Datum::Text(chars) => {
            let body = encode_utf8(chars);
            lemma_take_counted_of_counted(endianess, width, body, tail);
            encode_utf8_valid_utf8(chars);
            encode_utf8_decode_utf8(chars);
        },
        Datum::Blob(bytes) => {
            lemma_take_counted_of_counted(endianess, width, bytes, tail);
        },
        _ => {},
    }
}

/// Round trip: a value that could be encoded, decoded under its own kind
/// from its encoding followed by anything, is the value again, and what
/// followed is left over.
#[verifier::rlimit(60)]
pub proof fn lemma_round_trip(
    endianess: Endianess,
    width: LengthWidth,
    datum: Datum,
    kind: Shape,
    tail: Seq<u8>,
)
    requires
        conforms(datum, kind),
        addressable(datum),
        encoded(endianess, width, datum) is Some,
    ensures
        gives(
            decoded(endianess, width, kind, encoded(endianess, width, datum)->0 + tail),
            datum,
            tail,
        ),
    decreases datum, 0nat,
{
    match datum {
        Datum::Bool(b) => {
            lemma_round_trip_tag(endianess, width, datum, kind, tail);
        },
        Datum::U8(_) | Datum::U16(_) | Datum::U32(_) | Datum::U64(_) | Datum::U128(_)
        | Datum::I8(_) | Datum::I16(_) | Datum::I32(_) | Datum::I64(_) | Datum::I128(_)
        | Datum::F32(_) | Datum::F64(_) => {
            lemma_round_trip_number(endianess, width, datum, kind, tail);
        },
        Datum::Char(_) | Datum::Text(_) | Datum::Blob(_) => {
            lemma_round_trip_counted(endianess, width, datum, kind, tail);
        },
        Datum::Optional(None) => {
            lemma_round_trip_tag(endianess, width, datum, kind, tail);
        },
        Datum::Optional(Some(inner)) => {
            lemma_round_trip_present(endianess, width, *inner, *kind->Optional_0, tail);
        },
        Datum::Unit => {
            lemma_round_trip_tag(endianess, width, datum, kind, tail);
        },
        Datum::Newtype(inner) => {
            lemma_round_trip(endianess, width, *inner, *kind->Newtype_0, tail);
        },
        Datum::Tuple(items) => {
            lemma_round_trip_all(endianess, width, items, kind->Tuple_0, tail);
        },
        Datum::Sequence(items) => {
            lemma_round_trip_sequence(endianess, width, items, *kind->Sequence_0, tail);
        },
        Datum::Mapping(entries) => {
            assert forall|i: int| 0 <= i < entries.len() implies entry_fits(
                #[trigger] entries[i],
                kind,
            ) by {
                lemma_entry_fits(entries[i], kind);
            }
            lemma_round_trip_mapping(endianess, width, entries, kind, tail);
        },
        Datum::Variant(index, payload) => {
            lemma_round_trip_variant(endianess, width, index, *payload, kind->Enum_0, tail);
        },
    }
}

/// Round trip of the values of one byte or none: truth values, the absent
/// optional value and the unit.
proof fn lemma_round_trip_tag(
    endianess: Endianess,
    width: LengthWidth,
    datum: Datum,
    kind: Shape,
    tail: Seq<u8>,
)
    requires
        datum is Bool || datum == Datum::Optional(None) || datum is Unit,
        conforms(datum, kind),
    ensures
        encoded(endianess, width, datum) is Some,
        gives(
            decoded(endianess, width, kind, encoded(endianess, width, datum)->0 + tail),
            datum,
            tail,
        ),
{
    let input = encoded(endianess, width, datum)->0 + tail;
    if datum is Unit {
        assert(input =~= tail);
    } else {
        assert(input.drop_first() =~= tail);
    }
}

/// Round trip of a present optional value.
proof fn lemma_round_trip_present(
    endianess: Endianess,
    width: LengthWidth,
    inner: Datum,
    inner_kind: Shape,
    tail: Seq<u8>,
)
    requires
        conforms(inner, inner_kind),
        addressable(inner),
        encoded(endianess, width, inner) is Some,
    ensures
        gives(
            decoded(
                endianess,
                width,
                Shape::Optional(Box::new(inner_kind)),
                encoded(endianess, width, Datum::Optional(Some(Box::new(inner))))->0 + tail,
            ),
            Datum::Optional( Some(Box::new(inner)), ),
            tail,
        ),
    decreases inner, 1nat,
{
    let inner_bytes = encoded(endianess, width, inner)->0;
    let input = encoded(endianess, width, Datum::Optional(Some(Box::new(inner))))->0 + tail;
    lemma_round_trip(endianess, width, inner, inner_kind, tail);
    assert(input[0] == 1u8);
    assert(input.drop_first() =~= inner_bytes + tail);
}

/// Round trip of one arm of a sum type.
#[verifier::rlimit(60)]
proof fn lemma_round_trip_variant(
    endianess: Endianess,
    width: LengthWidth,
    index: u32,
    payload: Datum,
    variants: Seq<Shape>,
    tail: Seq<u8>,
)
    requires
        index < variants.len(),
        conforms(payload, variants[index as int]),
        addressable(payload),
        encoded(endianess, width, Datum::Variant(index, Box::new(payload))) is Some,
    ensures
        gives(
            decoded(
                endianess,
                width,
                Shape::Enum(variants),
                encoded(endianess, width, Datum::Variant(index, Box::new(payload)))->0 + tail,
            ),
            Datum::Variant( index, Box::new(payload), ),
            tail,
        ),
    decreases payload, 1nat,
{
    let payload_bytes = encoded(endianess, width, payload)->0;
    let input = encoded(endianess, width, Datum::Variant(index, Box::new(payload)))->0 + tail;
    lemma_round_trip(endianess, width, payload, variants[index as int], tail);
    assert(input[0] == index as u8);
    assert(input.drop_first() =~= payload_bytes + tail);
}

/// Round trip of a sequence.
proof fn lemma_round_trip_sequence(
    endianess: Endianess,
    width: LengthWidth,
    items: Seq<Datum>,
    inner_kind: Shape,
    tail: Seq<u8>,
)
    requires
        items.len() <= usize::MAX,
        forall|i: int| 0 <= i < items.len() ==> conforms(#[trigger] items[i], inner_kind),
        forall|i: int| 0 <= i < items.len() ==> addressable(#[trigger] items[i]),
        encoded(endianess, width, Datum::Sequence(items)) is Some,
    ensures
        gives(
            decoded(
                endianess,
                width,
                Shape::Sequence(Box::new(inner_kind)),
                encoded(endianess, width, Datum::Sequence(items))->0 + tail,
            ),
            Datum::Sequence(items),
            tail,
        ),
    decreases items, 1nat,
{
    let prefix = length_prefix(endianess, width, items.len())->0;
    let body = encoded_all(endianess, width, items)->0;
    let input = encoded(endianess, width, Datum::Sequence(items))->0 + tail;
    lemma_limit_values();
    lemma_take_uint_of_bytes(endianess, items.len(), width.spec_bytes(), body + tail);
    assert(input =~= prefix + (body + tail));
    lemma_round_trip_repeat(endianess, width, items, inner_kind, tail);
}

/// Round trip of a map.
proof fn lemma_round_trip_mapping(
    endianess: Endianess,
    width: LengthWidth,
    entries: Seq<(Datum, Datum)>,
    mapping: Shape,
    tail: Seq<u8>,
)
    requires
        mapping is Mapping,
        entries.len() <= usize::MAX,
        forall|i: int| 0 <= i < entries.len() ==> entry_fits(#[trigger] entries[i], mapping),
        encoded(endianess, width, Datum::Mapping(entries)) is Some,
    ensures
        gives(
            decoded(
                endianess,
                width,
                mapping,
                encoded(endianess, width, Datum::Mapping(entries))->0 + tail,
            ),
            Datum::Mapping(entries),
            tail,
        ),
    decreases entries, 1nat,
{
    let prefix = length_prefix(endianess, width, entries.len())->0;
    let body = encoded_pairs(endianess, width, entries)->0;
    let input = encoded(endianess, width, Datum::Mapping(entries))->0 + tail;
    lemma_limit_values();
    lemma_take_uint_of_bytes(endianess, entries.len(), width.spec_bytes(), body + tail);
    assert(input =~= prefix + (body + tail));
    lemma_round_trip_pairs(endianess, width, entries, mapping, tail);
}

/// Round trip of a run of values under a run of kinds.
#[verifier::rlimit(60)]
pub proof fn lemma_round_trip_all(
    endianess: Endianess,
    width: LengthWidth,
    items: Seq<Datum>,
    kinds: Seq<Shape>,
    tail: Seq<u8>,
)
    requires
        items.len() == kinds.len(),
        forall|i: int| 0 <= i < items.len() ==> conforms(#[trigger] items[i], kinds[i]),
        forall|i: int| 0 <= i < items.len() ==> addressable(#[trigger] items[i]),
        encoded_all(endianess, width, items) is Some,
    ensures
        gives(
            decoded_all(endianess, width, kinds, encoded_all(endianess, width, items)->0 + tail),
            items,
            tail,
        ),
    decreases items, 0nat,
{
    let input = encoded_all(endianess, width, items)->0 + tail;
    if items.len() == 0 {
        assert(input =~= tail);
        assert(items =~= Seq::<Datum>::empty());
    } else {
        let first = encoded(endianess, width, items[0])->0;
        let others = encoded_all(endianess, width, items.drop_first())->0;
        assert(items[0] == items[0]);
        lemma_round_trip(endianess, width, items[0], kinds[0], others + tail);
        assert(input =~= first + (others + tail));
        assert forall|i: int| 0 <= i < items.drop_first().len() implies conforms(
            #[trigger] items.drop_first()[i],
            kinds.drop_first()[i],
        ) && addressable(items.drop_first()[i]) by {
            assert(items.drop_first()[i] == items[i + 1]);
        }
        lemma_round_trip_all(endianess, width, items.drop_first(), kinds.drop_first(), tail);
        assert(seq![items[0]] + items.drop_first() =~= items);
    }
}

/// Round trip of a run of values that are all of one kind.
#[verifier::rlimit(60)]
pub proof fn lemma_round_trip_repeat(
    endianess: Endianess,
    width: LengthWidth,
    items: Seq<Datum>,
    kind: Shape,
    tail: Seq<u8>,
)
    requires
        forall|i: int| 0 <= i < items.len() ==> conforms(#[trigger] items[i], kind),
        forall|i: int| 0 <= i < items.len() ==> addressable(#[trigger] items[i]),
        encoded_all(endianess, width, items) is Some,
    ensures
        gives(
            decoded_repeat(
                endianess,
                width,
                kind,
                items.len(),
                encoded_all(endianess, width, items)->0 + tail,
            ),
            items,
            tail,
        ),
    decreases items, 0nat,
{
    let input = encoded_all(endianess, width, items)->0 + tail;
    if items.len() == 0 {
        assert(input =~= tail);
        assert(items =~= Seq::<Datum>::empty());
    } else {
        let first = encoded(endianess, width, items[0])->0;
        let others = encoded_all(endianess, width, items.drop_first())->0;
        assert(items[0] == items[0]);
        lemma_round_trip(endianess, width, items[0], kind, others + tail);
        assert(input =~= first + (others + tail));
        assert forall|i: int| 0 <= i < items.drop_first().len() implies conforms(
            #[trigger] items.drop_first()[i],
            kind,
        ) && addressable(items.drop_first()[i]) by {
            assert(items.drop_first()[i] == items[i + 1]);
        }
        lemma_round_trip_repeat(endianess, width, items.drop_first(), kind, tail);
        assert(seq![items[0]] + items.drop_first() =~= items);
    }
}

/// Decoding a run of pairs is decoding a key, a value and then the pairs
/// after them.
proof fn lemma_decoded_pairs_step(
    endianess: Endianess,
    width: LengthWidth,
    mapping: Shape,
    count: nat,
    input: Seq<u8>,
    key: Datum,
    after_key: Seq<u8>,
    value: Datum,
    after_value: Seq<u8>,
    others: Seq<(Datum, Datum)>,
    tail: Seq<u8>,
)
    requires
        mapping is Mapping,
        count > 0,
        gives(decoded(endianess, width, *mapping->Mapping_0, input), key, after_key),
        gives(decoded(endianess, width, *mapping->Mapping_1, after_key), value, after_value),
        gives(
            decoded_pairs(endianess, width, mapping, (count - 1) as nat, after_value),
            others,
            tail,
        ),
    ensures
        gives(
            decoded_pairs(endianess, width, mapping, count, input),
            seq![(key, value)] + others,
            tail,
        ),
{
}

/// Whether key and value of `entry` are of the kinds that the mapping kind
/// `mapping` names, and addressable.
#[verifier::opaque]
pub open spec fn entry_fits(entry: (Datum, Datum), mapping: Shape) -> bool {
    &&& mapping is Mapping
    &&& conforms(entry.0, *mapping->Mapping_0)
    &&& conforms(entry.1, *mapping->Mapping_1)
    &&& addressable(entry.0)
    &&& addressable(entry.1)
}

/// What `entry_fits` says, spelt out.
proof fn lemma_entry_fits(entry: (Datum, Datum), mapping: Shape)
    ensures
        entry_fits(entry, mapping) <==> {
            &&& mapping is Mapping
            &&& conforms(entry.0, *mapping->Mapping_0)
            &&& conforms(entry.1, *mapping->Mapping_1)
            &&& addressable(entry.0)
            &&& addressable(entry.1)
        },
{
    reveal(entry_fits);
}

/// Round trip of a run of key-value pairs under a mapping kind.
#[verifier::rlimit(60)]
pub proof fn lemma_round_trip_pairs(
    endianess: Endianess,
    width: LengthWidth,
    entries: Seq<(Datum, Datum)>,
    mapping: Shape,
    tail: Seq<u8>,
)
    requires
        mapping is Mapping,
        forall|i: int| 0 <= i < entries.len() ==> entry_fits(#[trigger] entries[i], mapping),
        encoded_pairs(endianess, width, entries) is Some,
    ensures
        gives(
            decoded_pairs(
                endianess,
                width,
                mapping,
                entries.len(),
                encoded_pairs(endianess, width, entries)->0 + tail,
            ),
            entries,
            tail,
        ),
    decreases entries, 0nat,
{
    let input = encoded_pairs(endianess, width, entries)->0 + tail;
    if entries.len() == 0 {
        assert(input =~= tail);
        assert(entries =~= Seq::<(Datum, Datum)>::empty());
    } else {
        let first = entries[0];
        let rest = entries.drop_first();
        let key = encoded(endianess, width, first.0)->0;
        let value = encoded(endianess, width, first.1)->0;
        let others = encoded_pairs(endianess, width, rest)->0;
        assert(entry_fits(first, mapping));
        assert(encoded(endianess, width, first.0) is Some && encoded(endianess, width, first.1)
            is Some && encoded_pairs(endianess, width, rest) is Some);
        assert(gives(
            decoded(endianess, width, *mapping->Mapping_0, input),
            first.0,
            value + (others + tail),
        )) by {
            lemma_entry_fits(first, mapping);
            lemma_round_trip(
                endianess,
                width,
                first.0,
                *mapping->Mapping_0,
                value + (others + tail),
            );
            assert(input =~= key + (value + (others + tail)));
        }
        assert(gives(
            decoded(endianess, width, *mapping->Mapping_1, value + (others + tail)),
            first.1,
            others + tail,
        )) by {
            lemma_entry_fits(first, mapping);
            lemma_round_trip(endianess, width, first.1, *mapping->Mapping_1, others + tail);
        }
        assert forall|i: int| 0 <= i < rest.len() implies entry_fits(
            #[trigger] rest[i],
            mapping,
        ) by {
            assert(rest[i] == entries[i + 1]);
        }
        lemma_round_trip_pairs(endianess, width, rest, mapping, tail);
        assert(encoded_pairs(endianess, width, rest)->0 + tail == others + tail);
        lemma_decoded_pairs_step(
            endianess,
            width,
            mapping,
            entries.len(),
            input,
            first.0,
            value + (others + tail),
            first.1,
            others + tail,
            rest,
            tail,
        );
        assert(seq![first] + rest =~= entries);
    }
}

/// Round trip of a packet: a value that could be framed, decoded under its
/// own kind from its packet, is the value again, whatever the
/// configuration.
pub proof fn lemma_packet_round_trip(config: ConfigView, datum: Datum, kind: Shape)
    requires
        conforms(datum, kind),
        addressable(datum),
        serialized(config, datum) is Some,
    ensures
        deserialized(config, kind, serialized(config, datum)->0) == Ok::<Datum, Fault>(datum),
{
    let body = encoded(config.endianess, config.length_width, datum)->0;
    lemma_unpacked_of_packet(config, body);
    lemma_round_trip(config.endianess, config.length_width, datum, kind, Seq::empty());
    assert(body + Seq::<u8>::empty() =~= body);
}

/// The body of a packet is what the packet was made around.
pub proof fn lemma_unpacked_of_packet(config: ConfigView, body: Seq<u8>)
    requires
        packet(config, body) is Some,
    ensures
        unpacked(config, packet(config, body)->0) == Ok::<Seq<u8>, Fault>(body),
{
    let size = (body.len() + 2) as nat;
    let field = uint_bytes(config.endianess, size, 2);
    let covered = config.packet_start + field + body;
    let whole = packet(config, body)->0;
    lemma_limit_values();
    lemma_uint_bytes_len(config.endianess, size, 2);
    assert(checked(config, whole) == Ok::<Seq<u8>, Fault>(covered)) by {
        match config.body_crc {
            None => {
                assert(whole =~= covered);
            },
            Some(algorithm) => {
                let sum = crc16(algorithm, covered);
                let sum_field = uint_bytes(config.endianess, sum as nat, 2);
                lemma_uint_bytes_len(config.endianess, sum as nat, 2);
                lemma_value_of_bytes(config.endianess, sum as nat, 2);
                assert(whole.subrange(0, whole.len() - 2) =~= covered);
                assert(whole.subrange(whole.len() - 2, whole.len() as int) =~= sum_field);
            },
        }
    }
    assert(config.packet_start.is_prefix_of(covered)) by {
        assert(covered.subrange(0, config.packet_start.len() as int) =~= config.packet_start);
    }
    let framed = covered.subrange(config.packet_start.len() as int, covered.len() as int);
    assert(framed =~= field + body);
    lemma_take_uint_of_bytes(config.endianess, size, 2, body);
}

/// Endian symmetry: the big-endian encoding of a number is the reverse of
/// its little-endian encoding.
pub proof fn lemma_endian_symmetry(width: LengthWidth, datum: Datum)
    requires
        is_number(datum),
    ensures
        encoded(Endianess::Big, width, datum) is Some,
        encoded(Endianess::Little, width, datum) is Some,
        encoded(Endianess::Big, width, datum)->0 == encoded(
            Endianess::Little,
            width,
            datum,
        )->0.reverse(),
{
    match datum {
        Datum::U8(x) => lemma_endian_reverse(x as nat, 1),
        Datum::U16(x) => lemma_endian_reverse(x as nat, 2),
        Datum::U32(x) => lemma_endian_reverse(x as nat, 4),
        Datum::U64(x) => lemma_endian_reverse(x as nat, 8),
        Datum::U128(x) => lemma_endian_reverse(x as nat, 16),
        Datum::I8(x) => lemma_endian_reverse(twos(x as int, 1), 1),
        Datum::I16(x) => lemma_endian_reverse(twos(x as int, 2), 2),
        Datum::I32(x) => lemma_endian_reverse(twos(x as int, 4), 4),
        Datum::I64(x) => lemma_endian_reverse(twos(x as int, 8), 8),
        Datum::I128(x) => lemma_endian_reverse(twos(x as int, 16), 16),
        Datum::F32(x) => lemma_endian_reverse(x as nat, 4),
        Datum::F64(x) => lemma_endian_reverse(x as nat, 8),
        _ => {},
    }
}

/// Decoding is a function of configuration, kind and bytes: two results
/// that the format admits for the same packet are the same value, or the
/// same fault.
pub proof fn lemma_decode_twice(
    config: ConfigView,
    kind: Shape,
    input: Seq<u8>,
    first: Result<Datum, Fault>,
    second: Result<Datum, Fault>,
)
    requires
        first == deserialized(config, kind, input),
        second == deserialized(config, kind, input),
    ensures
        first == second,
{
}

/// The bytes of zero are zeros, in either byte order.
pub proof fn lemma_zero_bytes(endianess: Endianess, width: nat)
    ensures
        uint_bytes(endianess, 0, width) == Seq::new(width, |i: int| 0u8),
        le_bytes(0, width) == Seq::new(width, |i: int| 0u8),
        be_bytes(0, width) == Seq::new(width, |i: int| 0u8),
    decreases width,
{
    if width > 0 {
        let less = (width - 1) as nat;
        lemma_zero_bytes(endianess, less);
        assert(le_bytes(0, width) == seq![0u8] + le_bytes(0, less));
        assert(be_bytes(0, width) == be_bytes(0, less).push(0u8));
    }
    assert(le_bytes(0, width) =~= Seq::new(width, |i: int| 0u8));
    assert(be_bytes(0, width) =~= Seq::new(width, |i: int| 0u8));
}

/// An empty sequence, an empty map, an empty text and an empty byte string
/// each encode to one length prefix of zero and nothing more.
pub proof fn lemma_empty_is_zero_prefix(endianess: Endianess, width: LengthWidth)
    ensures
        encoded(endianess, width, Datum::Sequence(Seq::empty())) == Some(
            Seq::new(width.spec_bytes(), |i: int| 0u8),
        ),
        encoded(endianess, width, Datum::Mapping(Seq::empty())) == Some(
            Seq::new(width.spec_bytes(), |i: int| 0u8),
        ),
        encoded(endianess, width, Datum::Text(Seq::empty())) == Some(
            Seq::new(width.spec_bytes(), |i: int| 0u8),
        ),
        encoded(endianess, width, Datum::Blob(Seq::empty())) == Some(
            Seq::new(width.spec_bytes(), |i: int| 0u8),
        ),
{
    let zeros = Seq::new(width.spec_bytes(), |i: int| 0u8);
    lemma_zero_bytes(endianess, width.spec_bytes());
    assert(zeros + Seq::<u8>::empty() =~= zeros);
    assert(encode_utf8(Seq::<char>::empty()) =~= Seq::<u8>::empty());
    assert(encoded_all(endianess, width, Seq::<Datum>::empty()) == Some(Seq::<u8>::empty()));
    assert(encoded_pairs(endianess, width, Seq::<(Datum, Datum)>::empty()) == Some(
        Seq::<u8>::empty(),
    ));
    assert(length_prefix(endianess, width, 0) == Some(zeros));
}

/// Optional values nest without flattening: absent is `00`, present and
/// absent within is `01 00`, present and present within is `01 01` and the
/// value; and each is decoded as what it was.
pub proof fn lemma_nested_option(
    endianess: Endianess,
    width: LengthWidth,
    inner: Datum,
    inner_kind: Shape,
    tail: Seq<u8>,
)
    requires
        conforms(inner, inner_kind),
        addressable(inner),
        encoded(endianess, width, inner) is Some,
    ensures
        encoded(endianess, width, Datum::Optional(None)) == Some(seq![0u8]),
        encoded(endianess, width, Datum::Optional(Some(Box::new(Datum::Optional(None)))))
            == Some(seq![1u8, 0u8]),
        encoded(
            endianess,
            width,
            Datum::Optional(Some(Box::new(Datum::Optional(Some(Box::new(inner)))))),
        ) == Some(seq![1u8, 1u8] + encoded(endianess, width, inner)->0),
        gives(
            decoded(
                endianess,
                width,
                Shape::Optional(Box::new(Shape::Optional(Box::new(inner_kind)))),
                seq![0u8] + tail,
            ),
            Datum::Optional(None),
            tail,
        ),
        gives(
            decoded(
                endianess,
                width,
                Shape::Optional(Box::new(Shape::Optional(Box::new(inner_kind)))),
                seq![1u8, 0u8] + tail,
            ),
            Datum::Optional(Some(Box::new(Datum::Optional(None)))),
            tail,
        ),
        gives(
            decoded(
                endianess,
                width,
                Shape::Optional(Box::new(Shape::Optional(Box::new(inner_kind)))),
                seq![1u8, 1u8] + encoded(endianess, width, inner)->0 + tail,
            ),
            Datum::Optional(Some(Box::new(Datum::Optional(Some(Box::new(inner)))))),
            tail,
        ),
{
    let kind = Shape::Optional(Box::new(Shape::Optional(Box::new(inner_kind))));
    let absent = Datum::Optional(None);
    let present_absent = Datum::Optional(Some(Box::new(Datum::Optional(None))));
    let present_present = Datum::Optional(Some(Box::new(Datum::Optional(Some(Box::new(inner))))));
    let bytes = encoded(endianess, width, inner)->0;
    assert(encoded(endianess, width, present_absent)->0 =~= seq![1u8, 0u8]);
    assert(encoded(endianess, width, Datum::Optional(Some(Box::new(inner))))->0 =~= seq![1u8]
        + bytes);
    assert(encoded(endianess, width, present_present)->0 =~= seq![1u8, 1u8] + bytes);
    let middle = Shape::Optional(Box::new(inner_kind));
    assert(conforms(absent, middle));
    assert(conforms(Datum::Optional(Some(Box::new(inner))), middle));
    assert(conforms(present_absent, kind));
    assert(conforms(present_present, kind));
    assert(addressable(Datum::Optional(Some(Box::new(inner)))));
    assert(addressable(absent));
    assert(addressable(present_absent));
    assert(addressable(present_present));
    lemma_round_trip(endianess, width, absent, kind, tail);
    lemma_round_trip(endianess, width, present_absent, kind, tail);
    lemma_round_trip(endianess, width, present_present, kind, tail);
}

/// A variant index that names no arm is `InvalidData`, and is consumed: the
/// number of arms itself, and every index above it.
pub proof fn lemma_variant_out_of_range(
    endianess: Endianess,
    width: LengthWidth,
    variants: Seq<Shape>,
    input: Seq<u8>,
)
    requires
        input.len() > 0,
        input[0] >= variants.len(),
    ensures
        stops(
            decoded(endianess, width, Shape::Enum(variants), input),
            Fault::InvalidData,
            input.drop_first(),
        ),
{
}

/// A length prefix that counts more bytes than remain after it is
/// `InvalidLength`, for every kind that is a counted run of bytes.
pub proof fn lemma_length_beyond_input(
    endianess: Endianess,
    width: LengthWidth,
    kind: Shape,
    input: Seq<u8>,
)
    requires
        kind is Char || kind is Str || kind is String || kind is Bytes || kind is ByteBuf,
        take_len(endianess, width, input) is Ok,
        take_len(endianess, width, input)->Ok_0.1.len() < take_len(endianess, width, input)->Ok_0.0,
    ensures
        fails_with(decoded(endianess, width, kind, input), Fault::InvalidLength),
{
}

/// A sequence, a map, a text or a byte string with more elements than the
/// length prefix can count cannot be encoded; with one-byte prefixes, that
/// is every one with 256 elements or more.
pub proof fn lemma_count_beyond_prefix(endianess: Endianess, width: LengthWidth, datum: Datum)
    requires
        match datum {
            Datum::Sequence(items) => items.len() > width.spec_max(),
            Datum::Mapping(entries) => entries.len() > width.spec_max(),
            Datum::Text(chars) => encode_utf8(chars).len() > width.spec_max(),
            Datum::Blob(bytes) => bytes.len() > width.spec_max(),
            _ => false,
        },
    ensures
        encoded(endianess, width, datum) is None,
        LengthWidth::U8.spec_max() == 255,
{
}

/// A counted run of bytes that is cut short is `InvalidLength`.
proof fn lemma_truncated_counted(endianess: Endianess, width: LengthWidth, body: Seq<u8>, n: int)
    requires
        counted(endianess, width, body) is Some,
        body.len() <= usize::MAX,
        0 <= n < counted(endianess, width, body)->0.len(),
    ensures
        fails_with(
            take_counted(endianess, width, counted(endianess, width, body)->0.subrange(0, n)),
            Fault::InvalidLength,
        ),
{
    let prefix = length_prefix(endianess, width, body.len())->0;
    let input = counted(endianess, width, body)->0.subrange(0, n);
    lemma_limit_values();
    lemma_uint_bytes_len(endianess, body.len(), width.spec_bytes());
    if n >= prefix.len() {
        let kept = body.subrange(0, n - prefix.len());
        assert(input =~= prefix + kept);
        lemma_take_uint_of_bytes(endianess, body.len(), width.spec_bytes(), kept);
    }
}

/// Truncation of the values that are not made of other values.
proof fn lemma_truncated_leaf(
    endianess: Endianess,
    width: LengthWidth,
    datum: Datum,
    kind: Shape,
    n: int,
)
    requires
        datum is Bool || is_number(datum) || datum is Char || datum is Text || datum is Blob
            || datum == Datum::Optional(None),
        conforms(datum, kind),
        addressable(datum),
        encoded(endianess, width, datum) is Some,
        0 <= n < encoded(endianess, width, datum)->0.len(),
    ensures
        fails_with(
            decoded(endianess, width, kind, encoded(endianess, width, datum)->0.subrange(0, n)),
            Fault::InvalidLength,
        ),
{
    match datum {
        Datum::Char(c) => {
            lemma_char_bytes(c);
            lemma_truncated_counted(endianess, width, encode_utf8(seq![c]), n);
        },
        Datum::Text(chars) => {
            lemma_truncated_counted(endianess, width, encode_utf8(chars), n);
        },
        Datum::Blob(bytes) => {
            lemma_truncated_counted(endianess, width, bytes, n);
        },
        Datum::Bool(_) => {},
        Datum::Optional(_) => {},
        Datum::U8(x) => lemma_uint_bytes_len(endianess, x as nat, 1),
        Datum::U16(x) => lemma_uint_bytes_len(endianess, x as nat, 2),
        Datum::U32(x) => lemma_uint_bytes_len(endianess, x as nat, 4),
        Datum::U64(x) => lemma_uint_bytes_len(endianess, x as nat, 8),
        Datum::U128(x) => lemma_uint_bytes_len(endianess, x as nat, 16),
        Datum::I8(x) => lemma_uint_bytes_len(endianess, twos(x as int, 1), 1),
        Datum::I16(x) => lemma_uint_bytes_len(endianess, twos(x as int, 2), 2),
        Datum::I32(x) => lemma_uint_bytes_len(endianess, twos(x as int, 4), 4),
        Datum::I64(x) => lemma_uint_bytes_len(endianess, twos(x as int, 8), 8),
        Datum::I128(x) => lemma_uint_bytes_len(endianess, twos(x as int, 16), 16),
        Datum::F32(x) => lemma_uint_bytes_len(endianess, x as nat, 4),
        Datum::F64(x) => lemma_uint_bytes_len(endianess, x as nat, 8),
        _ => {},
    }
}

/// Truncation: the encoding of a value, cut short by one byte or more and
/// decoded under the value's kind, is `InvalidLength`.
#[verifier::rlimit(60)]
pub proof fn lemma_truncated(
    endianess: Endianess,
    width: LengthWidth,
    datum: Datum,
    kind: Shape,
    n: int,
)
    requires
        conforms(datum, kind),
        addressable(datum),
        encoded(endianess, width, datum) is Some,
        0 <= n < encoded(endianess, width, datum)->0.len(),
    ensures
        fails_with(
            decoded(endianess, width, kind, encoded(endianess, width, datum)->0.subrange(0, n)),
            Fault::InvalidLength,
        ),
    decreases datum, 0nat,
{
    match datum {
        Datum::Optional(Some(inner)) => {
            lemma_truncated_present(endianess, width, *inner, *kind->Optional_0, n);
        },
        Datum::Unit => {},
        Datum::Newtype(inner) => {
            lemma_truncated(endianess, width, *inner, *kind->Newtype_0, n);
        },
        Datum::Tuple(items) => {
            lemma_truncated_all(endianess, width, items, kind->Tuple_0, n);
        },
        Datum::Sequence(items) => {
            lemma_truncated_sequence(endianess, width, items, *kind->Sequence_0, n);
        },
        Datum::Mapping(entries) => {
            assert forall|i: int| 0 <= i < entries.len() implies entry_fits(
                #[trigger] entries[i],
                kind,
            ) by {
                lemma_entry_fits(entries[i], kind);
            }
            lemma_truncated_mapping(endianess, width, entries, kind, n);
        },
        Datum::Variant(index, payload) => {
            lemma_truncated_variant(endianess, width, index, *payload, kind->Enum_0, n);
        },
        _ => {
            lemma_truncated_leaf(endianess, width, datum, kind, n);
        },
    }
}

/// Truncation of a present optional value.
proof fn lemma_truncated_present(
    endianess: Endianess,
    width: LengthWidth,
    inner: Datum,
    inner_kind: Shape,
    n: int,
)
    requires
        conforms(inner, inner_kind),
        addressable(inner),
        encoded(endianess, width, inner) is Some,
        0 <= n < encoded(endianess, width, Datum::Optional(Some(Box::new(inner))))->0.len(),
    ensures
        fails_with(decoded(
            endianess,
            width,
            Shape::Optional(Box::new(inner_kind)),
            encoded(endianess, width, Datum::Optional(Some(Box::new(inner))))->0.subrange(0, n),
        ), Fault::InvalidLength),
    decreases inner, 1nat,
{
    let inner_bytes = encoded(endianess, width, inner)->0;
    let input = encoded(endianess, width, Datum::Optional(Some(Box::new(inner))))->0.subrange(0, n);
    if n > 0 {
        lemma_truncated(endianess, width, inner, inner_kind, n - 1);
        assert(input[0] == 1u8);
        assert(input.drop_first() =~= inner_bytes.subrange(0, n - 1));
    }
}

/// Truncation of one arm of a sum type.
proof fn lemma_truncated_variant(
    endianess: Endianess,
    width: LengthWidth,
    index: u32,
    payload: Datum,
    variants: Seq<Shape>,
    n: int,
)
    requires
        index < variants.len(),
        conforms(payload, variants[index as int]),
        addressable(payload),
        encoded(endianess, width, Datum::Variant(index, Box::new(payload))) is Some,
        0 <= n < encoded(endianess, width, Datum::Variant(index, Box::new(payload)))->0.len(),
    ensures
        fails_with(decoded(
            endianess,
            width,
            Shape::Enum(variants),
            encoded(endianess, width, Datum::Variant(index, Box::new(payload)))->0.subrange(0, n),
        ), Fault::InvalidLength),
    decreases payload, 1nat,
{
    let payload_bytes = encoded(endianess, width, payload)->0;
    let input = encoded(endianess, width, Datum::Variant(index, Box::new(payload)))->0.subrange(
        0,
        n,
    );
    if n > 0 {
        lemma_truncated(endianess, width, payload, variants[index as int], n - 1);
        assert(input[0] == index as u8);
        assert(input.drop_first() =~= payload_bytes.subrange(0, n - 1));
    }
}

/// Truncation of a sequence.
proof fn lemma_truncated_sequence(
    endianess: Endianess,
    width: LengthWidth,
    items: Seq<Datum>,
    inner_kind: Shape,
    n: int,
)
    requires
        items.len() <= usize::MAX,
        forall|i: int| 0 <= i < items.len() ==> conforms(#[trigger] items[i], inner_kind),
        forall|i: int| 0 <= i < items.len() ==> addressable(#[trigger] items[i]),
        encoded(endianess, width, Datum::Sequence(items)) is Some,
        0 <= n < encoded(endianess, width, Datum::Sequence(items))->0.len(),
    ensures
        fails_with(decoded(
            endianess,
            width,
            Shape::Sequence(Box::new(inner_kind)),
            encoded(endianess, width, Datum::Sequence(items))->0.subrange(0, n),
        ), Fault::InvalidLength),
    decreases items, 1nat,
{
    let prefix = length_prefix(endianess, width, items.len())->0;
    let body = encoded_all(endianess, width, items)->0;
    let input = encoded(endianess, width, Datum::Sequence(items))->0.subrange(0, n);
    lemma_limit_values();
    lemma_uint_bytes_len(endianess, items.len(), width.spec_bytes());
    if n >= prefix.len() {
        let kept = body.subrange(0, n - prefix.len());
        assert(input =~= prefix + kept);
        lemma_take_uint_of_bytes(endianess, items.len(), width.spec_bytes(), kept);
        lemma_truncated_repeat(endianess, width, items, inner_kind, n - prefix.len());
    }
}

/// Truncation of a map.
proof fn lemma_truncated_mapping(
    endianess: Endianess,
    width: LengthWidth,
    entries: Seq<(Datum, Datum)>,
    mapping: Shape,
    n: int,
)
    requires
        mapping is Mapping,
        entries.len() <= usize::MAX,
        forall|i: int| 0 <= i < entries.len() ==> entry_fits(#[trigger] entries[i], mapping),
        encoded(endianess, width, Datum::Mapping(entries)) is Some,
        0 <= n < encoded(endianess, width, Datum::Mapping(entries))->0.len(),
    ensures
        fails_with(decoded(
            endianess,
            width,
            mapping,
            encoded(endianess, width, Datum::Mapping(entries))->0.subrange(0, n),
        ), Fault::InvalidLength),
    decreases entries, 1nat,
{
    let prefix = length_prefix(endianess, width, entries.len())->0;
    let body = encoded_pairs(endianess, width, entries)->0;
    let input = encoded(endianess, width, Datum::Mapping(entries))->0.subrange(0, n);
    lemma_limit_values();
    lemma_uint_bytes_len(endianess, entries.len(), width.spec_bytes());
    if n >= prefix.len() {
        let kept = body.subrange(0, n - prefix.len());
        assert(input =~= prefix + kept);
        lemma_take_uint_of_bytes(endianess, entries.len(), width.spec_bytes(), kept);
        lemma_truncated_pairs(endianess, width, entries, mapping, n - prefix.len());
    }
}

/// Truncation of a run of values under a run of kinds.
#[verifier::rlimit(60)]
pub proof fn lemma_truncated_all(
    endianess: Endianess,
    width: LengthWidth,
    items: Seq<Datum>,
    kinds: Seq<Shape>,
    n: int,
)
    requires
        items.len() == kinds.len(),
        forall|i: int| 0 <= i < items.len() ==> conforms(#[trigger] items[i], kinds[i]),
        forall|i: int| 0 <= i < items.len() ==> addressable(#[trigger] items[i]),
        encoded_all(endianess, width, items) is Some,
        0 <= n < encoded_all(endianess, width, items)->0.len(),
    ensures
        fails_with(
            decoded_all(
                endianess,
                width,
                kinds,
                encoded_all(endianess, width, items)->0.subrange(0, n),
            ),
            Fault::InvalidLength,
        ),
    decreases items, 0nat,
{
    let input = encoded_all(endianess, width, items)->0.subrange(0, n);
    if items.len() > 0 {
        let first = encoded(endianess, width, items[0])->0;
        let rest = items.drop_first();
        let others = encoded_all(endianess, width, rest)->0;
        assert(items[0] == items[0]);
        if n < first.len() {
            lemma_truncated(endianess, width, items[0], kinds[0], n);
            assert(input =~= first.subrange(0, n));
        } else {
            let kept = others.subrange(0, n - first.len());
            lemma_round_trip(endianess, width, items[0], kinds[0], kept);
            assert(input =~= first + kept);
            assert forall|i: int| 0 <= i < rest.len() implies conforms(
                #[trigger] rest[i],
                kinds.drop_first()[i],
            ) && addressable(rest[i]) by {
                assert(rest[i] == items[i + 1]);
            }
            lemma_truncated_all(endianess, width, rest, kinds.drop_first(), n - first.len());
        }
    }
}

/// Truncation of a run of values that are all of one kind.
#[verifier::rlimit(60)]
pub proof fn lemma_truncated_repeat(
    endianess: Endianess,
    width: LengthWidth,
    items: Seq<Datum>,
    kind: Shape,
    n: int,
)
    requires
        forall|i: int| 0 <= i < items.len() ==> conforms(#[trigger] items[i], kind),
        forall|i: int| 0 <= i < items.len() ==> addressable(#[trigger] items[i]),
        encoded_all(endianess, width, items) is Some,
        0 <= n < encoded_all(endianess, width, items)->0.len(),
    ensures
        fails_with(decoded_repeat(
            endianess,
            width,
            kind,
            items.len(),
            encoded_all(endianess, width, items)->0.subrange(0, n),
        ), Fault::InvalidLength),
    decreases items, 0nat,
{
    let input = encoded_all(endianess, width, items)->0.subrange(0, n);
    if items.len() > 0 {
        let first = encoded(endianess, width, items[0])->0;
        let rest = items.drop_first();
        let others = encoded_all(endianess, width, rest)->0;
        assert(items[0] == items[0]);
        if n < first.len() {
            lemma_truncated(endianess, width, items[0], kind, n);
            assert(input =~= first.subrange(0, n));
        } else {
            let kept = others.subrange(0, n - first.len());
            lemma_round_trip(endianess, width, items[0], kind, kept);
            assert(input =~= first + kept);
            assert forall|i: int| 0 <= i < rest.len() implies conforms(#[trigger] rest[i], kind)
                && addressable(rest[i]) by {
                assert(rest[i] == items[i + 1]);
            }
            lemma_truncated_repeat(endianess, width, rest, kind, n - first.len());
        }
    }
}

/// A run of pairs whose first key cannot be decoded cannot be decoded.
proof fn lemma_pairs_fail_at_key(
    endianess: Endianess,
    width: LengthWidth,
    mapping: Shape,
    count: nat,
    input: Seq<u8>,
    fault: Fault,
)
    requires
        mapping is Mapping,
        count > 0,
        fails_with(decoded(endianess, width, *mapping->Mapping_0, input), fault),
    ensures
        fails_with(decoded_pairs(endianess, width, mapping, count, input), fault),
{
}

/// A run of pairs whose first value cannot be decoded cannot be decoded.
proof fn lemma_pairs_fail_at_value(
    endianess: Endianess,
    width: LengthWidth,
    mapping: Shape,
    count: nat,
    input: Seq<u8>,
    key: Datum,
    after_key: Seq<u8>,
    fault: Fault,
)
    requires
        mapping is Mapping,
        count > 0,
        gives(decoded(endianess, width, *mapping->Mapping_0, input), key, after_key),
        fails_with(decoded(endianess, width, *mapping->Mapping_1, after_key), fault),
    ensures
        fails_with(decoded_pairs(endianess, width, mapping, count, input), fault),
{
}

/// A run of pairs of which the pairs after the first cannot be decoded
/// cannot be decoded.
proof fn lemma_pairs_fail_later(
    endianess: Endianess,
    width: LengthWidth,
    mapping: Shape,
    count: nat,
    input: Seq<u8>,
    key: Datum,
    after_key: Seq<u8>,
    value: Datum,
    after_value: Seq<u8>,
    fault: Fault,
)
    requires
        mapping is Mapping,
        count > 0,
        gives(decoded(endianess, width, *mapping->Mapping_0, input), key, after_key),
        gives(decoded(endianess, width, *mapping->Mapping_1, after_key), value, after_value),
        fails_with(
            decoded_pairs(endianess, width, mapping, (count - 1) as nat, after_value),
            fault,
        ),
    ensures
        fails_with(decoded_pairs(endianess, width, mapping, count, input), fault),
{
}

/// Truncation of a run of key-value pairs under a mapping kind.
#[verifier::rlimit(60)]
pub proof fn lemma_truncated_pairs(
    endianess: Endianess,
    width: LengthWidth,
    entries: Seq<(Datum, Datum)>,
    mapping: Shape,
    n: int,
)
    requires
        mapping is Mapping,
        forall|i: int| 0 <= i < entries.len() ==> entry_fits(#[trigger] entries[i], mapping),
        encoded_pairs(endianess, width, entries) is Some,
        0 <= n < encoded_pairs(endianess, width, entries)->0.len(),
    ensures
        fails_with(decoded_pairs(
            endianess,
            width,
            mapping,
            entries.len(),
            encoded_pairs(endianess, width, entries)->0.subrange(0, n),
        ), Fault::InvalidLength),
    decreases entries, 0nat,
{
    let input = encoded_pairs(endianess, width, entries)->0.subrange(0, n);
    if entries.len() > 0 {
        let first = entries[0];
        let rest = entries.drop_first();
        let key = encoded(endianess, width, first.0)->0;
        let value = encoded(endianess, width, first.1)->0;
        let others = encoded_pairs(endianess, width, rest)->0;
        assert(entry_fits(first, mapping));
        assert(encoded(endianess, width, first.0) is Some && encoded(endianess, width, first.1)
            is Some && encoded_pairs(endianess, width, rest) is Some);
        assert(encoded_pairs(endianess, width, entries)->0 =~= key + (value + others));
        if n < key.len() {
            assert(fails_with(
                decoded(endianess, width, *mapping->Mapping_0, input),
                Fault::InvalidLength,
            )) by {
                lemma_entry_fits(first, mapping);
                lemma_truncated(endianess, width, first.0, *mapping->Mapping_0, n);
                assert(input =~= key.subrange(0, n));
            }
            lemma_pairs_fail_at_key(
                endianess,
                width,
                mapping,
                entries.len(),
                input,
                Fault::InvalidLength,
            );
        } else if n < key.len() + value.len() {
            let kept = value.subrange(0, n - key.len());
            assert(gives(decoded(endianess, width, *mapping->Mapping_0, input), first.0, kept)) by {
                lemma_entry_fits(first, mapping);
                lemma_round_trip(endianess, width, first.0, *mapping->Mapping_0, kept);
                assert(input =~= key + kept);
            }
            assert(fails_with(
                decoded(endianess, width, *mapping->Mapping_1, kept),
                Fault::InvalidLength,
            )) by {
                lemma_entry_fits(first, mapping);
                lemma_truncated(endianess, width, first.1, *mapping->Mapping_1, n - key.len());
            }
            lemma_pairs_fail_at_value(
                endianess,
                width,
                mapping,
                entries.len(),
                input,
                first.0,
                kept,
                Fault::InvalidLength,
            );
        } else {
            let kept = others.subrange(0, n - key.len() - value.len());
            assert(gives(
                decoded(endianess, width, *mapping->Mapping_0, input),
                first.0,
                value + kept,
            )) by {
                lemma_entry_fits(first, mapping);
                lemma_round_trip(endianess, width, first.0, *mapping->Mapping_0, value + kept);
                assert(input =~= key + (value + kept));
            }
            assert(gives(
                decoded(endianess, width, *mapping->Mapping_1, value + kept),
                first.1,
                kept,
            )) by {
                lemma_entry_fits(first, mapping);
                lemma_round_trip(endianess, width, first.1, *mapping->Mapping_1, kept);
            }
            assert forall|i: int| 0 <= i < rest.len() implies entry_fits(
                #[trigger] rest[i],
                mapping,
            ) by {
                assert(rest[i] == entries[i + 1]);
            }
            lemma_truncated_pairs(endianess, width, rest, mapping, n - key.len() - value.len());
            lemma_pairs_fail_later(
                endianess,
                width,
                mapping,
                entries.len(),
                input,
                first.0,
                value + kept,
                first.1,
                kept,
                Fault::InvalidLength,
            );
        }
    }
}

/// Decoding is directed by the kind: what is decoded under a kind is a
/// value of that kind.
#[verifier::rlimit(60)]
pub proof fn lemma_decoded_conforms(
    endianess: Endianess,
    width: LengthWidth,
    kind: Shape,
    input: Seq<u8>,
)
    requires
        decoded(endianess, width, kind, input) is Ok,
    ensures
        conforms(decoded(endianess, width, kind, input)->Ok_0.0, kind),
    decreases kind, 1nat, 0nat,
{
    match kind {
        Shape::Optional(inner) => {
            if input[0] == 1 {
                lemma_decoded_conforms(endianess, width, *inner, input.drop_first());
            }
        },
        Shape::Newtype(inner) => {
            lemma_decoded_conforms(endianess, width, *inner, input);
        },
        Shape::Tuple(kinds) => {
            lemma_decoded_all_conforms(endianess, width, kinds, input);
        },
        Shape::Sequence(inner) => {
            let (count, body) = take_len(endianess, width, input)->Ok_0;
            lemma_decoded_repeat_conforms(endianess, width, *inner, count, body);
        },
        Shape::Mapping(key, value) => {
            let (count, body) = take_len(endianess, width, input)->Ok_0;
            lemma_decoded_pairs_conform(endianess, width, kind, count, body);
            let entries = decoded_pairs(endianess, width, kind, count, body)->Ok_0.0;
            assert forall|i: int| 0 <= i < entries.len() implies conforms(
                (#[trigger] entries[i]).0,
                *key,
            ) && conforms(entries[i].1, *value) by {}
        },
        Shape::Enum(variants) => {
            lemma_decoded_conforms(endianess, width, variants[input[0] as int], input.drop_first());
        },
        _ => {},
    }
}

/// What is decoded under a run of kinds is a run of values of those kinds.
#[verifier::rlimit(60)]
pub proof fn lemma_decoded_all_conforms(
    endianess: Endianess,
    width: LengthWidth,
    kinds: Seq<Shape>,
    input: Seq<u8>,
)
    requires
        decoded_all(endianess, width, kinds, input) is Ok,
    ensures
        decoded_all(endianess, width, kinds, input)->Ok_0.0.len() == kinds.len(),
        forall|i: int|
            0 <= i < kinds.len() ==> conforms(
                #[trigger] decoded_all(endianess, width, kinds, input)->Ok_0.0[i],
                kinds[i],
            ),
    decreases kinds, 0nat, 0nat,
{
    if kinds.len() > 0 {
        let (first, rest) = decoded(endianess, width, kinds[0], input)->Ok_0;
        lemma_decoded_conforms(endianess, width, kinds[0], input);
        lemma_decoded_all_conforms(endianess, width, kinds.drop_first(), rest);
        let others = decoded_all(endianess, width, kinds.drop_first(), rest)->Ok_0.0;
        let all = decoded_all(endianess, width, kinds, input)->Ok_0.0;
        assert(all =~= seq![first] + others);
        assert forall|i: int| 0 <= i < kinds.len() implies conforms(
            #[trigger] all[i],
            kinds[i],
        ) by {
            if i > 0 {
                assert(all[i] == others[i - 1]);
                assert(kinds.drop_first()[i - 1] == kinds[i]);
            }
        }
    }
}

/// What is decoded as a run of one kind is a run of values of that kind,
/// as many as were asked for.
#[verifier::rlimit(60)]
pub proof fn lemma_decoded_repeat_conforms(
    endianess: Endianess,
    width: LengthWidth,
    kind: Shape,
    count: nat,
    input: Seq<u8>,
)
    requires
        decoded_repeat(endianess, width, kind, count, input) is Ok,
    ensures
        decoded_repeat(endianess, width, kind, count, input)->Ok_0.0.len() == count,
        forall|i: int|
            0 <= i < count ==> conforms(
                #[trigger] decoded_repeat(endianess, width, kind, count, input)->Ok_0.0[i],
                kind,
            ),
    decreases kind, 2nat, count,
{
    if count > 0 {
        let (first, rest) = decoded(endianess, width, kind, input)->Ok_0;
        lemma_decoded_conforms(endianess, width, kind, input);
        lemma_decoded_repeat_conforms(endianess, width, kind, (count - 1) as nat, rest);
        let others = decoded_repeat(endianess, width, kind, (count - 1) as nat, rest)->Ok_0.0;
        let all = decoded_repeat(endianess, width, kind, count, input)->Ok_0.0;
        assert(all =~= seq![first] + others);
        assert forall|i: int| 0 <= i < count implies conforms(#[trigger] all[i], kind) by {
            if i > 0 {
                assert(all[i] == others[i - 1]);
            }
        }
    }
}

/// What is decoded as a run of pairs under a mapping kind is a run of keys
/// and values of the kinds that the mapping kind names, as many as were
/// asked for.
#[verifier::rlimit(60)]
pub proof fn lemma_decoded_pairs_conform(
    endianess: Endianess,
    width: LengthWidth,
    mapping: Shape,
    count: nat,
    input: Seq<u8>,
)
    requires
        mapping is Mapping,
        decoded_pairs(endianess, width, mapping, count, input) is Ok,
    ensures
        decoded_pairs(endianess, width, mapping, count, input)->Ok_0.0.len() == count,
        forall|i: int|
            0 <= i < count ==> conforms(
                (#[trigger] decoded_pairs(endianess, width, mapping, count, input)->Ok_0.0[i]).0,
                *mapping->Mapping_0,
            ) && conforms(
                decoded_pairs(endianess, width, mapping, count, input)->Ok_0.0[i].1,
                *mapping->Mapping_1,
            ),
    decreases mapping, 0nat, count,
{
    if count > 0 {
        let (key, after_key) = decoded(endianess, width, *mapping->Mapping_0, input)->Ok_0;
        let (value, rest) = decoded(endianess, width, *mapping->Mapping_1, after_key)->Ok_0;
        lemma_decoded_conforms(endianess, width, *mapping->Mapping_0, input);
        lemma_decoded_conforms(endianess, width, *mapping->Mapping_1, after_key);
        lemma_decoded_pairs_conform(endianess, width, mapping, (count - 1) as nat, rest);
        let others = decoded_pairs(endianess, width, mapping, (count - 1) as nat, rest)->Ok_0.0;
        let all = decoded_pairs(endianess, width, mapping, count, input)->Ok_0.0;
        assert(all =~= seq![(key, value)] + others);
        assert forall|i: int| 0 <= i < count implies conforms(
            (#[trigger] all[i]).0,
            *mapping->Mapping_0,
        ) && conforms(all[i].1, *mapping->Mapping_1) by {
            if i > 0 {
                assert(all[i] == others[i - 1]);
            }
        }
    }
}

} // verus!
