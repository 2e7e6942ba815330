//! The values that the codec carries, their mathematical model and the kinds
//! that direct decoding.

use vstd::prelude::*;

verus! {

/// A value in memory. Text and byte strings come in a borrowed and an owned
/// form; both have the same wire form. Floats are held as their IEEE-754 bit
/// patterns.
#[derive(Debug, PartialEq, Eq)]
pub enum Value<'a> {
    Bool(bool),
    U8(u8),
    U16(u16),
    U32(u32),
    U64(u64),
    U128(u128),
    I8(i8),
    I16(i16),
    I32(i32),
    I64(i64),
    I128(i128),
    /// An IEEE-754 single, as its bit pattern.
    F32(u32),
    /// An IEEE-754 double, as its bit pattern.
    F64(u64),
    Char(char),
    /// Text borrowed from its source.
    Str(&'a str),
    /// Text that owns its buffer.
    String(String),
    /// Bytes borrowed from their source.
    Bytes(&'a [u8]),
    /// Bytes that own their buffer.
    ByteBuf(Vec<u8>),
    Optional(Option<Box<Value<'a>>>),
    Unit,
    Newtype(Box<Value<'a>>),
    /// A tuple or a structure: fields in declaration order.
    Tuple(Vec<Value<'a>>),
    Sequence(Vec<Value<'a>>),
    Mapping(Vec<(Value<'a>, Value<'a>)>),
    /// One arm of a sum type: its index and its payload.
    Variant(u32, Box<Value<'a>>),
}

/// What a value is, apart from how memory holds it.
pub enum Datum {
    Bool(bool),
    U8(u8),
    U16(u16),
    U32(u32),
    U64(u64),
    U128(u128),
    I8(i8),
    I16(i16),
    I32(i32),
    I64(i64),
    I128(i128),
    F32(u32),
    F64(u64),
    Char(char),
    Text(Seq<char>),
    Blob(Seq<u8>),
    Optional(Option<Box<Datum>>),
    Unit,
    Newtype(Box<Datum>),
    Tuple(Seq<Datum>),
    Sequence(Seq<Datum>),
    Mapping(Seq<(Datum, Datum)>),
    Variant(u32, Box<Datum>),
}

impl<'a> Value<'a> {
    /// The model of this value.
    pub open spec fn datum(self) -> Datum
        decreases self,
    {
        match self {
            Value::Bool(b) => Datum::Bool(b),
            Value::U8(x) => Datum::U8(x),
            Value::U16(x) => Datum::U16(x),
            Value::U32(x) => Datum::U32(x),
            Value::U64(x) => Datum::U64(x),
            Value::U128(x) => Datum::U128(x),
            Value::I8(x) => Datum::I8(x),
            Value::I16(x) => Datum::I16(x),
            Value::I32(x) => Datum::I32(x),
            Value::I64(x) => Datum::I64(x),
            Value::I128(x) => Datum::I128(x),
            Value::F32(x) => Datum::F32(x),
            Value::F64(x) => Datum::F64(x),
            Value::Char(c) => Datum::Char(c),
            Value::Str(s) => Datum::Text(s@),
            Value::String(s) => Datum::Text(s@),
            Value::Bytes(b) => Datum::Blob(b@),
            Value::ByteBuf(b) => Datum::Blob(b@),
            Value::Optional(None) => Datum::Optional(None),
            Value::Optional(Some(inner)) => Datum::Optional(Some(Box::new((*inner).datum()))),
            Value::Unit => Datum::Unit,
            Value::Newtype(inner) => Datum::Newtype(Box::new((*inner).datum())),
            Value::Tuple(items) => Datum::Tuple(view_all(items@)),
            Value::Sequence(items) => Datum::Sequence(view_all(items@)),
            Value::Mapping(entries) => Datum::Mapping(view_pairs(entries@)),
            Value::Variant(index, payload) => Datum::Variant(index, Box::new((*payload).datum())),
        }
    }
}

impl<'a> View for Value<'a> {
    type V = Datum;

    open spec fn view(&self) -> Datum {
        self.datum()
    }
}

/// The models of a run of values.
pub open spec fn view_all<'a>(items: Seq<Value<'a>>) -> Seq<Datum>
    decreases items,
{
    if items.len() == 0 {
        Seq::empty()
    } else {
        seq![items[0].datum()] + view_all(items.drop_first())
    }
}

/// The models of a run of key-value pairs.
pub open spec fn view_pairs<'a>(entries: Seq<(Value<'a>, Value<'a>)>) -> Seq<(Datum, Datum)>
    decreases entries,
{
    if entries.len() == 0 {
        Seq::empty()
    } else {
        seq![(entries[0].0.datum(), entries[0].1.datum())] + view_pairs(entries.drop_first())
    }
}

/// The model of a run of values has the model of each value at its place.
pub proof fn lemma_view_all<'a>(items: Seq<Value<'a>>)
    ensures
        view_all(items).len() == items.len(),
        forall|i: int| 0 <= i < items.len() ==> (#[trigger] view_all(items)[i]) == items[i].datum(),
    decreases items.len(),
{
    if items.len() > 0 {
        lemma_view_all(items.drop_first());
        assert forall|i: int| 0 <= i < items.len() implies (#[trigger] view_all(items)[i])
            == items[i].datum() by {
            if i > 0 {
                assert(view_all(items)[i] == view_all(items.drop_first())[i - 1]);
                assert(items.drop_first()[i - 1] == items[i]);
            }
        }
    }
}

/// The model of a run of pairs has the models of each pair at its place.
pub proof fn lemma_view_pairs<'a>(entries: Seq<(Value<'a>, Value<'a>)>)
    ensures
        view_pairs(entries).len() == entries.len(),
        forall|i: int|
            0 <= i < entries.len() ==> (#[trigger] view_pairs(entries)[i]) == (
                entries[i].0.datum(),
                entries[i].1.datum(),
            ),
    decreases entries.len(),
{
    if entries.len() > 0 {
        lemma_view_pairs(entries.drop_first());
        assert forall|i: int| 0 <= i < entries.len() implies (#[trigger] view_pairs(entries)[i])
            == (entries[i].0.datum(), entries[i].1.datum()) by {
            if i > 0 {
                assert(view_pairs(entries)[i] == view_pairs(entries.drop_first())[i - 1]);
                assert(entries.drop_first()[i - 1] == entries[i]);
            }
        }
    }
}

/// The model of a run with one more value is the model of the run with the
/// model of that value after it.
pub proof fn lemma_view_all_push<'a>(items: Seq<Value<'a>>, last: Value<'a>)
    ensures
        view_all(items.push(last)) == view_all(items).push(last.datum()),
{
    lemma_view_all(items);
    lemma_view_all(items.push(last));
    assert(view_all(items.push(last)) =~= view_all(items).push(last.datum()));
}

/// The model of a run with one more pair is the model of the run with the
/// models of that pair after it.
pub proof fn lemma_view_pairs_push<'a>(
    entries: Seq<(Value<'a>, Value<'a>)>,
    last: (Value<'a>, Value<'a>),
)
    ensures
        view_pairs(entries.push(last)) == view_pairs(entries).push(
            (last.0.datum(), last.1.datum()),
        ),
{
    lemma_view_pairs(entries);
    lemma_view_pairs(entries.push(last));
    assert(view_pairs(entries.push(last)) =~= view_pairs(entries).push(
        (last.0.datum(), last.1.datum()),
    ));
}

/// What the caller expects next on the wire. Decoding is directed by the
/// kind alone, never by the bytes.
#[derive(Debug, PartialEq, Eq)]
pub enum Kind {
    Bool,
    U8,
    U16,
    U32,
    U64,
    U128,
    I8,
    I16,
    I32,
    I64,
    I128,
    F32,
    F64,
    Char,
    /// Text, handed out as a borrow of the input.
    Str,
    /// Text, handed out as an owned copy.
    String,
    /// Bytes, handed out as a borrow of the input.
    Bytes,
    /// Bytes, handed out as an owned copy.
    ByteBuf,
    Optional(Box<Kind>),
    Unit,
    Newtype(Box<Kind>),
    /// A tuple or a structure: the kinds of its fields in declaration order.
    Tuple(Vec<Kind>),
    Sequence(Box<Kind>),
    Mapping(Box<Kind>, Box<Kind>),
    /// A sum type: the kind of each arm's payload, by variant index.
    Enum(Vec<Kind>),
    /// A value that describes itself; the wire format has none.
    Any,
    /// A value to be skipped without a description; the wire format has none.
    IgnoredAny,
}

/// What a kind says, apart from how memory holds it.
pub enum Shape {
    Bool,
    U8,
    U16,
    U32,
    U64,
    U128,
    I8,
    I16,
    I32,
    I64,
    I128,
    F32,
    F64,
    Char,
    Str,
    String,
    Bytes,
    ByteBuf,
    Optional(Box<Shape>),
    Unit,
    Newtype(Box<Shape>),
    Tuple(Seq<Shape>),
    Sequence(Box<Shape>),
    Mapping(Box<Shape>, Box<Shape>),
    Enum(Seq<Shape>),
    Any,
    IgnoredAny,
}

impl Kind {
    /// The model of this kind.
    pub open spec fn shape(self) -> Shape
        decreases self,
    {
        match self {
            Kind::Bool => Shape::Bool,
            Kind::U8 => Shape::U8,
            Kind::U16 => Shape::U16,
            Kind::U32 => Shape::U32,
            Kind::U64 => Shape::U64,
            Kind::U128 => Shape::U128,
            Kind::I8 => Shape::I8,
            Kind::I16 => Shape::I16,
            Kind::I32 => Shape::I32,
            Kind::I64 => Shape::I64,
            Kind::I128 => Shape::I128,
            Kind::F32 => Shape::F32,
            Kind::F64 => Shape::F64,
            Kind::Char => Shape::Char,
            Kind::Str => Shape::Str,
            Kind::String => Shape::String,
            Kind::Bytes => Shape::Bytes,
            Kind::ByteBuf => Shape::ByteBuf,
            Kind::Optional(inner) => Shape::Optional(Box::new((*inner).shape())),
            Kind::Unit => Shape::Unit,
            Kind::Newtype(inner) => Shape::Newtype(Box::new((*inner).shape())),
            Kind::Tuple(kinds) => Shape::Tuple(shape_all(kinds@)),
            Kind::Sequence(inner) => Shape::Sequence(Box::new((*inner).shape())),
            Kind::Mapping(key, value) => Shape::Mapping(
                Box::new((*key).shape()),
                Box::new((*value).shape()),
            ),
            Kind::Enum(variants) => Shape::Enum(shape_all(variants@)),
            Kind::Any => Shape::Any,
            Kind::IgnoredAny => Shape::IgnoredAny,
        }
    }
}

impl<'a> Value<'a> {
    /// Whether the texts and byte strings in this value are held as `shape`
    /// asks: as borrows where it names a borrowing kind, as copies where it
    /// names an owning kind.
    pub open spec fn held_as(self, shape: Shape) -> bool
        decreases self,
    {
        match shape {
            Shape::Str => self is Str,
            Shape::String => self is String,
            Shape::Bytes => self is Bytes,
            Shape::ByteBuf => self is ByteBuf,
            Shape::Optional(inner) => match self {
                Value::Optional(Some(value)) => (*value).held_as(*inner),
                _ => true,
            },
            Shape::Newtype(inner) => match self {
                Value::Newtype(value) => (*value).held_as(*inner),
                _ => true,
            },
            Shape::Tuple(shapes) => match self {
                Value::Tuple(items) => forall|i: int|
                    0 <= i < items@.len() && i < shapes.len() ==> (#[trigger] items@[i]).held_as(
                        shapes[i],
                    ),
                _ => true,
            },
            Shape::Sequence(inner) => match self {
                Value::Sequence(items) => forall|i: int|
                    0 <= i < items@.len() ==> (#[trigger] items@[i]).held_as(*inner),
                _ => true,
            },
            Shape::Mapping(key, value) => match self {
                Value::Mapping(entries) => forall|i: int|
                    0 <= i < entries@.len() ==> (#[trigger] entries@[i]).0.held_as(*key)
                        && entries@[i].1.held_as(*value),
                _ => true,
            },
            Shape::Enum(variants) => match self {
                Value::Variant(index, payload) => index < variants.len() ==> (*payload).held_as(
                    variants[index as int],
                ),
                _ => true,
            },
            _ => true,
        }
    }
}

impl View for Kind {
    type V = Shape;

    open spec fn view(&self) -> Shape {
        self.shape()
    }
}

/// The models of a run of kinds.
pub open spec fn shape_all(kinds: Seq<Kind>) -> Seq<Shape>
    decreases kinds,
{
    if kinds.len() == 0 {
        Seq::empty()
    } else {
        seq![kinds[0].shape()] + shape_all(kinds.drop_first())
    }
}

/// The model of a run of kinds has the model of each kind at its place.
pub proof fn lemma_shape_all(kinds: Seq<Kind>)
    ensures
        shape_all(kinds).len() == kinds.len(),
        forall|i: int|
            0 <= i < kinds.len() ==> (#[trigger] shape_all(kinds)[i]) == kinds[i].shape(),
    decreases kinds.len(),
{
    if kinds.len() > 0 {
        lemma_shape_all(kinds.drop_first());
        assert forall|i: int| 0 <= i < kinds.len() implies (#[trigger] shape_all(kinds)[i])
            == kinds[i].shape() by {
            if i > 0 {
                assert(shape_all(kinds)[i] == shape_all(kinds.drop_first())[i - 1]);
                assert(kinds.drop_first()[i - 1] == kinds[i]);
            }
        }
    }
}

} // verus!