//! The messages that a measuring device and its host exchange.

use crate::config::AglioConfig;
use crate::error::{DeserializeError, Fault, SerializeError};
use crate::format::{addressable, conforms, deserialized, serialized, unpacked};
use crate::frame::{deserialize, serialize};
use crate::laws::lemma_decoded_conforms;
use crate::value::{
    lemma_shape_all, lemma_view_all, lemma_view_all_push, shape_all, view_all, Datum, Kind, Shape,
    Value,
};
use vstd::prelude::*;

verus! {

/// The fields of `value`, where it is a tuple or a structure of `arity`
/// fields.
fn fields_of<'v, 'a>(value: &'v Value<'a>, arity: usize) -> (r: Option<&'v Vec<Value<'a>>>)
    ensures
        match r {
            Some(items) => value@ == Datum::Tuple(view_all(items@)) && items@.len() == arity
                && view_all(items@).len() == arity,
            None => !(value@ is Tuple && value@->Tuple_0.len() == arity),
        },
{
    match value {
        Value::Tuple(items) => {
            proof {
                lemma_view_all(items@);
            }
            if items.len() == arity {
                Some(items)
            } else {
                None
            }
        },
        _ => None,
    }
}

/// The number in `value`, where it is an unsigned integer of one byte.
fn u8_of(value: &Value) -> (r: Option<u8>)
    ensures
        match r {
            Some(x) => value@ == Datum::U8(x),
            None => !(value@ is U8),
        },
{
    match value {
        Value::U8(x) => Some(*x),
        _ => None,
    }
}

/// The number in `value`, where it is an unsigned integer of two bytes.
fn u16_of(value: &Value) -> (r: Option<u16>)
    ensures
        match r {
            Some(x) => value@ == Datum::U16(x),
            None => !(value@ is U16),
        },
{
    match value {
        Value::U16(x) => Some(*x),
        _ => None,
    }
}

/// The number in `value`, where it is an unsigned integer of four bytes.
fn u32_of(value: &Value) -> (r: Option<u32>)
    ensures
        match r {
            Some(x) => value@ == Datum::U32(x),
            None => !(value@ is U32),
        },
{
    match value {
        Value::U32(x) => Some(*x),
        _ => None,
    }
}

/// The unit as a value of the codec.
fn unit_value<'a>() -> (value: Value<'a>)
    ensures
        value@ == Datum::Unit,
        conforms(value@, Shape::Unit),
{
    Value::Unit
}

/// A copy of the text in `value`, where it is a text of either form.
fn text_of(value: &Value) -> (r: Option<String>)
    ensures
        match r {
            Some(text) => value@ == Datum::Text(text@),
            None => !(value@ is Text),
        },
{
    match value {
        Value::Str(text) => Some((*text).to_owned()),
        Value::String(text) => Some(text.clone()),
        _ => None,
    }
}

/// A three-part version number.
#[derive(Debug, Clone, Copy)]
pub struct Version {
    major: u8,
    minor: u8,
    patch: u8,
}

impl Version {
    /// The first part.
    pub closed spec fn spec_major(&self) -> u8 {
        self.major
    }

    /// The second part.
    pub closed spec fn spec_minor(&self) -> u8 {
        self.minor
    }

    /// The third part.
    pub closed spec fn spec_patch(&self) -> u8 {
        self.patch
    }

    /// The version `major.minor.patch`.
    pub fn new(major: u8, minor: u8, patch: u8) -> (version: Self)
        ensures
            version.major() == major,
            version.minor() == minor,
            version.patch() == patch,
    {
        Self { major, minor, patch }
    }

    /// The first part.
    #[verifier::when_used_as_spec(spec_major)]
    pub fn major(&self) -> (part: u8)
        ensures
            part == self.spec_major(),
    {
        self.major
    }

    /// The second part.
    #[verifier::when_used_as_spec(spec_minor)]
    pub fn minor(&self) -> (part: u8)
        ensures
            part == self.spec_minor(),
    {
        self.minor
    }

    /// The third part.
    #[verifier::when_used_as_spec(spec_patch)]
    pub fn patch(&self) -> (part: u8)
        ensures
            part == self.spec_patch(),
    {
        self.patch
    }

    /// The version as the codec carries it: a structure of its three parts.
    pub open spec fn datum(&self) -> Datum {
        Datum::Tuple(
            seq![
                Datum::U8(self.spec_major()),
                Datum::U8(self.spec_minor()),
                Datum::U8(self.spec_patch()),
            ],
        )
    }

    /// The kind of a version: a structure of three bytes.
    pub open spec fn shape() -> Shape {
        Shape::Tuple(seq![Shape::U8, Shape::U8, Shape::U8])
    }

    /// The version as a value of the codec.
    pub fn to_value<'a>(&self) -> (value: Value<'a>)
        ensures
            value@ == self.datum(),
            conforms(value@, Version::shape()),
    {
        let mut items: Vec<Value<'a>> = Vec::new();
        items.push(Value::U8(self.major));
        items.push(Value::U8(self.minor));
        items.push(Value::U8(self.patch));
        proof {
            lemma_view_all(items@);
            let fields = view_all(items@);
            assert(fields =~= self.datum()->Tuple_0);
            assert(conforms(fields[0], Shape::U8));
            assert(conforms(fields[1], Shape::U8));
            assert(conforms(fields[2], Shape::U8));
        }
        Value::Tuple(items)
    }

    /// The kind under which a version is decoded.
    pub fn kind() -> (kind: Kind)
        ensures
            kind@ == Version::shape(),
    {
        let mut kinds: Vec<Kind> = Vec::new();
        kinds.push(Kind::U8);
        kinds.push(Kind::U8);
        kinds.push(Kind::U8);
        proof {
            lemma_shape_all(kinds@);
            assert(shape_all(kinds@) =~= Version::shape()->Tuple_0);
        }
        Kind::Tuple(kinds)
    }

    /// The version that `value` carries; `None` exactly when `value` is not
    /// of the kind of a version.
    pub fn from_value(value: &Value) -> (r: Option<Version>)
        ensures
            match r {
                Some(version) => conforms(value@, Version::shape()) && version.datum() == value@,
                None => !conforms(value@, Version::shape()),
            },
    {
        let items = match fields_of(value, 3) {
            Some(items) => items,
            None => {
                return None;
            },
        };
        let ghost fields = view_all(items@);
        proof {
            lemma_view_all(items@);
        }
        let major = match u8_of(&items[0]) {
            Some(x) => x,
            None => {
                assert(!conforms(fields[0], Shape::U8));
                return None;
            },
        };
        let minor = match u8_of(&items[1]) {
            Some(x) => x,
            None => {
                assert(!conforms(fields[1], Shape::U8));
                return None;
            },
        };
        let patch = match u8_of(&items[2]) {
            Some(x) => x,
            None => {
                assert(!conforms(fields[2], Shape::U8));
                return None;
            },
        };
        let version = Version { major, minor, patch };
        proof {
            assert(fields =~= version.datum()->Tuple_0);
            assert(conforms(fields[0], Shape::U8));
            assert(conforms(fields[1], Shape::U8));
            assert(conforms(fields[2], Shape::U8));
        }
        Some(version)
    }
}

/// The kinds of message that a device sends.
#[derive(Debug, Clone, Copy, PartialEq, Eq, Structural)]
pub enum MessageType {
    Id,
    MeasureData,
    MetaData,
}

/// What identifies a device.
#[derive(Debug, Clone)]
pub struct Id {
    serial: String,
    device_type: String,
    sample_rate: u32,
    hw_version: Version,
    sw_version: Version,
    sw_git_hash: String,
}

impl Id {
    /// The serial number.
    pub closed spec fn spec_serial(&self) -> Seq<char> {
        self.serial@
    }

    /// The type of the device.
    pub closed spec fn spec_device_type(&self) -> Seq<char> {
        self.device_type@
    }

    /// Samples per second.
    pub closed spec fn spec_sample_rate(&self) -> u32 {
        self.sample_rate
    }

    /// The version of the hardware.
    pub closed spec fn spec_hw_version(&self) -> Version {
        self.hw_version
    }

    /// The version of the firmware.
    pub closed spec fn spec_sw_version(&self) -> Version {
        self.sw_version
    }

    /// The commit that the firmware was built from.
    pub closed spec fn spec_sw_git_hash(&self) -> Seq<char> {
        self.sw_git_hash@
    }

    /// The identification with the given parts.
    pub fn new(
        serial: String,
        device_type: String,
        sample_rate: u32,
        hw_version: Version,
        sw_version: Version,
        sw_git_hash: String,
    ) -> (id: Self)
        ensures
            id.spec_serial() == serial@,
            id.spec_device_type() == device_type@,
            id.spec_sample_rate() == sample_rate,
            id.spec_hw_version() == hw_version,
            id.spec_sw_version() == sw_version,
            id.spec_sw_git_hash() == sw_git_hash@,
    {
        Self { serial, device_type, sample_rate, hw_version, sw_version, sw_git_hash }
    }

    /// The serial number.
    pub fn serial(&self) -> (text: &String)
        ensures
            text@ == self.spec_serial(),
    {
        &self.serial
    }

    /// The type of the device.
    pub fn device_type(&self) -> (text: &String)
        ensures
            text@ == self.spec_device_type(),
    {
        &self.device_type
    }

    /// Samples per second.
    #[verifier::when_used_as_spec(spec_sample_rate)]
    pub fn sample_rate(&self) -> (rate: u32)
        ensures
            rate == self.spec_sample_rate(),
    {
        self.sample_rate
    }

    /// The version of the hardware.
    #[verifier::when_used_as_spec(spec_hw_version)]
    pub fn hw_version(&self) -> (version: Version)
        ensures
            version == self.spec_hw_version(),
    {
        self.hw_version
    }

    /// The version of the firmware.
    #[verifier::when_used_as_spec(spec_sw_version)]
    pub fn sw_version(&self) -> (version: Version)
        ensures
            version == self.spec_sw_version(),
    {
        self.sw_version
    }

    /// The commit that the firmware was built from.
    pub fn sw_git_hash(&self) -> (text: &String)
        ensures
            text@ == self.spec_sw_git_hash(),
    {
        &self.sw_git_hash
    }

    /// The identification as the codec carries it: a structure of its six
    /// parts in the order of their declaration.
    pub open spec fn datum(&self) -> Datum {
        Datum::Tuple(
            seq![
                Datum::Text(self.spec_serial()),
                Datum::Text(self.spec_device_type()),
                Datum::U32(self.spec_sample_rate()),
                self.spec_hw_version().datum(),
                self.spec_sw_version().datum(),
                Datum::Text(self.spec_sw_git_hash()),
            ],
        )
    }

    /// The kind of an identification.
    pub open spec fn shape() -> Shape {
        Shape::Tuple(
            seq![
                Shape::String,
                Shape::String,
                Shape::U32,
                Version::shape(),
                Version::shape(),
                Shape::String,
            ],
        )
    }

    /// The identification as a value of the codec; its texts are borrowed.
    pub fn to_value<'a>(&'a self) -> (value: Value<'a>)
        ensures
            value@ == self.datum(),
            conforms(value@, Id::shape()),
    {
        let mut items: Vec<Value<'a>> = Vec::new();
        items.push(Value::Str(self.serial.as_str()));
        items.push(Value::Str(self.device_type.as_str()));
        items.push(Value::U32(self.sample_rate));
        items.push(self.hw_version.to_value());
        items.push(self.sw_version.to_value());
        items.push(Value::Str(self.sw_git_hash.as_str()));
        proof {
            lemma_view_all(items@);
            let fields = view_all(items@);
            assert(fields =~= self.datum()->Tuple_0);
            assert(conforms(fields[0], Shape::String));
            assert(conforms(fields[1], Shape::String));
            assert(conforms(fields[2], Shape::U32));
            assert(conforms(fields[5], Shape::String));
        }
        Value::Tuple(items)
    }

    /// The kind under which an identification is decoded.
    pub fn kind() -> (kind: Kind)
        ensures
            kind@ == Id::shape(),
    {
        let mut kinds: Vec<Kind> = Vec::new();
        kinds.push(Kind::String);
        kinds.push(Kind::String);
        kinds.push(Kind::U32);
        kinds.push(Version::kind());
        kinds.push(Version::kind());
        kinds.push(Kind::String);
        proof {
            lemma_shape_all(kinds@);
            assert(shape_all(kinds@) =~= Id::shape()->Tuple_0);
        }
        Kind::Tuple(kinds)
    }

    /// The identification that `value` carries; `None` exactly when `value`
    /// is not of the kind of an identification.
    pub fn from_value(value: &Value) -> (r: Option<Id>)
        ensures
            match r {
                Some(id) => conforms(value@, Id::shape()) && id.datum() == value@,
                None => !conforms(value@, Id::shape()),
            },
    {
        let items = match fields_of(value, 6) {
            Some(items) => items,
            None => {
                return None;
            },
        };
        let ghost fields = view_all(items@);
        proof {
            lemma_view_all(items@);
        }
        let serial = match text_of(&items[0]) {
            Some(x) => x,
            None => {
                assert(!conforms(fields[0], Shape::String));
                return None;
            },
        };
        let device_type = match text_of(&items[1]) {
            Some(x) => x,
            None => {
                assert(!conforms(fields[1], Shape::String));
                return None;
            },
        };
        let sample_rate = match u32_of(&items[2]) {
            Some(x) => x,
            None => {
                assert(!conforms(fields[2], Shape::U32));
                return None;
            },
        };
        let hw_version = match Version::from_value(&items[3]) {
            Some(x) => x,
            None => {
                assert(!conforms(fields[3], Version::shape()));
                return None;
            },
        };
        let sw_version = match Version::from_value(&items[4]) {
            Some(x) => x,
            None => {
                assert(!conforms(fields[4], Version::shape()));
                return None;
            },
        };
        let sw_git_hash = match text_of(&items[5]) {
            Some(x) => x,
            None => {
                assert(!conforms(fields[5], Shape::String));
                return None;
            },
        };
        let id = Id { serial, device_type, sample_rate, hw_version, sw_version, sw_git_hash };
        proof {
            assert(fields =~= id.datum()->Tuple_0);
            assert(conforms(fields[0], Shape::String));
            assert(conforms(fields[1], Shape::String));
            assert(conforms(fields[2], Shape::U32));
            assert(conforms(fields[3], Version::shape()));
            assert(conforms(fields[4], Version::shape()));
            assert(conforms(fields[5], Shape::String));
        }
        Some(id)
    }
}

/// The marker that opens a frame of samples.
#[derive(Debug, Clone, Copy)]
pub struct StartOfFrame {
    pub content: u16,
}

impl StartOfFrame {
    /// The marker as the codec carries it: a structure of one field.
    pub open spec fn datum(&self) -> Datum {
        Datum::Tuple(seq![Datum::U16(self.content)])
    }

    /// The kind of a marker.
    pub open spec fn shape() -> Shape {
        Shape::Tuple(seq![Shape::U16])
    }

    /// The marker as a value of the codec.
    pub fn to_value<'a>(&self) -> (value: Value<'a>)
        ensures
            value@ == self.datum(),
            conforms(value@, StartOfFrame::shape()),
    {
        let mut items: Vec<Value<'a>> = Vec::new();
        items.push(Value::U16(self.content));
        proof {
            lemma_view_all(items@);
            let fields = view_all(items@);
            assert(fields =~= self.datum()->Tuple_0);
            assert(conforms(fields[0], Shape::U16));
        }
        Value::Tuple(items)
    }

    /// The kind under which a marker is decoded.
    pub fn kind() -> (kind: Kind)
        ensures
            kind@ == StartOfFrame::shape(),
    {
        let mut kinds: Vec<Kind> = Vec::new();
        kinds.push(Kind::U16);
        proof {
            lemma_shape_all(kinds@);
            assert(shape_all(kinds@) =~= StartOfFrame::shape()->Tuple_0);
        }
        Kind::Tuple(kinds)
    }

    /// The marker that `value` carries; `None` exactly when `value` is not
    /// of the kind of a marker.
    pub fn from_value(value: &Value) -> (r: Option<StartOfFrame>)
        ensures
            match r {
                Some(sof) => conforms(value@, StartOfFrame::shape()) && sof.datum() == value@,
                None => !conforms(value@, StartOfFrame::shape()),
            },
    {
        let items = match fields_of(value, 1) {
            Some(items) => items,
            None => {
                return None;
            },
        };
        let ghost fields = view_all(items@);
        proof {
            lemma_view_all(items@);
        }
        let content = match u16_of(&items[0]) {
            Some(x) => x,
            None => {
                assert(!conforms(fields[0], Shape::U16));
                return None;
            },
        };
        let sof = StartOfFrame { content };
        proof {
            assert(fields =~= sof.datum()->Tuple_0);
            assert(conforms(fields[0], Shape::U16));
        }
        Some(sof)
    }
}

/// One packet of samples.
#[derive(Debug)]
pub struct MeasureData {
    pub package_counter: u8,
    pub sof: StartOfFrame,
    pub data: Vec<u16>,
}

/// The samples `samples` as the codec carries them.
pub open spec fn sample_data(samples: Seq<u16>) -> Seq<Datum> {
    Seq::new(samples.len(), |i: int| Datum::U16(samples[i]))
}

/// The samples that `value` carries, where it is a sequence of unsigned
/// integers of two bytes.
fn samples_of(value: &Value) -> (r: Option<Vec<u16>>)
    ensures
        match r {
            Some(samples) => value@ == Datum::Sequence(sample_data(samples@)) && conforms(
                value@,
                Shape::Sequence(Box::new(Shape::U16)),
            ),
            None => !conforms(value@, Shape::Sequence(Box::new(Shape::U16))),
        },
{
    let items = match value {
        Value::Sequence(items) => items,
        _ => {
            return None;
        },
    };
    let ghost all = view_all(items@);
    proof {
        lemma_view_all(items@);
    }
    let mut samples: Vec<u16> = Vec::new();
    let mut i: usize = 0;
    while i < items.len()
        invariant
            i <= items.len(),
            all == view_all(items@),
            all.len() == items@.len(),
            forall|j: int| 0 <= j < items@.len() ==> (#[trigger] all[j]) == items@[j].datum(),
            samples@.len() == i,
            forall|j: int| 0 <= j < i ==> (#[trigger] all[j]) == Datum::U16(samples@[j]),
            value@ == Datum::Sequence(all),
        decreases items.len() - i,
    {
        match u16_of(&items[i]) {
            Some(sample) => {
                samples.push(sample);
            },
            None => {
                proof {
                    assert(!conforms(all[i as int], Shape::U16));
                    assert(value@->Sequence_0[i as int] == all[i as int]);
                }
                return None;
            },
        }
        i = i + 1;
    }
    proof {
        assert(all =~= sample_data(samples@));
        assert forall|j: int| 0 <= j < all.len() implies conforms(
            #[trigger] all[j],
            Shape::U16,
        ) by {}
    }
    Some(samples)
}

impl MeasureData {
    /// Whether this packet is passed on to clients: every fiftieth is, by
    /// its counter.
    pub fn is_forwarded(&self) -> (forwarded: bool)
        ensures
            forwarded == (self.package_counter % 50 == 0),
    {
        self.package_counter % 50 == 0
    }

    /// The packet as the codec carries it: a structure of the counter, the
    /// marker and the sequence of samples.
    pub open spec fn datum(&self) -> Datum {
        Datum::Tuple(
            seq![
                Datum::U8(self.package_counter),
                self.sof.datum(),
                Datum::Sequence(sample_data(self.data@)),
            ],
        )
    }

    /// The kind of a packet of samples.
    pub open spec fn shape() -> Shape {
        Shape::Tuple(seq![Shape::U8, StartOfFrame::shape(), Shape::Sequence(Box::new(Shape::U16))])
    }

    /// The packet as a value of the codec.
    pub fn to_value<'a>(&self) -> (value: Value<'a>)
        ensures
            value@ == self.datum(),
            conforms(value@, MeasureData::shape()),
    {
        let mut samples: Vec<Value<'a>> = Vec::new();
        let mut i: usize = 0;
        while i < self.data.len()
            invariant
                i <= self.data.len(),
                view_all(samples@) == sample_data(self.data@.subrange(0, i as int)),
            decreases self.data.len() - i,
        {
            let ghost before = samples@;
            let sample = Value::U16(self.data[i]);
            proof {
                lemma_view_all_push(before, sample);
                assert(view_all(before).push(sample@) =~= sample_data(
                    self.data@.subrange(0, i + 1),
                ));
            }
            samples.push(sample);
            i = i + 1;
        }
        proof {
            assert(self.data@.subrange(0, i as int) =~= self.data@);
        }
        let sequence = Value::Sequence(samples);
        proof {
            let all = sequence@->Sequence_0;
            assert forall|j: int| 0 <= j < all.len() implies conforms(
                #[trigger] all[j],
                Shape::U16,
            ) by {}
            assert(conforms(sequence@, Shape::Sequence(Box::new(Shape::U16))));
        }
        let mut items: Vec<Value<'a>> = Vec::new();
        items.push(Value::U8(self.package_counter));
        items.push(self.sof.to_value());
        items.push(sequence);
        proof {
            lemma_view_all(items@);
            let fields = view_all(items@);
            assert(fields =~= self.datum()->Tuple_0);
            assert(conforms(fields[0], Shape::U8));
            assert(conforms(fields[1], StartOfFrame::shape()));
            assert(conforms(fields[2], Shape::Sequence(Box::new(Shape::U16))));
        }
        Value::Tuple(items)
    }

    /// The kind under which a packet of samples is decoded.
    pub fn kind() -> (kind: Kind)
        ensures
            kind@ == MeasureData::shape(),
    {
        let mut kinds: Vec<Kind> = Vec::new();
        kinds.push(Kind::U8);
        kinds.push(StartOfFrame::kind());
        kinds.push(Kind::Sequence(Box::new(Kind::U16)));
        proof {
            reveal_with_fuel(Kind::shape, 2);
            lemma_shape_all(kinds@);
            assert(shape_all(kinds@) =~= MeasureData::shape()->Tuple_0);
        }
        Kind::Tuple(kinds)
    }

    /// The packet that `value` carries; `None` exactly when `value` is not
    /// of the kind of a packet of samples.
    pub fn from_value(value: &Value) -> (r: Option<MeasureData>)
        ensures
            match r {
                Some(packet) => conforms(value@, MeasureData::shape()) && packet.datum()
                    == value@,
                None => !conforms(value@, MeasureData::shape()),
            },
    {
        let items = match fields_of(value, 3) {
            Some(items) => items,
            None => {
                return None;
            },
        };
        let ghost fields = view_all(items@);
        proof {
            lemma_view_all(items@);
        }
        let package_counter = match u8_of(&items[0]) {
            Some(x) => x,
            None => {
                assert(!conforms(fields[0], Shape::U8));
                return None;
            },
        };
        let sof = match StartOfFrame::from_value(&items[1]) {
            Some(x) => x,
            None => {
                assert(!conforms(fields[1], StartOfFrame::shape()));
                return None;
            },
        };
        let data = match samples_of(&items[2]) {
            Some(x) => x,
            None => {
                assert(!conforms(fields[2], Shape::Sequence(Box::new(Shape::U16))));
                return None;
            },
        };
        let packet = MeasureData { package_counter, sof, data };
        proof {
            assert(fields =~= packet.datum()->Tuple_0);
            assert(conforms(fields[0], Shape::U8));
            assert(conforms(fields[1], StartOfFrame::shape()));
            assert(conforms(fields[2], Shape::Sequence(Box::new(Shape::U16))));
        }
        Some(packet)
    }
}

/// Free-form data that a device stores for its user.
#[derive(Debug, Clone)]
pub struct MetaData {
    pub data: String,
}

impl MetaData {
    /// The data as the codec carries it: a structure of one text.
    pub open spec fn datum(&self) -> Datum {
        Datum::Tuple(seq![Datum::Text(self.data@)])
    }

    /// The kind of free-form data.
    pub open spec fn shape() -> Shape {
        Shape::Tuple(seq![Shape::String])
    }

    /// The data as a value of the codec; the text is borrowed.
    pub fn to_value<'a>(&'a self) -> (value: Value<'a>)
        ensures
            value@ == self.datum(),
            conforms(value@, MetaData::shape()),
    {
        let mut items: Vec<Value<'a>> = Vec::new();
        items.push(Value::Str(self.data.as_str()));
        proof {
            lemma_view_all(items@);
            let fields = view_all(items@);
            assert(fields =~= self.datum()->Tuple_0);
            assert(conforms(fields[0], Shape::String));
        }
        Value::Tuple(items)
    }

    /// The kind under which free-form data is decoded.
    pub fn kind() -> (kind: Kind)
        ensures
            kind@ == MetaData::shape(),
    {
        let mut kinds: Vec<Kind> = Vec::new();
        kinds.push(Kind::String);
        proof {
            lemma_shape_all(kinds@);
            assert(shape_all(kinds@) =~= MetaData::shape()->Tuple_0);
        }
        Kind::Tuple(kinds)
    }

    /// The data that `value` carries; `None` exactly when `value` is not of
    /// the kind of free-form data.
    pub fn from_value(value: &Value) -> (r: Option<MetaData>)
        ensures
            match r {
                Some(meta) => conforms(value@, MetaData::shape()) && meta.datum() == value@,
                None => !conforms(value@, MetaData::shape()),
            },
    {
        let items = match fields_of(value, 1) {
            Some(items) => items,
            None => {
                return None;
            },
        };
        let ghost fields = view_all(items@);
        proof {
            lemma_view_all(items@);
        }
        let data = match text_of(&items[0]) {
            Some(x) => x,
            None => {
                assert(!conforms(fields[0], Shape::String));
                return None;
            },
        };
        let meta = MetaData { data };
        proof {
            assert(fields =~= meta.datum()->Tuple_0);
            assert(conforms(fields[0], Shape::String));
        }
        Some(meta)
    }
}

/// A message from a device.
#[derive(Debug)]
pub enum RxMessage {
    Id(Id),
    MeasureData(MeasureData),
    MetaData(MetaData),
}

impl RxMessage {
    /// Which kind of message this is.
    pub fn message_type(&self) -> (kind: MessageType)
        ensures
            kind == (match self {
                RxMessage::Id(_) => MessageType::Id,
                RxMessage::MeasureData(_) => MessageType::MeasureData,
                RxMessage::MetaData(_) => MessageType::MetaData,
            }),
    {
        match self {
            RxMessage::Id(_) => MessageType::Id,
            RxMessage::MeasureData(_) => MessageType::MeasureData,
            RxMessage::MetaData(_) => MessageType::MetaData,
        }
    }

    /// The message as the codec carries it: the index of its arm and its
    /// payload.
    pub open spec fn datum(&self) -> Datum {
        match self {
            RxMessage::Id(id) => Datum::Variant(0, Box::new(id.datum())),
            RxMessage::MeasureData(packet) => Datum::Variant(1, Box::new(packet.datum())),
            RxMessage::MetaData(meta) => Datum::Variant(2, Box::new(meta.datum())),
        }
    }

    /// The kind of a message from a device.
    pub open spec fn shape() -> Shape {
        Shape::Enum(seq![Id::shape(), MeasureData::shape(), MetaData::shape()])
    }

    /// The message as a value of the codec.
    pub fn to_value<'a>(&'a self) -> (value: Value<'a>)
        ensures
            value@ == self.datum(),
            conforms(value@, RxMessage::shape()),
    {
        match self {
            RxMessage::Id(id) => Value::Variant(0, Box::new(id.to_value())),
            RxMessage::MeasureData(packet) => Value::Variant(1, Box::new(packet.to_value())),
            RxMessage::MetaData(meta) => Value::Variant(2, Box::new(meta.to_value())),
        }
    }

    /// The kind under which a message from a device is decoded.
    pub fn kind() -> (kind: Kind)
        ensures
            kind@ == RxMessage::shape(),
    {
        let mut kinds: Vec<Kind> = Vec::new();
        kinds.push(Id::kind());
        kinds.push(MeasureData::kind());
        kinds.push(MetaData::kind());
        proof {
            lemma_shape_all(kinds@);
            assert(shape_all(kinds@) =~= RxMessage::shape()->Enum_0);
        }
        Kind::Enum(kinds)
    }

    /// The message that `value` carries; `None` exactly when `value` is not
    /// of the kind of a message from a device.
    pub fn from_value(value: &Value) -> (r: Option<RxMessage>)
        ensures
            match r {
                Some(message) => conforms(value@, RxMessage::shape()) && message.datum()
                    == value@,
                None => !conforms(value@, RxMessage::shape()),
            },
    {
        match value {
            Value::Variant(index, payload) => {
                if *index == 0 {
                    match Id::from_value(payload) {
                        Some(id) => Some(RxMessage::Id(id)),
                        None => None,
                    }
                } else if *index == 1 {
                    match MeasureData::from_value(payload) {
                        Some(packet) => Some(RxMessage::MeasureData(packet)),
                        None => None,
                    }
                } else if *index == 2 {
                    match MetaData::from_value(payload) {
                        Some(meta) => Some(RxMessage::MetaData(meta)),
                        None => None,
                    }
                } else {
                    None
                }
            },
            _ => None,
        }
    }

    /// Decodes a packet from a device under the default configuration.
    /// Fails with the fault that the format names for this input.
    pub fn deserialize(data: &[u8]) -> (r: Result<RxMessage, DeserializeError>)
        ensures
            match r {
                Ok(message) => deserialized(AglioConfig::spec_default(), RxMessage::shape(), data@)
                    == Ok::<Datum, Fault>(message.datum()),
                Err(e) => deserialized(AglioConfig::spec_default(), RxMessage::shape(), data@)
                    == Err::<Datum, Fault>(e.fault()),
            },
    {
        let kind = RxMessage::kind();
        match deserialize(&kind, data) {
            Err(e) => Err(e),
            Ok(value) => {
                proof {
                    let config = AglioConfig::spec_default();
                    let body = unpacked(config, data@)->Ok_0;
                    lemma_decoded_conforms(
                        config.endianess,
                        config.length_width,
                        RxMessage::shape(),
                        body,
                    );
                }
                match RxMessage::from_value(&value) {
                    Some(message) => Ok(message),
                    None => Err(DeserializeError::BadData),
                }
            },
        }
    }
}

/// The colour of a device's light.
#[derive(Debug, Clone, Copy)]
pub struct SetRGB {
    r: u8,
    g: u8,
    b: u8,
}

impl SetRGB {
    /// The red part.
    pub closed spec fn spec_r(&self) -> u8 {
        self.r
    }

    /// The green part.
    pub closed spec fn spec_g(&self) -> u8 {
        self.g
    }

    /// The blue part.
    pub closed spec fn spec_b(&self) -> u8 {
        self.b
    }

    /// The colour with the given parts.
    pub fn new(r: u8, g: u8, b: u8) -> (colour: Self)
        ensures
            colour.r() == r,
            colour.g() == g,
            colour.b() == b,
    {
        Self { r, g, b }
    }

    /// The red part.
    #[verifier::when_used_as_spec(spec_r)]
    pub fn r(&self) -> (part: u8)
        ensures
            part == self.spec_r(),
    {
        self.r
    }

    /// The green part.
    #[verifier::when_used_as_spec(spec_g)]
    pub fn g(&self) -> (part: u8)
        ensures
            part == self.spec_g(),
    {
        self.g
    }

    /// The blue part.
    #[verifier::when_used_as_spec(spec_b)]
    pub fn b(&self) -> (part: u8)
        ensures
            part == self.spec_b(),
    {
        self.b
    }

    /// The colour as the codec carries it: a structure of its three parts.
    pub open spec fn datum(&self) -> Datum {
        Datum::Tuple(
            seq![Datum::U8(self.spec_r()), Datum::U8(self.spec_g()), Datum::U8(self.spec_b())],
        )
    }

    /// The kind of a colour: a structure of three bytes.
    pub open spec fn shape() -> Shape {
        Shape::Tuple(seq![Shape::U8, Shape::U8, Shape::U8])
    }

    /// The colour as a value of the codec.
    pub fn to_value<'a>(&self) -> (value: Value<'a>)
        ensures
            value@ == self.datum(),
            conforms(value@, SetRGB::shape()),
    {
        let mut items: Vec<Value<'a>> = Vec::new();
        items.push(Value::U8(self.r));
        items.push(Value::U8(self.g));
        items.push(Value::U8(self.b));
        proof {
            lemma_view_all(items@);
            let fields = view_all(items@);
            assert(fields =~= self.datum()->Tuple_0);
            assert(conforms(fields[0], Shape::U8));
            assert(conforms(fields[1], Shape::U8));
            assert(conforms(fields[2], Shape::U8));
        }
        Value::Tuple(items)
    }

    /// The kind under which a colour is decoded.
    pub fn kind() -> (kind: Kind)
        ensures
            kind@ == SetRGB::shape(),
    {
        let mut kinds: Vec<Kind> = Vec::new();
        kinds.push(Kind::U8);
        kinds.push(Kind::U8);
        kinds.push(Kind::U8);
        proof {
            lemma_shape_all(kinds@);
            assert(shape_all(kinds@) =~= SetRGB::shape()->Tuple_0);
        }
        Kind::Tuple(kinds)
    }

    /// The colour that `value` carries; `None` exactly when `value` is not
    /// of the kind of a colour.
    pub fn from_value(value: &Value) -> (r: Option<SetRGB>)
        ensures
            match r {
                Some(colour) => conforms(value@, SetRGB::shape()) && colour.datum() == value@,
                None => !conforms(value@, SetRGB::shape()),
            },
    {
        let items = match fields_of(value, 3) {
            Some(items) => items,
            None => {
                return None;
            },
        };
        let ghost fields = view_all(items@);
        proof {
            lemma_view_all(items@);
        }
        let r = match u8_of(&items[0]) {
            Some(x) => x,
            None => {
                assert(!conforms(fields[0], Shape::U8));
                return None;
            },
        };
        let g = match u8_of(&items[1]) {
            Some(x) => x,
            None => {
                assert(!conforms(fields[1], Shape::U8));
                return None;
            },
        };
        let b = match u8_of(&items[2]) {
            Some(x) => x,
            None => {
                assert(!conforms(fields[2], Shape::U8));
                return None;
            },
        };
        let colour = SetRGB { r, g, b };
        proof {
            assert(fields =~= colour.datum()->Tuple_0);
            assert(conforms(fields[0], Shape::U8));
            assert(conforms(fields[1], Shape::U8));
            assert(conforms(fields[2], Shape::U8));
        }
        Some(colour)
    }
}

/// New free-form data for a device to store.
#[derive(Debug, Clone)]
pub struct SetMetaData {
    pub data: String,
}

/// A message to a device.
#[derive(Debug)]
pub enum TxMessage {
    GetId,
    Ping,
    Start,
    Stop,
    SetRGB(SetRGB),
    SetMetaData(SetMetaData),
    GetMetaData,
}

impl SetMetaData {
    /// The data as the codec carries it: a structure of one text.
    pub open spec fn datum(&self) -> Datum {
        Datum::Tuple(seq![Datum::Text(self.data@)])
    }

    /// The kind of new free-form data.
    pub open spec fn shape() -> Shape {
        Shape::Tuple(seq![Shape::String])
    }

    /// The data as a value of the codec; the text is borrowed.
    pub fn to_value<'a>(&'a self) -> (value: Value<'a>)
        ensures
            value@ == self.datum(),
            conforms(value@, SetMetaData::shape()),
    {
        let mut items: Vec<Value<'a>> = Vec::new();
        items.push(Value::Str(self.data.as_str()));
        proof {
            lemma_view_all(items@);
            let fields = view_all(items@);
            assert(fields =~= self.datum()->Tuple_0);
            assert(conforms(fields[0], Shape::String));
        }
        Value::Tuple(items)
    }
}

impl TxMessage {
    /// The message as the codec carries it: the index of its arm and, for
    /// the two arms that have one, its payload.
    pub open spec fn datum(&self) -> Datum {
        match self {
            TxMessage::GetId => Datum::Variant(0, Box::new(Datum::Unit)),
            TxMessage::Ping => Datum::Variant(1, Box::new(Datum::Unit)),
            TxMessage::Start => Datum::Variant(2, Box::new(Datum::Unit)),
            TxMessage::Stop => Datum::Variant(3, Box::new(Datum::Unit)),
            TxMessage::SetRGB(colour) => Datum::Variant(4, Box::new(colour.datum())),
            TxMessage::SetMetaData(meta) => Datum::Variant(5, Box::new(meta.datum())),
            TxMessage::GetMetaData => Datum::Variant(6, Box::new(Datum::Unit)),
        }
    }

    /// The kind of a message to a device.
    pub open spec fn shape() -> Shape {
        Shape::Enum(
            seq![
                Shape::Unit,
                Shape::Unit,
                Shape::Unit,
                Shape::Unit,
                SetRGB::shape(),
                SetMetaData::shape(),
                Shape::Unit,
            ],
        )
    }

    /// The message as a value of the codec.
    pub fn to_value<'a>(&'a self) -> (value: Value<'a>)
        ensures
            value@ == self.datum(),
            conforms(value@, TxMessage::shape()),
    {
        match self {
            TxMessage::GetId => Value::Variant(0, Box::new(unit_value())),
            TxMessage::Ping => Value::Variant(1, Box::new(unit_value())),
            TxMessage::Start => Value::Variant(2, Box::new(unit_value())),
            TxMessage::Stop => Value::Variant(3, Box::new(unit_value())),
            TxMessage::SetRGB(colour) => Value::Variant(4, Box::new(colour.to_value())),
            TxMessage::SetMetaData(meta) => Value::Variant(5, Box::new(meta.to_value())),
            TxMessage::GetMetaData => Value::Variant(6, Box::new(unit_value())),
        }
    }

    /// Encodes the message into a packet under the default configuration.
    /// Fails with `TooLong` exactly when the packet cannot be made: a text
    /// in it is too long for the length field.
    pub fn serialize(&self) -> (r: Result<Vec<u8>, SerializeError>)
        ensures
            match r {
                Ok(bytes) => serialized(AglioConfig::spec_default(), self.datum()) == Some(bytes@)
                    && addressable(self.datum()),
                Err(e) => e is TooLong && serialized(AglioConfig::spec_default(), self.datum())
                    is None,
            },
    {
        let value = self.to_value();
        serialize(&value)
    }
}

} // verus!
