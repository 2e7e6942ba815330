//! A length-delimited, CRC-protected binary framing codec.
//!
//! A packet is the configured sentinel, a 16-bit length field that counts
//! itself and the body, the encoded value and, when a CRC is configured, a
//! 16-bit checksum over all that precedes it. Values are described by
//! [`Value`] and decoded under the direction of a [`Kind`]; the wire has no
//! field names and no type tags but variant indices.
//!
//! - [`format`] states the wire format as mathematics, [`wire`] the two
//!   byte orders, and [`laws`] what holds of them: round trip, truncation,
//!   endian symmetry and the boundary cases.
//! - [`encoder`] and [`decoder`] are the two sides, with one method per kind
//!   of value; [`frame`] puts the frame around a body and takes it off.
//! - [`messages`] are the messages of the measuring devices with their
//!   conversions to and from values; [`subscription`], [`options`] and
//!   [`device`] are what the host program around them needs.
//! - [`bindings`] holds what is taken on trust.

pub mod bindings;
pub mod config;
pub mod decimal;
pub mod decoder;
pub mod device;
pub mod encoder;
pub mod error;
pub mod format;
pub mod frame;
pub mod laws;
pub mod messages;
pub mod options;
pub mod subscription;
pub mod value;
pub mod wire;

pub use config::{AglioConfig, CrcAlgorithm, Endianess, LengthWidth};
pub use decoder::Decoder;
pub use device::SerializableDevice;
pub use encoder::Encoder;
pub use error::{DeserializeError, Fault, SerializeError};
pub use frame::{
    deserialize, deserialize_with_config, pack, serialize, serialize_with_config, unpack,
};
pub use messages::{
    Id, MeasureData, MessageType, MetaData, RxMessage, SetMetaData, SetRGB, StartOfFrame,
    TxMessage, Version,
};
pub use options::Options;
pub use subscription::DeviceConfig;
pub use value::{Datum, Kind, Shape, Value};
