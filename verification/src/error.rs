//! Errors of the encoder and of the decoder.

use crate::bindings::utf8_error_text;
use vstd::prelude::*;
use vstd::string::StringExecFns;

verus! {

/// Why a value could not be encoded.
#[derive(Debug, PartialEq, Eq)]
pub enum SerializeError {
    /// The shape of the value cannot be told without a description.
    NotDescriptive,
    /// A length, a count or a variant index does not fit its field.
    TooLong,
    /// A failure reported by a caller-supplied encoder.
    Custom(String),
}

impl SerializeError {
    /// The error in words.
    pub open spec fn spec_message(&self) -> Seq<char> {
        match self {
            SerializeError::NotDescriptive => "Cannot automatically infer data type"@,
            SerializeError::TooLong => "Array, String, Sequence or enum is too long"@,
            SerializeError::Custom(message) => message@,
        }
    }

    /// The error in words.
    pub fn message(&self) -> (text: String)
        ensures
            text@ == self.spec_message(),
    {
        match self {
            SerializeError::NotDescriptive => String::from_str(
                "Cannot automatically infer data type",
            ),
            SerializeError::TooLong => String::from_str(
                "Array, String, Sequence or enum is too long",
            ),
            SerializeError::Custom(message) => message.clone(),
        }
    }
}

/// Why a packet could not be decoded, without the detail that some errors
/// carry.
#[derive(Clone, Copy, Debug, PartialEq, Eq, Structural)]
pub enum Fault {
    NotDescriptive,
    InvalidData,
    BadData,
    ChecksumError,
    InvalidSize,
    InvalidPacketStart,
    InvalidUtf8,
    InvalidLength,
    Custom,
}

/// Why a packet could not be decoded.
#[derive(Debug, PartialEq, Eq)]
pub enum DeserializeError {
    /// A decode without a target kind was asked for.
    NotDescriptive,
    /// A discriminator or the length field contradicts the input.
    InvalidData,
    /// The input is incomplete or damaged.
    BadData,
    /// The stored checksum is not the checksum of the packet.
    ChecksumError,
    /// A length is larger than this platform can address.
    InvalidSize,
    /// The packet does not open with the sentinel.
    InvalidPacketStart,
    /// A text payload is not UTF-8.
    InvalidUtf8(core::str::Utf8Error),
    /// Fewer bytes remain than the current field needs.
    InvalidLength,
    /// A failure reported by a caller-supplied decoder.
    Custom(String),
}

impl DeserializeError {
    /// The error without its detail.
    pub open spec fn spec_fault(&self) -> Fault {
        match self {
            DeserializeError::NotDescriptive => Fault::NotDescriptive,
            DeserializeError::InvalidData => Fault::InvalidData,
            DeserializeError::BadData => Fault::BadData,
            DeserializeError::ChecksumError => Fault::ChecksumError,
            DeserializeError::InvalidSize => Fault::InvalidSize,
            DeserializeError::InvalidPacketStart => Fault::InvalidPacketStart,
            DeserializeError::InvalidUtf8(_) => Fault::InvalidUtf8,
            DeserializeError::InvalidLength => Fault::InvalidLength,
            DeserializeError::Custom(_) => Fault::Custom,
        }
    }

    /// The error without its detail.
    #[verifier::when_used_as_spec(spec_fault)]
    pub fn fault(&self) -> (fault: Fault)
        ensures
            fault == self.spec_fault(),
    {
        match self {
            DeserializeError::NotDescriptive => Fault::NotDescriptive,
            DeserializeError::InvalidData => Fault::InvalidData,
            DeserializeError::BadData => Fault::BadData,
            DeserializeError::ChecksumError => Fault::ChecksumError,
            DeserializeError::InvalidSize => Fault::InvalidSize,
            DeserializeError::InvalidPacketStart => Fault::InvalidPacketStart,
            DeserializeError::InvalidUtf8(_) => Fault::InvalidUtf8,
            DeserializeError::InvalidLength => Fault::InvalidLength,
            DeserializeError::Custom(_) => Fault::Custom,
        }
    }

    /// The error in words. For a text that is not UTF-8 the words end with
    /// what the standard library says of the fault.
    pub fn message(&self) -> (text: String)
        ensures
            match self {
                DeserializeError::NotDescriptive => text@
                    == "Cannot automatically infer data type"@,
                DeserializeError::InvalidData => text@ == "Invalid data"@,
                DeserializeError::BadData => text@ == "Incomplete or Bad data"@,
                DeserializeError::ChecksumError => text@
                    == "The checksum of the data does not match"@,
                DeserializeError::InvalidSize => text@ == "Invalid size"@,
                DeserializeError::InvalidPacketStart => text@ == "Invalid Packet Start data"@,
                DeserializeError::InvalidUtf8(_) => "Invalid String data: "@.is_prefix_of(text@),
                DeserializeError::InvalidLength => text@ == "Not enough data"@,
                DeserializeError::Custom(message) => text@ == message@,
            },
    {
        match self {
            DeserializeError::NotDescriptive => String::from_str(
                "Cannot automatically infer data type",
            ),
            DeserializeError::InvalidData => String::from_str("Invalid data"),
            DeserializeError::BadData => String::from_str("Incomplete or Bad data"),
            DeserializeError::ChecksumError => String::from_str(
                "The checksum of the data does not match",
            ),
            DeserializeError::InvalidSize => String::from_str("Invalid size"),
            DeserializeError::InvalidPacketStart => String::from_str("Invalid Packet Start data"),
            DeserializeError::InvalidUtf8(detail) => {
                let mut text = String::from_str("Invalid String data: ");
                let reason = utf8_error_text(detail);
                text.append(reason.as_str());
                text
            },
            DeserializeError::InvalidLength => String::from_str("Not enough data"),
            DeserializeError::Custom(message) => message.clone(),
        }
    }
}

} // verus!
