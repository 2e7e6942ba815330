//! Configuration of the codec: byte order, sentinel, length-prefix width and
//! the checksum algorithm.

use crate::bindings::{crc16, crc16_custom_checksum, crc16_usb_checksum};
use vstd::prelude::*;

verus! {

/// Byte order of every multi-byte integer on the wire.
#[derive(Clone, Copy, Debug, PartialEq, Eq, Structural)]
pub enum Endianess {
    Little,
    Big,
}

/// Width of the unsigned integer that precedes every variable-length
/// construct and gives its element count.
#[derive(Clone, Copy, Debug, PartialEq, Eq, Structural)]
pub enum LengthWidth {
    U8,
    U16,
    U32,
    U64,
}

impl LengthWidth {
    /// Number of bytes that a length prefix of this width occupies.
    pub open spec fn spec_bytes(self) -> nat {
        match self {
            LengthWidth::U8 => 1,
            LengthWidth::U16 => 2,
            LengthWidth::U32 => 4,
            LengthWidth::U64 => 8,
        }
    }

    /// Largest count that a length prefix of this width can carry.
    pub open spec fn spec_max(self) -> nat {
        match self {
            LengthWidth::U8 => 0xff,
            LengthWidth::U16 => 0xffff,
            LengthWidth::U32 => 0xffff_ffff,
            LengthWidth::U64 => 0xffff_ffff_ffff_ffff,
        }
    }

    /// Number of bytes that a length prefix of this width occupies.
    pub fn bytes(self) -> (n: usize)
        ensures
            n == self.spec_bytes(),
    {
        match self {
            LengthWidth::U8 => 1,
            LengthWidth::U16 => 2,
            LengthWidth::U32 => 4,
            LengthWidth::U64 => 8,
        }
    }

    /// Largest count that a length prefix of this width can carry.
    pub fn max(self) -> (n: u64)
        ensures
            n == self.spec_max(),
    {
        match self {
            LengthWidth::U8 => 0xff,
            LengthWidth::U16 => 0xffff,
            LengthWidth::U32 => 0xffff_ffff,
            LengthWidth::U64 => 0xffff_ffff_ffff_ffff,
        }
    }
}

/// Parameters of a 16-bit CRC, named as in the catalogue of parametrised CRC
/// algorithms. The register is always 16 bits wide.
#[derive(Clone, Copy, Debug, PartialEq, Eq, Structural)]
pub struct CrcAlgorithm {
    /// Generator polynomial, highest-order term omitted.
    pub poly: u16,
    /// Register contents before the first message bit.
    pub init: u16,
    /// Whether message bytes are read least significant bit first.
    pub refin: bool,
    /// Whether the register is reflected before presentation.
    pub refout: bool,
    /// Value XORed onto the register after the last message bit.
    pub xorout: u16,
    /// Checksum of the ASCII string "123456789".
    pub check: u16,
    /// Register contents after a codeword has been read without error.
    pub residue: u16,
}

impl CrcAlgorithm {
    /// The checksum of `data` under this algorithm.
    pub fn checksum(&self, data: &[u8]) -> (sum: u16)
        ensures
            sum == crc16(*self, data@),
    {
        if *self == CrcAlgorithm::usb() {
            crc16_usb_checksum(data)
        } else {
            crc16_custom_checksum(self, data)
        }
    }

    /// CRC-16/USB: polynomial 0x8005, reflected, initial value and final
    /// XOR 0xffff.
    pub open spec fn spec_usb() -> CrcAlgorithm {
        CrcAlgorithm {
            poly: 0x8005,
            init: 0xffff,
            refin: true,
            refout: true,
            xorout: 0xffff,
            check: 0xb4c8,
            residue: 0xb001,
        }
    }

    /// CRC-16/USB: polynomial 0x8005, reflected, initial value and final
    /// XOR 0xffff.
    #[verifier::when_used_as_spec(spec_usb)]
    pub fn usb() -> (algorithm: CrcAlgorithm)
        ensures
            algorithm == CrcAlgorithm::spec_usb(),
    {
        CrcAlgorithm {
            poly: 0x8005,
            init: 0xffff,
            refin: true,
            refout: true,
            xorout: 0xffff,
            check: 0xb4c8,
            residue: 0xb001,
        }
    }
}

/// Everything a single encode or decode call needs to know about the wire.
#[derive(Debug, PartialEq, Eq)]
pub struct AglioConfig {
    /// Byte order of every integer on the wire.
    pub endianess: Endianess,
    /// Sentinel that opens every packet.
    pub packet_start: Vec<u8>,
    /// Width of the length prefixes inside the body.
    pub length_width: LengthWidth,
    /// Checksum over sentinel, length field and body; `None` for no checksum.
    pub body_crc: Option<CrcAlgorithm>,
}

impl AglioConfig {
    /// Little endian, sentinel `AA 55`, 32-bit length prefixes, CRC-16/USB.
    pub open spec fn spec_default() -> ConfigView {
        ConfigView {
            endianess: Endianess::Little,
            packet_start: seq![0xAAu8, 0x55u8],
            length_width: LengthWidth::U32,
            body_crc: Some(CrcAlgorithm::spec_usb()),
        }
    }
}

/// What a configuration says, with the sentinel as a sequence of bytes.
pub struct ConfigView {
    pub endianess: Endianess,
    pub packet_start: Seq<u8>,
    pub length_width: LengthWidth,
    pub body_crc: Option<CrcAlgorithm>,
}

impl View for AglioConfig {
    type V = ConfigView;

    open spec fn view(&self) -> ConfigView {
        ConfigView {
            endianess: self.endianess,
            packet_start: self.packet_start@,
            length_width: self.length_width,
            body_crc: self.body_crc,
        }
    }
}

impl Default for AglioConfig {
    fn default() -> (config: AglioConfig)
        ensures
            config@ == AglioConfig::spec_default(),
    {
        let mut packet_start: Vec<u8> = Vec::new();
        packet_start.push(0xAA);
        packet_start.push(0x55);
        let config = AglioConfig {
            endianess: Endianess::Little,
            packet_start,
            length_width: LengthWidth::U32,
            body_crc: Some(CrcAlgorithm::usb()),
        };
        assert(config@.packet_start =~= seq![0xAAu8, 0x55u8]);
        config
    }
}

impl Clone for AglioConfig {
    fn clone(&self) -> (copy: AglioConfig)
        ensures
            copy@ == self@,
    {
        AglioConfig {
            endianess: self.endianess,
            packet_start: self.packet_start.clone(),
            length_width: self.length_width,
            body_crc: self.body_crc,
        }
    }
}

} // verus!
