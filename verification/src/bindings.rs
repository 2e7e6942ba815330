//! The few places where the library relies on code that is not verified
//! here: UTF-8 validation, the text of a character and the splitting of a
//! text in the standard library, and the checksum of the `crc` crate. Their
//! contracts are taken on trust. Three types are carried through without a
//! look inside.

use crate::config::CrcAlgorithm;
use crate::subscription::{splits, texts};
use vstd::prelude::*;
use vstd::string::StringSliceAdditionalSpecFns;
use vstd::utf8::valid_utf8;

verus! {

/// The standard library's UTF-8 validation error, carried through unread.
#[verifier::external_type_specification]
#[verifier::external_body]
pub struct ExUtf8Error(core::str::Utf8Error);

/// A path of the file system, carried through unread.
#[verifier::external_type_specification]
#[verifier::external_body]
pub struct ExPathBuf(std::path::PathBuf);

/// A universally unique identifier, carried through unread.
#[verifier::external_type_specification]
#[verifier::external_body]
pub struct ExUuid(uuid::Uuid);

/// `Utf8Error::to_string` of the standard library: what the error says of
/// itself. Nothing is claimed of the words.
#[verifier::external_body]
pub(crate) fn utf8_error_text(detail: &core::str::Utf8Error) -> (text: String) {
    detail.to_string()
}

/// `core::str::from_utf8`: succeeds exactly on well-formed UTF-8, and the
/// text it hands out has the given bytes as its UTF-8 form.
pub assume_specification[ core::str::from_utf8 ](v: &[u8]) -> (r: Result<
    &str,
    core::str::Utf8Error,
>)
    ensures
        r is Ok <==> valid_utf8(v@),
        r is Ok ==> r->Ok_0.spec_bytes() == v@,
;

/// `char::to_string` of the standard library: the text that consists of the
/// one character `c`.
#[verifier::external_body]
pub(crate) fn char_to_string(c: char) -> (text: String)
    ensures
        text@ == seq![c],
{
    c.to_string()
}

/// The checksum that the `crc` crate computes over `data` for a 16-bit
/// algorithm with the parameters `algorithm`.
pub uninterp spec fn crc16(algorithm: CrcAlgorithm, data: Seq<u8>) -> u16;

/// `crc::Crc::<u16>::new` followed by `checksum`, of the `crc` crate: the
/// checksum of `data` under a 16-bit algorithm with the given parameters. It
/// depends on the parameters and on the bytes alone. The crate keeps a
/// reference to the parameters for the life of the process, so they are
/// placed where they stay.
#[verifier::external_body]
pub(crate) fn crc16_custom_checksum(algorithm: &CrcAlgorithm, data: &[u8]) -> (sum: u16)
    ensures
        sum == crc16(*algorithm, data@),
{
    let parameters = crc::Algorithm::<u16> {
        width: 16,
        poly: algorithm.poly,
        init: algorithm.init,
        refin: algorithm.refin,
        refout: algorithm.refout,
        xorout: algorithm.xorout,
        check: algorithm.check,
        residue: algorithm.residue,
    };
    crc::Crc::<u16>::new(Box::leak(Box::new(parameters))).checksum(data)
}

/// `crc::Crc::<u16>::new` followed by `checksum`, of the `crc` crate, for
/// its catalogue entry `CRC_16_USB`, whose parameters are those of
/// `CrcAlgorithm::usb`. Nothing is allocated.
#[verifier::external_body]
pub(crate) fn crc16_usb_checksum(data: &[u8]) -> (sum: u16)
    ensures
        sum == crc16(CrcAlgorithm::spec_usb(), data@),
{
    crc::Crc::<u16>::new(&crc::CRC_16_USB).checksum(data)
}

/// `str::rsplit` of the standard library, at single spaces: the words of
/// `text` from the last to the first, each a borrow of `text`. What stands
/// between two spaces is a word, also where it is empty.
#[verifier::external_body]
pub(crate) fn rsplit_spaces<'a>(text: &'a str) -> (words: Vec<&'a str>)
    ensures
        splits(texts(words@), text@),
{
    text.rsplit(" ").collect()
}

} // verus!
