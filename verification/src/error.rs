//! Why a value could not be converted.

use crate::format::Format;
use crate::text::{decimal, decimal_text};
use crate::value::NonFinite;
use vstd::prelude::*;
use vstd::string::StringExecFns;

verus! {

/// The reason for which a conversion was refused. Each names the kind of
/// value that has no counterpart, and with it the format it belongs to.
#[derive(Clone, Copy, Debug, PartialEq, Eq, Structural)]
pub enum ConvertError {
    /// A CBOR byte string.
    ByteString,
    /// A CBOR semantic tag.
    SemanticTag,
    /// A CBOR integer outside both 64-bit ranges.
    IntegerTooWide(i128),
    /// A key of a dictionary of the given format that is not a string.
    KeyNotString(Format),
    /// A MessagePack string that is not valid UTF-8.
    InvalidUtf8,
    /// A MessagePack byte array.
    ByteArray,
    /// A MessagePack extension.
    Extension,
    /// A RON `Option`.
    OptionType,
    /// The RON unit.
    UnitType,
    /// A float that JSON cannot hold: an infinity or a NaN.
    NonFiniteFloat(NonFinite),
    /// The null, which TOML does not have.
    NullValue,
    /// An integer above the signed 64-bit range, which TOML cannot hold.
    IntegerOutOfRange(u64),
}

impl ConvertError {
    /// The format whose values the conversion could not take or make.
    pub open spec fn spec_format(self) -> Format {
        match self {
            ConvertError::ByteString => Format::Cbor,
            ConvertError::SemanticTag => Format::Cbor,
            ConvertError::IntegerTooWide(_) => Format::Cbor,
            ConvertError::KeyNotString(format) => format,
            ConvertError::InvalidUtf8 => Format::MessagePack,
            ConvertError::ByteArray => Format::MessagePack,
            ConvertError::Extension => Format::MessagePack,
            ConvertError::OptionType => Format::Ron,
            ConvertError::UnitType => Format::Ron,
            ConvertError::NonFiniteFloat(_) => Format::Json,
            ConvertError::NullValue => Format::Toml,
            ConvertError::IntegerOutOfRange(_) => Format::Toml,
        }
    }

    /// What the error says.
    pub open spec fn spec_message(self) -> Seq<char> {
        match self {
            ConvertError::ByteString => "A byte string cannot be converted"@,
            ConvertError::SemanticTag => "A semantic tag cannot be converted"@,
            ConvertError::IntegerTooWide(number) => "Out of range of integer: "@ + decimal(
                number as int,
            ),
            ConvertError::KeyNotString(_) => "The key is not a string"@,
            ConvertError::InvalidUtf8 => "The string contains invalid UTF-8 sequence"@,
            ConvertError::ByteArray => "A byte array cannot be converted"@,
            ConvertError::Extension => "An extension cannot be converted"@,
            ConvertError::OptionType => "The Option type cannot be converted"@,
            ConvertError::UnitType => "The unit type cannot be converted"@,
            ConvertError::NonFiniteFloat(float) => "Infinite or NaN values are not allowed: "@
                + float.spec_text(),
            ConvertError::NullValue => "Null does not exist"@,
            ConvertError::IntegerOutOfRange(number) => "Out of range of integer: "@ + decimal(
                number as int,
            ),
        }
    }

    /// What the error says.
    pub fn message(self) -> (r: String)
        ensures
            r@ == self.spec_message(),
    {
        match self {
            ConvertError::ByteString => String::from_str("A byte string cannot be converted"),
            ConvertError::SemanticTag => String::from_str("A semantic tag cannot be converted"),
            ConvertError::IntegerTooWide(number) => {
                let text = decimal_text(number);
                String::from_str("Out of range of integer: ").concat(text.as_str())
            },
            ConvertError::KeyNotString(_) => String::from_str("The key is not a string"),
            ConvertError::InvalidUtf8 => String::from_str(
                "The string contains invalid UTF-8 sequence",
            ),
            ConvertError::ByteArray => String::from_str("A byte array cannot be converted"),
            ConvertError::Extension => String::from_str("An extension cannot be converted"),
            ConvertError::OptionType => String::from_str("The Option type cannot be converted"),
            ConvertError::UnitType => String::from_str("The unit type cannot be converted"),
            ConvertError::NonFiniteFloat(float) => String::from_str(
                "Infinite or NaN values are not allowed: ",
            ).concat(float.text()),
            ConvertError::NullValue => String::from_str("Null does not exist"),
            ConvertError::IntegerOutOfRange(number) => {
                let text = decimal_text(number as i128);
                String::from_str("Out of range of integer: ").concat(text.as_str())
            },
        }
    }

    /// The format whose values the conversion could not take or make.
    #[verifier::when_used_as_spec(spec_format)]
    pub fn format(self) -> (r: Format)
        ensures
            r == self.spec_format(),
    {
        match self {
            ConvertError::ByteString => Format::Cbor,
            ConvertError::SemanticTag => Format::Cbor,
            ConvertError::IntegerTooWide(_) => Format::Cbor,
            ConvertError::KeyNotString(format) => format,
            ConvertError::InvalidUtf8 => Format::MessagePack,
            ConvertError::ByteArray => Format::MessagePack,
            ConvertError::Extension => Format::MessagePack,
            ConvertError::OptionType => Format::Ron,
            ConvertError::UnitType => Format::Ron,
            ConvertError::NonFiniteFloat(_) => Format::Json,
            ConvertError::NullValue => Format::Toml,
            ConvertError::IntegerOutOfRange(_) => Format::Toml,
        }
    }
}

} // verus!
