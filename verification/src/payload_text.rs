//! Payloads as text: in requests and responses they are written in base64, with
//! the standard alphabet and padding.

use crate::text::{decimal, push_decimal};
use base64::prelude::{Engine, BASE64_STANDARD};
use base64::DecodeError;
use vstd::prelude::*;

verus! {

/// Why a text is not base64.
#[derive(Debug, Clone, Copy, PartialEq, Eq, Structural)]
pub enum Base64Error {
    /// A symbol that is not in the alphabet, or padding in the wrong place.
    InvalidByte { offset: usize, byte: u8 },
    /// A number of symbols that no payload gives.
    InvalidLength { length: usize },
    /// A last symbol with bits that belong to no byte.
    InvalidLastSymbol { offset: usize, byte: u8 },
    /// Padding that is missing or wrong.
    InvalidPadding,
}

/// What the standard engine of the base64 crate decodes a text to.
pub uninterp spec fn base64_decoded(text: Seq<char>) -> Result<Seq<u8>, Base64Error>;

/// What the standard engine of the base64 crate encodes a payload to.
pub uninterp spec fn base64_encoded(payload: Seq<u8>) -> Seq<char>;

/// Calls `Engine::decode` of base64's `BASE64_STANDARD`. The result depends on
/// the text alone, and is named by [`base64_decoded`]. The error is handed on
/// variant by variant.
#[verifier::external_body]
pub(crate) fn decode_base64(text: &str) -> (result: Result<Vec<u8>, Base64Error>)
    ensures
        match result {
            Ok(payload) => base64_decoded(text@) == Ok::<_, Base64Error>(payload@),
            Err(e) => base64_decoded(text@) == Err::<Seq<u8>, _>(e),
        },
{
    BASE64_STANDARD.decode(text).map_err(
        |e|
            match e {
                DecodeError::InvalidByte(offset, byte) => Base64Error::InvalidByte { offset, byte },
                DecodeError::InvalidLength(length) => Base64Error::InvalidLength { length },
                DecodeError::InvalidLastSymbol(offset, byte) => Base64Error::InvalidLastSymbol {
                    offset,
                    byte,
                },
                DecodeError::InvalidPadding => Base64Error::InvalidPadding,
            },
    )
}

/// Whether a payload can be written as text on this machine.
pub open spec fn fits_as_text(payload: Seq<u8>) -> bool {
    payload.len() / 3 * 4 + 4 <= isize::MAX
}

/// Calls `Engine::encode` of base64's `BASE64_STANDARD`. The result depends on
/// the payload alone, and is named by [`base64_encoded`]. It decodes to the
/// payload that was encoded. The call allocates the whole text at once, which
/// the bound on the length leaves room for.
#[verifier::external_body]
pub(crate) fn encode_base64(payload: &[u8]) -> (text: String)
    requires
        fits_as_text(payload@),
    ensures
        text@ == base64_encoded(payload@),
        base64_decoded(text@) is Ok && base64_decoded(text@)->Ok_0 == payload@,
{
    BASE64_STANDARD.encode(payload)
}

impl Base64Error {
    /// What is wrong with the text, in words.
    pub open spec fn message_spec(self) -> Seq<char> {
        match self {
            Base64Error::InvalidByte { offset, byte } => "Invalid symbol "@ + decimal(byte as nat)
                + ", offset "@ + decimal(offset as nat) + "."@,
            Base64Error::InvalidLength { length } => "Invalid input length: "@ + decimal(
                length as nat,
            ),
            Base64Error::InvalidLastSymbol { offset, byte } => "Invalid last symbol "@ + decimal(
                byte as nat,
            ) + ", offset "@ + decimal(offset as nat) + "."@,
            Base64Error::InvalidPadding => "Invalid padding"@,
        }
    }

    pub fn message(&self) -> (message: String)
        ensures
            message@ == self.message_spec(),
    {
        match *self {
            Base64Error::InvalidByte { offset, byte } => {
                let mut message = String::from_str("Invalid symbol ");
                push_decimal(&mut message, byte as u64);
                message.append(", offset ");
                push_decimal(&mut message, offset as u64);
                message.append(".");
                message
            },
            Base64Error::InvalidLength { length } => {
                let mut message = String::from_str("Invalid input length: ");
                push_decimal(&mut message, length as u64);
                message
            },
            Base64Error::InvalidLastSymbol { offset, byte } => {
                let mut message = String::from_str("Invalid last symbol ");
                push_decimal(&mut message, byte as u64);
                message.append(", offset ");
                push_decimal(&mut message, offset as u64);
                message.append(".");
                message
            },
            Base64Error::InvalidPadding => String::from_str("Invalid padding"),
        }
    }
}

/// What is wrong with a text is said with the symbol and the place at which it was
/// found, or with the number of symbols.
pub proof fn law_messages_name_the_place(e: Base64Error)
    ensures
        match e {
            Base64Error::InvalidByte { offset, byte } => e.message_spec() == "Invalid symbol "@
                + decimal(byte as nat) + ", offset "@ + decimal(offset as nat) + "."@,
            Base64Error::InvalidLength { length } => e.message_spec() == "Invalid input length: "@
                + decimal(length as nat),
            Base64Error::InvalidLastSymbol { offset, byte } => e.message_spec()
                == "Invalid last symbol "@ + decimal(byte as nat) + ", offset "@ + decimal(
                offset as nat,
            ) + "."@,
            Base64Error::InvalidPadding => e.message_spec() == "Invalid padding"@,
        },
{
}

/// A payload can be written as text if four symbols for every three bytes, and four
/// more, are no more than an allocation can hold.
pub proof fn law_what_fits_as_text(payload: Seq<u8>)
    ensures
        fits_as_text(payload) <==> payload.len() / 3 * 4 + 4 <= isize::MAX,
        payload.len() <= 1_500_000_000 ==> fits_as_text(payload),
{
}

} // verus!
