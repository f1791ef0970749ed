//! The ways in which building a codec or decoding a string can fail.

use vstd::prelude::*;

verus! {

/// Why a key was rejected.
#[derive(Debug, Clone, Copy, PartialEq, Eq, Structural)]
pub enum InvalidKey {
    /// The key has fewer than two characters.
    TooShort,
    /// Some character occurs in the key more than once.
    DuplicateCharacter,
}

/// Why a string could not be decoded.
#[derive(Debug, Clone, Copy, PartialEq, Eq, Structural)]
pub enum DecodeError {
    /// The string has no characters.
    EmptyInput,
    /// The string holds a character that is not in the key.
    UnknownCharacter,
    /// The value does not fit in 64 bits.
    Overflow,
}

impl InvalidKey {
    /// The text that `message` returns for each variant.
    pub open spec fn spec_message(self) -> Seq<char> {
        match self {
            InvalidKey::TooShort => "Key must contain at least 2 characters."@,
            InvalidKey::DuplicateCharacter => "Key must contain unique characters."@,
        }
    }

    /// A sentence that describes the error.
    pub fn message(&self) -> (text: &'static str)
        ensures
            text@ == self.spec_message(),
    {
        match self {
            InvalidKey::TooShort => "Key must contain at least 2 characters.",
            InvalidKey::DuplicateCharacter => "Key must contain unique characters.",
        }
    }
}

impl DecodeError {
    /// The text that `message` returns for each variant.
    pub open spec fn spec_message(self) -> Seq<char> {
        match self {
            DecodeError::EmptyInput => "Encoded value must contain at least 1 character."@,
            DecodeError::UnknownCharacter => "Encoded value contains character not present in key."@,
            DecodeError::Overflow => "Encoded value too big to decode."@,
        }
    }

    /// A sentence that describes the error.
    pub fn message(&self) -> (text: &'static str)
        ensures
            text@ == self.spec_message(),
    {
        match self {
            DecodeError::EmptyInput => "Encoded value must contain at least 1 character.",
            DecodeError::UnknownCharacter => "Encoded value contains character not present in key.",
            DecodeError::Overflow => "Encoded value too big to decode.",
        }
    }
}

} // verus!
