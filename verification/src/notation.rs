//! The mathematics of the codec: positional notation over an alphabet.
//!
//! Everything here is specification. A key is a `Seq<char>`, a text is a
//! `Seq<char>` read most significant digit first, and a value is an integer.

use vstd::prelude::*;
use vstd::arithmetic::power::pow;
use crate::error::DecodeError;

verus! {

/// A key can serve as an alphabet when it has at least two characters and
/// no character twice.
pub open spec fn valid_key(key: Seq<char>) -> bool {
    key.len() >= 2 && key.no_duplicates()
}

/// The digit that `symbol` stands for: its position in `key`.
/// Only meaningful when `key` contains `symbol`.
pub open spec fn digit_of(key: Seq<char>, symbol: char) -> int {
    key.index_of(symbol)
}

/// Every character of `text` is a character of `key`.
pub open spec fn in_alphabet(key: Seq<char>, text: Seq<char>) -> bool {
    forall|i: int| 0 <= i < text.len() ==> key.contains(#[trigger] text[i])
}

/// The weight of the digit that stands `position` places from the end.
pub open spec fn weight(key: Seq<char>, position: nat) -> int {
    pow(key.len() as int, position)
}

/// The number that `text` denotes: the sum over its characters of the
/// character's digit times the base raised to the character's distance
/// from the end of `text`.
pub open spec fn value_of(key: Seq<char>, text: Seq<char>) -> int
    decreases text.len(),
{
    if text.len() == 0 {
        0
    } else {
        digit_of(key, text[0]) * weight(key, (text.len() - 1) as nat) + value_of(
            key,
            text.drop_first(),
        )
    }
}

/// The notation of `value` in the alphabet `key`: a single digit when
/// `value` is less than the base, else the notation of the quotient by the
/// base followed by the digit of the remainder.
pub open spec fn encode_spec(key: Seq<char>, value: nat) -> Seq<char>
    recommends
        valid_key(key),
    decreases value,
    when key.len() >= 2
    via encode_spec_terminates
{
    if value < key.len() {
        seq![key[value as int]]
    } else {
        encode_spec(key, value / key.len()).push(key[(value % key.len()) as int])
    }
}

#[via_fn]
proof fn encode_spec_terminates(key: Seq<char>, value: nat) {
    if value >= key.len() {
        assert(value / key.len() < value) by (nonlinear_arith)
            requires
                value >= key.len(),
                key.len() >= 2,
        ;
    }
}

/// A text is canonical when it is a single digit or does not begin with
/// the zero digit.
pub open spec fn is_canonical(key: Seq<char>, text: Seq<char>) -> bool {
    text.len() == 1 || (text.len() >= 2 && text[0] != key[0])
}

/// `text` without its superfluous leading zero digits. The last character
/// always stays.
pub open spec fn canonical(key: Seq<char>, text: Seq<char>) -> Seq<char>
    decreases text.len(),
{
    if text.len() >= 2 && text[0] == key[0] {
        canonical(key, text.drop_first())
    } else {
        text
    }
}

/// `text` can be decoded without leaving 64 bits: it is written in the
/// alphabet, the weight of its first character fits, and so does its value.
///
/// The weight is tested apart from the value: a zero digit in a place whose
/// weight exceeds `u64::MAX` adds nothing to the value, and still the text
/// does not fit.
pub open spec fn fits(key: Seq<char>, text: Seq<char>) -> bool {
    &&& in_alphabet(key, text)
    &&& text.len() > 0 ==> weight(key, (text.len() - 1) as nat) <= u64::MAX
    &&& value_of(key, text) <= u64::MAX
}

/// What decoding `text` with the alphabet `key` gives: `EmptyInput` for
/// the empty text; else `UnknownCharacter` if any character of the text is
/// not in the key, wherever it stands; else `Overflow` if the text does not
/// fit; else the value that the text denotes.
pub open spec fn decode_spec(key: Seq<char>, text: Seq<char>) -> Result<u64, DecodeError> {
    if text.len() == 0 {
        Err(DecodeError::EmptyInput)
    } else if !in_alphabet(key, text) {
        Err(DecodeError::UnknownCharacter)
    } else if !fits(key, text) {
        Err(DecodeError::Overflow)
    } else {
        Ok(value_of(key, text) as u64)
    }
}

} // verus!
