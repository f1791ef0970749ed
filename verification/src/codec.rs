//! The codec itself: a validated key with its two lookup tables.

use std::collections::HashMap;
use vstd::prelude::*;
use crate::error::{DecodeError, InvalidKey};
use crate::notation::{
    canonical, decode_spec, digit_of, encode_spec, fits, in_alphabet, is_canonical, valid_key,
    value_of, weight,
};
use crate::reasoning::{
    lemma_alphabet_suffix, lemma_digit_of_symbol, lemma_encode_fits, lemma_encode_of_value,
    lemma_encode_shape, lemma_fits_suffix, lemma_weight_grows, lemma_weight_limit,
};
use crate::text::{chars_of, lemma_code_point_injective, reversed_string};

verus! {

/// A codec for one key.
///
/// It is built once by [`SquishyID::new`] and never changes afterwards. Its
/// view is the key as a sequence of characters: the character at position
/// `i` stands for the digit `i`.
pub struct SquishyID {
    /// The base: the number of characters in the key.
    length: usize,
    /// From the code point of each character of the key to the digit that
    /// the character stands for.
    characters_to_positions: HashMap<u32, usize>,
    /// The key itself: for each digit the character that stands for it.
    positions_to_characters: Vec<char>,
}

impl View for SquishyID {
    type V = Seq<char>;

    closed spec fn view(&self) -> Seq<char> {
        self.positions_to_characters@
    }
}

impl SquishyID {
    /// The lookup tables agree with the key: `length` is the number of its
    /// characters, and the map sends the code point of each of its
    /// characters, and nothing else, to the position of that character.
    pub closed spec fn tables_agree(&self) -> bool {
        &&& self.length == self.positions_to_characters@.len()
        &&& forall|i: int|
            0 <= i < self.positions_to_characters@.len() ==> {
                &&& self.characters_to_positions@.contains_key(
                    #[trigger] self.positions_to_characters@[i] as u32,
                )
                &&& self.characters_to_positions@[self.positions_to_characters@[i] as u32] == i
            }
        &&& forall|code: u32| #[trigger]
            self.characters_to_positions@.contains_key(code) ==> {
                &&& self.characters_to_positions@[code] < self.positions_to_characters@.len()
                &&& self.positions_to_characters@[self.characters_to_positions@[code] as int] as u32
                    == code
            }
    }

    /// The invariant of every codec: its key is a valid alphabet and its
    /// lookup tables agree with it.
    #[verifier::type_invariant]
    pub open spec fn wf(&self) -> bool {
        valid_key(self@) && self.tables_agree()
    }

    /// Builds the codec for `key`.
    ///
    /// Each character of the key is one symbol, in the order given. The key
    /// is refused as `TooShort` when it has fewer than two characters and
    /// as `DuplicateCharacter` when some character occurs in it twice;
    /// every other key is accepted and becomes the codec's view.
    pub fn new(key: &str) -> (made: Result<SquishyID, InvalidKey>)
        ensures
            match made {
                Ok(codec) => valid_key(key@) && codec.wf() && codec@ == key@,
                Err(InvalidKey::TooShort) => key@.len() < 2,
                Err(InvalidKey::DuplicateCharacter) => key@.len() >= 2 && !key@.no_duplicates(),
            },
    {
        let positions_to_characters: Vec<char> = chars_of(key);

        let length: usize = positions_to_characters.len();
        if length < 2 {
            return Err(InvalidKey::TooShort);
        }
        let mut characters_to_positions: HashMap<u32, usize> = HashMap::new();
        let mut position: usize = 0;
        while position < length
            invariant
                position <= length,
                length == positions_to_characters@.len(),
                positions_to_characters@ == key@,
                forall|i: int|
                    0 <= i < position ==> {
                        &&& characters_to_positions@.contains_key(
                            #[trigger] positions_to_characters@[i] as u32,
                        )
                        &&& characters_to_positions@[positions_to_characters@[i] as u32] == i
                    },
                forall|code: u32| #[trigger]
                    characters_to_positions@.contains_key(code) ==> {
                        &&& characters_to_positions@[code] < position
                        &&& positions_to_characters@[characters_to_positions@[code] as int] as u32
                            == code
                    },
                forall|i: int, j: int|
                    0 <= i < j < position ==> positions_to_characters@[i]
                        != positions_to_characters@[j],
            decreases length - position,
        {
            let character: char = positions_to_characters[position];
            let ghost seen = characters_to_positions@;
            if characters_to_positions.insert(character as u32, position).is_some() {
                proof {
                    let earlier = seen[character as u32] as int;
                    lemma_code_point_injective(key@[earlier], character);
                    assert(key@[earlier] == key@[position as int] && earlier != position);
                }
                return Err(InvalidKey::DuplicateCharacter);
            }
            position = position + 1;
        }

        Ok(SquishyID { length, characters_to_positions, positions_to_characters })
    }

    /// Writes `decoded` in the codec's notation, most significant digit
    /// first. The result is never empty, uses only characters of the key
    /// and has no superfluous leading zero digit. Every value can be
    /// encoded.
    pub fn encode(&self, decoded: u64) -> (encoded: String)
        ensures
            encoded@ == encode_spec(self@, decoded as nat),
            encoded@.len() >= 1,
            in_alphabet(self@, encoded@),
            is_canonical(self@, encoded@),
            decode_spec(self@, encoded@) == Ok::<u64, DecodeError>(decoded),
    {
        proof {
            use_type_invariant(self);
        }
        let base: u64 = self.length as u64;
        let mut digits: Vec<char> = Vec::new();
        let mut rest: u64 = decoded;
        loop
            invariant_except_break
                self.wf(),
                base == self@.len(),
                encode_spec(self@, decoded as nat) == encode_spec(self@, rest as nat)
                    + digits@.reverse(),
            ensures
                encode_spec(self@, decoded as nat) == digits@.reverse(),
            decreases rest,
        {
            let position: u64 = rest % base;
            let ghost before = digits@;
            digits.push(self.positions_to_characters[position as usize]);
            proof {
                let symbol = self@[position as int];
                assert(digits@.reverse() =~= seq![symbol] + before.reverse());
                assert(rest < base ==> rest % base == rest && rest / base == 0)
                    by (nonlinear_arith)
                    requires
                        base > 0,
                ;
                assert(rest >= base ==> 1 <= rest / base < rest) by (nonlinear_arith)
                    requires
                        base >= 2,
                ;
                if rest < base {
                    assert(encode_spec(self@, rest as nat) == seq![symbol]);
                } else {
                    assert(encode_spec(self@, rest as nat) == encode_spec(
                        self@,
                        rest as nat / self@.len(),
                    ).push(symbol));
                    assert(encode_spec(self@, rest as nat / self@.len()).push(symbol)
                        + before.reverse() =~= encode_spec(self@, rest as nat / self@.len())
                        + digits@.reverse());
                }
            }
            rest = rest / base;

            if rest == 0 {
                break;
            }
        }
        proof {
            lemma_encode_shape(self@, decoded as nat);
            lemma_encode_fits(self@, decoded);
        }
        reversed_string(&digits)
    }

    /// Reads `encoded` as a number in the codec's notation.
    ///
    /// The empty string gives `EmptyInput`. A string that holds a character
    /// that is not in the key gives `UnknownCharacter`, wherever the
    /// character stands and whatever the other characters are. A string
    /// written in the alphabet gives the value it denotes if it fits in 64
    /// bits, and `Overflow` if it does not: when the weight of a place, the
    /// contribution of its digit, or the sum so far leaves 64 bits, even
    /// when only zero digits stand in the places that weigh too much.
    #[verifier::loop_isolation(false)]
    pub fn decode(&self, encoded: &str) -> (decoded: Result<u64, DecodeError>)
        ensures
            decoded == decode_spec(self@, encoded@),
            decoded is Ok <==> encoded@.len() > 0 && fits(self@, encoded@),
            decoded is Ok ==> decoded->Ok_0 == value_of(self@, encoded@),
            decoded is Ok ==> encode_spec(self@, decoded->Ok_0 as nat) == canonical(
                self@,
                encoded@,
            ),
            decoded == Err::<u64, DecodeError>(DecodeError::EmptyInput) <==> encoded@.len() == 0,
            decoded == Err::<u64, DecodeError>(DecodeError::UnknownCharacter) <==> encoded@.len()
                > 0 && !in_alphabet(self@, encoded@),
            decoded == Err::<u64, DecodeError>(DecodeError::Overflow) <==> encoded@.len() > 0
                && in_alphabet(self@, encoded@) && !fits(self@, encoded@),
    {
        let characters: Vec<char> = chars_of(encoded);
        let count: usize = characters.len();
        if count == 0 {
            return Err(DecodeError::EmptyInput);
        }
        proof {
            use_type_invariant(self);
        }
        // Every character is looked up before any arithmetic is done, so
        // that a character outside the key is reported whatever else holds
        // of the string.
        let mut factors: Vec<u64> = Vec::new();
        let mut index: usize = 0;
        while index < count
            invariant
                index <= count,
                factors@.len() == index,
                forall|i: int|
                    0 <= i < index ==> {
                        &&& self@.contains(#[trigger] encoded@[i])
                        &&& factors@[i] == digit_of(self@, encoded@[i])
                    },
            decreases count - index,
        {
            let character: char = characters[index];
            match self.characters_to_positions.get(&(character as u32)) {
                None => {
                    proof {
                        if self@.contains(character) {
                            let at = self@.index_of(character);
                            assert(self.characters_to_positions@.contains_key(self@[at] as u32));
                        }
                        assert(!self@.contains(encoded@[index as int]));
                    }
                    return Err(DecodeError::UnknownCharacter);
                },
                Some(found) => {
                    proof {
                        let at = *found as int;
                        lemma_code_point_injective(self@[at], character);
                        lemma_digit_of_symbol(self@, at);
                    }
                    factors.push(*found as u64);
                },
            }
            index = index + 1;
        }
        assert(in_alphabet(self@, encoded@));

        let base: u64 = self.length as u64;
        let mut decoded: u64 = 0;
        let mut position: usize = 0;
        while position < count
            invariant
                position <= count,
                fits(self@, encoded@.skip(count - position)),
                decoded == value_of(self@, encoded@.skip(count - position)),
            decreases count - position,
        {
            let ghost done = encoded@.skip(count - position);
            let ghost now = encoded@.skip(count - position - 1);
            let factor: u64 = factors[count - 1 - position];
            proof {
                assert(now.drop_first() =~= done);
                assert(now[0] == encoded@[count - 1 - position]);
                assert(now.len() - 1 == position);
                lemma_alphabet_suffix(self@, encoded@, count - position - 1);
                if position > 0 {
                    lemma_weight_limit(self@, (position - 1) as nat);
                }
                let place = weight(self@, position as nat);
                lemma_weight_grows(self@, 0, position as nat);
                assert(factor * place == place * factor) by (nonlinear_arith);
            }
            let sum: Option<u64> = match base.checked_pow(position as u32) {
                Some(place) => match place.checked_mul(factor) {
                    Some(part) => part.checked_add(decoded),
                    None => None,
                },
                None => None,
            };
            match sum {
                None => {
                    proof {
                        assert(!fits(self@, now));
                        if fits(self@, encoded@) {
                            lemma_fits_suffix(self@, encoded@, count - position - 1);
                        }
                    }
                    return Err(DecodeError::Overflow);
                },
                Some(bigger) => {
                    decoded = bigger;
                },
            }
            position = position + 1;
        }
        proof {
            assert(encoded@.skip(0) =~= encoded@);
            lemma_encode_of_value(self@, encoded@);
        }
        Ok(decoded)
    }
}

} // verus!
