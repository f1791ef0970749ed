//! Moving between strings and vectors of characters, and the two standard
//! library functions that the codec relies on without proof.

use vstd::prelude::*;
use vstd::arithmetic::power::pow;

verus! {

/// Assumed of `String::push`: it appends the character to the end of the
/// string and leaves the rest as it was.
pub assume_specification[ String::push ](s: &mut String, c: char)
    ensures
        final(s)@ == old(s)@.push(c),
;

/// Assumed of `u64::checked_pow`: it returns the power when the power fits
/// in 64 bits, and `None` when it does not.
pub assume_specification[ u64::checked_pow ](base: u64, exp: u32) -> (r: Option<u64>)
    ensures
        r == (if pow(base as int, exp as nat) <= u64::MAX {
            Some(pow(base as int, exp as nat) as u64)
        } else {
            None
        }),
;

/// Two characters with the same code point are the same character.
pub proof fn lemma_code_point_injective(a: char, b: char)
    requires
        a as u32 == b as u32,
    ensures
        a == b,
{
}

/// The characters of `text`, in order.
pub fn chars_of(text: &str) -> (chars: Vec<char>)
    ensures
        chars@ == text@,
{
    let mut chars: Vec<char> = Vec::new();
    for c in it: text.chars()
        invariant
            it.seq() == text@,
            chars@ == text@.take(it.index() as int),
    {
        chars.push(c);
    }
    chars
}

/// The string made of the characters of `chars` in reverse order.
pub fn reversed_string(chars: &Vec<char>) -> (text: String)
    ensures
        text@ == chars@.reverse(),
{
    let mut text = String::new();
    let mut left: usize = chars.len();
    while left > 0
        invariant
            left <= chars.len(),
            text@ == chars@.reverse().take(chars.len() - left),
        decreases left,
    {
        left = left - 1;
        text.push(chars[left]);
    }
    text
}

} // verus!
