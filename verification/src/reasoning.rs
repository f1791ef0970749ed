//! Lemmas about the notation: digits, weights, values, which texts fit in
//! 64 bits, and how writing a value and reading a text undo each other.

use vstd::prelude::*;
use vstd::arithmetic::power::{pow, lemma_pow0, lemma_pow_increases, lemma_pow_positive};
use vstd::arithmetic::power2::{pow2, lemma2_to64, lemma_pow2};
use crate::error::DecodeError;
use crate::notation::{
    canonical, decode_spec, digit_of, encode_spec, fits, in_alphabet, is_canonical, valid_key,
    value_of, weight,
};

verus! {

/// In a valid key the digit of the character at position `i` is `i`.
pub proof fn lemma_digit_of_symbol(key: Seq<char>, i: int)
    requires
        key.no_duplicates(),
        0 <= i < key.len(),
    ensures
        digit_of(key, key[i]) == i,
{
    let found = digit_of(key, key[i]);
    assert(0 <= found < key.len() && key[found] == key[i]);
}

/// The digit of a character of the key is a position in the key, and the
/// key holds the character there.
pub proof fn lemma_digit_in_range(key: Seq<char>, symbol: char)
    requires
        key.contains(symbol),
    ensures
        0 <= digit_of(key, symbol) < key.len(),
        key[digit_of(key, symbol)] == symbol,
{
}

/// The weight of the last place is one, and each place weighs the base
/// times the place after it.
pub proof fn lemma_weight_unfold(key: Seq<char>, position: nat)
    ensures
        weight(key, 0) == 1,
        weight(key, position + 1) == key.len() * weight(key, position),
{
    reveal(pow);
}

/// Weights are positive and grow with the distance from the end.
pub proof fn lemma_weight_grows(key: Seq<char>, near: nat, far: nat)
    requires
        key.len() >= 1,
        near <= far,
    ensures
        1 <= weight(key, near) <= weight(key, far),
{
    lemma_pow_positive(key.len() as int, near);
    lemma_pow_increases(key.len(), near, far);
}

/// With a base of at least two, a weight that fits in 64 bits belongs to
/// one of the last 64 places.
pub proof fn lemma_weight_limit(key: Seq<char>, position: nat)
    requires
        key.len() >= 2,
        weight(key, position) <= u64::MAX,
    ensures
        position < 64,
{
    if position >= 64 {
        lemma_weight_grows(key, 64, position);
        lemma_weight_at_least_pow2(key, 64);
        lemma2_to64();
    }
}

/// With a base of at least two, the weight of a place is at least the
/// same power of two.
proof fn lemma_weight_at_least_pow2(key: Seq<char>, position: nat)
    requires
        key.len() >= 2,
    ensures
        weight(key, position) >= pow2(position),
    decreases position,
{
    lemma_pow2(position);
    if position == 0 {
        lemma_pow0(key.len() as int);
        lemma_pow0(2);
    } else {
        let before = (position - 1) as nat;
        lemma_weight_at_least_pow2(key, before);
        lemma_weight_unfold(key, before);
        lemma_pow2(before);
        reveal(pow);
        let w = weight(key, before);
        let p = pow(2, before);
        let base = key.len() as int;
        assert(base * w >= 2 * p) by (nonlinear_arith)
            requires
                base >= 2,
                w >= p,
                p >= 0,
        ;
    }
}

/// A text written in the alphabet stays so when characters are dropped
/// from its front.
pub proof fn lemma_alphabet_suffix(key: Seq<char>, text: Seq<char>, from: int)
    requires
        0 <= from <= text.len(),
        in_alphabet(key, text),
    ensures
        in_alphabet(key, text.skip(from)),
{
    let rest = text.skip(from);
    assert forall|i: int| 0 <= i < rest.len() implies key.contains(#[trigger] rest[i]) by {
        assert(rest[i] == text[from + i]);
    }
}

/// A text written in the alphabet denotes a number that is not negative
/// and not less than the value of the text without its first character.
pub proof fn lemma_value_bounds(key: Seq<char>, text: Seq<char>)
    requires
        key.len() >= 1,
        in_alphabet(key, text),
    ensures
        0 <= value_of(key, text),
        text.len() > 0 ==> value_of(key, text.drop_first()) <= value_of(key, text),
        text.len() > 0 ==> digit_of(key, text[0]) * weight(key, (text.len() - 1) as nat)
            <= value_of(key, text),
    decreases text.len(),
{
    if text.len() > 0 {
        let rest = text.drop_first();
        lemma_value_bounds(key, rest);
        lemma_digit_in_range(key, text[0]);
        let place = (text.len() - 1) as nat;
        lemma_weight_grows(key, 0, place);
        let d = digit_of(key, text[0]);
        let w = weight(key, place);
        assert(d * w >= 0) by (nonlinear_arith)
            requires
                d >= 0,
                w >= 1,
        ;
    }
}

/// If a text fits, so does the text without its first character.
pub proof fn lemma_fits_rest(key: Seq<char>, text: Seq<char>)
    requires
        key.len() >= 1,
        text.len() > 0,
        fits(key, text),
    ensures
        fits(key, text.drop_first()),
{
    let rest = text.drop_first();
    lemma_alphabet_suffix(key, text, 1);
    assert(text.skip(1) =~= rest);
    lemma_value_bounds(key, text);
    if rest.len() > 0 {
        lemma_weight_grows(key, (rest.len() - 1) as nat, (text.len() - 1) as nat);
    }
}

/// If a text fits, so does what is left of it after dropping characters
/// from its front.
pub proof fn lemma_fits_suffix(key: Seq<char>, text: Seq<char>, from: int)
    requires
        key.len() >= 1,
        0 <= from <= text.len(),
        fits(key, text),
    ensures
        fits(key, text.skip(from)),
    decreases from,
{
    if from == 0 {
        assert(text.skip(0) =~= text);
    } else {
        lemma_fits_suffix(key, text, from - 1);
        lemma_fits_rest(key, text.skip(from - 1));
        assert(text.skip(from - 1).drop_first() =~= text.skip(from));
    }
}

/// The notation of a value is never empty, is written in the alphabet and
/// is canonical; unless the value is zero it does not begin with the zero
/// digit.
pub proof fn lemma_encode_shape(key: Seq<char>, value: nat)
    requires
        valid_key(key),
    ensures
        encode_spec(key, value).len() >= 1,
        in_alphabet(key, encode_spec(key, value)),
        value > 0 ==> encode_spec(key, value)[0] != key[0],
        is_canonical(key, encode_spec(key, value)),
        encode_spec(key, value).len() == 1 <==> value < key.len(),
    decreases value,
{
    let base = key.len();
    let text = encode_spec(key, value);
    if value < base {
        assert(key.contains(key[value as int]));
    } else {
        let quotient = value / base;
        let digit = (value % base) as int;
        assert(quotient < value && quotient >= 1 && 0 <= digit < base) by (nonlinear_arith)
            requires
                quotient == value / base,
                digit == value % base,
                base >= 2,
                value >= base,
        ;
        lemma_encode_shape(key, quotient);
        let front = encode_spec(key, quotient);
        assert(text == front.push(key[digit]));
        assert(key.contains(key[digit]));
        assert forall|i: int| 0 <= i < text.len() implies key.contains(#[trigger] text[i]) by {
            if i < front.len() {
                assert(text[i] == front[i]);
            }
        }
        assert(text[0] == front[0]);
    }
}

/// Appending a character multiplies the value by the base and adds the
/// digit of the character.
pub proof fn lemma_value_push(key: Seq<char>, text: Seq<char>, symbol: char)
    ensures
        value_of(key, text.push(symbol)) == value_of(key, text) * key.len() + digit_of(
            key,
            symbol,
        ),
    decreases text.len(),
{
    let longer = text.push(symbol);
    let base = key.len() as int;
    let digit = digit_of(key, symbol);
    if text.len() == 0 {
        assert(longer.drop_first() =~= Seq::<char>::empty());
        lemma_weight_unfold(key, 0);
        assert(value_of(key, longer.drop_first()) == 0);
        assert(value_of(key, longer) == digit * 1 + 0);
    } else {
        let rest = text.drop_first();
        assert(longer.drop_first() =~= rest.push(symbol));
        assert(longer[0] == text[0]);
        lemma_value_push(key, rest, symbol);
        let place = (text.len() - 1) as nat;
        lemma_weight_unfold(key, place);
        let first = digit_of(key, text[0]);
        let w = weight(key, place);
        let low = value_of(key, rest);
        assert(first * (base * w) + (low * base + digit) == (first * w + low) * base + digit)
            by (nonlinear_arith);
    }
}

/// The notation of a value denotes that value, and the weight of its
/// first place does not exceed the value unless the value is zero.
pub proof fn lemma_encode_value(key: Seq<char>, value: nat)
    requires
        valid_key(key),
    ensures
        value_of(key, encode_spec(key, value)) == value,
        value > 0 ==> weight(key, (encode_spec(key, value).len() - 1) as nat) <= value,
        value == 0 ==> weight(key, (encode_spec(key, value).len() - 1) as nat) == 1,
    decreases value,
{
    let base = key.len();
    let text = encode_spec(key, value);
    lemma_encode_shape(key, value);
    if value < base {
        lemma_digit_of_symbol(key, value as int);
        lemma_weight_unfold(key, 0);
        assert(text.drop_first() =~= Seq::<char>::empty());
        assert(value_of(key, text.drop_first()) == 0);
        assert(value_of(key, text) == value * 1 + 0);
    } else {
        let quotient = value / base;
        let digit = (value % base) as int;
        assert(quotient < value && quotient >= 1 && 0 <= digit < base && quotient * base + digit
            == value) by (nonlinear_arith)
            requires
                quotient == value / base,
                digit == value % base,
                base >= 2,
                value >= base,
        ;
        let front = encode_spec(key, quotient);
        lemma_encode_value(key, quotient);
        lemma_encode_shape(key, quotient);
        lemma_value_push(key, front, key[digit]);
        lemma_digit_of_symbol(key, digit);
        let place = (front.len() - 1) as nat;
        lemma_weight_unfold(key, place);
        let w = weight(key, place);
        assert(base * w <= value) by (nonlinear_arith)
            requires
                w <= quotient,
                quotient * base + digit == value,
                digit >= 0,
                base >= 2,
        ;
    }
}

/// The notation of a 64-bit value fits, so it can be read back.
pub proof fn lemma_encode_fits(key: Seq<char>, value: u64)
    requires
        valid_key(key),
    ensures
        fits(key, encode_spec(key, value as nat)),
        decode_spec(key, encode_spec(key, value as nat)) == Ok::<u64, DecodeError>(value),
{
    lemma_encode_shape(key, value as nat);
    lemma_encode_value(key, value as nat);
}

/// What `canonical` keeps of a text: a non-empty text stays non-empty,
/// becomes canonical, is not longer than before and keeps its length only
/// if it was canonical already; a text written in the alphabet stays so
/// and keeps its value.
pub proof fn lemma_canonical_shape(key: Seq<char>, text: Seq<char>)
    requires
        valid_key(key),
        text.len() > 0,
    ensures
        is_canonical(key, canonical(key, text)),
        1 <= canonical(key, text).len() <= text.len(),
        canonical(key, text).len() == text.len() <==> is_canonical(key, text),
        is_canonical(key, text) ==> canonical(key, text) == text,
        in_alphabet(key, text) ==> in_alphabet(key, canonical(key, text)),
        value_of(key, canonical(key, text)) == value_of(key, text),
    decreases text.len(),
{
    if text.len() >= 2 && text[0] == key[0] {
        let rest = text.drop_first();
        lemma_canonical_shape(key, rest);
        lemma_digit_of_symbol(key, 0);
        if in_alphabet(key, text) {
            lemma_alphabet_suffix(key, text, 1);
            assert(text.skip(1) =~= rest);
        }
        let w = weight(key, (text.len() - 1) as nat);
        assert(0 * w == 0) by (nonlinear_arith);
    }
}

/// Writing the value of a canonical text gives the text back.
pub proof fn lemma_encode_of_canonical(key: Seq<char>, text: Seq<char>)
    requires
        valid_key(key),
        in_alphabet(key, text),
        is_canonical(key, text),
    ensures
        value_of(key, text) >= 0,
        encode_spec(key, value_of(key, text) as nat) == text,
    decreases text.len(),
{
    let base = key.len();
    lemma_value_bounds(key, text);
    let last = text.last();
    let front = text.drop_last();
    assert(text =~= front.push(last));
    assert(key.contains(text[text.len() - 1]));
    lemma_digit_in_range(key, last);
    let digit = digit_of(key, last);
    lemma_value_push(key, front, last);
    if text.len() == 1 {
        assert(front =~= Seq::<char>::empty());
        assert(value_of(key, front) == 0);
        assert(0 * base == 0) by (nonlinear_arith);
        assert(seq![key[digit]] =~= text);
    } else {
        assert(front[0] == text[0]);
        assert forall|i: int| 0 <= i < front.len() implies key.contains(#[trigger] front[i]) by {
            assert(front[i] == text[i]);
        }
        lemma_encode_of_canonical(key, front);
        lemma_value_bounds(key, front);
        let high = value_of(key, front);
        assert(high >= 1) by {
            // a text that does not begin with the zero digit denotes at
            // least the weight of its first place
            lemma_digit_in_range(key, front[0]);
            lemma_digit_of_symbol(key, 0);
            lemma_weight_grows(key, 0, (front.len() - 1) as nat);
            let first = digit_of(key, front[0]);
            let w = weight(key, (front.len() - 1) as nat);
            assert(first * w >= 1) by (nonlinear_arith)
                requires
                    first >= 1,
                    w >= 1,
            ;
        }
        let value = high * base + digit;
        assert(value >= base && value / (base as int) == high && value % (base as int) == digit)
            by (nonlinear_arith)
            requires
                value == high * base + digit,
                high >= 1,
                0 <= digit < base,
        ;
    }
}

/// Writing the value of any non-empty text in the alphabet gives the
/// canonical form of the text.
pub proof fn lemma_encode_of_value(key: Seq<char>, text: Seq<char>)
    requires
        valid_key(key),
        text.len() > 0,
        in_alphabet(key, text),
    ensures
        value_of(key, text) >= 0,
        encode_spec(key, value_of(key, text) as nat) == canonical(key, text),
        encode_spec(key, value_of(key, text) as nat) == text <==> is_canonical(key, text),
{
    lemma_canonical_shape(key, text);
    lemma_encode_of_canonical(key, canonical(key, text));
}

} // verus!
