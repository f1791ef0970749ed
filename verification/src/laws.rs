//! What holds of every codec, whatever its key.

use vstd::prelude::*;
use crate::codec::SquishyID;
use crate::error::DecodeError;
use crate::notation::{canonical, decode_spec, encode_spec, in_alphabet, is_canonical};
use crate::reasoning::{lemma_encode_fits, lemma_encode_of_value};

verus! {

/// Decoding undoes encoding: for every codec and every 64-bit value, what
/// `encode` writes for the value is decoded by `decode` without error, and
/// to that value.
pub proof fn lemma_decode_undoes_encode(codec: &SquishyID, value: u64)
    requires
        codec.wf(),
    ensures
        decode_spec(codec@, encode_spec(codec@, value as nat)) == Ok::<u64, DecodeError>(value),
{
    lemma_encode_fits(codec@, value);
}

/// Encoding is injective: for every codec, two 64-bit values with the same
/// encoding are the same value.
pub proof fn lemma_encode_injective(codec: &SquishyID, one: u64, other: u64)
    requires
        codec.wf(),
        encode_spec(codec@, one as nat) == encode_spec(codec@, other as nat),
    ensures
        one == other,
{
    lemma_encode_fits(codec@, one);
    lemma_encode_fits(codec@, other);
}

/// Encoding what was decoded gives the canonical form: for every codec and
/// every text written in its alphabet that `decode` accepts, `encode` of
/// the decoded value is the text without its superfluous leading zero
/// digits, and it is the text itself exactly when the text is canonical.
///
/// Texts that `decode` refuses have no decoded value to encode; the empty
/// text is one, and so is a text with more places than 64 bits can weigh.
pub proof fn lemma_encode_canonicalizes(codec: &SquishyID, text: Seq<char>)
    requires
        codec.wf(),
        in_alphabet(codec@, text),
        decode_spec(codec@, text) is Ok,
    ensures
        encode_spec(codec@, decode_spec(codec@, text)->Ok_0 as nat) == canonical(codec@, text),
        encode_spec(codec@, decode_spec(codec@, text)->Ok_0 as nat) == text <==> is_canonical(
            codec@,
            text,
        ),
{
    lemma_encode_of_value(codec@, text);
}

} // verus!
