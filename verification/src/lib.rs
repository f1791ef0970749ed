//! A reversible codec between unsigned 64-bit integers and short strings
//! written in a caller-supplied alphabet.
//!
//! The alphabet (the *key*) is an ordered list of distinct characters. Its
//! length is the base of a positional notation, and the position of a
//! character in the key is the digit that the character stands for.
//! [`SquishyID::encode`] writes an integer in that notation, most significant
//! digit first, and [`SquishyID::decode`] reads it back.
//!
//! This obfuscates and shortens identifiers. It is not encryption: a few
//! encoded samples are enough to recover the key.
//!
//! ```
//! use squishyid::SquishyID;
//!
//! let s = SquishyID::new(
//!     "2BjLhRduC6Tb8Q5cEk9oxnFaWUDpOlGAgwYzNre7tI4yqPvXm0KSV1fJs3ZiHM"
//! ).unwrap();
//!
//! assert_eq!(s.encode(48888851145), "1FN7Ab");
//! assert_eq!(s.decode("1FN7Ab"), Ok(48888851145));
//! ```
//!
//! The modules: [`notation`] defines the mathematics, [`codec`] holds the
//! executable codec with its contracts, [`laws`] states what holds of every
//! codec, [`reasoning`] proves the lemmas behind both, [`text`] moves between
//! strings and characters, and [`error`] lists the failures.

pub mod codec;
pub mod error;
pub mod laws;
pub mod notation;
pub mod reasoning;
pub mod text;

pub use codec::SquishyID;
pub use error::DecodeError;
pub use error::InvalidKey;
