//! Recovery of the repeating key of a many-time pad.
//!
//! When one keystream of a known length encrypts several messages by XOR, the
//! requirement that every plaintext byte belongs to a known alphabet narrows
//! the possible values of each key byte, and likely words dragged across the
//! ciphertext settle the positions that stay ambiguous.

pub mod byte_set;
pub mod cipher;
pub mod cracker;
pub mod key_length;
pub mod potential_key;
pub mod refiner;
pub mod solver;
pub mod table;
pub mod text_encoding;
pub mod words;

pub use byte_set::{ByteSet, ByteTable};
pub use cipher::Cipher;
pub use cracker::Cracker;
pub use key_length::KeyLength;
pub use potential_key::PotentialKey;
pub use refiner::refine;
pub use solver::{solve, xor_attack};
pub use table::combination_table;
pub use text_encoding::{
    alphabet_of, utf8_alphabet, utf8_words, windows1250_alphabet, windows1250_words, TextEncoding,
    ALPHABET,
};
pub use words::split_lines;
