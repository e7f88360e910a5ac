//! The text encodings in which a plaintext may be written: which bytes their
//! texts are made of, which words are likely, and how bytes become text.

use crate::byte_set::{byte_set_insert, byte_set_new, ByteSet};
use crate::words::{lines, split_lines, word_views};
use encoding::all::WINDOWS_1250;
use encoding::{DecoderTrap, EncoderTrap, Encoding};
use vstd::prelude::*;
use vstd::utf8::{decode_utf8, encode_utf8, valid_utf8};

verus! {

/// The characters of which plaintexts are made: Polish letters, digits and
/// some punctuation.
pub const ALPHABET: &'static str =
    "aąbcćdeęfghijklłmnńoópqrsśtuvwxyzźżAĄBCĆDEĘFGHIJKLŁMNŃOÓPQRSŚTUVWXYZŹŻ0123456789!\"#%&()*,-.:;?@[] \r\n\u{a0}—’";

/// What `Encoding::encode` of the `encoding` crate returns for a text on
/// `WINDOWS_1250` with the strict trap: the bytes of the text, or nothing
/// where a character has no code in Windows-1250.
pub uninterp spec fn windows1250_bytes(text: Seq<char>) -> Option<Seq<u8>>;

/// What `Encoding::decode` of the `encoding` crate returns for bytes on
/// `WINDOWS_1250` with the strict trap: the text that the bytes stand for, or
/// nothing where a byte is no code of Windows-1250.
pub uninterp spec fn windows1250_text(bytes: Seq<u8>) -> Option<Seq<char>>;

/// `Encoding::encode` of `encoding`, on `WINDOWS_1250` with
/// `EncoderTrap::Strict`. The result is named, not described: it is
/// `windows1250_bytes` of the text.
#[verifier::external_body]
pub(crate) fn windows1250_encode(text: &str) -> (bytes: Option<Vec<u8>>)
    ensures
        match bytes {
            Some(bytes) => windows1250_bytes(text@) == Some(bytes@),
            None => windows1250_bytes(text@).is_none(),
        },
{
    WINDOWS_1250.encode(text, EncoderTrap::Strict).ok()
}

/// `Encoding::decode` of `encoding`, on `WINDOWS_1250` with
/// `DecoderTrap::Strict`. The result is named, not described: it is
/// `windows1250_text` of the bytes.
#[verifier::external_body]
pub(crate) fn windows1250_decode(bytes: &[u8]) -> (text: Option<String>)
    ensures
        match text {
            Some(text) => windows1250_text(bytes@) == Some(text@),
            None => windows1250_text(bytes@).is_none(),
        },
{
    WINDOWS_1250.decode(bytes, DecoderTrap::Strict).ok()
}

/// `std::str::from_utf8`: the text that the bytes encode in UTF-8, where
/// they are valid UTF-8, and nothing where they are not.
#[verifier::external_body]
pub(crate) fn utf8_decode(bytes: &[u8]) -> (text: Option<String>)
    ensures
        match text {
            Some(text) => valid_utf8(bytes@) && text@ == decode_utf8(bytes@),
            None => !valid_utf8(bytes@),
        },
{
    std::str::from_utf8(bytes).ok().map(ToString::to_string)
}

/// The set of the bytes of a list.
pub open spec fn byte_values(bytes: Seq<u8>) -> Set<u8> {
    Set::new(|byte: u8| bytes.contains(byte))
}

/// The bytes of which UTF-8 plaintexts are made: those of the alphabet in
/// UTF-8, and three bytes more.
pub open spec fn utf8_alphabet_bytes() -> Set<u8> {
    byte_values(encode_utf8(ALPHABET@)).insert(169).insert(166).insert(171)
}

/// The bytes of which Windows-1250 plaintexts are made: the codes of the
/// characters of the alphabet, if all of them have one.
pub open spec fn windows1250_alphabet_bytes() -> Option<Set<u8>> {
    match windows1250_bytes(ALPHABET@) {
        Some(bytes) => Some(byte_values(bytes)),
        None => None,
    }
}

/// The words of a word list in UTF-8: the lines of its bytes.
pub open spec fn utf8_word_bytes(word_list: Seq<char>) -> Seq<Seq<u8>> {
    lines(encode_utf8(word_list))
}

/// The words of a word list in Windows-1250: the lines of its bytes, if all
/// of its characters have a code.
pub open spec fn windows1250_word_bytes(word_list: Seq<char>) -> Option<Seq<Seq<u8>>> {
    match windows1250_bytes(word_list) {
        Some(bytes) => Some(lines(bytes)),
        None => None,
    }
}

/// The set of the bytes of a list.
pub fn alphabet_of(bytes: &[u8]) -> (alphabet: ByteSet)
    ensures
        alphabet@ == byte_values(bytes@),
{
    let mut alphabet = byte_set_new();
    let mut index: usize = 0;
    while index < bytes.len()
        invariant
            index <= bytes@.len(),
            forall|byte: u8|
                alphabet@.contains(byte) <==> exists|i: int|
                    0 <= i < index && #[trigger] bytes@[i] == byte,
        decreases bytes@.len() - index,
    {
        let ghost before = alphabet@;
        let item = bytes[index];
        byte_set_insert(&mut alphabet, item);
        proof {
            assert forall|byte: u8|
                alphabet@.contains(byte) <==> exists|i: int|
                    0 <= i < index + 1 && #[trigger] bytes@[i] == byte by {
                if alphabet@.contains(byte) {
                    if before.contains(byte) {
                        let i = choose|i: int| 0 <= i < index && #[trigger] bytes@[i] == byte;
                        assert(0 <= i < index + 1 && bytes@[i] == byte);
                    } else {
                        assert(bytes@[index as int] == byte);
                    }
                }
                if exists|i: int| 0 <= i < index + 1 && #[trigger] bytes@[i] == byte {
                    let i = choose|i: int| 0 <= i < index + 1 && #[trigger] bytes@[i] == byte;
                    if i < index {
                        assert(before.contains(byte));
                    }
                }
            }
        }
        index += 1;
    }
    assert(alphabet@ =~= byte_values(bytes@));
    alphabet
}

/// Returns a set of bytes that are valid in UTF-8.
pub fn utf8_alphabet() -> (alphabet: ByteSet)
    ensures
        alphabet@ == utf8_alphabet_bytes(),
{
    let mut alphabet = alphabet_of(ALPHABET.as_bytes());
    byte_set_insert(&mut alphabet, 169);
    byte_set_insert(&mut alphabet, 166);
    byte_set_insert(&mut alphabet, 171);
    alphabet
}

/// The likely words of a UTF-8 plaintext: the lines of the word list.
pub fn utf8_words(word_list: &str) -> (words: Vec<Vec<u8>>)
    ensures
        word_views(words@) == utf8_word_bytes(word_list@),
{
    split_lines(word_list.as_bytes())
}

/// Returns a set of bytes that are valid in Windows-1250: the codes of the
/// characters of the alphabet. There is none where a character of the
/// alphabet has no code.
pub fn windows1250_alphabet() -> (alphabet: Option<ByteSet>)
    ensures
        match alphabet {
            Some(alphabet) => windows1250_alphabet_bytes() == Some(alphabet@),
            None => windows1250_alphabet_bytes().is_none(),
        },
{
    match windows1250_encode(ALPHABET) {
        Some(bytes) => Some(alphabet_of(bytes.as_slice())),
        None => None,
    }
}

/// The likely words of a Windows-1250 plaintext: the lines of the encoded
/// word list. There are none where a character of the list has no code.
pub fn windows1250_words(word_list: &str) -> (words: Option<Vec<Vec<u8>>>)
    ensures
        match words {
            Some(words) => windows1250_word_bytes(word_list@) == Some(word_views(words@)),
            None => windows1250_word_bytes(word_list@).is_none(),
        },
{
    match windows1250_encode(word_list) {
        Some(bytes) => Some(split_lines(bytes.as_slice())),
        None => None,
    }
}

/// Text encoding.
#[derive(PartialEq, Eq, Structural, Clone, Copy, Debug)]
pub enum TextEncoding {
    WINDOWS1250,
    UTF8,
}

impl TextEncoding {
    /// The text that bytes stand for in this encoding, if they stand for
    /// one.
    pub open spec fn decoded(&self, bytes: Seq<u8>) -> Option<Seq<char>> {
        match self {
            TextEncoding::WINDOWS1250 => windows1250_text(bytes),
            TextEncoding::UTF8 => if valid_utf8(bytes) {
                Some(decode_utf8(bytes))
            } else {
                None
            },
        }
    }

    /// The bytes of which plaintexts in this encoding are made.
    pub open spec fn alphabet_bytes(&self) -> Option<Set<u8>> {
        match self {
            TextEncoding::WINDOWS1250 => windows1250_alphabet_bytes(),
            TextEncoding::UTF8 => Some(utf8_alphabet_bytes()),
        }
    }

    /// The words of a word list in this encoding.
    pub open spec fn word_bytes(&self, word_list: Seq<char>) -> Option<Seq<Seq<u8>>> {
        match self {
            TextEncoding::WINDOWS1250 => windows1250_word_bytes(word_list),
            TextEncoding::UTF8 => Some(utf8_word_bytes(word_list)),
        }
    }

    /// Decode bytes to string.
    pub fn decode(&self, bytes: &[u8]) -> (text: Option<String>)
        ensures
            match text {
                Some(text) => self.decoded(bytes@) == Some(text@),
                None => self.decoded(bytes@).is_none(),
            },
    {
        match self {
            TextEncoding::WINDOWS1250 => windows1250_decode(bytes),
            TextEncoding::UTF8 => utf8_decode(bytes),
        }
    }

    /// Get alphabet.
    pub fn alphabet(&self) -> (alphabet: Option<ByteSet>)
        ensures
            match alphabet {
                Some(alphabet) => self.alphabet_bytes() == Some(alphabet@),
                None => self.alphabet_bytes().is_none(),
            },
    {
        match self {
            TextEncoding::WINDOWS1250 => windows1250_alphabet(),
            TextEncoding::UTF8 => Some(utf8_alphabet()),
        }
    }

    /// Get most popular words: those of the word list, one on each line.
    pub fn words(&self, word_list: &str) -> (words: Option<Vec<Vec<u8>>>)
        ensures
            match words {
                Some(words) => self.word_bytes(word_list@) == Some(word_views(words@)),
                None => self.word_bytes(word_list@).is_none(),
            },
    {
        match self {
            TextEncoding::WINDOWS1250 => windows1250_words(word_list),
            TextEncoding::UTF8 => Some(utf8_words(word_list)),
        }
    }

    /// The name under which the encoding is shown.
    pub fn label(&self) -> (name: String)
        ensures
            name@ == match self {
                TextEncoding::WINDOWS1250 => "Windows-1250"@,
                TextEncoding::UTF8 => "UTF-8"@,
            },
    {
        match self {
            TextEncoding::WINDOWS1250 => "Windows-1250".to_owned(),
            TextEncoding::UTF8 => "UTF-8".to_owned(),
        }
    }
}

impl Default for TextEncoding {
    fn default() -> (encoding: Self)
        ensures
            encoding == TextEncoding::WINDOWS1250,
    {
        Self::WINDOWS1250
    }
}

} // verus!
