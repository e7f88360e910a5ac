//! The cracker: the combination table of an alphabet and a list of likely
//! words, ready to attack ciphertexts.

use crate::byte_set::{ByteSet, ByteTable};
use crate::key_length::KeyLength;
use crate::potential_key::{KeySlot, PotentialKey};
use crate::refiner::{narrowed_from, refine, refined, settled};
use crate::solver::{block_count, narrowed, solve, solved_slots, xor_attack};
use crate::table::{combination_table, is_combination_table};
use crate::text_encoding::TextEncoding;
use crate::words::word_views;
use vstd::prelude::*;

verus! {

/// The slots that cracking leaves: those of the XOR attack, refined by
/// dragging the words across the ciphertext.
pub open spec fn cracked(
    contents: Seq<u8>,
    key_length: int,
    table: Map<u8, ByteSet>,
    words: Seq<Seq<u8>>,
) -> Seq<KeySlot> {
    refined(
        solved_slots(contents, key_length, table),
        contents,
        key_length,
        words,
        words.len(),
    )
}

/// A cracker for a many time pad.
pub struct Cracker {
    combinations: ByteTable,
    words: Vec<Vec<u8>>,
}

impl Cracker {
    /// The combination table that the cracker attacks with.
    pub closed spec fn table(&self) -> Map<u8, ByteSet> {
        self.combinations@
    }

    /// The likely words that the cracker drags, in their order.
    pub closed spec fn words(&self) -> Seq<Seq<u8>> {
        word_views(self.words@)
    }

    /// Create a new cracker for plaintexts in the given encoding, with the
    /// likely words of the given word list, one on each line.
    ///
    /// There is none where the alphabet or the word list cannot be written
    /// in the encoding.
    pub fn new(encoding: &TextEncoding, word_list: &str) -> (cracker: Option<Self>)
        ensures
            match cracker {
                Some(cracker) => {
                    &&& encoding.alphabet_bytes().is_some()
                    &&& is_combination_table(cracker.table(), encoding.alphabet_bytes().unwrap())
                    &&& encoding.word_bytes(word_list@) == Some(cracker.words())
                },
                None => encoding.alphabet_bytes().is_none() || encoding.word_bytes(
                    word_list@,
                ).is_none(),
            },
    {
        let alphabet = match encoding.alphabet() {
            Some(alphabet) => alphabet,
            None => {
                return None;
            },
        };
        let words = match encoding.words(word_list) {
            Some(words) => words,
            None => {
                return None;
            },
        };
        Some(Self::with_alphabet(&alphabet, words))
    }

    /// Create a new cracker for plaintexts made of the bytes of the given
    /// alphabet, with the given likely words.
    pub fn with_alphabet(alphabet: &ByteSet, words: Vec<Vec<u8>>) -> (cracker: Self)
        ensures
            is_combination_table(cracker.table(), alphabet@),
            cracker.words() == word_views(words@),
    {
        let combinations = combination_table(alphabet);
        Self { combinations, words }
    }

    /// Crack the given contents with the given key length: the XOR attack
    /// narrows the candidates of every key position, and the likely words
    /// commit the positions under every placement that fits.
    ///
    /// A position where the attack leaves no candidate is reported as such
    /// in the key; the words never enlarge what the attack has left.
    pub fn crack(&self, contents: &[u8], key_length: KeyLength) -> (key: PotentialKey)
        ensures
            key.wf(),
            key@.len() == key_length@,
            key@ == cracked(contents@, key_length@, self.table(), self.words()),
            settled(solved_slots(contents@, key_length@, self.table()), key@),
            narrowed_from(solved_slots(contents@, key_length@, self.table()), key@),
    {
        let mut key = solve(contents, key_length, &self.combinations);
        refine(contents, key_length, &self.words, &mut key);
        key
    }

    /// The candidates that the XOR attack alone leaves at every key
    /// position.
    pub fn xor_attack(&self, contents: &[u8], key_length: KeyLength) -> (key: Vec<ByteSet>)
        ensures
            key@.len() == key_length@,
            forall|p: int|
                0 <= p < key_length@ ==> (#[trigger] key@[p])@ == narrowed(
                    contents@,
                    key_length@,
                    self.table(),
                    p,
                    block_count(contents@, key_length@),
                ),
    {
        xor_attack(contents, key_length, &self.combinations)
    }
}

} // verus!
