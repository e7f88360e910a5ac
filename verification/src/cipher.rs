//! The repeating-key XOR transform.

use vstd::prelude::*;

verus! {

/// The input XORed byte by byte with the key, the key repeated as often as
/// the input is long.
pub open spec fn xor_with_key(key: Seq<u8>, input: Seq<u8>) -> Seq<u8> {
    Seq::new(input.len(), |i: int| input[i] ^ key[i % (key.len() as int)])
}

/// XOR with one byte undoes itself.
pub proof fn lemma_xor_cancels(byte: u8, key: u8)
    ensures
        (byte ^ key) ^ key == byte,
{
    assert((byte ^ key) ^ key == byte) by (bit_vector);
}

/// Applying the cipher twice with the same non-empty key gives the message
/// back.
pub proof fn lemma_cipher_self_inverse(key: Seq<u8>, message: Seq<u8>)
    requires
        key.len() > 0,
    ensures
        xor_with_key(key, xor_with_key(key, message)) == message,
{
    let once = xor_with_key(key, message);
    let twice = xor_with_key(key, once);
    assert forall|i: int| 0 <= i < message.len() implies twice[i] == message[i] by {
        lemma_xor_cancels(message[i], key[i % (key.len() as int)]);
    }
    assert(twice =~= message);
}

/// A simple XOR cipher with a repeating key.
pub struct Cipher {
    key: Vec<u8>,
}

impl View for Cipher {
    type V = Seq<u8>;

    /// The key bytes.
    closed spec fn view(&self) -> Seq<u8> {
        self.key@
    }
}

impl Cipher {
    /// Create a new cipher with the given key.
    pub fn new(key: Vec<u8>) -> (cipher: Self)
        ensures
            cipher@ == key@,
    {
        Self { key }
    }

    /// The key of the cipher.
    pub fn key(&self) -> (key: &Vec<u8>)
        ensures
            key@ == self@,
    {
        &self.key
    }

    /// Encrypt the given input.
    ///
    /// An empty key can only transform the empty input.
    #[must_use]
    pub fn encrypt(&self, input: &[u8]) -> (output: Vec<u8>)
        requires
            self@.len() > 0 || input@.len() == 0,
        ensures
            output@ == xor_with_key(self@, input@),
    {
        let mut output: Vec<u8> = Vec::with_capacity(input.len());
        let mut index: usize = 0;
        while index < input.len()
            invariant
                self@.len() > 0 || input@.len() == 0,
                index <= input@.len(),
                output@.len() == index,
                forall|i: int|
                    0 <= i < index ==> output@[i] == input@[i] ^ self.key@[i % (self.key@.len() as int)],
            decreases input@.len() - index,
        {
            output.push(input[index] ^ self.key[index % self.key.len()]);
            index += 1;
        }
        assert(output@ =~= xor_with_key(self@, input@));
        output
    }

    /// Decrypt the given input.
    #[inline]
    #[must_use]
    pub fn decrypt(&self, input: &[u8]) -> (output: Vec<u8>)
        requires
            self@.len() > 0 || input@.len() == 0,
        ensures
            output@ == xor_with_key(self@, input@),
    {
        self.encrypt(input)
    }
}

impl Default for Cipher {
    /// The cipher with the empty key.
    fn default() -> (cipher: Self)
        ensures
            cipher@ == Seq::<u8>::empty(),
    {
        Self { key: Vec::new() }
    }
}

} // verus!
