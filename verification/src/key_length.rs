//! The length of a key.

use vstd::prelude::*;

verus! {

/// The length of a key in bytes: a positive number.
#[derive(Clone, Copy, Debug)]
pub struct KeyLength {
    bytes: usize,
}

impl View for KeyLength {
    type V = int;

    /// The number of bytes.
    closed spec fn view(&self) -> int {
        self.bytes as int
    }
}

impl KeyLength {
    /// A key has at least one byte.
    #[verifier::type_invariant]
    spec fn positive(self) -> bool {
        self.bytes > 0
    }

    /// The key length of the given number of bytes. Zero is no key length.
    pub fn new(bytes: usize) -> (length: Option<Self>)
        ensures
            match length {
                Some(length) => bytes > 0 && length@ == bytes,
                None => bytes == 0,
            },
    {
        if bytes > 0 {
            Some(Self { bytes })
        } else {
            None
        }
    }

    /// The number of bytes, which is positive.
    pub fn get(self) -> (bytes: usize)
        ensures
            bytes == self@,
            bytes > 0,
    {
        proof {
            use_type_invariant(self);
        }
        self.bytes
    }
}

} // verus!
