//! A masked literal, and its reconstruction.

use vstd::prelude::*;
use vstd::slice::slice_to_vec;
use crate::codec::ByteOrder;
use crate::error::{viewed, Error};
use crate::shape::{Shape, ShapeModel};
use crate::utils::{xor, xor_bytes};
use crate::value::{Value, ValueModel};

verus! {

/// A literal after masking: the masked bytes of its layout, and the shape
/// that tells how to read them once they are unmasked.
#[derive(Debug, PartialEq, Eq)]
pub struct Encrypted {
    /// The layout of the literal, masked with the key.
    pub bytes: Vec<u8>,
    /// The kinds and lengths of the literal.
    pub shape: Shape,
}

/// The value that an unmasked buffer stands for under a shape.
///
/// The buffer must be exactly as long as the shape says. It is then cut
/// along the shape, and every leaf is read by its kind.
pub open spec fn reconstructed(shape: ShapeModel, plaintext: Seq<u8>, order: ByteOrder) -> Result<
    ValueModel,
    Error,
> {
    if shape.len() == plaintext.len() {
        shape.rebuild(plaintext).value(order)
    } else {
        Err(Error::ShapeInvariantViolation)
    }
}

impl Encrypted {
    /// Unmasks the bytes with `key` and reads the value that they stand for.
    ///
    /// The key and the byte order must be those that the literal was laid
    /// out and masked with.
    pub fn decrypt(&self, key: &[u8], order: ByteOrder) -> (r: Result<Value, Error>)
        ensures
            viewed(r) == reconstructed(self.shape@, xor_bytes(self.bytes@, key@), order),
    {
        let mut plaintext = slice_to_vec(self.bytes.as_slice());
        xor(plaintext.as_mut_slice(), key);
        match self.shape.rebuild(plaintext.as_slice()) {
            Ok(literal) => literal.value(order),
            Err(e) => Err(e),
        }
    }
}

} // verus!
