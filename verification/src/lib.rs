//! Obfuscation of literal values: a literal is laid out as bytes, the bytes
//! are masked with a repeating-key XOR, and the masked buffer is later turned
//! back into the typed value it stands for.
//!
//! The way of a literal:
//!
//! 1. [`Expr`] is its syntax, as plain data. What it denotes is a typed
//!    [`Value`].
//! 2. [`LiteralBytes::parse`] lays the value out as tagged bytes: text as
//!    UTF-8, numbers and characters in a given [`ByteOrder`].
//! 3. [`LiteralBytes::encrypt`] masks the layout with a key and keeps the
//!    [`Shape`]: kinds and lengths, no content. Together they are an
//!    [`Encrypted`].
//! 4. [`Encrypted::decrypt`] unmasks the bytes, cuts them along the shape and
//!    reads every leaf by its kind.
//!
//! The key and the byte order are handed to every call that needs them:
//! reconstruction gives the value back where both are those that the literal
//! was obfuscated with. The module [`laws`] states what holds of all values,
//! keys and byte orders.

use vstd::prelude::*;
use vstd::slice::slice_to_vec;
use vstd::utf8::{decode_utf8_encode_utf8, encode_utf8, valid_utf8};

pub mod codec;
pub mod collect;
pub mod encrypted;
pub mod error;
pub mod laws;
pub mod literal_bytes;
pub mod shape;
pub mod syntax;
pub mod utils;
pub mod value;

pub use crate::codec::ByteOrder;
pub use crate::encrypted::Encrypted;
pub use crate::error::Error;
pub use crate::literal_bytes::{Delimiter, LiteralBytes};
pub use crate::shape::{Shape, Split};
pub use crate::syntax::{Expr, Lit};
pub use crate::utils::{split_array, xor};
pub use crate::value::Value;

use crate::literal_bytes::text_from_utf8;
use crate::shape::ShapeModel;
use crate::utils::xor_bytes;

verus! {

/// The number of bytes of a key that is drawn at random.
pub const RANDOM_KEY_LEN: usize = 64;

/// Trusted: `rand::fill` on a buffer of 64 bytes. The call overwrites the
/// bytes in place with random ones; all that is claimed is that 64 bytes
/// come back.
#[verifier::external_body]
fn random_key() -> (key: Vec<u8>)
    ensures
        key@.len() == RANDOM_KEY_LEN,
{
    let mut key = [0u8; RANDOM_KEY_LEN];
    rand::fill(&mut key);
    key.to_vec()
}

/// Chooses the cipher key: the bytes of the configured text where there is
/// one, else 64 random bytes.
pub fn boo_init(configured: Option<&str>) -> (key: Vec<u8>)
    ensures
        configured matches Some(text) ==> key@ == encode_utf8(text@),
        configured is None ==> key@.len() == RANDOM_KEY_LEN,
{
    match configured {
        Some(text) => slice_to_vec(text.as_bytes()),
        None => random_key(),
    }
}

/// Encrypts a literal
///
/// The expression is laid out in the given byte order and its layout is
/// masked with `key`. An expression that denotes no value is refused with
/// the error that says why.
pub fn boo(expr: &Expr, key: &[u8], order: ByteOrder) -> (r: Result<Encrypted, Error>)
    ensures
        match expr.literal(order) {
            Ok(literal) => r matches Ok(encrypted) && encrypted.bytes@ == xor_bytes(
                literal.bytes(),
                key@,
            ) && encrypted.shape@ == literal.shape(),
            Err(e) => r matches Err(x) && x == e,
        },
{
    match LiteralBytes::parse(expr, order) {
        Ok(literal) => Ok(literal.encrypt(key)),
        Err(e) => Err(e),
    }
}

/// Encrypts a raw file as bytes
///
/// `data` is what the file holds.
pub fn boo_include_bytes(data: Vec<u8>, key: &[u8]) -> (encrypted: Encrypted)
    ensures
        encrypted.bytes@ == xor_bytes(data@, key@),
        encrypted.shape@ == ShapeModel::ByteStr(data@.len()),
{
    LiteralBytes::ByteStr(data).encrypt(key)
}

/// Encrypts a UTF-8 file as a string
///
/// `data` is what the file holds. A file that is not valid UTF-8 is refused.
pub fn boo_include_str(data: Vec<u8>, key: &[u8]) -> (r: Result<Encrypted, Error>)
    ensures
        match r {
            Ok(encrypted) => {
                &&& valid_utf8(data@)
                &&& encrypted.bytes@ == xor_bytes(data@, key@)
                &&& encrypted.shape@ == ShapeModel::Str(data@.len())
            },
            Err(e) => !valid_utf8(data@) && e == Error::FileError,
        },
{
    let ghost content = data@;
    match text_from_utf8(data) {
        Some(text) => {
            proof {
                decode_utf8_encode_utf8(content);
            }
            let bytes = slice_to_vec(text.as_str().as_bytes());
            Ok(LiteralBytes::Str(bytes).encrypt(key))
        },
        None => Err(Error::FileError),
    }
}

} // verus!
