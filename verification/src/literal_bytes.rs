//! The byte layout of literals: the tagged bytes of each leaf, and nested
//! sequences of them.

use std::borrow::Cow;
use vstd::prelude::*;
use vstd::slice::slice_to_vec;
use vstd::utf8::{decode_utf8, encode_utf8, is_scalar, valid_utf8};
use crate::collect::{collect, lemma_collect_first_error, lemma_collect_values};
use crate::codec::{
    bytes_word,
    decode_unsigned,
    decode_word,
    encode_unsigned,
    encode_word,
    lemma_radix_pow_values,
    lemma_unsigned_bytes_of_value,
    unsigned_value,
    word_len,
    word_width,
    ByteOrder,
};
use crate::encrypted::Encrypted;
use crate::error::{viewed, Error};
use crate::laws::lemma_expression_round_trip;
use crate::shape::{Shape, ShapeModel};
use crate::syntax::{parse_word, Expr, Lit, EXPONENT_BITS, SIGN_BIT};
use crate::utils::{xor, xor_bytes};
use crate::value::{nul_terminated, Value, ValueModel};

verus! {

/// Bytes representation of a Rust literal
#[derive(Debug, PartialEq, Eq)]
pub enum LiteralBytes {
    /// A UTF-8 string literal: `"foo"`.
    Str(Vec<u8>),
    /// A byte string literal: `b"foo"`.
    ByteStr(Vec<u8>),
    /// A null-terminated C-string literal: `c"foo"`.
    CStr(Vec<u8>),
    /// A byte literal: `b'a'`.
    Byte(Vec<u8>),
    /// An int literal: `1isize`.
    Int(Vec<u8>),
    /// A float literal: `0f64`.
    Float(Vec<u8>),
    /// A character literal: `'a'`.
    Char(Vec<u8>),
    /// A boolean literal: `true` or `false`.
    Bool(Vec<u8>),
    /// A sequence literal containing any literals: `["1", "2", "3"]` or `(99, "20", [3, 4])`.
    Sequence { inner: Vec<LiteralBytes>, delimiter: Delimiter },
}

/// Sequence delimiters
#[derive(Clone, Copy, Debug, PartialEq, Eq, Structural)]
pub enum Delimiter {
    /// Square brackets `[]` used for arrays
    Bracket,
    /// Parentheses `()` used for tuples
    Parenthesis,
}

/// The mathematical content of a [`LiteralBytes`].
pub ghost enum LiteralModel {
    Str(Seq<u8>),
    ByteStr(Seq<u8>),
    CStr(Seq<u8>),
    Byte(Seq<u8>),
    Int(Seq<u8>),
    Float(Seq<u8>),
    Char(Seq<u8>),
    Bool(Seq<u8>),
    Sequence { inner: Seq<LiteralModel>, delimiter: Delimiter },
}

impl View for LiteralBytes {
    type V = LiteralModel;

    open spec fn view(&self) -> LiteralModel
        decreases self,
    {
        match self {
            LiteralBytes::Str(v) => LiteralModel::Str(v@),
            LiteralBytes::ByteStr(v) => LiteralModel::ByteStr(v@),
            LiteralBytes::CStr(v) => LiteralModel::CStr(v@),
            LiteralBytes::Byte(v) => LiteralModel::Byte(v@),
            LiteralBytes::Int(v) => LiteralModel::Int(v@),
            LiteralBytes::Float(v) => LiteralModel::Float(v@),
            LiteralBytes::Char(v) => LiteralModel::Char(v@),
            LiteralBytes::Bool(v) => LiteralModel::Bool(v@),
            LiteralBytes::Sequence { inner, delimiter } => LiteralModel::Sequence {
                inner: Seq::new(
                    inner@.len(),
                    |i: int|
                        if 0 <= i < inner@.len() {
                            inner@[i]@
                        } else {
                            LiteralModel::ByteStr(Seq::empty())
                        },
                ),
                delimiter: *delimiter,
            },
        }
    }
}

impl LiteralModel {
    /// Whether the literal is a leaf, and then its bytes.
    pub open spec fn leaf(self) -> Option<Seq<u8>> {
        match self {
            LiteralModel::Str(v)
            | LiteralModel::ByteStr(v)
            | LiteralModel::CStr(v)
            | LiteralModel::Byte(v)
            | LiteralModel::Int(v)
            | LiteralModel::Float(v)
            | LiteralModel::Char(v)
            | LiteralModel::Bool(v) => Some(v),
            LiteralModel::Sequence { .. } => None,
        }
    }

    /// The byte layout: a leaf's own bytes, and for a sequence the layouts
    /// of its children one after the other, with nothing between them.
    pub open spec fn bytes(self) -> Seq<u8>
        decreases self,
    {
        match self {
            LiteralModel::Sequence { inner, .. } => Self::concat(inner),
            _ => self.leaf().unwrap(),
        }
    }

    /// The layouts of `items` one after the other.
    pub open spec fn concat(items: Seq<LiteralModel>) -> Seq<u8>
        decreases items,
    {
        if items.len() == 0 {
            Seq::empty()
        } else {
            Self::concat(items.drop_last()) + items.last().bytes()
        }
    }

    /// The length of the layout: that of a leaf's bytes, and for a sequence
    /// the sum of its children's lengths.
    pub open spec fn len(self) -> nat
        decreases self,
    {
        match self {
            LiteralModel::Sequence { inner, .. } => Self::total_len(inner),
            _ => self.leaf().unwrap().len(),
        }
    }

    /// The sum of the lengths of `items`.
    pub open spec fn total_len(items: Seq<LiteralModel>) -> nat
        decreases items,
    {
        if items.len() == 0 {
            0
        } else {
            Self::total_len(items.drop_last()) + items.last().len()
        }
    }

    /// What is left of the literal without its content: the kind of every
    /// node, and the length of every leaf whose kind does not fix it.
    pub open spec fn shape(self) -> ShapeModel
        decreases self,
    {
        match self {
            LiteralModel::Str(v) => ShapeModel::Str(v.len()),
            LiteralModel::ByteStr(v) => ShapeModel::ByteStr(v.len()),
            LiteralModel::CStr(v) => ShapeModel::CStr(v.len()),
            LiteralModel::Byte(_) => ShapeModel::Byte,
            LiteralModel::Int(_) => ShapeModel::Int,
            LiteralModel::Float(_) => ShapeModel::Float,
            LiteralModel::Char(_) => ShapeModel::Char,
            LiteralModel::Bool(_) => ShapeModel::Bool,
            LiteralModel::Sequence { inner, delimiter } => ShapeModel::Sequence {
                inner: Self::shapes(inner),
                delimiter,
            },
        }
    }

    /// The shapes of `items`, in order.
    pub open spec fn shapes(items: Seq<LiteralModel>) -> Seq<ShapeModel>
        decreases items,
    {
        Seq::new(
            items.len(),
            |i: int|
                if 0 <= i < items.len() {
                    items[i].shape()
                } else {
                    ShapeModel::Byte
                },
        )
    }

    /// The typed value that the bytes of the literal stand for.
    ///
    /// Text must be valid UTF-8, a nul-terminated string must have its single
    /// terminator, and a character must be a Unicode scalar value: no
    /// surrogate, nothing above `0x10FFFF`. A leaf whose kind fixes its length
    /// must have that length. A sequence fails as its first failing child does.
    pub open spec fn value(self, order: ByteOrder) -> Result<ValueModel, Error>
        decreases self,
    {
        match self {
            LiteralModel::Str(v) => if valid_utf8(v) {
                Ok(ValueModel::Str(decode_utf8(v)))
            } else {
                Err(Error::InvalidEncoding)
            },
            LiteralModel::ByteStr(v) => Ok(ValueModel::ByteStr(v)),
            LiteralModel::CStr(v) => if nul_terminated(v) {
                Ok(ValueModel::CStr(v))
            } else {
                Err(Error::InvalidEncoding)
            },
            LiteralModel::Byte(v) => if v.len() == 1 {
                Ok(ValueModel::Byte(v[0]))
            } else {
                Err(Error::ShapeInvariantViolation)
            },
            LiteralModel::Int(v) => if v.len() == word_width() {
                Ok(ValueModel::Int(bytes_word(v, order)))
            } else {
                Err(Error::ShapeInvariantViolation)
            },
            LiteralModel::Float(v) => if v.len() == 8 {
                Ok(ValueModel::Float(unsigned_value(v, order) as u64))
            } else {
                Err(Error::ShapeInvariantViolation)
            },
            LiteralModel::Char(v) => if v.len() == 4 {
                let code = unsigned_value(v, order) as u32;
                if is_scalar(code) {
                    Ok(ValueModel::Char(code as char))
                } else {
                    Err(Error::InvalidEncoding)
                }
            } else {
                Err(Error::ShapeInvariantViolation)
            },
            LiteralModel::Bool(v) => if v.len() == 1 {
                Ok(ValueModel::Bool(v[0] != 0))
            } else {
                Err(Error::ShapeInvariantViolation)
            },
            LiteralModel::Sequence { inner, delimiter } => match collect(
                Self::values(inner, order),
            ) {
                Ok(items) => Ok(ValueModel::Sequence { items, delimiter }),
                Err(e) => Err(e),
            },
        }
    }

    /// Whether the literal keeps what its kinds promise: a leaf whose kind
    /// fixes its length has that length, text is valid UTF-8, a
    /// nul-terminated string ends with its only zero byte, a character is a
    /// Unicode scalar value in the given byte order, and a boolean is 0 or 1.
    pub open spec fn wf(self, order: ByteOrder) -> bool
        decreases self,
    {
        match self {
            LiteralModel::Str(v) => valid_utf8(v),
            LiteralModel::ByteStr(_) => true,
            LiteralModel::CStr(v) => nul_terminated(v),
            LiteralModel::Byte(v) => v.len() == 1,
            LiteralModel::Int(v) => v.len() == word_width(),
            LiteralModel::Float(v) => v.len() == 8,
            LiteralModel::Char(v) => v.len() == 4 && is_scalar(unsigned_value(v, order) as u32),
            LiteralModel::Bool(v) => v.len() == 1 && (v[0] == 0 || v[0] == 1),
            LiteralModel::Sequence { inner, .. } => forall|i: int|
                0 <= i < inner.len() ==> (#[trigger] inner[i]).wf(order),
        }
    }

    /// The values of `items`, in order.
    pub open spec fn values(items: Seq<LiteralModel>, order: ByteOrder) -> Seq<
        Result<ValueModel, Error>,
    >
        decreases items,
    {
        Seq::new(
            items.len(),
            |i: int|
                if 0 <= i < items.len() {
                    items[i].value(order)
                } else {
                    Err(Error::InvalidEncoding)
                },
        )
    }
}

impl LiteralBytes {
    /// The view of a sequence holds the views of its children, in order.
    pub proof fn lemma_view_sequence(&self)
        requires
            self is Sequence,
        ensures
            self@ is Sequence,
            self@->delimiter == self->delimiter,
            self@->inner.len() == self->inner@.len(),
            forall|i: int| 0 <= i < self->inner@.len() ==> self@->inner[i] == self->inner@[i]@,
    {
    }

    /// Gets the length of the literal's byte representation
    pub fn len(&self) -> (n: usize)
        requires
            self@.len() <= usize::MAX,
        ensures
            n == self@.len(),
        decreases self,
    {
        match self {
            LiteralBytes::Str(v)
            | LiteralBytes::ByteStr(v)
            | LiteralBytes::CStr(v)
            | LiteralBytes::Byte(v)
            | LiteralBytes::Int(v)
            | LiteralBytes::Float(v)
            | LiteralBytes::Char(v)
            | LiteralBytes::Bool(v) => v.len(),
            LiteralBytes::Sequence { inner, .. } => {
                let ghost items = self@->inner;
                let mut total: usize = 0;
                let mut i: usize = 0;
                while i < inner.len()
                    invariant
                        i <= inner@.len(),
                        items.len() == inner@.len(),
                        forall|j: int| 0 <= j < inner@.len() ==> inner@[j]@ == items[j],
                        forall|j: int| 0 <= j < inner@.len() ==> decreases_to!(self => inner@[j]),
                        LiteralModel::total_len(items) <= usize::MAX,
                        total == LiteralModel::total_len(items.take(i as int)),
                    decreases inner@.len() - i,
                {
                    proof {
                        assert(items.take(i + 1).drop_last() =~= items.take(i as int));
                        LiteralModel::lemma_total_len_take(items, i + 1);
                    }
                    total = total + inner[i].len();
                    i += 1;
                }
                proof {
                    assert(items.take(i as int) =~= items);
                }
                total
            },
        }
    }

    /// Gets the length of the literal's byte representation, where a
    /// `usize` holds it.
    pub fn checked_len(&self) -> (n: Option<usize>)
        ensures
            n matches Some(len) ==> len == self@.len(),
            n is None ==> self@.len() > usize::MAX,
        decreases self,
    {
        match self {
            LiteralBytes::Str(v)
            | LiteralBytes::ByteStr(v)
            | LiteralBytes::CStr(v)
            | LiteralBytes::Byte(v)
            | LiteralBytes::Int(v)
            | LiteralBytes::Float(v)
            | LiteralBytes::Char(v)
            | LiteralBytes::Bool(v) => Some(v.len()),
            LiteralBytes::Sequence { inner, .. } => {
                let ghost items = self@->inner;
                let mut total: usize = 0;
                let mut i: usize = 0;
                while i < inner.len()
                    invariant
                        i <= inner@.len(),
                        items.len() == inner@.len(),
                        forall|j: int| 0 <= j < inner@.len() ==> inner@[j]@ == items[j],
                        forall|j: int| 0 <= j < inner@.len() ==> decreases_to!(self => inner@[j]),
                        self@.len() == LiteralModel::total_len(items),
                        total == LiteralModel::total_len(items.take(i as int)),
                    decreases inner@.len() - i,
                {
                    proof {
                        assert(items.take(i + 1).drop_last() =~= items.take(i as int));
                        LiteralModel::lemma_total_len_take(items, i + 1);
                    }
                    let step = match inner[i].checked_len() {
                        Some(n) => total.checked_add(n),
                        None => None,
                    };
                    match step {
                        Some(next) => {
                            total = next;
                        },
                        None => {
                            return None;
                        },
                    }
                    i += 1;
                }
                proof {
                    assert(items.take(i as int) =~= items);
                }
                Some(total)
            },
        }
    }

    /// Get the byte representation of the literal
    ///
    /// # Returns
    ///
    /// Borrowed or owned byte representation
    pub fn as_bytes(&self) -> (bytes: Cow<'_, [u8]>)
        ensures
            bytes@ == self@.bytes(),
        decreases self,
    {
        match self {
            LiteralBytes::Str(v)
            | LiteralBytes::ByteStr(v)
            | LiteralBytes::CStr(v)
            | LiteralBytes::Byte(v)
            | LiteralBytes::Int(v)
            | LiteralBytes::Float(v)
            | LiteralBytes::Char(v)
            | LiteralBytes::Bool(v) => Cow::Borrowed(v.as_slice()),
            LiteralBytes::Sequence { inner, .. } => {
                let ghost items = self@->inner;
                let mut out: Vec<u8> = Vec::new();
                let mut i: usize = 0;
                while i < inner.len()
                    invariant
                        i <= inner@.len(),
                        items.len() == inner@.len(),
                        forall|j: int| 0 <= j < inner@.len() ==> inner@[j]@ == items[j],
                        forall|j: int| 0 <= j < inner@.len() ==> decreases_to!(self => inner@[j]),
                        out@ == LiteralModel::concat(items.take(i as int)),
                    decreases inner@.len() - i,
                {
                    let part = inner[i].as_bytes();
                    let mut owned = to_vec(&part);
                    out.append(&mut owned);
                    i += 1;
                    proof {
                        assert(items.take(i as int).drop_last() =~= items.take(i - 1));
                    }
                }
                proof {
                    assert(items.take(i as int) =~= items);
                }
                Cow::Owned(out)
            },
        }
    }
}

/// Trusted: `String::from_utf8`. It gives back the text that the bytes
/// encode, and fails exactly where the bytes are not valid UTF-8.
#[verifier::external_body]
pub(crate) fn text_from_utf8(bytes: Vec<u8>) -> (text: Option<String>)
    ensures
        text is Some <==> valid_utf8(bytes@),
        text matches Some(s) ==> s@ == decode_utf8(bytes@),
{
    String::from_utf8(bytes).ok()
}

/// Trusted: `char::from_u32`. It gives back the character with the given
/// code point, and fails exactly where the number is no Unicode scalar
/// value: a surrogate, or above `0x10FFFF`.
#[verifier::external_body]
fn char_from_code(code: u32) -> (c: Option<char>)
    ensures
        c is Some <==> is_scalar(code),
        c matches Some(x) ==> x == code as char,
{
    char::from_u32(code)
}

/// Whether `bytes` end with a zero byte and hold no other zero byte.
fn is_nul_terminated(bytes: &[u8]) -> (b: bool)
    ensures
        b == nul_terminated(bytes@),
{
    let len = bytes.len();
    if len == 0 || bytes[len - 1] != 0 {
        return false;
    }
    let mut i: usize = 0;
    while i < len - 1
        invariant
            len == bytes@.len(),
            len > 0,
            i <= len - 1,
            forall|j: int| 0 <= j < i ==> bytes@[j] != 0,
        decreases len - i,
    {
        if bytes[i] == 0 {
            return false;
        }
        i += 1;
    }
    true
}

/// Whether `bytes` hold a zero byte.
fn has_zero(bytes: &[u8]) -> (b: bool)
    ensures
        b == bytes@.contains(0u8),
{
    let mut i: usize = 0;
    while i < bytes.len()
        invariant
            i <= bytes@.len(),
            forall|j: int| 0 <= j < i ==> bytes@[j] != 0,
        decreases bytes@.len() - i,
    {
        if bytes[i] == 0 {
            return true;
        }
        i += 1;
    }
    false
}

impl Expr {
    /// The literal that lays out what the expression denotes.
    pub open spec fn literal(&self, order: ByteOrder) -> Result<LiteralModel, Error> {
        match self.denoted() {
            Ok(value) => Ok(value.literal(order)),
            Err(e) => Err(e),
        }
    }
}

impl Lit {
    /// The literal that lays out what the token denotes, behind a minus sign
    /// where `negated` holds.
    pub open spec fn literal(&self, negated: bool, order: ByteOrder) -> Result<
        LiteralModel,
        Error,
    > {
        match self.denoted(negated) {
            Ok(value) => Ok(value.literal(order)),
            Err(e) => Err(e),
        }
    }
}

impl LiteralBytes {
    /// Lays out the literal that an expression spells.
    ///
    /// A list gives a sequence of what its elements give. A minus sign is
    /// taken in front of an integer or a float only. An integer must fit in
    /// a signed machine word.
    pub fn parse(expr: &Expr, order: ByteOrder) -> (r: Result<LiteralBytes, Error>)
        ensures
            viewed(r) == expr.literal(order),
            r matches Ok(literal) ==> literal@.wf(order),
        decreases expr,
    {
        proof {
            if expr.denoted() is Ok {
                lemma_expression_round_trip(*expr, Seq::empty(), order);
            }
        }
        match expr {
            Expr::Array(elems) => Self::parse_sequence(elems, Delimiter::Bracket, order),
            Expr::Tuple(elems) => Self::parse_sequence(elems, Delimiter::Parenthesis, order),
            Expr::Lit(lit) => Self::parse_lit(lit, false, order),
            Expr::Neg(inner) => match &**inner {
                Expr::Lit(lit) => Self::parse_lit(lit, true, order),
                _ => Err(Error::ParseError),
            },
            Expr::Other => Err(Error::ParseError),
        }
    }

    fn parse_sequence(elems: &Vec<Expr>, delimiter: Delimiter, order: ByteOrder) -> (r: Result<
        LiteralBytes,
        Error,
    >)
        ensures
            viewed(r) == (match Expr::denoted_sequence(elems@, delimiter) {
                Ok(value) => Ok(value.literal(order)),
                Err(e) => Err(e),
            }),
        decreases elems,
    {
        let ghost results = Expr::denoted_each(elems@);
        let ghost mut values: Seq<ValueModel> = Seq::empty();
        let mut inner: Vec<LiteralBytes> = Vec::new();
        let mut i: usize = 0;
        while i < elems.len()
            invariant
                i <= elems@.len(),
                results == Expr::denoted_each(elems@),
                results.len() == elems@.len(),
                forall|j: int| 0 <= j < elems@.len() ==> results[j] == elems@[j].denoted(),
                values.len() == i,
                inner@.len() == i,
                forall|j: int| 0 <= j < i ==> results[j] == Ok::<ValueModel, Error>(values[j]),
                forall|j: int| 0 <= j < i ==> (#[trigger] inner@[j])@ == values[j].literal(order),
            decreases elems@.len() - i,
        {
            match Self::parse(&elems[i], order) {
                Ok(literal) => {
                    proof {
                        values = values.push(results[i as int]->Ok_0);
                    }
                    inner.push(literal);
                },
                Err(e) => {
                    proof {
                        lemma_collect_first_error(results, values, i as int, e);
                    }
                    return Err(e);
                },
            }
            i += 1;
        }
        let literal = LiteralBytes::Sequence { inner, delimiter };
        proof {
            lemma_collect_values(results, values);
            literal.lemma_view_sequence();
            let value = ValueModel::Sequence { items: values, delimiter };
            assert(literal@->inner =~= ValueModel::literals(values, order));
        }
        Ok(literal)
    }

    fn parse_lit(lit: &Lit, negated: bool, order: ByteOrder) -> (r: Result<LiteralBytes, Error>)
        ensures
            viewed(r) == lit.literal(negated, order),
    {
        match lit {
            Lit::Int(digits) => match parse_word(digits.as_str().as_bytes(), negated) {
                Ok(word) => Ok(LiteralBytes::Int(encode_word(word, order))),
                Err(e) => Err(e),
            },
            Lit::Float(Some(bits)) => {
                if *bits & EXPONENT_BITS == EXPONENT_BITS {
                    return Err(Error::RangeError);
                }
                let bits: u64 = if negated {
                    *bits ^ SIGN_BIT
                } else {
                    *bits
                };
                Ok(LiteralBytes::Float(encode_unsigned(bits, 8, order)))
            },
            Lit::Float(None) => Err(Error::RangeError),
            _ => if negated {
                Err(Error::TypeMismatchError)
            } else {
                match lit {
                    Lit::Str(text) => Ok(LiteralBytes::Str(slice_to_vec(text.as_str().as_bytes()))),
                    Lit::ByteStr(bytes) => Ok(LiteralBytes::ByteStr(slice_to_vec(bytes.as_slice()))),
                    Lit::CStr(bytes) => if has_zero(bytes.as_slice()) {
                        Err(Error::ParseError)
                    } else {
                        let mut terminated = slice_to_vec(bytes.as_slice());
                        terminated.push(0);
                        Ok(LiteralBytes::CStr(terminated))
                    },
                    Lit::Byte(byte) => {
                        let mut one: Vec<u8> = Vec::new();
                        one.push(*byte);
                        assert(one@ =~= seq![*byte]);
                        Ok(LiteralBytes::Byte(one))
                    },
                    Lit::Char(c) => Ok(
                        LiteralBytes::Char(encode_unsigned(*c as u32 as u64, 4, order)),
                    ),
                    Lit::Bool(b) => {
                        let flag: u8 = if *b {
                            1
                        } else {
                            0
                        };
                        let mut one: Vec<u8> = Vec::new();
                        one.push(flag);
                        assert(one@ =~= seq![flag]);
                        Ok(LiteralBytes::Bool(one))
                    },
                    _ => Err(Error::ParseError),
                }
            },
        }
    }

    /// Masks the layout of the literal with `key`, and keeps its shape.
    pub fn encrypt(self, key: &[u8]) -> (encrypted: Encrypted)
        ensures
            encrypted.bytes@ == xor_bytes(self@.bytes(), key@),
            encrypted.shape@ == self@.shape(),
    {
        let mut bytes = to_vec(&self.as_bytes());
        xor(bytes.as_mut_slice(), key);
        Encrypted { bytes, shape: self.shape() }
    }

    /// The shape of the literal: its kinds and lengths, without its bytes.
    pub fn shape(&self) -> (shape: Shape)
        ensures
            shape@ == self@.shape(),
        decreases self,
    {
        match self {
            LiteralBytes::Str(v) => Shape::Str(v.len()),
            LiteralBytes::ByteStr(v) => Shape::ByteStr(v.len()),
            LiteralBytes::CStr(v) => Shape::CStr(v.len()),
            LiteralBytes::Byte(_) => Shape::Byte,
            LiteralBytes::Int(_) => Shape::Int,
            LiteralBytes::Float(_) => Shape::Float,
            LiteralBytes::Char(_) => Shape::Char,
            LiteralBytes::Bool(_) => Shape::Bool,
            LiteralBytes::Sequence { inner, delimiter } => {
                let ghost items = self@->inner;
                let mut shapes: Vec<Shape> = Vec::new();
                let mut i: usize = 0;
                while i < inner.len()
                    invariant
                        i <= inner@.len(),
                        items.len() == inner@.len(),
                        forall|j: int| 0 <= j < inner@.len() ==> inner@[j]@ == items[j],
                        forall|j: int| 0 <= j < inner@.len() ==> decreases_to!(self => inner@[j]),
                        shapes@.len() == i,
                        forall|j: int| 0 <= j < i ==> (#[trigger] shapes@[j])@ == items[j].shape(),
                    decreases inner@.len() - i,
                {
                    shapes.push(inner[i].shape());
                    i += 1;
                }
                let shape = Shape::Sequence { inner: shapes, delimiter: *delimiter };
                proof {
                    shape.lemma_view_sequence();
                    assert(shape@->inner =~= LiteralModel::shapes(items));
                }
                shape
            },
        }
    }

    /// Reads the typed value that the bytes of the literal stand for.
    ///
    /// Integers, floats and characters are read in the given byte order.
    /// Text is checked to be UTF-8, a character to be a Unicode scalar
    /// value, a nul-terminated string to have its single terminator.
    pub fn value(&self, order: ByteOrder) -> (r: Result<Value, Error>)
        ensures
            viewed(r) == self@.value(order),
        decreases self,
    {
        match self {
            LiteralBytes::Str(v) => match text_from_utf8(slice_to_vec(v.as_slice())) {
                Some(text) => Ok(Value::Str(text)),
                None => Err(Error::InvalidEncoding),
            },
            LiteralBytes::ByteStr(v) => Ok(Value::ByteStr(slice_to_vec(v.as_slice()))),
            LiteralBytes::CStr(v) => if is_nul_terminated(v.as_slice()) {
                Ok(Value::CStr(slice_to_vec(v.as_slice())))
            } else {
                Err(Error::InvalidEncoding)
            },
            LiteralBytes::Byte(v) => if v.len() == 1 {
                Ok(Value::Byte(v[0]))
            } else {
                Err(Error::ShapeInvariantViolation)
            },
            LiteralBytes::Int(v) => if v.len() == word_len() {
                Ok(Value::Int(decode_word(v.as_slice(), order)))
            } else {
                Err(Error::ShapeInvariantViolation)
            },
            LiteralBytes::Float(v) => if v.len() == 8 {
                Ok(Value::Float(decode_unsigned(v.as_slice(), order)))
            } else {
                Err(Error::ShapeInvariantViolation)
            },
            LiteralBytes::Char(v) => if v.len() == 4 {
                proof {
                    lemma_unsigned_bytes_of_value(v@, order);
                    lemma_radix_pow_values();
                }
                let code = decode_unsigned(v.as_slice(), order) as u32;
                match char_from_code(code) {
                    Some(c) => Ok(Value::Char(c)),
                    None => Err(Error::InvalidEncoding),
                }
            } else {
                Err(Error::ShapeInvariantViolation)
            },
            LiteralBytes::Bool(v) => if v.len() == 1 {
                Ok(Value::Bool(v[0] != 0))
            } else {
                Err(Error::ShapeInvariantViolation)
            },
            LiteralBytes::Sequence { inner, delimiter } => {
                let ghost children = self@->inner;
                let ghost results = LiteralModel::values(children, order);
                let ghost mut values: Seq<ValueModel> = Seq::empty();
                let mut items: Vec<Value> = Vec::new();
                let mut i: usize = 0;
                while i < inner.len()
                    invariant
                        i <= inner@.len(),
                        children.len() == inner@.len(),
                        results.len() == inner@.len(),
                        forall|j: int| 0 <= j < inner@.len() ==> inner@[j]@ == children[j],
                        forall|j: int| 0 <= j < inner@.len() ==> decreases_to!(self => inner@[j]),
                        forall|j: int| 0 <= j < inner@.len() ==> results[j] == children[j].value(order),
                        self@.value(order) == (match collect(results) {
                            Ok(items) => Ok(ValueModel::Sequence { items, delimiter: *delimiter }),
                            Err(e) => Err(e),
                        }),
                        values.len() == i,
                        items@.len() == i,
                        forall|j: int|
                            0 <= j < i ==> results[j] == Ok::<ValueModel, Error>(values[j]),
                        forall|j: int| 0 <= j < i ==> (#[trigger] items@[j])@ == values[j],
                    decreases inner@.len() - i,
                {
                    match inner[i].value(order) {
                        Ok(item) => {
                            proof {
                                values = values.push(item@);
                            }
                            items.push(item);
                        },
                        Err(e) => {
                            proof {
                                lemma_collect_first_error(results, values, i as int, e);
                            }
                            return Err(e);
                        },
                    }
                    i += 1;
                }
                let value = Value::Sequence { items, delimiter: *delimiter };
                proof {
                    lemma_collect_values(results, values);
                    value.lemma_view_sequence();
                    assert(value@->items =~= values);
                }
                Ok(value)
            },
        }
    }
}

/// The bytes that `bytes` holds or borrows, as a vector of their own.
fn to_vec(bytes: &Cow<'_, [u8]>) -> (out: Vec<u8>)
    ensures
        out@ == bytes@,
{
    match bytes {
        Cow::Borrowed(slice) => slice_to_vec(slice),
        Cow::Owned(owned) => slice_to_vec(owned.as_slice()),
    }
}

impl LiteralModel {
    /// The lengths of the first `n` items sum to no more than those of all.
    pub proof fn lemma_total_len_take(items: Seq<LiteralModel>, n: int)
        requires
            0 <= n <= items.len(),
        ensures
            Self::total_len(items.take(n)) <= Self::total_len(items),
        decreases items.len(),
    {
        if n < items.len() {
            Self::lemma_total_len_take(items.drop_last(), n);
            assert(items.drop_last().take(n) =~= items.take(n));
        } else {
            assert(items.take(n) =~= items);
        }
    }
}

} // verus!
