//! The typed values that literals stand for.

use vstd::prelude::*;
use vstd::utf8::encode_utf8;
use crate::codec::{unsigned_bytes, word_bytes, ByteOrder};
use crate::literal_bytes::{Delimiter, LiteralModel};

verus! {

/// A typed value: what a literal denotes, and what reconstruction gives back.
#[derive(Debug, PartialEq, Eq)]
pub enum Value {
    /// UTF-8 text.
    Str(String),
    /// Raw bytes.
    ByteStr(Vec<u8>),
    /// The bytes of a nul-terminated string, the terminator included.
    CStr(Vec<u8>),
    /// A single byte.
    Byte(u8),
    /// A signed machine word.
    Int(isize),
    /// The bit pattern of an IEEE-754 double.
    Float(u64),
    /// A Unicode scalar value.
    Char(char),
    /// A boolean.
    Bool(bool),
    /// An array or a tuple of values.
    Sequence { items: Vec<Value>, delimiter: Delimiter },
}

/// The mathematical content of a [`Value`].
pub ghost enum ValueModel {
    Str(Seq<char>),
    ByteStr(Seq<u8>),
    CStr(Seq<u8>),
    Byte(u8),
    Int(isize),
    Float(u64),
    Char(char),
    Bool(bool),
    Sequence { items: Seq<ValueModel>, delimiter: Delimiter },
}

impl View for Value {
    type V = ValueModel;

    open spec fn view(&self) -> ValueModel
        decreases self,
    {
        match self {
            Value::Str(text) => ValueModel::Str(text@),
            Value::ByteStr(bytes) => ValueModel::ByteStr(bytes@),
            Value::CStr(bytes) => ValueModel::CStr(bytes@),
            Value::Byte(byte) => ValueModel::Byte(*byte),
            Value::Int(word) => ValueModel::Int(*word),
            Value::Float(bits) => ValueModel::Float(*bits),
            Value::Char(c) => ValueModel::Char(*c),
            Value::Bool(b) => ValueModel::Bool(*b),
            Value::Sequence { items, delimiter } => ValueModel::Sequence {
                items: Seq::new(
                    items@.len(),
                    |i: int|
                        if 0 <= i < items@.len() {
                            items@[i]@
                        } else {
                            ValueModel::Bool(false)
                        },
                ),
                delimiter: *delimiter,
            },
        }
    }
}

/// Whether `bytes` end with a zero byte and hold no other zero byte.
pub open spec fn nul_terminated(bytes: Seq<u8>) -> bool {
    &&& bytes.len() > 0
    &&& bytes.last() == 0
    &&& forall|i: int| 0 <= i < bytes.len() - 1 ==> bytes[i] != 0
}

impl Value {
    /// The view of a sequence holds the views of its items, in order.
    pub proof fn lemma_view_sequence(&self)
        requires
            self is Sequence,
        ensures
            self@ is Sequence,
            self@->delimiter == self->delimiter,
            self@->items.len() == self->items@.len(),
            forall|i: int| 0 <= i < self->items@.len() ==> self@->items[i] == self->items@[i]@,
    {
        reveal_with_fuel(<Value as View>::view, 2);
    }
}

impl ValueModel {
    /// The literal that lays the value out: text as UTF-8, a word, a double
    /// and a code point as their bytes in the given order, a boolean as one
    /// byte that is 0 or 1, a sequence as the literals of its items.
    pub open spec fn literal(self, order: ByteOrder) -> LiteralModel
        decreases self,
    {
        match self {
            ValueModel::Str(chars) => LiteralModel::Str(encode_utf8(chars)),
            ValueModel::ByteStr(bytes) => LiteralModel::ByteStr(bytes),
            ValueModel::CStr(bytes) => LiteralModel::CStr(bytes),
            ValueModel::Byte(byte) => LiteralModel::Byte(seq![byte]),
            ValueModel::Int(word) => LiteralModel::Int(word_bytes(word, order)),
            ValueModel::Float(bits) => LiteralModel::Float(unsigned_bytes(bits as nat, 8, order)),
            ValueModel::Char(c) => LiteralModel::Char(unsigned_bytes(c as u32 as nat, 4, order)),
            ValueModel::Bool(b) => LiteralModel::Bool(
                seq![if b {
                    1u8
                } else {
                    0u8
                }],
            ),
            ValueModel::Sequence { items, delimiter } => LiteralModel::Sequence {
                inner: Self::literals(items, order),
                delimiter,
            },
        }
    }

    /// The literals of `items`, in order.
    pub open spec fn literals(items: Seq<ValueModel>, order: ByteOrder) -> Seq<LiteralModel>
        decreases items,
    {
        Seq::new(
            items.len(),
            |i: int|
                if 0 <= i < items.len() {
                    items[i].literal(order)
                } else {
                    LiteralModel::ByteStr(Seq::empty())
                },
        )
    }

    /// Whether every nul-terminated string in the value has its single terminator.
    pub open spec fn wf(self) -> bool
        decreases self,
    {
        match self {
            ValueModel::CStr(bytes) => nul_terminated(bytes),
            ValueModel::Sequence { items, .. } => forall|i: int|
                0 <= i < items.len() ==> (#[trigger] items[i]).wf(),
            _ => true,
        }
    }
}

} // verus!
