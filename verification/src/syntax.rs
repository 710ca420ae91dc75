//! The syntax of the literals that can be obfuscated, as plain data, and the
//! typed value that each of them denotes.

use vstd::prelude::*;
use vstd::utf8::encode_utf8;
use crate::error::Error;
use crate::collect::collect;
use crate::literal_bytes::Delimiter;
use crate::value::ValueModel;

verus! {

/// A literal token.
#[derive(Debug, PartialEq, Eq)]
pub enum Lit {
    /// A string literal, by its value.
    Str(String),
    /// A byte string literal, by its value.
    ByteStr(Vec<u8>),
    /// A C-string literal, by the bytes in front of its terminator.
    CStr(Vec<u8>),
    /// A byte literal.
    Byte(u8),
    /// A character literal.
    Char(char),
    /// An integer literal, by its digits in base 10.
    Int(String),
    /// A float literal, by the bit pattern of the 64-bit double nearest to
    /// it; `None` where its text spells no number.
    Float(Option<u64>),
    /// A boolean literal.
    Bool(bool),
    /// A literal token of no known kind.
    Verbatim,
}

/// An expression, as far as literals go.
#[derive(Debug, PartialEq, Eq)]
pub enum Expr {
    /// A bracketed list of expressions: `[a, b]`.
    Array(Vec<Expr>),
    /// A parenthesized list of expressions: `(a, b)`.
    Tuple(Vec<Expr>),
    /// A literal token.
    Lit(Lit),
    /// A minus sign in front of an expression: `-a`.
    Neg(Box<Expr>),
    /// Any other expression.
    Other,
}

/// Whether `byte` is an ASCII digit.
pub open spec fn is_digit(byte: u8) -> bool {
    48 <= byte <= 57
}

/// Whether `text` holds ASCII digits only.
pub open spec fn all_digits(text: Seq<u8>) -> bool {
    forall|i: int| 0 <= i < text.len() ==> is_digit(#[trigger] text[i])
}

/// The number that a run of ASCII digits spells in base 10.
pub open spec fn digits_value(text: Seq<u8>) -> nat
    decreases text.len(),
{
    if text.len() == 0 {
        0
    } else {
        10 * digits_value(text.drop_last()) + (text.last() - 48) as nat
    }
}

/// The number that `text` spells without a minus sign: one or more digits,
/// which a plus sign may precede. `None` for any other text.
pub open spec fn unsigned_number(text: Seq<u8>) -> Option<nat> {
    let digits = if text.len() > 0 && text[0] == 43 {
        text.drop_first()
    } else {
        text
    };
    if digits.len() > 0 && all_digits(digits) {
        Some(digits_value(digits))
    } else {
        None
    }
}

/// The number that `text` spells: one or more digits, which a plus or a
/// minus sign may precede. `None` for any other text.
pub open spec fn signed_number(text: Seq<u8>) -> Option<int> {
    if text.len() > 0 && text[0] == 45 {
        let digits = text.drop_first();
        if digits.len() > 0 && all_digits(digits) {
            Some(-(digits_value(digits) as int))
        } else {
            None
        }
    } else {
        match unsigned_number(text) {
            Some(value) => Some(value as int),
            None => None,
        }
    }
}

/// The machine word that the digits `text` denote, behind a minus sign where
/// `negated` holds. Text that spells no number is not recognized; a number
/// that no signed machine word holds is out of range.
pub open spec fn denoted_word(text: Seq<u8>, negated: bool) -> Result<isize, Error> {
    if negated {
        match unsigned_number(text) {
            None => Err(Error::ParseError),
            Some(value) => if value <= isize::MAX + 1 {
                Ok((-(value as int)) as isize)
            } else {
                Err(Error::RangeError)
            },
        }
    } else {
        match signed_number(text) {
            None => Err(Error::ParseError),
            Some(value) => if isize::MIN <= value <= isize::MAX {
                Ok(value as isize)
            } else {
                Err(Error::RangeError)
            },
        }
    }
}

/// The sign bit of a 64-bit double.
pub const SIGN_BIT: u64 = 0x8000_0000_0000_0000;

/// The exponent bits of a 64-bit double.
pub const EXPONENT_BITS: u64 = 0x7ff0_0000_0000_0000;

/// Whether the bit pattern is that of a finite double: neither an infinity
/// nor a NaN, whose exponent bits are all set.
pub open spec fn finite_bits(bits: u64) -> bool {
    bits & EXPONENT_BITS != EXPONENT_BITS
}

/// The bit pattern of the double of opposite sign.
pub open spec fn negated_bits(bits: u64) -> u64 {
    bits ^ SIGN_BIT
}

impl Lit {
    /// The value that the literal denotes, behind a minus sign where
    /// `negated` holds. Only numbers take a sign. A float must be finite: a
    /// literal too large for a double is out of range. A C string with a
    /// zero byte inside is not recognized.
    pub open spec fn denoted(&self, negated: bool) -> Result<ValueModel, Error> {
        match self {
            Lit::Int(digits) => match denoted_word(encode_utf8(digits@), negated) {
                Ok(word) => Ok(ValueModel::Int(word)),
                Err(e) => Err(e),
            },
            Lit::Float(Some(bits)) => if finite_bits(*bits) {
                Ok(
                    ValueModel::Float(
                        if negated {
                            negated_bits(*bits)
                        } else {
                            *bits
                        },
                    ),
                )
            } else {
                Err(Error::RangeError)
            },
            Lit::Float(None) => Err(Error::RangeError),
            _ => if negated {
                Err(Error::TypeMismatchError)
            } else {
                match self {
                    Lit::Str(text) => Ok(ValueModel::Str(text@)),
                    Lit::ByteStr(bytes) => Ok(ValueModel::ByteStr(bytes@)),
                    Lit::CStr(bytes) => if bytes@.contains(0u8) {
                        Err(Error::ParseError)
                    } else {
                        Ok(ValueModel::CStr(bytes@.push(0u8)))
                    },
                    Lit::Byte(byte) => Ok(ValueModel::Byte(*byte)),
                    Lit::Char(c) => Ok(ValueModel::Char(*c)),
                    Lit::Bool(b) => Ok(ValueModel::Bool(*b)),
                    _ => Err(Error::ParseError),
                }
            },
        }
    }
}

impl Expr {
    /// The value that the expression denotes. A list denotes the sequence of
    /// what its elements denote, and fails as its first failing element
    /// does. A minus sign stands in front of a literal only.
    pub open spec fn denoted(&self) -> Result<ValueModel, Error>
        decreases self,
    {
        match self {
            Expr::Array(elems) => Self::denoted_sequence(elems@, Delimiter::Bracket),
            Expr::Tuple(elems) => Self::denoted_sequence(elems@, Delimiter::Parenthesis),
            Expr::Lit(lit) => lit.denoted(false),
            Expr::Neg(inner) => match **inner {
                Expr::Lit(lit) => lit.denoted(true),
                _ => Err(Error::ParseError),
            },
            Expr::Other => Err(Error::ParseError),
        }
    }

    /// What each of `elems` denotes, in order.
    pub open spec fn denoted_each(elems: Seq<Expr>) -> Seq<Result<ValueModel, Error>>
        decreases elems, 0int,
    {
        Seq::new(
            elems.len(),
            |i: int|
                if 0 <= i < elems.len() {
                    elems[i].denoted()
                } else {
                    Err(Error::ParseError)
                },
        )
    }

    /// The sequence of what `elems` denote, or the error of the first of
    /// them that denotes nothing.
    pub open spec fn denoted_sequence(elems: Seq<Expr>, delimiter: Delimiter) -> Result<
        ValueModel,
        Error,
    >
        decreases elems, 1int,
    {
        match collect(Self::denoted_each(elems)) {
            Ok(items) => Ok(ValueModel::Sequence { items, delimiter }),
            Err(e) => Err(e),
        }
    }
}

/// Reads the run of digits that `text` holds from `start` on.
///
/// The run must be non-empty and hold ASCII digits only; its number must fit
/// in a `usize`.
fn parse_digits(text: &[u8], start: usize) -> (r: Result<usize, Error>)
    requires
        start <= text@.len(),
    ensures
        ({
            let digits = text@.skip(start as int);
            let spelled = digits.len() > 0 && all_digits(digits);
            match r {
                Ok(value) => spelled && value == digits_value(digits),
                Err(e) => if spelled {
                    e == Error::RangeError && digits_value(digits) > usize::MAX
                } else {
                    e == Error::ParseError
                },
            }
        }),
{
    let ghost digits = text@.skip(start as int);
    if start == text.len() {
        return Err(Error::ParseError);
    }
    let mut value: usize = 0;
    let mut overflow = false;
    let mut i: usize = start;
    while i < text.len()
        invariant
            start <= i <= text@.len(),
            digits == text@.skip(start as int),
            all_digits(digits.take(i - start)),
            overflow ==> digits_value(digits.take(i - start)) > usize::MAX,
            !overflow ==> value == digits_value(digits.take(i - start)),
        decreases text@.len() - i,
    {
        let byte = text[i];
        if byte < 48 || byte > 57 {
            assert(digits[i - start] == byte);
            assert(!is_digit(digits[i - start]));
            return Err(Error::ParseError);
        }
        proof {
            let before = digits.take(i - start);
            let after = digits.take(i - start + 1);
            assert(after.drop_last() =~= before);
            assert(after.last() == byte);
            assert forall|j: int| 0 <= j < after.len() implies is_digit(#[trigger] after[j]) by {
                if j < before.len() {
                    assert(after[j] == before[j]);
                }
            }
        }
        if !overflow {
            match value.checked_mul(10) {
                None => {
                    overflow = true;
                },
                Some(tens) => match tens.checked_add((byte - 48) as usize) {
                    None => {
                        overflow = true;
                    },
                    Some(next) => {
                        value = next;
                    },
                },
            }
        }
        i += 1;
    }
    proof {
        assert(digits.take(i - start) =~= digits);
    }
    if overflow {
        Err(Error::RangeError)
    } else {
        Ok(value)
    }
}

/// Reads the machine word that the digits `text` denote, behind a minus sign
/// where `negated` holds.
pub fn parse_word(text: &[u8], negated: bool) -> (r: Result<isize, Error>)
    ensures
        r == denoted_word(text@, negated),
{
    let minus = !negated && text.len() > 0 && text[0] == 45;
    let plus = text.len() > 0 && text[0] == 43;
    let start: usize = if minus || plus {
        1
    } else {
        0
    };
    proof {
        if start == 1 {
            assert(text@.skip(1) =~= text@.drop_first());
        } else {
            assert(text@.skip(0) =~= text@);
        }
        if negated && text@.len() > 0 && text@[0] == 45 {
            assert(!is_digit(text@[0]));
        }
    }
    match parse_digits(text, start) {
        Err(Error::RangeError) => Err(Error::RangeError),
        Err(_) => Err(Error::ParseError),
        Ok(magnitude) => {
            if negated || minus {
                if magnitude <= isize::MAX as usize {
                    Ok(-(magnitude as isize))
                } else if magnitude - 1 == isize::MAX as usize {
                    Ok(isize::MIN)
                } else {
                    Err(Error::RangeError)
                }
            } else if magnitude <= isize::MAX as usize {
                Ok(magnitude as isize)
            } else {
                Err(Error::RangeError)
            }
        },
    }
}

/// Reads the value of a single string literal.
pub fn read_literal_str(expr: &Expr) -> (value: Option<String>)
    ensures
        match expr {
            Expr::Lit(Lit::Str(text)) => value matches Some(s) && s@ == text@,
            _ => value is None,
        },
{
    match expr {
        Expr::Lit(Lit::Str(text)) => Some(text.clone()),
        _ => None,
    }
}

} // verus!
