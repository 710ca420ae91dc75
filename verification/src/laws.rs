//! What holds of laying out, masking, cutting and reading literals, for all
//! values, keys and byte orders.

use vstd::prelude::*;
use vstd::utf8::{
    char_is_scalar,
    char_u32_cast,
    decode_utf8_encode_utf8,
    encode_utf8_decode_utf8,
    encode_utf8_valid_utf8,
};
use crate::codec::{
    lemma_pattern_word,
    lemma_radix_pow_values,
    lemma_unsigned_bytes_of_value,
    lemma_unsigned_value_of_bytes,
    lemma_word_pattern,
    lemma_word_radix,
    unsigned_value,
    word_pattern,
    word_width,
    ByteOrder,
};
use crate::encrypted::reconstructed;
use crate::error::Error;
use crate::collect::{collect, lemma_collect_all, lemma_collect_values};
use crate::literal_bytes::LiteralModel;
use crate::shape::ShapeModel;
use crate::syntax::{all_digits, denoted_word, digits_value, Expr, Lit};
use crate::utils::{lemma_xor_involution, xor_bytes};
use crate::value::ValueModel;

verus! {

/// The length of a literal is the length of its layout.
pub proof fn lemma_len_is_layout_len(literal: LiteralModel)
    ensures
        literal.len() == literal.bytes().len(),
    decreases literal,
{
    match literal {
        LiteralModel::Sequence { inner, .. } => {
            lemma_total_len_is_layout_len(inner);
        },
        _ => {},
    }
}

/// The lengths of literals sum to the length of their layouts put together.
pub proof fn lemma_total_len_is_layout_len(items: Seq<LiteralModel>)
    ensures
        LiteralModel::total_len(items) == LiteralModel::concat(items).len(),
    decreases items,
{
    if items.len() > 0 {
        lemma_total_len_is_layout_len(items.drop_last());
        lemma_len_is_layout_len(items.last());
    }
}

/// Cutting the layout of a sequence at the sums of its children's lengths
/// gives back the layout of each child: child `i` lies at the offset that
/// the lengths in front of it add up to, and takes as many bytes as it is long.
pub proof fn lemma_layout_splits(items: Seq<LiteralModel>, i: int)
    requires
        0 <= i < items.len(),
    ensures
        LiteralModel::total_len(items.take(i)) + items[i].len() <= LiteralModel::concat(
            items,
        ).len(),
        LiteralModel::concat(items).subrange(
            LiteralModel::total_len(items.take(i)) as int,
            (LiteralModel::total_len(items.take(i)) + items[i].len()) as int,
        ) == items[i].bytes(),
    decreases items.len(),
{
    let front = items.drop_last();
    let start = LiteralModel::total_len(items.take(i)) as int;
    let end = start + items[i].len();
    lemma_total_len_is_layout_len(front);
    lemma_len_is_layout_len(items[i]);
    if i == items.len() - 1 {
        assert(items.take(i) =~= front);
        assert(LiteralModel::concat(items).subrange(start, end) =~= items[i].bytes());
    } else {
        lemma_layout_splits(front, i);
        assert(front.take(i) =~= items.take(i));
        assert(LiteralModel::concat(items).subrange(start, end) =~= LiteralModel::concat(
            front,
        ).subrange(start, end));
    }
}

/// The shapes of well-formed literals are as long as the literals.
pub proof fn lemma_shapes_total_len(items: Seq<LiteralModel>, order: ByteOrder)
    requires
        forall|i: int| 0 <= i < items.len() ==> (#[trigger] items[i]).wf(order),
    ensures
        ShapeModel::total_len(LiteralModel::shapes(items)) == LiteralModel::total_len(items),
    decreases items, 0int,
{
    if items.len() > 0 {
        let front = items.drop_last();
        assert(LiteralModel::shapes(items).drop_last() =~= LiteralModel::shapes(front));
        lemma_shapes_total_len(front, order);
        assert(items.last().wf(order));
        lemma_shape_rebuilds(items.last(), order);
    }
}

/// The shape of a well-formed literal is as long as the literal, and
/// cutting the layout of the literal along its shape gives the literal back.
pub proof fn lemma_shape_rebuilds(literal: LiteralModel, order: ByteOrder)
    requires
        literal.wf(order),
    ensures
        literal.shape().len() == literal.len(),
        literal.shape().rebuild(literal.bytes()) == literal,
    decreases literal, 1int,
{
    match literal {
        LiteralModel::Sequence { inner, delimiter } => {
            let shapes = LiteralModel::shapes(inner);
            let layout = LiteralModel::concat(inner);
            lemma_shapes_total_len(inner, order);
            assert forall|i: int| 0 <= i < inner.len() implies ShapeModel::rebuild_each(
                shapes,
                layout,
            )[i] == inner[i] by {
                assert(inner[i].wf(order));
                assert(shapes.take(i) =~= LiteralModel::shapes(inner.take(i)));
                lemma_shapes_total_len(inner.take(i), order);
                lemma_shape_rebuilds(inner[i], order);
                lemma_layout_splits(inner, i);
            }
            assert(ShapeModel::rebuild_each(shapes, layout) =~= inner);
        },
        _ => {},
    }
}

/// Laying out a value and reading the layout back gives the value, and the
/// layout keeps what its kinds promise.
pub proof fn lemma_value_of_literal(value: ValueModel, order: ByteOrder)
    requires
        value.wf(),
    ensures
        value.literal(order).wf(order),
        value.literal(order).value(order) == Ok::<ValueModel, Error>(value),
    decreases value,
{
    lemma_radix_pow_values();
    lemma_word_radix();
    match value {
        ValueModel::Str(chars) => {
            encode_utf8_valid_utf8(chars);
            encode_utf8_decode_utf8(chars);
        },
        ValueModel::Int(word) => {
            lemma_word_pattern(word);
            lemma_unsigned_value_of_bytes(word_pattern(word), word_width(), order);
        },
        ValueModel::Float(bits) => {
            lemma_unsigned_value_of_bytes(bits as nat, 8, order);
        },
        ValueModel::Char(c) => {
            char_is_scalar(c);
            char_u32_cast(c, c as u32);
            lemma_unsigned_value_of_bytes(c as u32 as nat, 4, order);
        },
        ValueModel::Sequence { items, delimiter } => {
            let literals = ValueModel::literals(items, order);
            assert forall|i: int| 0 <= i < items.len() implies (#[trigger] literals[i]).wf(order)
                && literals[i].value(order) == Ok::<ValueModel, Error>(items[i]) by {
                assert(items[i].wf());
                lemma_value_of_literal(items[i], order);
            }
            lemma_collect_values(LiteralModel::values(literals, order), items);
        },
        _ => {},
    }
}

/// A literal that keeps what its kinds promise stands for a value, and
/// laying that value out gives the literal back.
pub proof fn lemma_literal_of_value(literal: LiteralModel, order: ByteOrder)
    requires
        literal.wf(order),
    ensures
        literal.value(order) is Ok,
        literal.value(order)->Ok_0.wf(),
        literal.value(order)->Ok_0.literal(order) == literal,
    decreases literal,
{
    lemma_radix_pow_values();
    lemma_word_radix();
    match literal {
        LiteralModel::Str(v) => {
            decode_utf8_encode_utf8(v);
        },
        LiteralModel::Byte(v) => {
            assert(seq![v[0]] =~= v);
        },
        LiteralModel::Int(v) => {
            lemma_unsigned_bytes_of_value(v, order);
            lemma_pattern_word(unsigned_value(v, order));
        },
        LiteralModel::Float(v) => {
            lemma_unsigned_bytes_of_value(v, order);
        },
        LiteralModel::Char(v) => {
            lemma_unsigned_bytes_of_value(v, order);
        },
        LiteralModel::Bool(v) => {
            let flag: u8 = if v[0] != 0 {
                1
            } else {
                0
            };
            assert(seq![flag] =~= v);
        },
        LiteralModel::Sequence { inner, delimiter } => {
            let results = LiteralModel::values(inner, order);
            let items = Seq::new(inner.len(), |i: int| inner[i].value(order)->Ok_0);
            assert forall|i: int| 0 <= i < inner.len() implies results[i] == Ok::<
                ValueModel,
                Error,
            >(items[i]) && (#[trigger] items[i]).wf() && items[i].literal(order) == inner[i] by {
                assert(inner[i].wf(order));
                lemma_literal_of_value(inner[i], order);
            }
            lemma_collect_values(results, items);
            assert(ValueModel::literals(items, order) =~= inner);
        },
        _ => {},
    }
}

/// A value read from a literal is well formed: its nul-terminated strings
/// have their single terminator.
pub proof fn lemma_value_wf(literal: LiteralModel, order: ByteOrder)
    requires
        literal.value(order) is Ok,
    ensures
        literal.value(order)->Ok_0.wf(),
    decreases literal,
{
    match literal {
        LiteralModel::Sequence { inner, delimiter } => {
            let results = LiteralModel::values(inner, order);
            lemma_collect_all(results);
            let items = collect(results)->Ok_0;
            assert forall|i: int| 0 <= i < items.len() implies (#[trigger] items[i]).wf() by {
                assert(results[i] == Ok::<ValueModel, Error>(items[i]));
                lemma_value_wf(inner[i], order);
            }
        },
        _ => {},
    }
}

/// The cuts of a buffer chain: each cut splits what it takes exactly in
/// two, the first cut takes the whole buffer, each later cut takes what the
/// cut before it left, and the last cut leaves nothing.
pub proof fn lemma_splits_chain(shapes: Seq<ShapeModel>, len: nat, i: int)
    requires
        ShapeModel::total_len(shapes) == len,
        len <= usize::MAX,
        0 <= i < shapes.len(),
    ensures
        ShapeModel::split(shapes, len, i).total == ShapeModel::split(shapes, len, i).left
            + ShapeModel::split(shapes, len, i).right,
        i == 0 ==> ShapeModel::split(shapes, len, i).total == len,
        i + 1 < shapes.len() ==> ShapeModel::split(shapes, len, i + 1).total == ShapeModel::split(
            shapes,
            len,
            i,
        ).right,
        i + 1 == shapes.len() ==> ShapeModel::split(shapes, len, i).right == 0,
{
    ShapeModel::lemma_offset_step(shapes, i);
    ShapeModel::lemma_total_len_take(shapes, i);
    assert(shapes.take(0).len() == 0);
    if i + 1 == shapes.len() {
        assert(shapes.take(i + 1) =~= shapes);
    }
}

/// Round trip: masking the layout of a value and reconstructing with the
/// same key and byte order gives the value back.
pub proof fn lemma_round_trip(value: ValueModel, key: Seq<u8>, order: ByteOrder)
    requires
        value.wf(),
    ensures
        reconstructed(
            value.literal(order).shape(),
            xor_bytes(xor_bytes(value.literal(order).bytes(), key), key),
            order,
        ) == Ok::<ValueModel, Error>(value),
{
    let literal = value.literal(order);
    lemma_value_of_literal(value, order);
    lemma_shape_rebuilds(literal, order);
    lemma_len_is_layout_len(literal);
    lemma_xor_involution(literal.bytes(), key);
}

/// Round trip of a literal: masking its layout and unmasking it with the
/// same key, then cutting along its shape, gives the literal back, and the
/// value read from it lays out as the literal.
pub proof fn lemma_literal_round_trip(literal: LiteralModel, key: Seq<u8>, order: ByteOrder)
    requires
        literal.wf(order),
    ensures
        literal.shape().rebuild(xor_bytes(xor_bytes(literal.bytes(), key), key)) == literal,
        reconstructed(literal.shape(), xor_bytes(xor_bytes(literal.bytes(), key), key), order)
            == literal.value(order),
        literal.value(order) is Ok,
        literal.value(order)->Ok_0.literal(order) == literal,
{
    lemma_shape_rebuilds(literal, order);
    lemma_len_is_layout_len(literal);
    lemma_xor_involution(literal.bytes(), key);
    lemma_literal_of_value(literal, order);
}

/// What an expression denotes is a value whose nul-terminated strings have
/// their single terminator.
pub proof fn lemma_denoted_wf(expr: Expr)
    requires
        expr.denoted() is Ok,
    ensures
        expr.denoted()->Ok_0.wf(),
    decreases expr,
{
    match expr {
        Expr::Array(elems) => {
            lemma_denoted_each_wf(elems@);
        },
        Expr::Tuple(elems) => {
            lemma_denoted_each_wf(elems@);
        },
        Expr::Lit(lit) => {
            lemma_lit_denoted_wf(lit, false);
        },
        Expr::Neg(inner) => {
            match *inner {
                Expr::Lit(lit) => {
                    lemma_lit_denoted_wf(lit, true);
                },
                _ => {},
            }
        },
        Expr::Other => {},
    }
}

proof fn lemma_lit_denoted_wf(lit: Lit, negated: bool)
    requires
        lit.denoted(negated) is Ok,
    ensures
        lit.denoted(negated)->Ok_0.wf(),
{
    match lit {
        Lit::CStr(bytes) => {
            let terminated = bytes@.push(0u8);
            assert forall|i: int| 0 <= i < terminated.len() - 1 implies terminated[i] != 0 by {
                assert(bytes@.contains(bytes@[i]));
            }
        },
        _ => {},
    }
}

proof fn lemma_denoted_each_wf(elems: Seq<Expr>)
    requires
        collect(Expr::denoted_each(elems)) is Ok,
    ensures
        forall|i: int|
            0 <= i < elems.len() ==> (#[trigger] collect(Expr::denoted_each(elems))->Ok_0[i]).wf(),
        collect(Expr::denoted_each(elems))->Ok_0.len() == elems.len(),
    decreases elems,
{
    let results = Expr::denoted_each(elems);
    lemma_collect_all(results);
    assert forall|i: int| 0 <= i < elems.len() implies (#[trigger] collect(results)->Ok_0[i]).wf() by {
        let item = collect(results)->Ok_0[i];
        assert(results[i] == Ok::<ValueModel, Error>(item));
        assert(results[i] == elems[i].denoted());
        lemma_denoted_wf(elems[i]);
    }
}

/// The whole way: an expression that denotes a value is laid out, masked,
/// and reconstructed with the same key and byte order to that value.
pub proof fn lemma_expression_round_trip(expr: Expr, key: Seq<u8>, order: ByteOrder)
    requires
        expr.denoted() is Ok,
    ensures
        expr.literal(order) is Ok,
        expr.literal(order)->Ok_0.wf(order),
        reconstructed(
            expr.literal(order)->Ok_0.shape(),
            xor_bytes(xor_bytes(expr.literal(order)->Ok_0.bytes(), key), key),
            order,
        ) == expr.denoted(),
{
    lemma_denoted_wf(expr);
    lemma_value_of_literal(expr.denoted()->Ok_0, order);
    lemma_round_trip(expr.denoted()->Ok_0, key, order);
}

/// Raw bytes come back byte for byte, whatever they are.
pub proof fn lemma_bytes_round_trip(data: Seq<u8>, key: Seq<u8>, order: ByteOrder)
    ensures
        reconstructed(
            LiteralModel::ByteStr(data).shape(),
            xor_bytes(xor_bytes(data, key), key),
            order,
        ) == Ok::<ValueModel, Error>(ValueModel::ByteStr(data)),
{
    lemma_round_trip(ValueModel::ByteStr(data), key, order);
}

/// Zero has one layout: digits that spell zero denote the same word with a
/// minus sign as without.
pub proof fn lemma_zero_has_no_sign(text: Seq<u8>)
    requires
        text.len() > 0,
        all_digits(text),
        digits_value(text) == 0,
    ensures
        denoted_word(text, true) == Ok::<isize, Error>(0),
        denoted_word(text, false) == Ok::<isize, Error>(0),
{
    assert(crate::syntax::is_digit(text[0]));
}

/// Digits that spell a number above the largest signed word are out of
/// range, and so are digits behind a minus sign that spell a number whose
/// opposite is below the smallest.
pub proof fn lemma_out_of_range(text: Seq<u8>)
    requires
        text.len() > 0,
        all_digits(text),
    ensures
        digits_value(text) > isize::MAX ==> denoted_word(text, false) == Err::<isize, Error>(
            Error::RangeError,
        ),
        digits_value(text) > isize::MAX + 1 ==> denoted_word(text, true) == Err::<isize, Error>(
            Error::RangeError,
        ),
{
    assert(crate::syntax::is_digit(text[0]));
}

/// A minus sign in front of a literal that is no number is a type mismatch.
pub proof fn lemma_sign_needs_number(lit: Lit)
    requires
        !(lit is Int),
        !(lit is Float),
    ensures
        Expr::Neg(Box::new(Expr::Lit(lit))).denoted() == Err::<ValueModel, Error>(
            Error::TypeMismatchError,
        ),
{
}

} // verus!
