//! Fixed-width integer layouts: the bytes of an unsigned number in a given
//! byte order, and the signed machine word as such a number.

use vstd::prelude::*;

verus! {

/// The order in which the bytes of a number are laid out.
#[derive(Clone, Copy, Debug, PartialEq, Eq, Structural)]
pub enum ByteOrder {
    /// Least significant byte first.
    Little,
    /// Most significant byte first.
    Big,
}

impl ByteOrder {
    /// The byte order of the machine that runs this call.
    pub fn native() -> ByteOrder {
        let one = native_bytes_of_one();
        Self::of_one(one)
    }

    /// The byte order that two bytes show which lay out the number one:
    /// least significant first where the first byte is 1, else most
    /// significant first.
    pub fn of_one(bytes: [u8; 2]) -> (order: ByteOrder)
        ensures
            order == order_of_one(bytes@),
    {
        if bytes[0] == 1 {
            ByteOrder::Little
        } else {
            ByteOrder::Big
        }
    }
}

/// The byte order that `bytes` show where they lay out the number one: least
/// significant first where the first byte is 1, else most significant first.
pub open spec fn order_of_one(bytes: Seq<u8>) -> ByteOrder {
    if bytes[0] == 1 {
        ByteOrder::Little
    } else {
        ByteOrder::Big
    }
}

/// Trusted: `u16::to_ne_bytes` applied to 1. The two bytes of the number one
/// in memory order are `1, 0` on a little-endian machine and `0, 1` on a
/// big-endian one; which of the two comes back is left open.
#[verifier::external_body]
fn native_bytes_of_one() -> (bytes: [u8; 2])
    ensures
        bytes@ == seq![1u8, 0u8] || bytes@ == seq![0u8, 1u8],
{
    1u16.to_ne_bytes()
}

/// `256^width`: the number of values that `width` bytes can hold.
pub open spec fn radix_pow(width: nat) -> nat
    decreases width,
{
    if width == 0 {
        1
    } else {
        256 * radix_pow((width - 1) as nat)
    }
}

/// The `width` low bytes of `value`, least significant first.
pub open spec fn le_bytes(value: nat, width: nat) -> Seq<u8>
    decreases width,
{
    if width == 0 {
        Seq::empty()
    } else {
        seq![(value % 256) as u8] + le_bytes(value / 256, (width - 1) as nat)
    }
}

/// The number whose bytes, least significant first, are `bytes`.
pub open spec fn le_value(bytes: Seq<u8>) -> nat
    decreases bytes.len(),
{
    if bytes.len() == 0 {
        0
    } else {
        bytes[0] as nat + 256 * le_value(bytes.drop_first())
    }
}

/// The `width` low bytes of `value` in the given order.
pub open spec fn unsigned_bytes(value: nat, width: nat, order: ByteOrder) -> Seq<u8> {
    match order {
        ByteOrder::Little => le_bytes(value, width),
        ByteOrder::Big => le_bytes(value, width).reverse(),
    }
}

/// The number that `bytes` hold in the given order.
pub open spec fn unsigned_value(bytes: Seq<u8>, order: ByteOrder) -> nat {
    match order {
        ByteOrder::Little => le_value(bytes),
        ByteOrder::Big => le_value(bytes.reverse()),
    }
}

/// The number of bytes of a machine word.
pub open spec fn word_width() -> nat {
    (usize::BITS / 8) as nat
}

/// The unsigned number with the same two's-complement bits as `word`.
pub open spec fn word_pattern(word: isize) -> nat {
    if word >= 0 {
        word as nat
    } else {
        (word + usize::MAX + 1) as nat
    }
}

/// The signed word with the same two's-complement bits as `pattern`.
pub open spec fn pattern_word(pattern: nat) -> isize {
    if pattern <= isize::MAX {
        pattern as isize
    } else {
        (pattern - usize::MAX - 1) as isize
    }
}

/// The bytes of a signed machine word in the given order.
pub open spec fn word_bytes(word: isize, order: ByteOrder) -> Seq<u8> {
    unsigned_bytes(word_pattern(word), word_width(), order)
}

/// The signed machine word that `bytes` hold in the given order.
pub open spec fn bytes_word(bytes: Seq<u8>, order: ByteOrder) -> isize {
    pattern_word(unsigned_value(bytes, order))
}

/// The layout of the number one in two bytes shows the order that it was
/// laid out in.
pub proof fn lemma_order_of_one(order: ByteOrder)
    ensures
        unsigned_bytes(1, 2, ByteOrder::Little) == seq![1u8, 0u8],
        unsigned_bytes(1, 2, ByteOrder::Big) == seq![0u8, 1u8],
        order_of_one(unsigned_bytes(1, 2, order)) == order,
{
    reveal_with_fuel(le_bytes, 3);
    assert(le_bytes(1, 2) =~= seq![1u8, 0u8]);
    assert(le_bytes(1, 2).reverse() =~= seq![0u8, 1u8]);
}

/// The powers of 256 up to the eighth.
pub proof fn lemma_radix_pow_values()
    ensures
        radix_pow(0) == 1,
        radix_pow(1) == 0x100,
        radix_pow(2) == 0x1_0000,
        radix_pow(3) == 0x100_0000,
        radix_pow(4) == 0x1_0000_0000,
        radix_pow(5) == 0x100_0000_0000,
        radix_pow(6) == 0x1_0000_0000_0000,
        radix_pow(7) == 0x100_0000_0000_0000,
        radix_pow(8) == 0x1_0000_0000_0000_0000,
{
    reveal_with_fuel(radix_pow, 9);
}

/// A word has as many values as its bytes can hold.
pub proof fn lemma_word_radix()
    ensures
        word_width() == 4 || word_width() == 8,
        radix_pow(word_width()) == usize::MAX + 1,
        isize::MAX == (usize::MAX - 1) / 2,
        isize::MIN == -isize::MAX - 1,
{
    lemma_radix_pow_values();
}

/// A layout of `width` bytes has `width` bytes.
pub proof fn lemma_le_bytes_len(value: nat, width: nat)
    ensures
        le_bytes(value, width).len() == width,
    decreases width,
{
    if width > 0 {
        lemma_le_bytes_len(value / 256, (width - 1) as nat);
    }
}

/// The number that `n` bytes hold is below `256^n`.
pub proof fn lemma_le_value_bound(bytes: Seq<u8>)
    ensures
        le_value(bytes) < radix_pow(bytes.len()),
    decreases bytes.len(),
{
    if bytes.len() > 0 {
        lemma_le_value_bound(bytes.drop_first());
    }
}

/// Reading back the bytes of a number that fits gives the number.
pub proof fn lemma_le_value_of_bytes(value: nat, width: nat)
    requires
        value < radix_pow(width),
    ensures
        le_value(le_bytes(value, width)) == value,
    decreases width,
{
    if width > 0 {
        let rest = le_bytes(value / 256, (width - 1) as nat);
        let all = le_bytes(value, width);
        lemma_le_bytes_len(value / 256, (width - 1) as nat);
        assert(all.drop_first() =~= rest);
        lemma_le_value_of_bytes(value / 256, (width - 1) as nat);
    }
}

/// Laying out the number that some bytes hold gives the bytes.
pub proof fn lemma_le_bytes_of_value(bytes: Seq<u8>)
    ensures
        le_bytes(le_value(bytes), bytes.len()) == bytes,
    decreases bytes.len(),
{
    if bytes.len() > 0 {
        let tail = bytes.drop_first();
        lemma_le_bytes_of_value(tail);
        let value = le_value(bytes);
        assert(value % 256 == bytes[0] as nat && value / 256 == le_value(tail)) by {
            let b = bytes[0] as nat;
            let t = le_value(tail);
            assert(value == b + 256 * t);
            assert((b + 256 * t) % 256 == b && (b + 256 * t) / 256 == t) by (nonlinear_arith)
                requires
                    b < 256,
            ;
        }
        assert(le_bytes(value, bytes.len()) =~= bytes);
    }
}

/// Reversing twice gives the bytes back.
pub proof fn lemma_reverse_twice(bytes: Seq<u8>)
    ensures
        bytes.reverse().reverse() == bytes,
{
    assert(bytes.reverse().reverse() =~= bytes);
}

/// Reading back the bytes of a number that fits gives the number, in either order.
pub proof fn lemma_unsigned_value_of_bytes(value: nat, width: nat, order: ByteOrder)
    requires
        value < radix_pow(width),
    ensures
        unsigned_bytes(value, width, order).len() == width,
        unsigned_value(unsigned_bytes(value, width, order), order) == value,
{
    lemma_le_bytes_len(value, width);
    lemma_le_value_of_bytes(value, width);
    lemma_reverse_twice(le_bytes(value, width));
}

/// Laying out the number that some bytes hold gives the bytes, in either order.
pub proof fn lemma_unsigned_bytes_of_value(bytes: Seq<u8>, order: ByteOrder)
    ensures
        unsigned_value(bytes, order) < radix_pow(bytes.len()),
        unsigned_bytes(unsigned_value(bytes, order), bytes.len(), order) == bytes,
{
    match order {
        ByteOrder::Little => {
            lemma_le_value_bound(bytes);
            lemma_le_bytes_of_value(bytes);
        },
        ByteOrder::Big => {
            lemma_le_value_bound(bytes.reverse());
            lemma_le_bytes_of_value(bytes.reverse());
            lemma_reverse_twice(bytes);
        },
    }
}

/// A word and its bit pattern determine each other.
pub proof fn lemma_word_pattern(word: isize)
    ensures
        word_pattern(word) <= usize::MAX,
        pattern_word(word_pattern(word)) == word,
{
    lemma_word_radix();
}

/// A bit pattern of word size and its word determine each other.
pub proof fn lemma_pattern_word(pattern: nat)
    requires
        pattern <= usize::MAX,
    ensures
        word_pattern(pattern_word(pattern)) == pattern,
{
    lemma_word_radix();
}

/// The bytes of `bytes` in the opposite order.
pub fn reversed(bytes: &[u8]) -> (out: Vec<u8>)
    ensures
        out@ == bytes@.reverse(),
{
    let mut out: Vec<u8> = Vec::new();
    let mut i: usize = bytes.len();
    while i > 0
        invariant
            i <= bytes@.len(),
            out@.len() == bytes@.len() - i,
            forall|j: int| 0 <= j < out@.len() ==> out@[j] == bytes@[bytes@.len() - 1 - j],
        decreases i,
    {
        i -= 1;
        out.push(bytes[i]);
    }
    assert(out@ =~= bytes@.reverse());
    out
}

/// Lays out the `width` low bytes of `value` in the given order.
pub fn encode_unsigned(value: u64, width: usize, order: ByteOrder) -> (bytes: Vec<u8>)
    ensures
        bytes@ == unsigned_bytes(value as nat, width as nat, order),
{
    let mut out: Vec<u8> = Vec::new();
    let mut rest: u64 = value;
    let mut i: usize = 0;
    while i < width
        invariant
            i <= width,
            out@.len() == i,
            le_bytes(value as nat, width as nat) == out@ + le_bytes(rest as nat, (width - i) as nat),
        decreases width - i,
    {
        let low: u8 = (rest % 256) as u8;
        proof {
            let tail = le_bytes((rest / 256) as nat, (width - i - 1) as nat);
            assert(le_bytes(rest as nat, (width - i) as nat) == seq![low] + tail);
            assert(out@.push(low) + tail =~= out@ + (seq![low] + tail));
        }
        out.push(low);
        rest = rest / 256;
        i += 1;
    }
    assert(out@ =~= le_bytes(value as nat, width as nat));
    match order {
        ByteOrder::Little => out,
        ByteOrder::Big => reversed(out.as_slice()),
    }
}

/// Reads the number that at most eight bytes hold in the given order.
pub fn decode_unsigned(bytes: &[u8], order: ByteOrder) -> (value: u64)
    requires
        bytes@.len() <= 8,
    ensures
        value == unsigned_value(bytes@, order),
{
    match order {
        ByteOrder::Little => decode_le(bytes),
        ByteOrder::Big => {
            let swapped = reversed(bytes);
            decode_le(swapped.as_slice())
        },
    }
}

fn decode_le(bytes: &[u8]) -> (value: u64)
    requires
        bytes@.len() <= 8,
    ensures
        value == le_value(bytes@),
{
    let len = bytes.len();
    let mut acc: u64 = 0;
    let mut i: usize = len;
    while i > 0
        invariant
            len == bytes@.len(),
            len <= 8,
            i <= len,
            acc == le_value(bytes@.subrange(i as int, len as int)),
        decreases i,
    {
        proof {
            let here = bytes@.subrange(i - 1, len as int);
            assert(here.drop_first() =~= bytes@.subrange(i as int, len as int));
            lemma_le_value_bound(bytes@.subrange(i as int, len as int));
            lemma_le_value_bound(here);
            lemma_radix_pow_values();
            lemma_radix_pow_monotonic(here.len(), 8);
        }
        i -= 1;
        acc = acc * 256 + bytes[i] as u64;
    }
    assert(bytes@.subrange(0, len as int) =~= bytes@);
    acc
}

/// The number of bytes of a machine word.
pub fn word_len() -> (width: usize)
    ensures
        width == word_width(),
        width == 4 || width == 8,
{
    (usize::BITS / 8) as usize
}

/// Lays out a signed machine word in the given order.
pub fn encode_word(word: isize, order: ByteOrder) -> (bytes: Vec<u8>)
    ensures
        bytes@ == word_bytes(word, order),
{
    proof {
        lemma_word_radix();
    }
    let pattern: usize = if word >= 0 {
        word as usize
    } else {
        usize::MAX - ((-(word + 1)) as usize)
    };
    encode_unsigned(pattern as u64, word_len(), order)
}

/// Reads the signed machine word that `bytes` hold in the given order.
pub fn decode_word(bytes: &[u8], order: ByteOrder) -> (word: isize)
    requires
        bytes@.len() == word_width(),
    ensures
        word == bytes_word(bytes@, order),
{
    proof {
        lemma_word_radix();
        lemma_unsigned_bytes_of_value(bytes@, order);
    }
    let pattern: u64 = decode_unsigned(bytes, order);
    if pattern <= isize::MAX as u64 {
        pattern as isize
    } else {
        let below: u64 = usize::MAX as u64 - pattern;
        -(below as isize) - 1
    }
}

/// More bytes hold no fewer values.
pub proof fn lemma_radix_pow_monotonic(small: nat, large: nat)
    requires
        small <= large,
    ensures
        radix_pow(small) <= radix_pow(large),
    decreases large,
{
    if small < large {
        lemma_radix_pow_monotonic(small, (large - 1) as nat);
    }
}

} // verus!
