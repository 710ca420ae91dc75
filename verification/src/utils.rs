//! The XOR stream transform and the splitting of fixed-size buffers.

use vstd::prelude::*;

verus! {

/// The buffer `source` with every byte at index `i` combined by XOR with
/// `key[i mod key.len()]`. An empty key leaves the buffer as it is.
pub open spec fn xor_bytes(source: Seq<u8>, key: Seq<u8>) -> Seq<u8> {
    if key.len() == 0 {
        source
    } else {
        Seq::new(source.len(), |i: int| source[i] ^ key[i % (key.len() as int)])
    }
}

/// Applies XOR between each byte of `source` and the wrapped `key`.
pub fn xor(source: &mut [u8], key: &[u8])
    ensures
        final(source)@ == xor_bytes(old(source)@, key@),
{
    if !key.is_empty() {
        let mut i: usize = 0;
        while i < source.len()
            invariant
                key@.len() > 0,
                i <= source@.len(),
                source@.len() == old(source)@.len(),
                forall|j: int| 0 <= j < i ==> source@[j] == old(source)@[j] ^ key@[j % (key@.len() as int)],
                forall|j: int| i <= j < source@.len() ==> source@[j] == old(source)@[j],
            decreases source@.len() - i,
        {
            source[i] = source[i] ^ key[i % key.len()];
            i += 1;
        }
    }
}

/// Applying the transform twice with one key gives the buffer back.
pub proof fn lemma_xor_involution(source: Seq<u8>, key: Seq<u8>)
    ensures
        xor_bytes(xor_bytes(source, key), key) == source,
{
    if key.len() > 0 {
        let once = xor_bytes(source, key);
        let twice = xor_bytes(once, key);
        assert forall|i: int| 0 <= i < source.len() implies twice[i] == source[i] by {
            let a = source[i];
            let k = key[i % (key.len() as int)];
            assert((a ^ k) ^ k == a) by (bit_vector);
        }
        assert(twice =~= source);
    }
}

/// With an empty key the transform is the identity.
pub proof fn lemma_xor_empty_key(source: Seq<u8>)
    ensures
        xor_bytes(source, Seq::<u8>::empty()) == source,
{
}

/// The transform keeps the length of the buffer.
pub proof fn lemma_xor_len(source: Seq<u8>, key: Seq<u8>)
    ensures
        xor_bytes(source, key).len() == source.len(),
{
}

/// Splits a `[u8; LEN]` array into two owned arrays `[u8; LEFT]` and `[u8; RIGHT]`:
/// the first `LEFT` bytes and the `RIGHT` bytes after them.
pub fn split_array<const LEN: usize, const LEFT: usize, const RIGHT: usize>(arr: [u8; LEN]) -> (parts: (
    [u8; LEFT],
    [u8; RIGHT],
))
    requires
        LEN == LEFT + RIGHT,
    ensures
        parts.0@ == arr@.subrange(0, LEFT as int),
        parts.1@ == arr@.subrange(LEFT as int, LEN as int),
{
    let mut left = [0u8; LEFT];
    let mut right = [0u8; RIGHT];
    let mut i: usize = 0;
    while i < LEFT
        invariant
            LEN == LEFT + RIGHT,
            i <= LEFT,
            forall|j: int| 0 <= j < i ==> left@[j] == arr@[j],
        decreases LEFT - i,
    {
        left[i] = arr[i];
        i += 1;
    }
    let mut k: usize = 0;
    while k < RIGHT
        invariant
            LEN == LEFT + RIGHT,
            k <= RIGHT,
            forall|j: int| 0 <= j < k ==> right@[j] == arr@[LEFT + j],
        decreases RIGHT - k,
    {
        right[k] = arr[LEFT + k];
        k += 1;
    }
    (left, right)
}

} // verus!
