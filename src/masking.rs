//! The XOR masking that clients apply to every frame payload.
use vstd::prelude::*;

verus! {

/// `payload` with byte `i` XOR-ed with byte `i % 4` of `key`.
pub open spec fn masked(payload: Seq<u8>, key: Seq<u8>) -> Seq<u8>
    recommends
        key.len() == 4,
{
    Seq::new(payload.len(), |i: int| payload[i] ^ key[i % 4])
}

proof fn lemma_xor_twice(a: u8, b: u8)
    ensures
        (a ^ b) ^ b == a,
{
    assert((a ^ b) ^ b == a) by (bit_vector);
}

/// Masking is its own inverse: applying the same four-byte key twice, from
/// the same offset, gives back the original payload.
pub proof fn lemma_mask_round_trip(payload: Seq<u8>, key: Seq<u8>)
    requires
        key.len() == 4,
    ensures
        masked(masked(payload, key), key) == payload,
{
    let once = masked(payload, key);
    assert forall|i: int| 0 <= i < payload.len() implies masked(once, key)[i] == payload[i] by {
        lemma_xor_twice(payload[i], key[i % 4]);
    }
    assert(masked(once, key) =~= payload);
}

/// Writes the first `len` bytes of `source`, unmasked with `mask`, into the
/// first `len` bytes of `target`; the rest of `target` is left as it was.
pub fn decode(target: &mut [u8], source: &[u8], mask: [u8; 4], len: usize)
    requires
        len <= old(target)@.len(),
        len <= source@.len(),
    ensures
        final(target)@.len() == old(target)@.len(),
        final(target)@.subrange(0, len as int) == masked(source@.subrange(0, len as int), mask@),
        final(target)@.subrange(len as int, final(target)@.len() as int) == old(
            target,
        )@.subrange(len as int, old(target)@.len() as int),
{
    let mut i: usize = 0;
    while i < len
        invariant
            i <= len,
            len <= target@.len(),
            len <= source@.len(),
            target@.len() == old(target)@.len(),
            forall|j: int| 0 <= j < i ==> target@[j] == source@[j] ^ mask@[j % 4],
            forall|j: int| len <= j < target@.len() ==> target@[j] == old(target)@[j],
        decreases len - i,
    {
        target[i] = source[i] ^ mask[i % 4];
        i += 1;
    }
    assert(target@.subrange(0, len as int) =~= masked(source@.subrange(0, len as int), mask@));
    assert(target@.subrange(len as int, target@.len() as int) =~= old(target)@.subrange(
        len as int,
        old(target)@.len() as int,
    ));
}

} // verus!
