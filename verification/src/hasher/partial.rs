use vstd::prelude::*;

use crate::hasher::full::{blake3_digest, blake3_hash};

verus! {

/// Number of leading bytes that the partial digest covers.
pub const PARTIAL_HASH_SIZE: usize = 4096;

/// The leading bytes of a file's content that the partial digest covers.
pub open spec fn partial_prefix(data: Seq<u8>) -> Seq<u8> {
    if data.len() <= PARTIAL_HASH_SIZE {
        data
    } else {
        data.subrange(0, PARTIAL_HASH_SIZE as int)
    }
}

/// BLAKE3 digest of the first `PARTIAL_HASH_SIZE` bytes of `data` (of all of
/// it when it is shorter).
pub fn partial_hash(data: &[u8]) -> (r: [u8; 32])
    ensures
        r@ == blake3_digest(partial_prefix(data@)),
{
    let n = if data.len() <= PARTIAL_HASH_SIZE {
        data.len()
    } else {
        PARTIAL_HASH_SIZE
    };
    let (head, _rest) = data.split_at(n);
    assert(head@ =~= partial_prefix(data@));
    blake3_hash(head)
}

/// Contents that agree on their first `PARTIAL_HASH_SIZE` bytes have the same
/// partial digest, whatever follows.
pub proof fn law_partial_hash_sees_only_prefix(a: Seq<u8>, b: Seq<u8>)
    requires
        a.len() >= PARTIAL_HASH_SIZE,
        b.len() >= PARTIAL_HASH_SIZE,
        a.subrange(0, PARTIAL_HASH_SIZE as int) == b.subrange(0, PARTIAL_HASH_SIZE as int),
    ensures
        blake3_digest(partial_prefix(a)) == blake3_digest(partial_prefix(b)),
{
    assert(partial_prefix(a) =~= a.subrange(0, PARTIAL_HASH_SIZE as int));
    assert(partial_prefix(b) =~= b.subrange(0, PARTIAL_HASH_SIZE as int));
}

} // verus!
