use vstd::prelude::*;

verus! {

/// Files larger than this many bytes are read through a memory map.
pub const MMAP_THRESHOLD: u64 = 128 * 1024;

/// What `blake3::hash` returns for some bytes: their 32-byte BLAKE3 digest.
pub uninterp spec fn blake3_digest(data: Seq<u8>) -> Seq<u8>;

/// Calls `blake3::hash` on the bytes and returns the 32 bytes of the digest;
/// the digest is named, not described.
#[verifier::external_body]
pub(crate) fn blake3_hash(data: &[u8]) -> (r: [u8; 32])
    ensures
        r@ == blake3_digest(data@),
{
    *blake3::hash(data).as_bytes()
}

/// BLAKE3 digest of a file's whole content.
pub fn full_hash(content: &[u8]) -> (r: [u8; 32])
    ensures
        r@ == blake3_digest(content@),
{
    blake3_hash(content)
}

/// Whether a file of `size` bytes is read through a memory map rather than
/// through a buffer.
pub fn uses_mmap(size: u64) -> (r: bool)
    ensures
        r == (size > MMAP_THRESHOLD),
{
    size > MMAP_THRESHOLD
}

/// Byte-by-byte comparison of two contents.
pub fn compare_files(content1: &[u8], content2: &[u8]) -> (r: bool)
    ensures
        r == (content1@ == content2@),
{
    if content1.len() != content2.len() {
        return false;
    }
    let n = content1.len();
    let mut i: usize = 0;
    while i < n
        invariant
            n == content1@.len() == content2@.len(),
            i <= n,
            forall|j: int| 0 <= j < i ==> content1@[j] == content2@[j],
        decreases n - i,
    {
        if content1[i] != content2[i] {
            return false;
        }
        i += 1;
    }
    assert(content1@ =~= content2@);
    true
}

} // verus!
