//! Hashing primitives of the ledger state: BLAKE2b digests truncated to
//! 32 bytes, with the all-zero hash standing for "empty".
use vstd::prelude::*;

verus! {

/// A 32-byte digest.
pub type Hash32 = [u8; 32];

/// Index of a leaf (or node) of the state's binary Merkle tree.
pub type TreeIndex = u16;

/// Depth of the state tree: leaves are addressed by 15 bits.
pub const TREE_DEPTH: usize = 15;

/// The all-zero hash as a sequence of bytes.
pub open spec fn zero_hash() -> Seq<u8> {
    Seq::new(32, |i: int| 0u8)
}

/// The hash that stands for "no data".
pub fn empty_hash() -> (h: Hash32)
    ensures
        h@ == zero_hash(),
{
    let h = [0u8; 32];
    assert(h@ =~= zero_hash());
    h
}

/// The BLAKE2b digest (64 bytes, default parameters, no key) of `input`.
pub uninterp spec fn blake2b_512(input: Seq<u8>) -> Seq<u8>;

/// Calls `blake2b_simd::blake2b`, which hashes `input` with the default
/// parameters (64-byte output, no key, no salt). The contract names the
/// digest `blake2b_512(input)` and states its length, which the default
/// parameters fix at 64 bytes.
#[verifier::external_body]
fn blake2b_digest(input: &[u8]) -> (digest: Vec<u8>)
    ensures
        digest@ == blake2b_512(input@),
        digest@.len() == 64,
{
    blake2b_simd::blake2b(input).as_bytes().to_vec()
}

/// The concatenation of a sequence of byte strings.
pub open spec fn flatten(parts: Seq<Seq<u8>>) -> Seq<u8>
    decreases parts.len(),
{
    if parts.len() == 0 {
        Seq::empty()
    } else {
        flatten(parts.drop_last()) + parts.last()
    }
}

/// The digest of a byte string under the ledger's convention: the empty
/// string hashes to the zero hash, any other string to the first 32 bytes
/// of its BLAKE2b digest.
pub open spec fn digest_of(data: Seq<u8>) -> Seq<u8> {
    if data.len() == 0 {
        zero_hash()
    } else {
        blake2b_512(data).take(32)
    }
}

/// The byte strings that a slice of slices holds.
pub open spec fn parts_view(m: Seq<&[u8]>) -> Seq<Seq<u8>> {
    m.map_values(|s: &[u8]| s@)
}

/// Combination of two child hashes: an empty child is transparent,
/// otherwise the digest of both hashes side by side.
pub open spec fn pair_digest(h1: Seq<u8>, h2: Seq<u8>) -> Seq<u8> {
    if h1 == zero_hash() {
        h2
    } else if h2 == zero_hash() {
        h1
    } else {
        digest_of(h1 + h2)
    }
}

/// The tree index of a key: the first two bytes of the key's digest, read
/// little-endian, with the highest bit of the second byte cleared (a leaf of
/// the 2^15).
pub open spec fn key_index(k: Seq<u8>) -> u16 {
    let h = digest_of(k);
    (h[0] as int + 256 * ((h[1] & 0x7f) as int)) as u16
}

/// Every key's index is a leaf of the tree: below 2^15.
pub proof fn lemma_key_index_in_tree(k: Seq<u8>)
    ensures
        key_index(k) < 32768,
{
    let h = digest_of(k);
    let b: u8 = h[1];
    assert((b & 0x7f) <= 0x7f) by (bit_vector);
}

/// Copies the first 32 bytes of `bytes` into a hash.
pub(crate) fn hash_from_prefix(bytes: &Vec<u8>) -> (h: Hash32)
    requires
        bytes@.len() >= 32,
    ensures
        h@ == bytes@.take(32),
{
    let mut h = [0u8; 32];
    let mut i: usize = 0;
    while i < 32
        invariant
            i <= 32,
            bytes@.len() >= 32,
            forall|j: int| 0 <= j < i ==> h@[j] == bytes@[j],
        decreases 32 - i,
    {
        h[i] = bytes[i];
        i = i + 1;
    }
    assert(h@ =~= bytes@.take(32));
    h
}

/// Whether a hash is the all-zero hash.
pub fn is_empty_hash(h: &Hash32) -> (r: bool)
    ensures
        r == (h@ == zero_hash()),
{
    let mut i: usize = 0;
    while i < 32
        invariant
            i <= 32,
            forall|j: int| 0 <= j < i ==> h@[j] == 0u8,
        decreases 32 - i,
    {
        if h[i] != 0 {
            assert(h@[i as int] != zero_hash()[i as int]);
            return false;
        }
        i = i + 1;
    }
    assert(h@ =~= zero_hash());
    true
}

/// Whether two hashes are equal.
pub fn hash_eq(a: &Hash32, b: &Hash32) -> (r: bool)
    ensures
        r == (a@ == b@),
{
    let mut i: usize = 0;
    while i < 32
        invariant
            i <= 32,
            forall|j: int| 0 <= j < i ==> a@[j] == b@[j],
        decreases 32 - i,
    {
        if a[i] != b[i] {
            assert(a@[i as int] != b@[i as int]);
            return false;
        }
        i = i + 1;
    }
    assert(a@ =~= b@);
    true
}

/// Hashes a byte string: the zero hash for the empty string, otherwise the
/// first 32 bytes of its BLAKE2b digest.
pub fn hash_bytes(data: &[u8]) -> (h: Hash32)
    ensures
        h@ == digest_of(data@),
{
    if data.len() == 0 {
        empty_hash()
    } else {
        let d = blake2b_digest(data);
        hash_from_prefix(&d)
    }
}

/// Hashes the concatenation of `m`; the zero hash when there is nothing to
/// hash (no part, or only empty parts).
pub fn hash_multiple(m: &[&[u8]]) -> (h: Hash32)
    ensures
        h@ == digest_of(flatten(parts_view(m@))),
{
    let ghost parts = parts_view(m@);
    let mut data: Vec<u8> = Vec::new();
    let mut i: usize = 0;
    while i < m.len()
        invariant
            i <= m@.len(),
            parts == parts_view(m@),
            data@ == flatten(parts.take(i as int)),
        decreases m@.len() - i,
    {
        let part: &[u8] = m[i];
        let ghost before = data@;
        data.extend_from_slice(part);
        assert(data@ =~= before + part@);
        assert(parts.take(i + 1).drop_last() =~= parts.take(i as int));
        i = i + 1;
    }
    assert(parts.take(m@.len() as int) =~= parts);
    hash_bytes(data.as_slice())
}

/// The first 32 bytes of the BLAKE2b digest of `data` (even when `data`
/// is empty).
pub fn blake2b_prefix(data: &[u8]) -> (h: Hash32)
    ensures
        h@ == blake2b_512(data@).take(32),
{
    let d = blake2b_digest(data);
    hash_from_prefix(&d)
}

/// Combines two child hashes into their parent hash.
pub fn hash_pair(h1: &Hash32, h2: &Hash32) -> (h: Hash32)
    ensures
        h@ == pair_digest(h1@, h2@),
{
    if is_empty_hash(h1) {
        return *h2;
    }
    if is_empty_hash(h2) {
        return *h1;
    }
    let mut data: Vec<u8> = Vec::new();
    data.extend_from_slice(h1.as_slice());
    data.extend_from_slice(h2.as_slice());
    assert(data@ =~= h1@ + h2@);
    hash_bytes(data.as_slice())
}

/// The tree index at which a key is stored.
pub fn tree_index_from_key(k: &[u8]) -> (ix: TreeIndex)
    ensures
        ix == key_index(k@),
        ix < 32768,
{
    let hash = hash_bytes(k);
    let lo: u8 = hash[0];
    let b1: u8 = hash[1];
    let hi: u8 = b1 & 0x7f;
    assert(hi <= 0x7f) by (bit_vector)
        requires
            hi == b1 & 0x7f,
    ;
    proof {
        lemma_key_index_in_tree(k@);
    }
    lo as u16 + 256 * (hi as u16)
}

} // verus!
