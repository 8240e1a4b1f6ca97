//! The domain-separated hashes that commit to leaves, branches and the root.

use sha2::Digest;
use vstd::prelude::*;

use crate::key::{encode_bits, BitKey, KEY_BITS};

verus! {

/// The SHA-256 digest of a byte string.
pub uninterp spec fn sha256_of(data: Seq<u8>) -> Seq<u8>;

/// Tag that opens the hashed form of a leaf.
pub const LEAF_TAG: u8 = 0;

/// Tag that opens the hashed form of a branch.
pub const BRANCH_TAG: u8 = 1;

/// The hash of a stored value.
pub open spec fn leaf_hash(value: Seq<u8>) -> Seq<u8> {
    sha256_of(seq![LEAF_TAG] + value)
}

/// The hash of a branch from its two child slices and their hashes.
pub open spec fn branch_hash(lk: Seq<bool>, lh: Seq<u8>, rk: Seq<bool>, rh: Seq<u8>) -> Seq<u8> {
    sha256_of(seq![BRANCH_TAG] + encode_bits(lk) + lh + encode_bits(rk) + rh)
}

/// The root hash of a trie that holds one leaf: its slice folded with the
/// leaf's hash.
pub open spec fn single_leaf_root(k: Seq<bool>, vh: Seq<u8>) -> Seq<u8> {
    sha256_of(encode_bits(k) + vh)
}

/// The root hash of the empty trie: 32 zero bytes.
pub open spec fn empty_root() -> Seq<u8> {
    Seq::new(32, |i: int| 0u8)
}

/// Relies on sha2::Sha256::digest: the 32-byte SHA-256 digest of the bytes,
/// which depends on them alone.
#[verifier::external_body]
fn sha256(data: &Vec<u8>) -> (r: Vec<u8>)
    ensures
        r@ == sha256_of(data@),
        r@.len() == 32,
{
    sha2::Sha256::digest(data.as_slice()).to_vec()
}

/// Appends the bytes of `s` to `data`.
pub(crate) fn append_bytes(data: &mut Vec<u8>, s: &Vec<u8>)
    ensures
        final(data)@ == old(data)@ + s@,
{
    let mut i: usize = 0;
    while i < s.len()
        invariant
            i <= s@.len(),
            data@ == old(data)@ + s@.subrange(0, i as int),
        decreases s@.len() - i,
    {
        data.push(s[i]);
        i = i + 1;
        assert(data@ =~= old(data)@ + s@.subrange(0, i as int));
    }
    assert(s@.subrange(0, s@.len() as int) =~= s@);
}

/// A copy of a byte string.
pub(crate) fn copy_bytes(s: &Vec<u8>) -> (r: Vec<u8>)
    ensures
        r@ == s@,
{
    let mut r: Vec<u8> = Vec::new();
    append_bytes(&mut r, s);
    assert(r@ =~= s@);
    r
}

/// Hash of a stored value.
pub fn hash_leaf(value: &Vec<u8>) -> (r: Vec<u8>)
    ensures
        r@ == leaf_hash(value@),
{
    let mut data: Vec<u8> = Vec::new();
    data.push(LEAF_TAG);
    append_bytes(&mut data, value);
    assert(data@ =~= seq![LEAF_TAG] + value@);
    sha256(&data)
}

/// Hash of a branch from its children's slices and hashes.
pub fn hash_branch(lk: &BitKey, lh: &Vec<u8>, rk: &BitKey, rh: &Vec<u8>) -> (r: Vec<u8>)
    requires
        lk@.len() <= KEY_BITS,
        rk@.len() <= KEY_BITS,
    ensures
        r@ == branch_hash(lk@, lh@, rk@, rh@),
{
    let mut data: Vec<u8> = Vec::new();
    data.push(BRANCH_TAG);
    assert(data@ =~= seq![BRANCH_TAG]);
    let mut a = lk.encode();
    data.append(&mut a);
    append_bytes(&mut data, lh);
    let mut c = rk.encode();
    data.append(&mut c);
    append_bytes(&mut data, rh);
    sha256(&data)
}

/// Root hash of a trie with a single leaf.
pub fn hash_single_leaf_root(k: &BitKey, vh: &Vec<u8>) -> (r: Vec<u8>)
    requires
        k@.len() <= KEY_BITS,
    ensures
        r@ == single_leaf_root(k@, vh@),
{
    let mut data = k.encode();
    append_bytes(&mut data, vh);
    sha256(&data)
}

/// Root hash of the empty trie.
pub fn empty_hash() -> (r: Vec<u8>)
    ensures
        r@ == empty_root(),
{
    let mut r: Vec<u8> = Vec::new();
    let mut i: usize = 0;
    while i < 32
        invariant
            i <= 32,
            r@.len() == i,
            forall|j: int| 0 <= j < i ==> r@[j] == 0u8,
        decreases 32 - i,
    {
        r.push(0u8);
        i = i + 1;
    }
    assert(r@ =~= empty_root());
    r
}

} // verus!
