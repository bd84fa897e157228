use vstd::prelude::*;

verus! {

/// A 32-byte digest, the unit of identity of every node.
pub type Digest = [u8; 32];

/// What Keccak-256 yields on a byte string.
pub uninterp spec fn keccak_of(data: Seq<u8>) -> Seq<u8>;

/// The digest of a leaf: Keccak-256 of the record bytes, with no prefix.
pub open spec fn leaf_digest(record: Seq<u8>) -> Seq<u8> {
    keccak_of(record)
}

/// The digest of an internal node: Keccak-256 of the left digest followed by the right one.
pub open spec fn combine_digests(left: Seq<u8>, right: Seq<u8>) -> Seq<u8> {
    keccak_of(left + right)
}

/// Relies on alloy_primitives::keccak256: the 32-byte Keccak-256 digest of the input,
/// a function of the input bytes alone.
#[verifier::external_body]
fn keccak(data: &[u8]) -> (r: Digest)
    ensures
        r@ == keccak_of(data@),
{
    alloy_primitives::keccak256(data).0
}

/// Hashes one record into a leaf digest.
pub fn hash_leaf(record: &[u8]) -> (r: Digest)
    ensures
        r@ == leaf_digest(record@),
{
    keccak(record)
}

/// The 64 bytes of `left` followed by `right`.
fn concat_digests(left: &Digest, right: &Digest) -> (r: Vec<u8>)
    ensures
        r@ == left@ + right@,
{
    let mut out: Vec<u8> = Vec::new();
    let mut i: usize = 0;
    while i < 32
        invariant
            i <= 32,
            out@ == left@.subrange(0, i as int),
        decreases 32 - i,
    {
        out.push(left[i]);
        i = i + 1;
    }
    assert(out@ =~= left@);
    let mut j: usize = 0;
    while j < 32
        invariant
            j <= 32,
            out@ == left@ + right@.subrange(0, j as int),
        decreases 32 - j,
    {
        out.push(right[j]);
        j = j + 1;
    }
    assert(right@.subrange(0, 32) =~= right@);
    out
}

/// Combines two child digests into their parent's digest: Keccak-256 of the 64 bytes
/// `left ++ right`.
///
/// Leaf and internal hashes share one function with no domain-separation prefix, so a
/// 32-byte value equal to a leaf hash can stand as an input to an internal node. This
/// is an inherited property of the scheme, kept because changing it would change the
/// root committed to by every existing tree.
pub fn combine(left: &Digest, right: &Digest) -> (r: Digest)
    ensures
        r@ == combine_digests(left@, right@),
{
    let bytes = concat_digests(left, right);
    keccak(bytes.as_slice())
}

/// Byte-wise equality of two digests.
pub fn digest_eq(a: &Digest, b: &Digest) -> (r: bool)
    ensures
        r == (a@ == b@),
{
    let mut i: usize = 0;
    while i < 32
        invariant
            i <= 32,
            forall|k: int| 0 <= k < i ==> a@[k] == b@[k],
        decreases 32 - i,
    {
        if a[i] != b[i] {
            return false;
        }
        i = i + 1;
    }
    assert(a@ =~= b@);
    true
}

} // verus!
