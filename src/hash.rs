use vstd::prelude::*;

verus! {

/// Width in bytes of every digest in the tree and in proofs.
pub const HASH_LENGTH: usize = 20;

/// A fixed-width digest; equality is bytewise.
pub type Hash = [u8; 20];


/// What an unkeyed 20-byte BLAKE2b digest of the given bytes is.
pub uninterp spec fn blake2b_digest(data: Seq<u8>) -> Seq<u8>;

/// Relies on blake2_rfc::blake2b::blake2b: unkeyed BLAKE2b with a 20-byte
/// output, a function of the input bytes alone.
#[verifier::external_body]
fn digest(data: &[u8]) -> (r: Hash)
    ensures
        r@ == blake2b_digest(data@),
{
    let res = blake2_rfc::blake2b::blake2b(HASH_LENGTH, &[], data);
    let mut out: Hash = [0u8; 20];
    out.copy_from_slice(res.as_bytes());
    out
}

/// The all-zero digest as a sequence.
pub open spec fn null_hash_spec() -> Seq<u8> {
    Seq::new(20, |i: int| 0u8)
}

/// The all-zero digest, standing for an absent child.
pub fn null_hash() -> (r: Hash)
    ensures
        r@ == null_hash_spec(),
{
    let r: Hash = [0u8; 20];
    assert(r@ =~= null_hash_spec());
    r
}

/// Big-endian encoding of the low 16 bits of `n`.
pub open spec fn be16(n: nat) -> Seq<u8> {
    seq![((n / 256) % 256) as u8, (n % 256) as u8]
}

/// Bytes hashed to bind a key/value pair: the key length (one byte), the
/// key, the value length (two bytes, big-endian), the value.
pub open spec fn kv_preimage(key: Seq<u8>, value: Seq<u8>) -> Seq<u8> {
    seq![(key.len() % 256) as u8] + key + be16(value.len()) + value
}

pub open spec fn kv_hash_spec(key: Seq<u8>, value: Seq<u8>) -> Seq<u8> {
    blake2b_digest(kv_preimage(key, value))
}

/// Digest of an interior node: its key/value digest, then its left and right
/// child digests.
pub open spec fn node_hash_spec(kv: Seq<u8>, left: Seq<u8>, right: Seq<u8>) -> Seq<u8> {
    blake2b_digest(kv + left + right)
}

fn append_bytes(out: &mut Vec<u8>, s: &[u8])
    ensures
        final(out)@ == old(out)@ + s@,
{
    let mut i: usize = 0;
    while i < s.len()
        invariant
            i <= s@.len(),
            out@ == old(out)@ + s@.subrange(0, i as int),
        decreases s@.len() - i,
    {
        out.push(s[i]);
        i = i + 1;
        assert(s@.subrange(0, i as int) == s@.subrange(0, i - 1 as int).push(s@[i - 1]));
    }
    assert(s@.subrange(0, s@.len() as int) == s@);
}

/// Copies a byte slice into a fresh vector.
pub fn copy_bytes(s: &[u8]) -> (r: Vec<u8>)
    ensures
        r@ == s@,
{
    let mut r: Vec<u8> = Vec::new();
    append_bytes(&mut r, s);
    assert(Seq::<u8>::empty() + s@ == s@);
    r
}

/// Digest binding a key/value pair.
#[verifier::truncate]
pub fn kv_hash(key: &[u8], value: &[u8]) -> (r: Hash)
    ensures
        r@ == kv_hash_spec(key@, value@),
{
    let mut buf: Vec<u8> = Vec::new();
    buf.push((key.len() % 256) as u8);
    append_bytes(&mut buf, key);
    let vlen = value.len();
    buf.push(((vlen / 256) % 256) as u8);
    buf.push((vlen % 256) as u8);
    append_bytes(&mut buf, value);
    assert(buf@ == kv_preimage(key@, value@));
    digest(buf.as_slice())
}

/// Digest of a node from its key/value digest and its children's digests.
pub fn node_hash(kv: &Hash, left: &Hash, right: &Hash) -> (r: Hash)
    ensures
        r@ == node_hash_spec(kv@, left@, right@),
{
    let mut buf: Vec<u8> = Vec::new();
    append_bytes(&mut buf, kv);
    append_bytes(&mut buf, left);
    append_bytes(&mut buf, right);
    assert(buf@ == kv@ + left@ + right@);
    digest(buf.as_slice())
}

/// Bytewise equality of two digests.
pub fn hash_eq(a: &Hash, b: &Hash) -> (r: bool)
    ensures
        r == (a@ == b@),
{
    let mut i: usize = 0;
    while i < 20
        invariant
            i <= 20,
            a@.len() == 20,
            b@.len() == 20,
            forall|j: int| 0 <= j < i ==> a@[j] == b@[j],
        decreases 20 - i,
    {
        if a[i] != b[i] {
            return false;
        }
        i = i + 1;
    }
    assert(a@ =~= b@);
    true
}

} // verus!
