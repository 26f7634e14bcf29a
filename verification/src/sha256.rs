use vstd::prelude::*;
use crate::u256::U256;
use crate::u256::pack8;
use crate::u256::pack8_exec;
use crate::u256::u256_from_be_spec;
use crate::u256::u256_val;
use sha2::Digest;

verus! {

/// 256-bit SHA-256 digest. Equality and the order against a target go by the
/// big-endian integer the 32 bytes denote.
#[derive(Clone, Copy, Debug, PartialEq, Eq, Structural)]
pub struct Hash(pub U256);

/// The integer a digest stands for.
pub open spec fn hash_val(h: Hash) -> int {
    u256_val(h.0)
}

/// What SHA-256 returns for a byte sequence; a function of the bytes alone.
pub uninterp spec fn sha256_spec(bytes: Seq<u8>) -> Seq<u8>;

/// Relies on sha2's SHA-256 implementation: the digest is 32 bytes and
/// depends only on the input bytes.
#[verifier::external_body]
fn sha256_digest(bytes: &Vec<u8>) -> (r: Vec<u8>)
    ensures
        r@ == sha256_spec(bytes@),
        r@.len() == 32,
{
    sha2::Sha256::digest(bytes).to_vec()
}

/// Big-endian bytes of one 64-bit word.
pub open spec fn unpack8(w: u64) -> Seq<u8> {
    seq![
        ((w >> 56u64) & 0xff) as u8,
        ((w >> 48u64) & 0xff) as u8,
        ((w >> 40u64) & 0xff) as u8,
        ((w >> 32u64) & 0xff) as u8,
        ((w >> 24u64) & 0xff) as u8,
        ((w >> 16u64) & 0xff) as u8,
        ((w >> 8u64) & 0xff) as u8,
        (w & 0xff) as u8,
    ]
}

/// The canonical 32 bytes of a `U256`, big-endian.
pub open spec fn u256_bytes_spec(t: U256) -> Seq<u8> {
    unpack8(t.w3) + unpack8(t.w2) + unpack8(t.w1) + unpack8(t.w0)
}

/// The canonical 32 bytes of a digest.
pub open spec fn hash_bytes_spec(h: Hash) -> Seq<u8> {
    u256_bytes_spec(h.0)
}

/// The digest of a byte sequence, as a `Hash`.
pub open spec fn hash_of_bytes(bytes: Seq<u8>) -> Hash {
    Hash(u256_from_be_spec(sha256_spec(bytes)))
}

/// Packing the eight bytes of `unpack8(w)` found at offset `k` of `s`
/// gives back `w`.
pub proof fn lemma_pack_unpack(s: Seq<u8>, k: int, w: u64)
    requires
        forall|j: int| 0 <= j < 8 ==> s[k + j] == unpack8(w)[j],
    ensures
        pack8(s, k) == w,
{
    assert(((((w >> 56u64) & 0xff) as u8 as u64) << 56u64) | ((((w >> 48u64) & 0xff) as u8 as u64)
        << 48u64) | ((((w >> 40u64) & 0xff) as u8 as u64) << 40u64) | ((((w >> 32u64)
        & 0xff) as u8 as u64) << 32u64) | ((((w >> 24u64) & 0xff) as u8 as u64) << 24u64) | ((((w
        >> 16u64) & 0xff) as u8 as u64) << 16u64) | ((((w >> 8u64) & 0xff) as u8 as u64) << 8u64)
        | ((w & 0xff) as u8 as u64) == w) by (bit_vector);
    assert(s[k + 0] == unpack8(w)[0]);
    assert(s[k + 1] == unpack8(w)[1]);
    assert(s[k + 2] == unpack8(w)[2]);
    assert(s[k + 3] == unpack8(w)[3]);
    assert(s[k + 4] == unpack8(w)[4]);
    assert(s[k + 5] == unpack8(w)[5]);
    assert(s[k + 6] == unpack8(w)[6]);
    assert(s[k + 7] == unpack8(w)[7]);
}

/// Appends the big-endian bytes of `w` to `out`.
pub fn push_be8(out: &mut Vec<u8>, w: u64)
    ensures
        final(out)@ == old(out)@ + unpack8(w),
{
    out.push(((w >> 56u64) & 0xff) as u8);
    out.push(((w >> 48u64) & 0xff) as u8);
    out.push(((w >> 40u64) & 0xff) as u8);
    out.push(((w >> 32u64) & 0xff) as u8);
    out.push(((w >> 24u64) & 0xff) as u8);
    out.push(((w >> 16u64) & 0xff) as u8);
    out.push(((w >> 8u64) & 0xff) as u8);
    out.push((w & 0xff) as u8);
    proof {
        assert(out@ =~= old(out)@ + unpack8(w));
    }
}

impl Hash {
    /// The all-zero digest, used as the previous-block hash of a genesis block.
    pub fn zero() -> (r: Hash)
        ensures
            hash_val(r) == 0,
            r == Hash(U256 { w0: 0, w1: 0, w2: 0, w3: 0 }),
    {
        Hash(U256::zero())
    }

    /// SHA-256 of the given bytes.
    pub fn hash_bytes(bytes: &Vec<u8>) -> (r: Hash)
        ensures
            r == hash_of_bytes(bytes@),
    {
        let d = sha256_digest(bytes);
        let s = d.as_slice();
        Hash(
            U256 {
                w3: pack8_exec(s, 0),
                w2: pack8_exec(s, 8),
                w1: pack8_exec(s, 16),
                w0: pack8_exec(s, 24),
            },
        )
    }

    /// Whether the digest, read as a big-endian integer, is at most `target`.
    pub fn matches_target(&self, target: U256) -> (r: bool)
        ensures
            r == (hash_val(*self) <= u256_val(target)),
    {
        self.0.le(&target)
    }

    /// The canonical 32 bytes of the digest, big-endian.
    pub fn to_bytes(&self) -> (r: Vec<u8>)
        ensures
            r@ == hash_bytes_spec(*self),
    {
        let mut out: Vec<u8> = Vec::new();
        push_be8(&mut out, self.0.w3);
        push_be8(&mut out, self.0.w2);
        push_be8(&mut out, self.0.w1);
        push_be8(&mut out, self.0.w0);
        proof {
            assert(out@ =~= hash_bytes_spec(*self));
        }
        out
    }
}

} // verus!
