use vstd::prelude::*;

use crate::sha256::hash_bytes_spec;
use ecdsa::signature::hazmat::PrehashVerifier;

verus! {

/// Secp256k1 public key in SEC1 compressed form: 33 bytes.
#[derive(Clone, Debug, PartialEq, Eq)]
pub struct PublicKey {
    pub bytes: Vec<u8>,
}

impl View for PublicKey {
    type V = Seq<u8>;

    open spec fn view(&self) -> Seq<u8> {
        self.bytes@
    }
}

impl PublicKey {
    /// Structurally sound encoding length.
    pub open spec fn wf(&self) -> bool {
        self.bytes@.len() == 33
    }

    pub fn new(bytes: Vec<u8>) -> (r: PublicKey)
        ensures
            r@ == bytes@,
    {
        PublicKey { bytes }
    }

    /// Byte-wise equality of two keys.
    pub fn key_eq(&self, other: &PublicKey) -> (r: bool)
        ensures
            r == (self@ == other@),
    {
        let n = self.bytes.len();
        if n != other.bytes.len() {
            proof {
                assert(self@ != other@);
            }
            return false;
        }
        let mut i: usize = 0;
        while i < n
            invariant
                i <= n,
                n == self.bytes@.len(),
                n == other.bytes@.len(),
                forall|j: int| 0 <= j < i ==> self.bytes@[j] == other.bytes@[j],
            decreases n - i,
        {
            if self.bytes[i] != other.bytes[i] {
                return false;
            }
            i = i + 1;
        }
        proof {
            assert(self@ =~= other@);
        }
        true
    }
}

/// Secp256k1 ECDSA signature, fixed 64-byte (r, s) form.
#[derive(Clone, Debug, PartialEq, Eq)]
pub struct Signature {
    pub bytes: Vec<u8>,
}

impl View for Signature {
    type V = Seq<u8>;

    open spec fn view(&self) -> Seq<u8> {
        self.bytes@
    }
}

/// Secp256k1 signing key: a 32-byte scalar. Only wallets hold one; the chain
/// state engine never signs.
#[derive(Clone, Debug)]
pub struct Privatekey {
    pub bytes: Vec<u8>,
}

impl View for Privatekey {
    type V = Seq<u8>;

    open spec fn view(&self) -> Seq<u8> {
        self.bytes@
    }
}

/// Whether ECDSA verification of signature bytes over a 32-byte digest under
/// the given public-key bytes succeeds; a function of the three byte strings.
pub uninterp spec fn sig_verifies(sig: Seq<u8>, msg: Seq<u8>, pk: Seq<u8>) -> bool;

/// Relies on k256's `VerifyingKey::verify_prehash`: ECDSA verification over
/// secp256k1 is deterministic in the signature, digest, and key bytes, and
/// fails when the key or signature bytes do not parse.
#[verifier::external_body]
fn verify_raw(sig: &Vec<u8>, msg: &Vec<u8>, pk: &Vec<u8>) -> (r: bool)
    ensures
        r == sig_verifies(sig@, msg@, pk@),
{
    let key = match k256::ecdsa::VerifyingKey::from_sec1_bytes(pk) {
        Ok(k) => k,
        Err(_) => return false,
    };
    let parsed = match k256::ecdsa::Signature::from_slice(sig) {
        Ok(s) => s,
        Err(_) => return false,
    };
    key.verify_prehash(msg, &parsed).is_ok()
}

impl Signature {
    /// Whether this signature signs the digest `hash` under `pubkey`.
    pub fn verify(&self, hash: &crate::sha256::Hash, pubkey: &PublicKey) -> (r: bool)
        ensures
            r == sig_verifies(self@, hash_bytes_spec(*hash), pubkey@),
    {
        let msg = hash.to_bytes();
        verify_raw(&self.bytes, &msg, &pubkey.bytes)
    }
}

} // verus!
