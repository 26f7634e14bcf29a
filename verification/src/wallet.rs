use vstd::prelude::*;
use crate::crypto::PublicKey;

verus! {

/// Where a wallet keeps one of its key pairs: paths to the stored public and
/// private halves.
#[derive(Clone, Debug, PartialEq, Eq)]
pub struct Key {
    pub public: String,
    pub private: String,
}

/// A named contact: who can be paid, and where their public key is stored.
#[derive(Clone, Debug, PartialEq, Eq)]
pub struct Recipient {
    pub name: String,
    pub key: String,
}

/// A contact whose key has been read into memory.
#[derive(Clone, Debug, PartialEq, Eq)]
pub struct LoadedRecipient {
    pub name: String,
    pub key: PublicKey,
}

impl LoadedRecipient {
    /// Pairs a contact's name with the key bytes read for it.
    pub fn from_parts(name: String, key_bytes: Vec<u8>) -> (r: LoadedRecipient)
        ensures
            r.name@ == name@,
            r.key@ == key_bytes@,
    {
        LoadedRecipient { name, key: PublicKey { bytes: key_bytes } }
    }
}

/// How a wallet charges fees.
#[derive(Clone, Copy, Debug, PartialEq, Eq, Structural)]
pub enum FeeType {
    Fixed,
    Percent,
}

} // verus!
