use vstd::prelude::*;

verus! {

/// Every failure the chain state engine can report.
#[derive(Clone, Copy, Debug, PartialEq, Eq, Structural)]
pub enum BtcError {
    InvalidTransaction,
    InvalidBlock,
    InvalidBlockHeader,
    TransactionInput,
    TransactionOutput,
    InvalidMerkleRoot,
    InvalidHash,
    InvalidSignature,
    InvalidPublicKey,
    InvalidPrivateKey,
}

impl BtcError {
    /// Short fixed description of the error kind.
    pub fn message(&self) -> &'static str {
        match self {
            BtcError::InvalidTransaction => "Invalid Transaction",
            BtcError::InvalidBlock => "Invalid Block",
            BtcError::InvalidBlockHeader => "Invalid Block Header",
            BtcError::TransactionInput => "Invalid transaction Input",
            BtcError::TransactionOutput => "Invalid transaction Output",
            BtcError::InvalidMerkleRoot => "Invalid Merkle Root",
            BtcError::InvalidHash => "Invalid Hash",
            BtcError::InvalidSignature => "Invalid Signature",
            BtcError::InvalidPublicKey => "Invalid Public Key",
            BtcError::InvalidPrivateKey => "Invalid Private Key",
        }
    }
}

} // verus!
