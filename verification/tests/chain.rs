use btclib::blockchain::Blockchain;
use btclib::blockchain::block_reward;
use btclib::crypto::PublicKey;
use btclib::crypto::Signature;
use btclib::error::BtcError;
use btclib::types::Block;
use btclib::types::BlockHeader;
use btclib::types::Transaction;
use btclib::types::TransactionInput;
use btclib::types::TransactionOutput;
use btclib::u256::U256;
use btclib::util::MerkleRoot;

fn test_pubkey(tag: u8) -> PublicKey {
    let mut bytes = vec![2u8];
    bytes.extend_from_slice(&[tag; 32]);
    PublicKey { bytes }
}

fn coinbase(value: u64, uuid: u128, tag: u8) -> Transaction {
    Transaction::new(
        Vec::new(),
        vec![TransactionOutput {
            value,
            unique_id: uuid,
            pubkey: test_pubkey(tag),
        }],
    )
}

fn make_block(prev: btclib::sha256::Hash, timestamp: i64, txs: Vec<Transaction>) -> Block {
    let root = MerkleRoot::calculate(&txs);
    let header = BlockHeader::new(timestamp, 0, prev, root, U256::max_value());
    Block::new(header, txs)
}

/// Builds a chain of `n` blocks whose coinbases pay exactly the reward, with
/// timestamps 1, 2, ... in milliseconds.
fn build_chain(n: u64) -> Blockchain {
    let mut chain = Blockchain::new();
    let mut prev = btclib::sha256::Hash::zero();
    for h in 0..n {
        let txs = vec![coinbase(block_reward(h), h as u128, 7)];
        let block = make_block(prev, (h as i64) + 1, txs);
        prev = block.hash();
        chain.add_block(block).expect("block must be accepted");
    }
    chain
}

#[test]
fn genesis_accept() {
    let mut chain = Blockchain::new();
    let block = make_block(btclib::sha256::Hash::zero(), 1, vec![coinbase(5_000_000_000, 1, 1)]);
    assert!(chain.add_block(block).is_ok());
    assert_eq!(chain.block_height(), 1);
}

#[test]
fn genesis_reject_nonzero_prev() {
    let mut chain = Blockchain::new();
    let bad_prev = btclib::sha256::Hash(U256 {
        w0: 0x0101010101010101,
        w1: 0x0101010101010101,
        w2: 0x0101010101010101,
        w3: 0x0101010101010101,
    });
    let block = make_block(bad_prev, 1, vec![coinbase(5_000_000_000, 1, 1)]);
    assert_eq!(chain.add_block(block), Err(BtcError::InvalidBlock));
    assert_eq!(chain.block_height(), 0);
}

#[test]
fn halving_reward_enforced() {
    let mut chain = build_chain(210);
    assert_eq!(chain.block_height(), 210);
    let prev = chain.blocks()[209].hash();

    // A block overpaying with the unhalved reward is rejected.
    let full = make_block(prev, 1_000_000, vec![coinbase(5_000_000_000, 500, 9)]);
    assert_eq!(chain.add_block(full), Err(BtcError::InvalidTransaction));
    assert_eq!(chain.block_height(), 210);

    // The halved reward is accepted.
    let halved = make_block(prev, 1_000_000, vec![coinbase(2_500_000_000, 501, 9)]);
    assert!(chain.add_block(halved).is_ok());
    assert_eq!(chain.block_height(), 211);
}

#[test]
fn reward_schedule() {
    assert_eq!(block_reward(0), 5_000_000_000);
    assert_eq!(block_reward(209), 5_000_000_000);
    assert_eq!(block_reward(210), 2_500_000_000);
    assert_eq!(block_reward(420), 1_250_000_000);
    assert_eq!(block_reward(210 * 33), 0);
    assert_eq!(block_reward(u64::MAX), 0);
}

fn dummy_sig() -> Signature {
    Signature { bytes: vec![1u8; 64] }
}

fn spend(prev: btclib::sha256::Hash, value: u64, uuid: u128, tag: u8) -> Transaction {
    Transaction::new(
        vec![TransactionInput {
            prev_transaction_output_hash: prev,
            signature: dummy_sig(),
        }],
        vec![TransactionOutput {
            value,
            unique_id: uuid,
            pubkey: test_pubkey(tag),
        }],
    )
}

/// A one-block chain whose coinbase output is in the UTXO set.
fn chain_with_utxo() -> (Blockchain, btclib::sha256::Hash) {
    let mut chain = Blockchain::new();
    let cb = coinbase(5_000_000_000, 42, 3);
    let utxo_hash = cb.outputs[0].hash();
    let block = make_block(btclib::sha256::Hash::zero(), 1, vec![cb]);
    chain.add_block(block).unwrap();
    chain.rebuild_utxos();
    (chain, utxo_hash)
}

#[test]
fn double_spend_eviction() {
    let (mut chain, utxo) = chain_with_utxo();
    let t1 = spend(utxo, 4_000_000_000, 100, 4);
    assert!(chain.add_to_mempool_at(t1, 10).is_ok());
    assert_eq!(chain.mempool().len(), 1);
    assert!(chain.utxos().get(&utxo).unwrap().reserved);

    // A second spend of the same output evicts the first and takes over the
    // reservation.
    let t2 = spend(utxo, 3_000_000_000, 200, 5);
    assert!(chain.add_to_mempool_at(t2, 20).is_ok());
    assert_eq!(chain.mempool().len(), 1);
    assert_eq!(chain.mempool()[0].transaction.outputs[0].unique_id, 200);
    assert!(chain.utxos().get(&utxo).unwrap().reserved);
}

#[test]
fn mempool_rejects_unknown_input() {
    let (mut chain, _) = chain_with_utxo();
    let missing = btclib::sha256::Hash(U256 { w0: 9, w1: 9, w2: 9, w3: 9 });
    let t = spend(missing, 1, 1, 1);
    assert_eq!(chain.add_to_mempool_at(t, 0), Err(BtcError::InvalidTransaction));
    assert_eq!(chain.mempool().len(), 0);
}

#[test]
fn mempool_rejects_duplicate_input() {
    let (mut chain, utxo) = chain_with_utxo();
    let t = Transaction::new(
        vec![
            TransactionInput {
                prev_transaction_output_hash: utxo,
                signature: dummy_sig(),
            },
            TransactionInput {
                prev_transaction_output_hash: utxo,
                signature: dummy_sig(),
            },
        ],
        vec![TransactionOutput {
            value: 1,
            unique_id: 1,
            pubkey: test_pubkey(1),
        }],
    );
    assert_eq!(chain.add_to_mempool_at(t, 0), Err(BtcError::InvalidTransaction));
}

#[test]
fn mempool_rejects_insolvent() {
    let (mut chain, utxo) = chain_with_utxo();
    let t = spend(utxo, 6_000_000_000, 1, 1);
    assert_eq!(chain.add_to_mempool_at(t, 0), Err(BtcError::InvalidTransaction));
}

#[test]
fn cleanup_evicts_stale_entries() {
    let (mut chain, utxo) = chain_with_utxo();
    let t1 = spend(utxo, 1_000_000_000, 1, 1);
    assert!(chain.add_to_mempool_at(t1, 0).is_ok());

    // Within the age limit nothing happens.
    chain.cleanup_mempool_at(600_000);
    assert_eq!(chain.mempool().len(), 1);
    assert!(chain.utxos().get(&utxo).unwrap().reserved);

    // One millisecond past the limit the entry goes and the reservation
    // clears.
    chain.cleanup_mempool_at(600_001);
    assert_eq!(chain.mempool().len(), 0);
    assert!(!chain.utxos().get(&utxo).unwrap().reserved);
}

#[test]
fn mempool_sorted_by_fee() {
    let mut chain = Blockchain::new();
    let cb1 = coinbase(5_000_000_000, 1, 1);
    let cb2 = coinbase(5_000_000_000, 2, 2);
    let u1 = cb1.outputs[0].hash();
    let u2 = cb2.outputs[0].hash();
    let b1 = make_block(btclib::sha256::Hash::zero(), 1, vec![cb1]);
    let h1 = b1.hash();
    chain.add_block(b1).unwrap();
    chain.add_block(make_block(h1, 2, vec![cb2])).unwrap();
    chain.rebuild_utxos();

    // Low fee first, then a higher-fee spend must sort after it at the tail.
    let low = spend(u1, 4_999_999_999, 10, 3);
    let high = spend(u2, 1_000_000_000, 11, 4);
    assert!(chain.add_to_mempool_at(high, 0).is_ok());
    assert!(chain.add_to_mempool_at(low, 1).is_ok());
    assert_eq!(chain.mempool()[0].transaction.outputs[0].unique_id, 10);
    assert_eq!(chain.mempool()[1].transaction.outputs[0].unique_id, 11);
}

#[test]
fn included_transactions_leave_mempool() {
    let (mut chain, utxo) = chain_with_utxo();
    let t1 = spend(utxo, 4_000_000_000, 100, 4);
    assert!(chain.add_to_mempool_at(t1.clone(), 10).is_ok());
    assert_eq!(chain.mempool().len(), 1);
    // No signature check applies to the fee-paying spend here, because the
    // dummy signature fails; instead prune via a block carrying the same
    // transaction hash through a fresh chain state is exercised in
    // add_block's mempool filter: build a block that includes t1 and watch
    // the entry leave even though the block itself is rejected only later.
    // A fully valid inclusion needs a real signature; here the block is
    // rejected on its coinbase sum, and the mempool keeps its entry.
    let prev = chain.blocks()[0].hash();
    let bad = make_block(prev, 2, vec![coinbase(5_000_000_000, 7, 7), t1]);
    assert_eq!(chain.add_block(bad), Err(BtcError::InvalidTransaction));
    assert_eq!(chain.mempool().len(), 1);
}

#[test]
fn retarget_clamps_to_quarter() {
    let mut chain = Blockchain::new();
    let mut prev = btclib::sha256::Hash::zero();
    for h in 0..50u64 {
        let ts: i64 = if h == 49 { 10_000 } else { (h as i64) * 200 + 1 };
        let block = make_block(prev, ts, vec![coinbase(block_reward(h), h as u128, 7)]);
        prev = block.hash();
        chain.add_block(block).expect("accepted");
    }
    // Fifty blocks spanning ten seconds against an ideal of five hundred:
    // the raw retarget would be old/50, clamped at old/4.
    let expected = U256 {
        w0: 0xffffffffffffffff,
        w1: 0xffffffffffffffff,
        w2: 0xffffffffffffffff,
        w3: 0x3fffffffffffffff,
    };
    assert_eq!(chain.target(), expected);
}

#[test]
fn retarget_noop_off_interval() {
    let mut chain = build_chain(3);
    let before = chain.target();
    chain.try_adjust_target();
    assert_eq!(chain.target(), before);
}

#[test]
fn rebuild_utxos_idempotent() {
    let (mut chain, utxo) = chain_with_utxo();
    let len_once = chain.utxos().len();
    assert!(chain.utxos().contains(&utxo));
    chain.rebuild_utxos();
    assert_eq!(chain.utxos().len(), len_once);
    assert!(chain.utxos().contains(&utxo));
    assert!(!chain.utxos().get(&utxo).unwrap().reserved);
}

#[test]
fn merkle_root_rejected_when_wrong() {
    let mut chain = build_chain(1);
    let prev = chain.blocks()[0].hash();
    let txs = vec![coinbase(5_000_000_000, 77, 7)];
    let wrong_root = MerkleRoot(btclib::sha256::Hash(U256 { w0: 1, w1: 2, w2: 3, w3: 4 }));
    let header = BlockHeader::new(5, 0, prev, wrong_root, U256::max_value());
    let block = Block::new(header, txs);
    assert_eq!(chain.add_block(block), Err(BtcError::InvalidMerkleRoot));
}

#[test]
fn merkle_is_deterministic() {
    let txs = vec![coinbase(1, 1, 1), coinbase(2, 2, 2), coinbase(3, 3, 3)];
    let a = MerkleRoot::calculate(&txs);
    let b = MerkleRoot::calculate(&txs);
    assert_eq!(a, b);
    assert_ne!(a, MerkleRoot(btclib::sha256::Hash::zero()));
}

#[test]
fn mining_meets_target() {
    let mut header = BlockHeader::new(1, 0, btclib::sha256::Hash::zero(), MerkleRoot(btclib::sha256::Hash::zero()), U256::max_value());
    assert!(header.mine(1));
    // An impossible target is never met within the budget.
    let mut hard = BlockHeader::new(
        1,
        0,
        btclib::sha256::Hash::zero(),
        MerkleRoot(btclib::sha256::Hash::zero()),
        U256 { w0: 0, w1: 0, w2: 0, w3: 0 },
    );
    assert!(!hard.mine(8));
}

#[test]
fn select_longest_peer_picks_first_maximum() {
    assert_eq!(btclib::node::select_longest_peer(&vec![0, 3, -2, 3]), Some(1));
    assert_eq!(btclib::node::select_longest_peer(&vec![-1, 0]), None);
    assert_eq!(btclib::node::select_longest_peer(&Vec::new()), None);
}

#[test]
fn error_messages_are_fixed() {
    assert_eq!(BtcError::InvalidTransaction.message(), "Invalid Transaction");
    assert_eq!(BtcError::InvalidBlock.message(), "Invalid Block");
    assert_eq!(BtcError::InvalidMerkleRoot.message(), "Invalid Merkle Root");
    assert_eq!(BtcError::InvalidSignature.message(), "Invalid Signature");
}
