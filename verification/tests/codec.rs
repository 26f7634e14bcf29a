use btclib::crypto::PublicKey;
use btclib::crypto::Signature;
use btclib::network::Message;
use btclib::types::Block;
use btclib::types::BlockHeader;
use btclib::types::Transaction;
use btclib::types::TransactionInput;
use btclib::types::TransactionOutput;
use btclib::u256::U256;
use btclib::util::MerkleRoot;
use ecdsa::signature::hazmat::PrehashSigner;

fn sample_tx() -> Transaction {
    Transaction::new(
        vec![TransactionInput {
            prev_transaction_output_hash: btclib::sha256::Hash(U256 { w0: 1, w1: 2, w2: 3, w3: 4 }),
            signature: Signature { bytes: vec![7u8; 64] },
        }],
        vec![TransactionOutput {
            value: 12345,
            unique_id: 0xdead_beef,
            pubkey: PublicKey { bytes: vec![2u8; 33] },
        }],
    )
}

fn sample_block() -> Block {
    let txs = vec![sample_tx()];
    let root = MerkleRoot::calculate(&txs);
    let header = BlockHeader::new(
        1_700_000_000_000,
        42,
        btclib::sha256::Hash::zero(),
        root,
        U256::max_value(),
    );
    Block::new(header, txs)
}

#[test]
fn transaction_round_trip() {
    let tx = sample_tx();
    let bytes = tx.encode();
    let back = Transaction::decode(&bytes).expect("decodes");
    assert_eq!(back, tx);
}

#[test]
fn block_round_trip() {
    let block = sample_block();
    let bytes = block.encode();
    let back = Block::decode(&bytes).expect("decodes");
    assert_eq!(back, block);
}

#[test]
fn message_round_trips() {
    let msgs = vec![
        Message::FetchUTXOs(PublicKey { bytes: vec![3u8; 33] }),
        Message::UTXOs(vec![(
            TransactionOutput {
                value: 5,
                unique_id: 9,
                pubkey: PublicKey { bytes: vec![2u8; 33] },
            },
            true,
        )]),
        Message::SubmitTransaction(sample_tx()),
        Message::NewTransaction(sample_tx()),
        Message::FetchTemplate(PublicKey { bytes: vec![3u8; 33] }),
        Message::Template(sample_block()),
        Message::ValidateTemplate(sample_block()),
        Message::TemplateValidity(true),
        Message::SubmitTemplate(sample_block()),
        Message::DiscoverNodes,
        Message::NodeList(vec![String::from("127.0.0.1:9000"), String::from("peer")]),
        Message::AskDifference(7),
        Message::Difference(-3),
        Message::FetchBlock(11),
        Message::NewBlock(sample_block()),
    ];
    for m in msgs {
        let bytes = m.encode();
        let back = Message::decode(&bytes).expect("decodes");
        assert_eq!(back, m);
    }
}

#[test]
fn wire_round_trip_through_pipe() {
    let block = sample_block();
    let msg = Message::NewBlock(block);

    // Send: the frame goes into a byte pipe.
    let mut pipe: Vec<u8> = Vec::new();
    pipe.extend_from_slice(&msg.to_frame());

    // Receive: read the eight-byte length, then exactly that many bytes.
    let mut len_bytes = [0u8; 8];
    len_bytes.copy_from_slice(&pipe[0..8]);
    let len = u64::from_be_bytes(len_bytes) as usize;
    assert_eq!(len, pipe.len() - 8);
    let payload: Vec<u8> = pipe[8..8 + len].to_vec();
    let back = Message::decode(&payload).expect("decodes");
    assert_eq!(back, msg);
}

#[test]
fn sha256_known_answer() {
    // SHA-256 of "abc".
    let digest = btclib::sha256::Hash::hash_bytes(&vec![0x61, 0x62, 0x63]);
    let expected = btclib::sha256::Hash(U256 {
        w3: 0xba7816bf8f01cfea,
        w2: 0x414140de5dae2223,
        w1: 0xb00361a396177a9c,
        w0: 0xb410ff61f20015ad,
    });
    assert_eq!(digest, expected);
}

#[test]
fn u256_from_big_endian_bytes() {
    let mut bytes = [0u8; 32];
    bytes[31] = 5;
    assert_eq!(U256::from(bytes), U256 { w0: 5, w1: 0, w2: 0, w3: 0 });
    let mut top = [0u8; 32];
    top[0] = 0x80;
    assert_eq!(
        U256::from(top),
        U256 { w0: 0, w1: 0, w2: 0, w3: 0x8000000000000000 }
    );
}

#[test]
fn hash_order_against_target() {
    let h = btclib::sha256::Hash(U256 { w0: 10, w1: 0, w2: 0, w3: 0 });
    assert!(h.matches_target(U256 { w0: 10, w1: 0, w2: 0, w3: 0 }));
    assert!(h.matches_target(U256::max_value()));
    assert!(!h.matches_target(U256 { w0: 9, w1: 0, w2: 0, w3: 0 }));
}

#[test]
fn signature_verification_real_keys() {
    let sk = k256::ecdsa::SigningKey::from_slice(&[7u8; 32]).expect("valid scalar");
    let vk = sk.verifying_key();
    let pk = PublicKey {
        bytes: vk.to_encoded_point(true).as_bytes().to_vec(),
    };

    let digest = btclib::sha256::Hash::hash_bytes(&vec![1, 2, 3]);
    let raw: k256::ecdsa::Signature = sk.sign_prehash(&digest.to_bytes()).expect("signs");
    let sig = Signature { bytes: raw.to_bytes().to_vec() };

    assert!(sig.verify(&digest, &pk));

    // The same signature under a different key fails.
    let sk2 = k256::ecdsa::SigningKey::from_slice(&[8u8; 32]).expect("valid scalar");
    let pk2 = PublicKey {
        bytes: sk2.verifying_key().to_encoded_point(true).as_bytes().to_vec(),
    };
    assert!(!sig.verify(&digest, &pk2));

    // A different digest under the right key fails too.
    let other = btclib::sha256::Hash::hash_bytes(&vec![4, 5, 6]);
    assert!(!sig.verify(&other, &pk));
}

#[test]
fn signed_spend_accepted_in_block() {
    // A fully valid two-transaction block: a coinbase claiming reward plus
    // fee, and a signed spend of the genesis coinbase output.
    let sk = k256::ecdsa::SigningKey::from_slice(&[9u8; 32]).expect("valid scalar");
    let pk = PublicKey {
        bytes: sk
            .verifying_key()
            .to_encoded_point(true)
            .as_bytes()
            .to_vec(),
    };

    let mut chain = btclib::blockchain::Blockchain::new();
    let genesis_cb = Transaction::new(
        Vec::new(),
        vec![TransactionOutput {
            value: 5_000_000_000,
            unique_id: 1,
            pubkey: pk.clone(),
        }],
    );
    let utxo = genesis_cb.outputs[0].hash();
    let gtxs = vec![genesis_cb];
    let groot = MerkleRoot::calculate(&gtxs);
    let genesis = Block::new(
        BlockHeader::new(1, 0, btclib::sha256::Hash::zero(), groot, U256::max_value()),
        gtxs,
    );
    let gh = genesis.hash();
    chain.add_block(genesis).unwrap();
    chain.rebuild_utxos();

    let raw: k256::ecdsa::Signature = sk.sign_prehash(&utxo.to_bytes()).expect("signs");
    let spend = Transaction::new(
        vec![TransactionInput {
            prev_transaction_output_hash: utxo,
            signature: Signature { bytes: raw.to_bytes().to_vec() },
        }],
        vec![TransactionOutput {
            value: 4_000_000_000,
            unique_id: 2,
            pubkey: pk.clone(),
        }],
    );
    // Coinbase pays reward plus the 1_000_000_000 fee.
    let cb = Transaction::new(
        Vec::new(),
        vec![TransactionOutput {
            value: 6_000_000_000,
            unique_id: 3,
            pubkey: pk,
        }],
    );
    let txs = vec![cb, spend];
    let root = MerkleRoot::calculate(&txs);
    let block = Block::new(BlockHeader::new(2, 0, gh, root, U256::max_value()), txs);
    assert!(chain.add_block(block).is_ok());
    assert_eq!(chain.block_height(), 2);
}
