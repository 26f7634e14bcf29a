use vstd::prelude::*;
use crate::codec::enc_bytes;
use crate::codec::enc_hash;
use crate::codec::enc_i64;
use crate::codec::enc_list;
use crate::codec::enc_u128;
use crate::codec::enc_u256;
use crate::codec::enc_u64;
use crate::codec::enc_vec;
use crate::codec::lemma_enc_list_len;
use crate::codec::lemma_enc_list_push;
use crate::codec::lemma_vec_parts;
use crate::codec::lemma_skip_skip;
use crate::codec::lemma_starts_with_cat;
use crate::codec::starts_with;
use crate::codec::write_bytes;
use crate::codec::write_hash;
use crate::codec::write_i64;
use crate::codec::write_u128;
use crate::codec::write_u256;
use crate::codec::write_u64;
use crate::crypto::PublicKey;
use crate::crypto::Signature;
use crate::sha256::hash_of_bytes;
use crate::sha256::unpack8;
use crate::u256::U256;
use crate::util::MerkleRoot;

verus! {

// ---------------------------------------------------------------------------
// Entities
// ---------------------------------------------------------------------------

/// A spendable output: a value in satoshis, an identifier that makes equal
/// payments distinguishable, and the key the value is paid to.
#[derive(Clone, Debug, PartialEq, Eq)]
pub struct TransactionOutput {
    pub value: u64,
    pub unique_id: u128,
    pub pubkey: PublicKey,
}

/// Mathematical shape of an output.
pub struct TxOutV {
    pub value: u64,
    pub unique_id: u128,
    pub pubkey: Seq<u8>,
}

impl View for TransactionOutput {
    type V = TxOutV;

    open spec fn view(&self) -> TxOutV {
        TxOutV { value: self.value, unique_id: self.unique_id, pubkey: self.pubkey@ }
    }
}

impl DeepView for TransactionOutput {
    type V = TxOutV;

    open spec fn deep_view(&self) -> TxOutV {
        self@
    }
}

/// A spend of an existing output: the hash of the output being spent and a
/// signature over that hash under the output's key.
#[derive(Clone, Debug, PartialEq, Eq)]
pub struct TransactionInput {
    pub prev_transaction_output_hash: crate::sha256::Hash,
    pub signature: Signature,
}

/// Mathematical shape of an input.
pub struct TxInV {
    pub prev: crate::sha256::Hash,
    pub signature: Seq<u8>,
}

impl View for TransactionInput {
    type V = TxInV;

    open spec fn view(&self) -> TxInV {
        TxInV { prev: self.prev_transaction_output_hash, signature: self.signature@ }
    }
}

impl DeepView for TransactionInput {
    type V = TxInV;

    open spec fn deep_view(&self) -> TxInV {
        self@
    }
}

/// An ordered list of inputs and outputs.
#[derive(Clone, Debug, PartialEq, Eq)]
pub struct Transaction {
    pub inputs: Vec<TransactionInput>,
    pub outputs: Vec<TransactionOutput>,
}

/// Mathematical shape of a transaction.
pub struct TxV {
    pub inputs: Seq<TxInV>,
    pub outputs: Seq<TxOutV>,
}

impl View for Transaction {
    type V = TxV;

    open spec fn view(&self) -> TxV {
        TxV { inputs: self.inputs.deep_view(), outputs: self.outputs.deep_view() }
    }
}

impl DeepView for Transaction {
    type V = TxV;

    open spec fn deep_view(&self) -> TxV {
        self@
    }
}

/// The mined part of a block: timestamp in UTC milliseconds, nonce, link to
/// the previous block, commitment to the transactions, and the claimed
/// difficulty target.
#[derive(Clone, Copy, Debug, PartialEq, Eq, Structural)]
pub struct BlockHeader {
    pub timestamp: i64,
    pub nonce: u64,
    pub prev_block_hash: crate::sha256::Hash,
    pub merkle_root: MerkleRoot,
    pub target: U256,
}

/// A block: header plus ordered transactions; index 0 is the coinbase.
#[derive(Clone, Debug, PartialEq, Eq)]
pub struct Block {
    pub header: BlockHeader,
    pub transactions: Vec<Transaction>,
}

/// Mathematical shape of a block.
pub struct BlockV {
    pub header: BlockHeader,
    pub transactions: Seq<TxV>,
}

impl View for Block {
    type V = BlockV;

    open spec fn view(&self) -> BlockV {
        BlockV { header: self.header, transactions: self.transactions.deep_view() }
    }
}

impl DeepView for Block {
    type V = BlockV;

    open spec fn deep_view(&self) -> BlockV {
        self@
    }
}

// ---------------------------------------------------------------------------
// Canonical encodings
// ---------------------------------------------------------------------------

pub open spec fn enc_txout(v: TxOutV) -> Seq<u8> {
    seq![0x83u8] + enc_u64(v.value) + enc_u128(v.unique_id) + enc_bytes(v.pubkey)
}

pub open spec fn txout_ok(v: TxOutV) -> bool {
    v.pubkey.len() <= 0xffffffffffffffff
}

pub open spec fn txout_encoder() -> spec_fn(TxOutV) -> Seq<u8> {
    |t: TxOutV| enc_txout(t)
}

pub open spec fn enc_txin(v: TxInV) -> Seq<u8> {
    seq![0x82u8] + enc_hash(v.prev) + enc_bytes(v.signature)
}

pub open spec fn txin_ok(v: TxInV) -> bool {
    v.signature.len() <= 0xffffffffffffffff
}

pub open spec fn txin_encoder() -> spec_fn(TxInV) -> Seq<u8> {
    |t: TxInV| enc_txin(t)
}

pub open spec fn txins_ok(s: Seq<TxInV>) -> bool {
    s.len() <= 0xffffffffffffffff && forall|i: int| 0 <= i < s.len() ==> txin_ok(#[trigger] s[i])
}

pub open spec fn txouts_ok(s: Seq<TxOutV>) -> bool {
    s.len() <= 0xffffffffffffffff && forall|i: int| 0 <= i < s.len() ==> txout_ok(#[trigger] s[i])
}

pub open spec fn enc_tx(v: TxV) -> Seq<u8> {
    seq![0x82u8] + enc_vec(v.inputs, txin_encoder()) + enc_vec(v.outputs, txout_encoder())
}

pub open spec fn tx_ok(v: TxV) -> bool {
    txins_ok(v.inputs) && txouts_ok(v.outputs)
}

pub open spec fn tx_encoder() -> spec_fn(TxV) -> Seq<u8> {
    |t: TxV| enc_tx(t)
}

pub open spec fn txs_ok(s: Seq<TxV>) -> bool {
    s.len() <= 0xffffffffffffffff && forall|i: int| 0 <= i < s.len() ==> tx_ok(#[trigger] s[i])
}

pub open spec fn enc_header(h: BlockHeader) -> Seq<u8> {
    seq![0x85u8] + enc_i64(h.timestamp) + enc_u64(h.nonce) + enc_hash(h.prev_block_hash)
        + enc_hash(h.merkle_root.0) + enc_u256(h.target)
}

pub open spec fn enc_block(v: BlockV) -> Seq<u8> {
    seq![0x82u8] + enc_header(v.header) + enc_vec(v.transactions, tx_encoder())
}

pub open spec fn block_ok(v: BlockV) -> bool {
    txs_ok(v.transactions)
}

pub open spec fn block_encoder() -> spec_fn(BlockV) -> Seq<u8> {
    |t: BlockV| enc_block(t)
}

pub open spec fn blocks_ok(s: Seq<BlockV>) -> bool {
    s.len() <= 0xffffffffffffffff && forall|i: int| 0 <= i < s.len() ==> block_ok(#[trigger] s[i])
}

// ---------------------------------------------------------------------------
// Hashes of entities
// ---------------------------------------------------------------------------

/// The digest an output is indexed by in the UTXO set.
pub open spec fn txout_hash(v: TxOutV) -> crate::sha256::Hash {
    hash_of_bytes(enc_txout(v))
}

/// The digest of a transaction.
pub open spec fn tx_hash(v: TxV) -> crate::sha256::Hash {
    hash_of_bytes(enc_tx(v))
}

/// The digest of a block header; proof of work compares it to the target.
pub open spec fn header_hash(h: BlockHeader) -> crate::sha256::Hash {
    hash_of_bytes(enc_header(h))
}

/// The digest of a whole block.
pub open spec fn block_hash(v: BlockV) -> crate::sha256::Hash {
    hash_of_bytes(enc_block(v))
}

// ---------------------------------------------------------------------------
// Writers
// ---------------------------------------------------------------------------

impl TransactionOutput {
    /// Appends the canonical encoding of this output.
    pub fn write(&self, out: &mut Vec<u8>)
        ensures
            final(out)@ == old(out)@ + enc_txout(self@),
            txout_ok(self@),
    {
        out.push(0x83u8);
        write_u64(out, self.value);
        write_u128(out, self.unique_id);
        write_bytes(out, &self.pubkey.bytes);
        proof {
            assert(out@ =~= old(out)@ + enc_txout(self@));
        }
    }

    /// The digest of this output, which identifies it in the UTXO set.
    pub fn hash(&self) -> (r: crate::sha256::Hash)
        ensures
            r == txout_hash(self@),
    {
        let mut buf: Vec<u8> = Vec::new();
        self.write(&mut buf);
        crate::sha256::Hash::hash_bytes(&buf)
    }
}

impl TransactionInput {
    /// Appends the canonical encoding of this input.
    pub fn write(&self, out: &mut Vec<u8>)
        ensures
            final(out)@ == old(out)@ + enc_txin(self@),
            txin_ok(self@),
    {
        out.push(0x82u8);
        write_hash(out, &self.prev_transaction_output_hash);
        write_bytes(out, &self.signature.bytes);
        proof {
            assert(out@ =~= old(out)@ + enc_txin(self@));
        }
    }
}

/// Appends the canonical encoding of a list of inputs.
pub fn write_txins(out: &mut Vec<u8>, v: &Vec<TransactionInput>)
    ensures
        final(out)@ == old(out)@ + enc_vec(v.deep_view(), txin_encoder()),
        txins_ok(v.deep_view()),
{
    out.push(0x9bu8);
    crate::sha256::push_be8(out, v.len() as u64);
    let ghost dv = v.deep_view();
    proof {
        assert(dv.len() == v@.len());
        assert(dv.take(0) =~= Seq::<TxInV>::empty());
        assert(out@ =~= old(out)@ + seq![0x9bu8] + unpack8(dv.len() as u64) + enc_list(
            dv.take(0),
            txin_encoder(),
        ));
    }
    let mut i: usize = 0;
    while i < v.len()
        invariant
            i <= v@.len(),
            dv == v.deep_view(),
            dv.len() == v@.len(),
            out@ == old(out)@ + seq![0x9bu8] + unpack8(dv.len() as u64) + enc_list(
                dv.take(i as int),
                txin_encoder(),
            ),
            forall|j: int| 0 <= j < i ==> txin_ok(#[trigger] dv[j]),
        decreases v@.len() - i,
    {
        v[i].write(out);
        proof {
            assert(v@[i as int]@ == dv[i as int]);
            assert(txin_encoder()(dv[i as int]) == enc_txin(dv[i as int]));
            assert(dv.take(i + 1) =~= dv.take(i as int).push(dv[i as int]));
            lemma_enc_list_push(dv.take(i as int), dv[i as int], txin_encoder());
            assert(out@ =~= old(out)@ + seq![0x9bu8] + unpack8(dv.len() as u64) + enc_list(
                dv.take(i + 1),
                txin_encoder(),
            ));
        }
        i = i + 1;
    }
    proof {
        assert(dv.take(v@.len() as int) =~= dv);
        assert(out@ =~= old(out)@ + enc_vec(dv, txin_encoder()));
    }
}

/// Appends the canonical encoding of a list of outputs.
pub fn write_txouts(out: &mut Vec<u8>, v: &Vec<TransactionOutput>)
    ensures
        final(out)@ == old(out)@ + enc_vec(v.deep_view(), txout_encoder()),
        txouts_ok(v.deep_view()),
{
    out.push(0x9bu8);
    crate::sha256::push_be8(out, v.len() as u64);
    let ghost dv = v.deep_view();
    proof {
        assert(dv.len() == v@.len());
        assert(dv.take(0) =~= Seq::<TxOutV>::empty());
        assert(out@ =~= old(out)@ + seq![0x9bu8] + unpack8(dv.len() as u64) + enc_list(
            dv.take(0),
            txout_encoder(),
        ));
    }
    let mut i: usize = 0;
    while i < v.len()
        invariant
            i <= v@.len(),
            dv == v.deep_view(),
            dv.len() == v@.len(),
            out@ == old(out)@ + seq![0x9bu8] + unpack8(dv.len() as u64) + enc_list(
                dv.take(i as int),
                txout_encoder(),
            ),
            forall|j: int| 0 <= j < i ==> txout_ok(#[trigger] dv[j]),
        decreases v@.len() - i,
    {
        v[i].write(out);
        proof {
            assert(v@[i as int]@ == dv[i as int]);
            assert(txout_encoder()(dv[i as int]) == enc_txout(dv[i as int]));
            assert(dv.take(i + 1) =~= dv.take(i as int).push(dv[i as int]));
            lemma_enc_list_push(dv.take(i as int), dv[i as int], txout_encoder());
            assert(out@ =~= old(out)@ + seq![0x9bu8] + unpack8(dv.len() as u64) + enc_list(
                dv.take(i + 1),
                txout_encoder(),
            ));
        }
        i = i + 1;
    }
    proof {
        assert(dv.take(v@.len() as int) =~= dv);
        assert(out@ =~= old(out)@ + enc_vec(dv, txout_encoder()));
    }
}

impl Transaction {
    pub fn new(inputs: Vec<TransactionInput>, outputs: Vec<TransactionOutput>) -> (r: Transaction)
        ensures
            r@.inputs == inputs.deep_view(),
            r@.outputs == outputs.deep_view(),
    {
        Transaction { inputs, outputs }
    }

    /// Appends the canonical encoding of this transaction.
    pub fn write(&self, out: &mut Vec<u8>)
        ensures
            final(out)@ == old(out)@ + enc_tx(self@),
            tx_ok(self@),
    {
        out.push(0x82u8);
        write_txins(out, &self.inputs);
        write_txouts(out, &self.outputs);
        proof {
            assert(out@ =~= old(out)@ + enc_tx(self@));
        }
    }

    /// The canonical encoding of this transaction as a fresh buffer.
    pub fn encode(&self) -> (r: Vec<u8>)
        ensures
            r@ == enc_tx(self@),
            tx_ok(self@),
    {
        let mut buf: Vec<u8> = Vec::new();
        self.write(&mut buf);
        proof {
            assert(buf@ =~= enc_tx(self@));
        }
        buf
    }

    /// The digest of this transaction.
    pub fn hash(&self) -> (r: crate::sha256::Hash)
        ensures
            r == tx_hash(self@),
    {
        let buf = self.encode();
        crate::sha256::Hash::hash_bytes(&buf)
    }
}

/// Appends the canonical encoding of a list of transactions.
pub fn write_txs(out: &mut Vec<u8>, v: &Vec<Transaction>)
    ensures
        final(out)@ == old(out)@ + enc_vec(v.deep_view(), tx_encoder()),
        txs_ok(v.deep_view()),
{
    out.push(0x9bu8);
    crate::sha256::push_be8(out, v.len() as u64);
    let ghost dv = v.deep_view();
    proof {
        assert(dv.len() == v@.len());
        assert(dv.take(0) =~= Seq::<TxV>::empty());
        assert(out@ =~= old(out)@ + seq![0x9bu8] + unpack8(dv.len() as u64) + enc_list(
            dv.take(0),
            tx_encoder(),
        ));
    }
    let mut i: usize = 0;
    while i < v.len()
        invariant
            i <= v@.len(),
            dv == v.deep_view(),
            dv.len() == v@.len(),
            out@ == old(out)@ + seq![0x9bu8] + unpack8(dv.len() as u64) + enc_list(
                dv.take(i as int),
                tx_encoder(),
            ),
            forall|j: int| 0 <= j < i ==> tx_ok(#[trigger] dv[j]),
        decreases v@.len() - i,
    {
        v[i].write(out);
        proof {
            assert(v@[i as int]@ == dv[i as int]);
            assert(tx_encoder()(dv[i as int]) == enc_tx(dv[i as int]));
            assert(dv.take(i + 1) =~= dv.take(i as int).push(dv[i as int]));
            lemma_enc_list_push(dv.take(i as int), dv[i as int], tx_encoder());
            assert(out@ =~= old(out)@ + seq![0x9bu8] + unpack8(dv.len() as u64) + enc_list(
                dv.take(i + 1),
                tx_encoder(),
            ));
        }
        i = i + 1;
    }
    proof {
        assert(dv.take(v@.len() as int) =~= dv);
        assert(out@ =~= old(out)@ + enc_vec(dv, tx_encoder()));
    }
}

impl BlockHeader {
    pub fn new(
        timestamp: i64,
        nonce: u64,
        prev_block_hash: crate::sha256::Hash,
        merkle_root: MerkleRoot,
        target: U256,
    ) -> (r: BlockHeader)
        ensures
            r == (BlockHeader { timestamp, nonce, prev_block_hash, merkle_root, target }),
    {
        BlockHeader { timestamp, nonce, prev_block_hash, merkle_root, target }
    }

    /// Appends the canonical encoding of this header.
    pub fn write(&self, out: &mut Vec<u8>)
        ensures
            final(out)@ == old(out)@ + enc_header(*self),
    {
        out.push(0x85u8);
        write_i64(out, self.timestamp);
        write_u64(out, self.nonce);
        write_hash(out, &self.prev_block_hash);
        write_hash(out, &self.merkle_root.0);
        write_u256(out, &self.target);
        proof {
            assert(out@ =~= old(out)@ + enc_header(*self));
        }
    }

    /// The digest of this header.
    pub fn hash(&self) -> (r: crate::sha256::Hash)
        ensures
            r == header_hash(*self),
    {
        let mut buf: Vec<u8> = Vec::new();
        self.write(&mut buf);
        crate::sha256::Hash::hash_bytes(&buf)
    }

    /// Tries up to `steps` nonce increments looking for a header whose hash
    /// meets its own target; on nonce wrap-around the timestamp is refreshed
    /// from the clock. Returns whether the final header meets the target.
    pub fn mine(&mut self, steps: usize) -> (r: bool)
        ensures
            final(self).prev_block_hash == old(self).prev_block_hash,
            final(self).merkle_root == old(self).merkle_root,
            final(self).target == old(self).target,
            r == (crate::sha256::hash_val(header_hash(*final(self))) <= crate::u256::u256_val(
                final(self).target,
            )),
    {
        if self.hash().matches_target(self.target) {
            return true;
        }
        let mut k: usize = 0;
        while k < steps
            invariant
                self.prev_block_hash == old(self).prev_block_hash,
                self.merkle_root == old(self).merkle_root,
                self.target == old(self).target,
            decreases steps - k,
        {
            if self.nonce == 0xffffffffffffffff {
                self.nonce = 0;
                self.timestamp = crate::util::now_millis();
            } else {
                self.nonce = self.nonce + 1;
            }
            if self.hash().matches_target(self.target) {
                return true;
            }
            k = k + 1;
        }
        !(!self.hash().matches_target(self.target))
    }
}

impl Block {
    pub fn new(header: BlockHeader, transactions: Vec<Transaction>) -> (r: Block)
        ensures
            r@.header == header,
            r@.transactions == transactions.deep_view(),
    {
        Block { header, transactions }
    }

    /// Appends the canonical encoding of this block.
    pub fn write(&self, out: &mut Vec<u8>)
        ensures
            final(out)@ == old(out)@ + enc_block(self@),
            block_ok(self@),
    {
        out.push(0x82u8);
        self.header.write(out);
        write_txs(out, &self.transactions);
        proof {
            assert(out@ =~= old(out)@ + enc_block(self@));
        }
    }

    /// The canonical encoding of this block as a fresh buffer.
    pub fn encode(&self) -> (r: Vec<u8>)
        ensures
            r@ == enc_block(self@),
            block_ok(self@),
    {
        let mut buf: Vec<u8> = Vec::new();
        self.write(&mut buf);
        proof {
            assert(buf@ =~= enc_block(self@));
        }
        buf
    }

    /// The digest of this block.
    pub fn hash(&self) -> (r: crate::sha256::Hash)
        ensures
            r == block_hash(self@),
    {
        let buf = self.encode();
        crate::sha256::Hash::hash_bytes(&buf)
    }
}

// ---------------------------------------------------------------------------
// Readers. Each reader is specified against the encodings: whenever the
// input carries the encoding of some value at `pos`, the reader returns
// exactly that value and consumes exactly its bytes.
// ---------------------------------------------------------------------------

pub proof fn lemma_txin_parts(t: Seq<u8>, v: TxInV)
    requires
        starts_with(t, enc_txin(v)),
    ensures
        t.len() >= 1,
        t[0] == 0x82u8,
        starts_with(t.skip(1), enc_hash(v.prev)),
        starts_with(t.skip(35), enc_bytes(v.signature)),
        enc_txin(v).len() == 44 + v.signature.len(),
{
    lemma_starts_with_cat(t, seq![0x82u8] + enc_hash(v.prev), enc_bytes(v.signature));
    lemma_starts_with_cat(t, seq![0x82u8], enc_hash(v.prev));
    lemma_skip_skip(t, 1, 34);
    assert(t.take(1)[0] == 0x82u8);
}

pub proof fn lemma_txout_parts(t: Seq<u8>, v: TxOutV)
    requires
        starts_with(t, enc_txout(v)),
    ensures
        t.len() >= 1,
        t[0] == 0x83u8,
        starts_with(t.skip(1), enc_u64(v.value)),
        starts_with(t.skip(10), enc_u128(v.unique_id)),
        starts_with(t.skip(27), enc_bytes(v.pubkey)),
        enc_txout(v).len() == 36 + v.pubkey.len(),
{
    lemma_starts_with_cat(t, seq![0x83u8] + enc_u64(v.value) + enc_u128(v.unique_id), enc_bytes(v.pubkey));
    lemma_starts_with_cat(t, seq![0x83u8] + enc_u64(v.value), enc_u128(v.unique_id));
    lemma_starts_with_cat(t, seq![0x83u8], enc_u64(v.value));
    lemma_skip_skip(t, 1, 9);
    lemma_skip_skip(t, 10, 17);
    assert(t.take(1)[0] == 0x83u8);
}

pub proof fn lemma_tx_parts(t: Seq<u8>, v: TxV)
    requires
        starts_with(t, enc_tx(v)),
    ensures
        t.len() >= 1,
        t[0] == 0x82u8,
        starts_with(t.skip(1), enc_vec(v.inputs, txin_encoder())),
        starts_with(
            t.skip(1 + enc_vec(v.inputs, txin_encoder()).len() as int),
            enc_vec(v.outputs, txout_encoder()),
        ),
        enc_tx(v).len() == 1 + enc_vec(v.inputs, txin_encoder()).len() + enc_vec(
            v.outputs,
            txout_encoder(),
        ).len(),
{
    let ei = enc_vec(v.inputs, txin_encoder());
    let eo = enc_vec(v.outputs, txout_encoder());
    lemma_starts_with_cat(t, seq![0x82u8] + ei, eo);
    lemma_starts_with_cat(t, seq![0x82u8], ei);
    lemma_skip_skip(t, 1, ei.len() as int);
    assert(t.take(1)[0] == 0x82u8);
}

pub proof fn lemma_header_parts(t: Seq<u8>, h: BlockHeader)
    requires
        starts_with(t, enc_header(h)),
    ensures
        t.len() >= 1,
        t[0] == 0x85u8,
        starts_with(t.skip(1), enc_i64(h.timestamp)),
        starts_with(t.skip(10), enc_u64(h.nonce)),
        starts_with(t.skip(19), enc_hash(h.prev_block_hash)),
        starts_with(t.skip(53), enc_hash(h.merkle_root.0)),
        starts_with(t.skip(87), enc_u256(h.target)),
        enc_header(h).len() == 121,
{
    let e1 = enc_i64(h.timestamp);
    let e2 = enc_u64(h.nonce);
    let e3 = enc_hash(h.prev_block_hash);
    let e4 = enc_hash(h.merkle_root.0);
    let e5 = enc_u256(h.target);
    lemma_starts_with_cat(t, seq![0x85u8] + e1 + e2 + e3 + e4, e5);
    lemma_starts_with_cat(t, seq![0x85u8] + e1 + e2 + e3, e4);
    lemma_starts_with_cat(t, seq![0x85u8] + e1 + e2, e3);
    lemma_starts_with_cat(t, seq![0x85u8] + e1, e2);
    lemma_starts_with_cat(t, seq![0x85u8], e1);
    lemma_skip_skip(t, 1, 9);
    lemma_skip_skip(t, 10, 9);
    lemma_skip_skip(t, 19, 34);
    lemma_skip_skip(t, 53, 34);
    assert(t.take(1)[0] == 0x85u8);
}

pub proof fn lemma_block_parts(t: Seq<u8>, v: BlockV)
    requires
        starts_with(t, enc_block(v)),
    ensures
        t.len() >= 1,
        t[0] == 0x82u8,
        starts_with(t.skip(1), enc_header(v.header)),
        starts_with(t.skip(122), enc_vec(v.transactions, tx_encoder())),
        enc_block(v).len() == 122 + enc_vec(v.transactions, tx_encoder()).len(),
{
    let eh = enc_header(v.header);
    let et = enc_vec(v.transactions, tx_encoder());
    lemma_starts_with_cat(t, seq![0x82u8] + eh, et);
    lemma_starts_with_cat(t, seq![0x82u8], eh);
    assert(eh.len() == 121);
    lemma_skip_skip(t, 1, 121);
    assert(t.take(1)[0] == 0x82u8);
}

/// Reads one input.
pub fn read_txin(data: &Vec<u8>, pos: usize) -> (r: Option<(TransactionInput, usize)>)
    requires
        pos <= data@.len(),
    ensures
        r matches Some(p) ==> pos < p.1 <= data@.len(),
        forall|v: TxInV|
            txin_ok(v) && starts_with(data@.skip(pos as int), #[trigger] enc_txin(v)) ==> (
            r matches Some(p) && p.0@ == v && p.1 == pos + enc_txin(v).len()),
{
    let ghost t = data@.skip(pos as int);
    if data.len() - pos < 1 || data[pos] != 0x82 {
        proof {
            assert forall|v: TxInV|
                txin_ok(v) && starts_with(t, #[trigger] enc_txin(v)) implies false by {
                lemma_txin_parts(t, v);
            }
        }
        return None;
    }
    match crate::codec::read_hash(data, pos + 1) {
        None => {
            proof {
                assert forall|v: TxInV|
                    txin_ok(v) && starts_with(t, #[trigger] enc_txin(v)) implies false by {
                    lemma_txin_parts(t, v);
                    assert(data@.skip(pos + 1) =~= t.skip(1));
                }
            }
            None
        },
        Some((h, p1)) => {
            match crate::codec::read_bytes(data, p1) {
                None => {
                    proof {
                        assert forall|v: TxInV|
                            txin_ok(v) && starts_with(t, #[trigger] enc_txin(v)) implies false by {
                            lemma_txin_parts(t, v);
                            assert(data@.skip(pos + 1) =~= t.skip(1));
                            assert(data@.skip(pos + 35) =~= t.skip(35));
                        }
                    }
                    None
                },
                Some((sig, p2)) => {
                    let r = TransactionInput {
                        prev_transaction_output_hash: h,
                        signature: Signature { bytes: sig },
                    };
                    proof {
                        assert forall|v: TxInV|
                            txin_ok(v) && starts_with(t, #[trigger] enc_txin(v)) implies r@ == v
                            && p2 == pos + enc_txin(v).len() by {
                            lemma_txin_parts(t, v);
                            assert(data@.skip(pos + 1) =~= t.skip(1));
                            assert(data@.skip(pos + 35) =~= t.skip(35));
                        }
                    }
                    Some((r, p2))
                },
            }
        },
    }
}

/// Reads one output.
pub fn read_txout(data: &Vec<u8>, pos: usize) -> (r: Option<(TransactionOutput, usize)>)
    requires
        pos <= data@.len(),
    ensures
        r matches Some(p) ==> pos < p.1 <= data@.len(),
        forall|v: TxOutV|
            txout_ok(v) && starts_with(data@.skip(pos as int), #[trigger] enc_txout(v)) ==> (
            r matches Some(p) && p.0@ == v && p.1 == pos + enc_txout(v).len()),
{
    let ghost t = data@.skip(pos as int);
    if data.len() - pos < 1 || data[pos] != 0x83 {
        proof {
            assert forall|v: TxOutV|
                txout_ok(v) && starts_with(t, #[trigger] enc_txout(v)) implies false by {
                lemma_txout_parts(t, v);
            }
        }
        return None;
    }
    match crate::codec::read_u64(data, pos + 1) {
        None => {
            proof {
                assert forall|v: TxOutV|
                    txout_ok(v) && starts_with(t, #[trigger] enc_txout(v)) implies false by {
                    lemma_txout_parts(t, v);
                    assert(data@.skip(pos + 1) =~= t.skip(1));
                }
            }
            None
        },
        Some((value, p1)) => {
            match crate::codec::read_u128(data, p1) {
                None => {
                    proof {
                        assert forall|v: TxOutV|
                            txout_ok(v) && starts_with(t, #[trigger] enc_txout(v)) implies false by {
                            lemma_txout_parts(t, v);
                            assert(data@.skip(pos + 1) =~= t.skip(1));
                            assert(data@.skip(pos + 10) =~= t.skip(10));
                        }
                    }
                    None
                },
                Some((uid, p2)) => {
                    match crate::codec::read_bytes(data, p2) {
                        None => {
                            proof {
                                assert forall|v: TxOutV|
                                    txout_ok(v) && starts_with(
                                        t,
                                        #[trigger] enc_txout(v),
                                    ) implies false by {
                                    lemma_txout_parts(t, v);
                                    assert(data@.skip(pos + 1) =~= t.skip(1));
                                    assert(data@.skip(pos + 10) =~= t.skip(10));
                                    assert(data@.skip(pos + 27) =~= t.skip(27));
                                }
                            }
                            None
                        },
                        Some((pk, p3)) => {
                            let r = TransactionOutput {
                                value,
                                unique_id: uid,
                                pubkey: PublicKey { bytes: pk },
                            };
                            proof {
                                assert forall|v: TxOutV|
                                    txout_ok(v) && starts_with(
                                        t,
                                        #[trigger] enc_txout(v),
                                    ) implies r@ == v && p3 == pos + enc_txout(v).len() by {
                                    lemma_txout_parts(t, v);
                                    assert(data@.skip(pos + 1) =~= t.skip(1));
                                    assert(data@.skip(pos + 10) =~= t.skip(10));
                                    assert(data@.skip(pos + 27) =~= t.skip(27));
                                }
                            }
                            Some((r, p3))
                        },
                    }
                },
            }
        },
    }
}

/// Reads exactly `n` consecutive input encodings.
pub fn read_txin_items(data: &Vec<u8>, pos: usize, n: usize) -> (r: Option<(Vec<TransactionInput>, usize)>)
    requires
        pos <= data@.len(),
    ensures
        r matches Some(p) ==> pos <= p.1 <= data@.len(),
        forall|s: Seq<TxInV>|
            s.len() == n && txins_ok(s) && starts_with(
                data@.skip(pos as int),
                #[trigger] enc_list(s, txin_encoder()),
            ) ==> (r matches Some(p) && p.0.deep_view() == s && p.1 == pos + enc_list(
                s,
                txin_encoder(),
            ).len()),
    decreases n,
{
    let ghost t = data@.skip(pos as int);
    if n == 0 {
        let out: Vec<TransactionInput> = Vec::new();
        proof {
            assert forall|s: Seq<TxInV>|
                s.len() == 0 && txins_ok(s) && starts_with(
                    t,
                    #[trigger] enc_list(s, txin_encoder()),
                ) implies out.deep_view() == s && enc_list(s, txin_encoder()).len() == 0 by {
                assert(out.deep_view() =~= s);
            }
        }
        return Some((out, pos));
    }
    match read_txin(data, pos) {
        None => {
            proof {
                assert forall|s: Seq<TxInV>|
                    s.len() == n && txins_ok(s) && starts_with(
                        t,
                        #[trigger] enc_list(s, txin_encoder()),
                    ) implies false by {
                    assert(enc_list(s, txin_encoder()) == txin_encoder()(s[0]) + enc_list(
                        s.skip(1),
                        txin_encoder(),
                    ));
                    assert(txin_encoder()(s[0]) == enc_txin(s[0]));
                    lemma_starts_with_cat(t, enc_txin(s[0]), enc_list(s.skip(1), txin_encoder()));
                    assert(txin_ok(s[0]));
                }
            }
            None
        },
        Some((x, p1)) => {
            match read_txin_items(data, p1, n - 1) {
                None => {
                    proof {
                        assert forall|s: Seq<TxInV>|
                            s.len() == n && txins_ok(s) && starts_with(
                                t,
                                #[trigger] enc_list(s, txin_encoder()),
                            ) implies false by {
                            assert(enc_list(s, txin_encoder()) == txin_encoder()(s[0]) + enc_list(
                                s.skip(1),
                                txin_encoder(),
                            ));
                            assert(txin_encoder()(s[0]) == enc_txin(s[0]));
                            lemma_starts_with_cat(t, enc_txin(s[0]), enc_list(s.skip(1), txin_encoder()));
                            assert(txin_ok(s[0]));
                            assert(p1 == pos + enc_txin(s[0]).len());
                            lemma_skip_skip(data@, pos as int, enc_txin(s[0]).len() as int);
                            assert(data@.skip(p1 as int) =~= t.skip(enc_txin(s[0]).len() as int));
                            assert(s.skip(1).len() == n - 1);
                            assert(txins_ok(s.skip(1)));
                        }
                    }
                    None
                },
                Some((rest, p2)) => {
                    let mut out = rest;
                    out.insert(0, x);
                    proof {
                        assert forall|s: Seq<TxInV>|
                            s.len() == n && txins_ok(s) && starts_with(
                                t,
                                #[trigger] enc_list(s, txin_encoder()),
                            ) implies out.deep_view() == s && p2 == pos + enc_list(
                                s,
                                txin_encoder(),
                            ).len() by {
                            assert(enc_list(s, txin_encoder()) == txin_encoder()(s[0]) + enc_list(
                                s.skip(1),
                                txin_encoder(),
                            ));
                            assert(txin_encoder()(s[0]) == enc_txin(s[0]));
                            lemma_starts_with_cat(t, enc_txin(s[0]), enc_list(s.skip(1), txin_encoder()));
                            assert(txin_ok(s[0]));
                            assert(p1 == pos + enc_txin(s[0]).len());
                            lemma_skip_skip(data@, pos as int, enc_txin(s[0]).len() as int);
                            assert(data@.skip(p1 as int) =~= t.skip(enc_txin(s[0]).len() as int));
                            assert(s.skip(1).len() == n - 1);
                            assert(txins_ok(s.skip(1)));
                            assert(x@ == s[0]);
                            assert(rest.deep_view() == s.skip(1));
                            assert forall|j: int| 0 <= j < out.deep_view().len() implies #[trigger] out.deep_view()[j] == s[j] by {
                                if j == 0 {
                                } else {
                                    assert(out@[j] == rest@[j - 1]);
                                    assert(rest.deep_view()[j - 1] == s.skip(1)[j - 1]);
                                }
                            }
                            assert(out.deep_view() =~= s);
                        }
                    }
                    Some((out, p2))
                },
            }
        },
    }
}

/// Reads an array of input values: count, then the items.
pub fn read_txin_vec(data: &Vec<u8>, pos: usize) -> (r: Option<(Vec<TransactionInput>, usize)>)
    requires
        pos <= data@.len(),
    ensures
        r matches Some(p) ==> pos <= p.1 <= data@.len(),
        forall|s: Seq<TxInV>|
            txins_ok(s) && starts_with(data@.skip(pos as int), #[trigger] enc_vec(s, txin_encoder()))
                ==> (r matches Some(p) && p.0.deep_view() == s && p.1 == pos + enc_vec(
                s,
                txin_encoder(),
            ).len()),
{
    let ghost t = data@.skip(pos as int);
    proof {
        assert forall|x: TxInV| (#[trigger] txin_encoder()(x)).len() >= 1 by {
            assert(txin_encoder()(x) == enc_txin(x));
        }
    }
    if data.len() - pos < 9 || data[pos] != 0x9b {
        proof {
            assert forall|s: Seq<TxInV>|
                txins_ok(s) && starts_with(t, #[trigger] enc_vec(s, txin_encoder())) implies false by {
                lemma_vec_parts(t, s, txin_encoder());
            }
        }
        return None;
    }
    let w = crate::u256::pack8_exec(data.as_slice(), pos + 1);
    let remaining: usize = data.len() - (pos + 9);
    if w > remaining as u64 {
        proof {
            assert forall|s: Seq<TxInV>|
                txins_ok(s) && starts_with(t, #[trigger] enc_vec(s, txin_encoder())) implies false by {
                lemma_vec_parts(t, s, txin_encoder());
                assert forall|j: int| 0 <= j < 8 implies #[trigger] data@[pos + 1 + j] == unpack8(
                    s.len() as u64,
                )[j] by {
                    assert(t[1 + j] == unpack8(s.len() as u64)[j]);
                }
                crate::sha256::lemma_pack_unpack(data@, pos + 1, s.len() as u64);
                lemma_enc_list_len(s, txin_encoder());
            }
        }
        return None;
    }
    let n = w as usize;
    match read_txin_items(data, pos + 9, n) {
        None => {
            proof {
                assert forall|s: Seq<TxInV>|
                    txins_ok(s) && starts_with(t, #[trigger] enc_vec(s, txin_encoder())) implies false by {
                    lemma_vec_parts(t, s, txin_encoder());
                    assert forall|j: int| 0 <= j < 8 implies #[trigger] data@[pos + 1 + j] == unpack8(
                    s.len() as u64,
                )[j] by {
                    assert(t[1 + j] == unpack8(s.len() as u64)[j]);
                }
                crate::sha256::lemma_pack_unpack(data@, pos + 1, s.len() as u64);
                    lemma_skip_skip(data@, pos as int, 9);
                    assert(data@.skip(pos + 9) =~= t.skip(9));
                }
            }
            None
        },
        Some((items, p2)) => {
            proof {
                assert forall|s: Seq<TxInV>|
                    txins_ok(s) && starts_with(t, #[trigger] enc_vec(s, txin_encoder())) implies
                    items.deep_view() == s && p2 == pos + enc_vec(s, txin_encoder()).len() by {
                    lemma_vec_parts(t, s, txin_encoder());
                    assert forall|j: int| 0 <= j < 8 implies #[trigger] data@[pos + 1 + j] == unpack8(
                    s.len() as u64,
                )[j] by {
                    assert(t[1 + j] == unpack8(s.len() as u64)[j]);
                }
                crate::sha256::lemma_pack_unpack(data@, pos + 1, s.len() as u64);
                    lemma_skip_skip(data@, pos as int, 9);
                    assert(data@.skip(pos + 9) =~= t.skip(9));
                    assert(s.len() == n);
                }
            }
            Some((items, p2))
        },
    }
}

/// Reads exactly `n` consecutive output encodings.
pub fn read_txout_items(data: &Vec<u8>, pos: usize, n: usize) -> (r: Option<(Vec<TransactionOutput>, usize)>)
    requires
        pos <= data@.len(),
    ensures
        r matches Some(p) ==> pos <= p.1 <= data@.len(),
        forall|s: Seq<TxOutV>|
            s.len() == n && txouts_ok(s) && starts_with(
                data@.skip(pos as int),
                #[trigger] enc_list(s, txout_encoder()),
            ) ==> (r matches Some(p) && p.0.deep_view() == s && p.1 == pos + enc_list(
                s,
                txout_encoder(),
            ).len()),
    decreases n,
{
    let ghost t = data@.skip(pos as int);
    if n == 0 {
        let out: Vec<TransactionOutput> = Vec::new();
        proof {
            assert forall|s: Seq<TxOutV>|
                s.len() == 0 && txouts_ok(s) && starts_with(
                    t,
                    #[trigger] enc_list(s, txout_encoder()),
                ) implies out.deep_view() == s && enc_list(s, txout_encoder()).len() == 0 by {
                assert(out.deep_view() =~= s);
            }
        }
        return Some((out, pos));
    }
    match read_txout(data, pos) {
        None => {
            proof {
                assert forall|s: Seq<TxOutV>|
                    s.len() == n && txouts_ok(s) && starts_with(
                        t,
                        #[trigger] enc_list(s, txout_encoder()),
                    ) implies false by {
                    assert(enc_list(s, txout_encoder()) == txout_encoder()(s[0]) + enc_list(
                        s.skip(1),
                        txout_encoder(),
                    ));
                    assert(txout_encoder()(s[0]) == enc_txout(s[0]));
                    lemma_starts_with_cat(t, enc_txout(s[0]), enc_list(s.skip(1), txout_encoder()));
                    assert(txout_ok(s[0]));
                }
            }
            None
        },
        Some((x, p1)) => {
            match read_txout_items(data, p1, n - 1) {
                None => {
                    proof {
                        assert forall|s: Seq<TxOutV>|
                            s.len() == n && txouts_ok(s) && starts_with(
                                t,
                                #[trigger] enc_list(s, txout_encoder()),
                            ) implies false by {
                            assert(enc_list(s, txout_encoder()) == txout_encoder()(s[0]) + enc_list(
                                s.skip(1),
                                txout_encoder(),
                            ));
                            assert(txout_encoder()(s[0]) == enc_txout(s[0]));
                            lemma_starts_with_cat(t, enc_txout(s[0]), enc_list(s.skip(1), txout_encoder()));
                            assert(txout_ok(s[0]));
                            assert(p1 == pos + enc_txout(s[0]).len());
                            lemma_skip_skip(data@, pos as int, enc_txout(s[0]).len() as int);
                            assert(data@.skip(p1 as int) =~= t.skip(enc_txout(s[0]).len() as int));
                            assert(s.skip(1).len() == n - 1);
                            assert(txouts_ok(s.skip(1)));
                        }
                    }
                    None
                },
                Some((rest, p2)) => {
                    let mut out = rest;
                    out.insert(0, x);
                    proof {
                        assert forall|s: Seq<TxOutV>|
                            s.len() == n && txouts_ok(s) && starts_with(
                                t,
                                #[trigger] enc_list(s, txout_encoder()),
                            ) implies out.deep_view() == s && p2 == pos + enc_list(
                                s,
                                txout_encoder(),
                            ).len() by {
                            assert(enc_list(s, txout_encoder()) == txout_encoder()(s[0]) + enc_list(
                                s.skip(1),
                                txout_encoder(),
                            ));
                            assert(txout_encoder()(s[0]) == enc_txout(s[0]));
                            lemma_starts_with_cat(t, enc_txout(s[0]), enc_list(s.skip(1), txout_encoder()));
                            assert(txout_ok(s[0]));
                            assert(p1 == pos + enc_txout(s[0]).len());
                            lemma_skip_skip(data@, pos as int, enc_txout(s[0]).len() as int);
                            assert(data@.skip(p1 as int) =~= t.skip(enc_txout(s[0]).len() as int));
                            assert(s.skip(1).len() == n - 1);
                            assert(txouts_ok(s.skip(1)));
                            assert(x@ == s[0]);
                            assert(rest.deep_view() == s.skip(1));
                            assert forall|j: int| 0 <= j < out.deep_view().len() implies #[trigger] out.deep_view()[j] == s[j] by {
                                if j == 0 {
                                } else {
                                    assert(out@[j] == rest@[j - 1]);
                                    assert(rest.deep_view()[j - 1] == s.skip(1)[j - 1]);
                                }
                            }
                            assert(out.deep_view() =~= s);
                        }
                    }
                    Some((out, p2))
                },
            }
        },
    }
}

/// Reads an array of output values: count, then the items.
pub fn read_txout_vec(data: &Vec<u8>, pos: usize) -> (r: Option<(Vec<TransactionOutput>, usize)>)
    requires
        pos <= data@.len(),
    ensures
        r matches Some(p) ==> pos <= p.1 <= data@.len(),
        forall|s: Seq<TxOutV>|
            txouts_ok(s) && starts_with(data@.skip(pos as int), #[trigger] enc_vec(s, txout_encoder()))
                ==> (r matches Some(p) && p.0.deep_view() == s && p.1 == pos + enc_vec(
                s,
                txout_encoder(),
            ).len()),
{
    let ghost t = data@.skip(pos as int);
    proof {
        assert forall|x: TxOutV| (#[trigger] txout_encoder()(x)).len() >= 1 by {
            assert(txout_encoder()(x) == enc_txout(x));
        }
    }
    if data.len() - pos < 9 || data[pos] != 0x9b {
        proof {
            assert forall|s: Seq<TxOutV>|
                txouts_ok(s) && starts_with(t, #[trigger] enc_vec(s, txout_encoder())) implies false by {
                lemma_vec_parts(t, s, txout_encoder());
            }
        }
        return None;
    }
    let w = crate::u256::pack8_exec(data.as_slice(), pos + 1);
    let remaining: usize = data.len() - (pos + 9);
    if w > remaining as u64 {
        proof {
            assert forall|s: Seq<TxOutV>|
                txouts_ok(s) && starts_with(t, #[trigger] enc_vec(s, txout_encoder())) implies false by {
                lemma_vec_parts(t, s, txout_encoder());
                assert forall|j: int| 0 <= j < 8 implies #[trigger] data@[pos + 1 + j] == unpack8(
                    s.len() as u64,
                )[j] by {
                    assert(t[1 + j] == unpack8(s.len() as u64)[j]);
                }
                crate::sha256::lemma_pack_unpack(data@, pos + 1, s.len() as u64);
                lemma_enc_list_len(s, txout_encoder());
            }
        }
        return None;
    }
    let n = w as usize;
    match read_txout_items(data, pos + 9, n) {
        None => {
            proof {
                assert forall|s: Seq<TxOutV>|
                    txouts_ok(s) && starts_with(t, #[trigger] enc_vec(s, txout_encoder())) implies false by {
                    lemma_vec_parts(t, s, txout_encoder());
                    assert forall|j: int| 0 <= j < 8 implies #[trigger] data@[pos + 1 + j] == unpack8(
                    s.len() as u64,
                )[j] by {
                    assert(t[1 + j] == unpack8(s.len() as u64)[j]);
                }
                crate::sha256::lemma_pack_unpack(data@, pos + 1, s.len() as u64);
                    lemma_skip_skip(data@, pos as int, 9);
                    assert(data@.skip(pos + 9) =~= t.skip(9));
                }
            }
            None
        },
        Some((items, p2)) => {
            proof {
                assert forall|s: Seq<TxOutV>|
                    txouts_ok(s) && starts_with(t, #[trigger] enc_vec(s, txout_encoder())) implies
                    items.deep_view() == s && p2 == pos + enc_vec(s, txout_encoder()).len() by {
                    lemma_vec_parts(t, s, txout_encoder());
                    assert forall|j: int| 0 <= j < 8 implies #[trigger] data@[pos + 1 + j] == unpack8(
                    s.len() as u64,
                )[j] by {
                    assert(t[1 + j] == unpack8(s.len() as u64)[j]);
                }
                crate::sha256::lemma_pack_unpack(data@, pos + 1, s.len() as u64);
                    lemma_skip_skip(data@, pos as int, 9);
                    assert(data@.skip(pos + 9) =~= t.skip(9));
                    assert(s.len() == n);
                }
            }
            Some((items, p2))
        },
    }
}

/// Reads one transaction.
pub fn read_tx(data: &Vec<u8>, pos: usize) -> (r: Option<(Transaction, usize)>)
    requires
        pos <= data@.len(),
    ensures
        r matches Some(p) ==> pos < p.1 <= data@.len(),
        forall|v: TxV|
            tx_ok(v) && starts_with(data@.skip(pos as int), #[trigger] enc_tx(v)) ==> (
            r matches Some(p) && p.0@ == v && p.1 == pos + enc_tx(v).len()),
{
    let ghost t = data@.skip(pos as int);
    if data.len() - pos < 1 || data[pos] != 0x82 {
        proof {
            assert forall|v: TxV|
                tx_ok(v) && starts_with(t, #[trigger] enc_tx(v)) implies false by {
                lemma_tx_parts(t, v);
            }
        }
        return None;
    }
    match read_txin_vec(data, pos + 1) {
        None => {
            proof {
                assert forall|v: TxV|
                    tx_ok(v) && starts_with(t, #[trigger] enc_tx(v)) implies false by {
                    lemma_tx_parts(t, v);
                    assert(data@.skip(pos + 1) =~= t.skip(1));
                }
            }
            None
        },
        Some((ins, p1)) => {
            match read_txout_vec(data, p1) {
                None => {
                    proof {
                        assert forall|v: TxV|
                            tx_ok(v) && starts_with(t, #[trigger] enc_tx(v)) implies false by {
                            lemma_tx_parts(t, v);
                            assert(data@.skip(pos + 1) =~= t.skip(1));
                            let ei = enc_vec(v.inputs, txin_encoder());
                            lemma_skip_skip(data@, pos as int, 1 + ei.len() as int);
                            assert(data@.skip(pos + 1 + ei.len()) =~= t.skip(1 + ei.len() as int));
                        }
                    }
                    None
                },
                Some((outs, p2)) => {
                    let r = Transaction { inputs: ins, outputs: outs };
                    proof {
                        assert forall|v: TxV|
                            tx_ok(v) && starts_with(t, #[trigger] enc_tx(v)) implies r@ == v && p2
                            == pos + enc_tx(v).len() by {
                            lemma_tx_parts(t, v);
                            assert(data@.skip(pos + 1) =~= t.skip(1));
                            let ei = enc_vec(v.inputs, txin_encoder());
                            lemma_skip_skip(data@, pos as int, 1 + ei.len() as int);
                            assert(data@.skip(pos + 1 + ei.len()) =~= t.skip(1 + ei.len() as int));
                        }
                    }
                    Some((r, p2))
                },
            }
        },
    }
}

/// Reads a block header.
#[verifier::rlimit(60)]
pub fn read_header(data: &Vec<u8>, pos: usize) -> (r: Option<(BlockHeader, usize)>)
    requires
        pos <= data@.len(),
    ensures
        r matches Some(p) ==> pos < p.1 <= data@.len(),
        forall|h: BlockHeader|
            starts_with(data@.skip(pos as int), #[trigger] enc_header(h)) ==> r == Some(
                (h, (pos + 121) as usize),
            ),
{
    let ghost t = data@.skip(pos as int);
    if data.len() - pos < 1 || data[pos] != 0x85 {
        proof {
            assert forall|h: BlockHeader| !starts_with(t, #[trigger] enc_header(h)) by {
                if starts_with(t, enc_header(h)) {
                    lemma_header_parts(t, h);
                }
            }
        }
        return None;
    }
    match crate::codec::read_i64(data, pos + 1) {
        None => {
            proof {
                assert forall|h: BlockHeader| !starts_with(t, #[trigger] enc_header(h)) by {
                    if starts_with(t, enc_header(h)) {
                        lemma_header_parts(t, h);
                        assert(data@.skip(pos + 1) =~= t.skip(1));
                    }
                }
            }
            None
        },
        Some((ts, p1)) => match crate::codec::read_u64(data, p1) {
            None => {
                proof {
                    assert forall|h: BlockHeader| !starts_with(t, #[trigger] enc_header(h)) by {
                        if starts_with(t, enc_header(h)) {
                            lemma_header_parts(t, h);
                            assert(data@.skip(pos + 1) =~= t.skip(1));
                            assert(data@.skip(pos + 10) =~= t.skip(10));
                        }
                    }
                }
                None
            },
            Some((nonce, p2)) => match crate::codec::read_hash(data, p2) {
                None => {
                    proof {
                        assert forall|h: BlockHeader| !starts_with(t, #[trigger] enc_header(h)) by {
                            if starts_with(t, enc_header(h)) {
                                lemma_header_parts(t, h);
                                assert(data@.skip(pos + 1) =~= t.skip(1));
                                assert(data@.skip(pos + 10) =~= t.skip(10));
                                assert(data@.skip(pos + 19) =~= t.skip(19));
                            }
                        }
                    }
                    None
                },
                Some((prev, p3)) => match crate::codec::read_hash(data, p3) {
                    None => {
                        proof {
                            assert forall|h: BlockHeader|
                                !starts_with(t, #[trigger] enc_header(h)) by {
                                if starts_with(t, enc_header(h)) {
                                    lemma_header_parts(t, h);
                                    assert(data@.skip(pos + 1) =~= t.skip(1));
                                    assert(data@.skip(pos + 10) =~= t.skip(10));
                                    assert(data@.skip(pos + 19) =~= t.skip(19));
                                    assert(data@.skip(pos + 53) =~= t.skip(53));
                                }
                            }
                        }
                        None
                    },
                    Some((mroot, p4)) => match crate::codec::read_u256(data, p4) {
                        None => {
                            proof {
                                assert forall|h: BlockHeader|
                                    !starts_with(t, #[trigger] enc_header(h)) by {
                                    if starts_with(t, enc_header(h)) {
                                        lemma_header_parts(t, h);
                                        assert(data@.skip(pos + 1) =~= t.skip(1));
                                        assert(data@.skip(pos + 10) =~= t.skip(10));
                                        assert(data@.skip(pos + 19) =~= t.skip(19));
                                        assert(data@.skip(pos + 53) =~= t.skip(53));
                                        assert(data@.skip(pos + 87) =~= t.skip(87));
                                    }
                                }
                            }
                            None
                        },
                        Some((target, p5)) => {
                            let r = BlockHeader {
                                timestamp: ts,
                                nonce,
                                prev_block_hash: prev,
                                merkle_root: MerkleRoot(mroot),
                                target,
                            };
                            proof {
                                assert forall|h: BlockHeader|
                                    starts_with(t, #[trigger] enc_header(h)) implies r == h && p5
                                    == pos + 121 by {
                                    lemma_header_parts(t, h);
                                    assert(data@.skip(pos + 1) =~= t.skip(1));
                                    assert(data@.skip(pos + 10) =~= t.skip(10));
                                    assert(data@.skip(pos + 19) =~= t.skip(19));
                                    assert(data@.skip(pos + 53) =~= t.skip(53));
                                    assert(data@.skip(pos + 87) =~= t.skip(87));
                                }
                            }
                            Some((r, p5))
                        },
                    },
                },
            },
        },
    }
}

/// Reads exactly `n` consecutive transaction encodings.
pub fn read_tx_items(data: &Vec<u8>, pos: usize, n: usize) -> (r: Option<(Vec<Transaction>, usize)>)
    requires
        pos <= data@.len(),
    ensures
        r matches Some(p) ==> pos <= p.1 <= data@.len(),
        forall|s: Seq<TxV>|
            s.len() == n && txs_ok(s) && starts_with(
                data@.skip(pos as int),
                #[trigger] enc_list(s, tx_encoder()),
            ) ==> (r matches Some(p) && p.0.deep_view() == s && p.1 == pos + enc_list(
                s,
                tx_encoder(),
            ).len()),
    decreases n,
{
    let ghost t = data@.skip(pos as int);
    if n == 0 {
        let out: Vec<Transaction> = Vec::new();
        proof {
            assert forall|s: Seq<TxV>|
                s.len() == 0 && txs_ok(s) && starts_with(
                    t,
                    #[trigger] enc_list(s, tx_encoder()),
                ) implies out.deep_view() == s && enc_list(s, tx_encoder()).len() == 0 by {
                assert(out.deep_view() =~= s);
            }
        }
        return Some((out, pos));
    }
    match read_tx(data, pos) {
        None => {
            proof {
                assert forall|s: Seq<TxV>|
                    s.len() == n && txs_ok(s) && starts_with(
                        t,
                        #[trigger] enc_list(s, tx_encoder()),
                    ) implies false by {
                    assert(enc_list(s, tx_encoder()) == tx_encoder()(s[0]) + enc_list(
                        s.skip(1),
                        tx_encoder(),
                    ));
                    assert(tx_encoder()(s[0]) == enc_tx(s[0]));
                    lemma_starts_with_cat(t, enc_tx(s[0]), enc_list(s.skip(1), tx_encoder()));
                    assert(tx_ok(s[0]));
                }
            }
            None
        },
        Some((x, p1)) => {
            match read_tx_items(data, p1, n - 1) {
                None => {
                    proof {
                        assert forall|s: Seq<TxV>|
                            s.len() == n && txs_ok(s) && starts_with(
                                t,
                                #[trigger] enc_list(s, tx_encoder()),
                            ) implies false by {
                            assert(enc_list(s, tx_encoder()) == tx_encoder()(s[0]) + enc_list(
                                s.skip(1),
                                tx_encoder(),
                            ));
                            assert(tx_encoder()(s[0]) == enc_tx(s[0]));
                            lemma_starts_with_cat(t, enc_tx(s[0]), enc_list(s.skip(1), tx_encoder()));
                            assert(tx_ok(s[0]));
                            assert(p1 == pos + enc_tx(s[0]).len());
                            lemma_skip_skip(data@, pos as int, enc_tx(s[0]).len() as int);
                            assert(data@.skip(p1 as int) =~= t.skip(enc_tx(s[0]).len() as int));
                            assert(s.skip(1).len() == n - 1);
                            assert(txs_ok(s.skip(1)));
                        }
                    }
                    None
                },
                Some((rest, p2)) => {
                    let mut out = rest;
                    out.insert(0, x);
                    proof {
                        assert forall|s: Seq<TxV>|
                            s.len() == n && txs_ok(s) && starts_with(
                                t,
                                #[trigger] enc_list(s, tx_encoder()),
                            ) implies out.deep_view() == s && p2 == pos + enc_list(
                                s,
                                tx_encoder(),
                            ).len() by {
                            assert(enc_list(s, tx_encoder()) == tx_encoder()(s[0]) + enc_list(
                                s.skip(1),
                                tx_encoder(),
                            ));
                            assert(tx_encoder()(s[0]) == enc_tx(s[0]));
                            lemma_starts_with_cat(t, enc_tx(s[0]), enc_list(s.skip(1), tx_encoder()));
                            assert(tx_ok(s[0]));
                            assert(p1 == pos + enc_tx(s[0]).len());
                            lemma_skip_skip(data@, pos as int, enc_tx(s[0]).len() as int);
                            assert(data@.skip(p1 as int) =~= t.skip(enc_tx(s[0]).len() as int));
                            assert(s.skip(1).len() == n - 1);
                            assert(txs_ok(s.skip(1)));
                            assert(x@ == s[0]);
                            assert(rest.deep_view() == s.skip(1));
                            assert forall|j: int| 0 <= j < out.deep_view().len() implies #[trigger] out.deep_view()[j] == s[j] by {
                                if j == 0 {
                                } else {
                                    assert(out@[j] == rest@[j - 1]);
                                    assert(rest.deep_view()[j - 1] == s.skip(1)[j - 1]);
                                }
                            }
                            assert(out.deep_view() =~= s);
                        }
                    }
                    Some((out, p2))
                },
            }
        },
    }
}

/// Reads an array of transaction values: count, then the items.
pub fn read_tx_vec(data: &Vec<u8>, pos: usize) -> (r: Option<(Vec<Transaction>, usize)>)
    requires
        pos <= data@.len(),
    ensures
        r matches Some(p) ==> pos <= p.1 <= data@.len(),
        forall|s: Seq<TxV>|
            txs_ok(s) && starts_with(data@.skip(pos as int), #[trigger] enc_vec(s, tx_encoder()))
                ==> (r matches Some(p) && p.0.deep_view() == s && p.1 == pos + enc_vec(
                s,
                tx_encoder(),
            ).len()),
{
    let ghost t = data@.skip(pos as int);
    proof {
        assert forall|x: TxV| (#[trigger] tx_encoder()(x)).len() >= 1 by {
            assert(tx_encoder()(x) == enc_tx(x));
        }
    }
    if data.len() - pos < 9 || data[pos] != 0x9b {
        proof {
            assert forall|s: Seq<TxV>|
                txs_ok(s) && starts_with(t, #[trigger] enc_vec(s, tx_encoder())) implies false by {
                lemma_vec_parts(t, s, tx_encoder());
            }
        }
        return None;
    }
    let w = crate::u256::pack8_exec(data.as_slice(), pos + 1);
    let remaining: usize = data.len() - (pos + 9);
    if w > remaining as u64 {
        proof {
            assert forall|s: Seq<TxV>|
                txs_ok(s) && starts_with(t, #[trigger] enc_vec(s, tx_encoder())) implies false by {
                lemma_vec_parts(t, s, tx_encoder());
                assert forall|j: int| 0 <= j < 8 implies #[trigger] data@[pos + 1 + j] == unpack8(
                    s.len() as u64,
                )[j] by {
                    assert(t[1 + j] == unpack8(s.len() as u64)[j]);
                }
                crate::sha256::lemma_pack_unpack(data@, pos + 1, s.len() as u64);
                lemma_enc_list_len(s, tx_encoder());
            }
        }
        return None;
    }
    let n = w as usize;
    match read_tx_items(data, pos + 9, n) {
        None => {
            proof {
                assert forall|s: Seq<TxV>|
                    txs_ok(s) && starts_with(t, #[trigger] enc_vec(s, tx_encoder())) implies false by {
                    lemma_vec_parts(t, s, tx_encoder());
                    assert forall|j: int| 0 <= j < 8 implies #[trigger] data@[pos + 1 + j] == unpack8(
                    s.len() as u64,
                )[j] by {
                    assert(t[1 + j] == unpack8(s.len() as u64)[j]);
                }
                crate::sha256::lemma_pack_unpack(data@, pos + 1, s.len() as u64);
                    lemma_skip_skip(data@, pos as int, 9);
                    assert(data@.skip(pos + 9) =~= t.skip(9));
                }
            }
            None
        },
        Some((items, p2)) => {
            proof {
                assert forall|s: Seq<TxV>|
                    txs_ok(s) && starts_with(t, #[trigger] enc_vec(s, tx_encoder())) implies
                    items.deep_view() == s && p2 == pos + enc_vec(s, tx_encoder()).len() by {
                    lemma_vec_parts(t, s, tx_encoder());
                    assert forall|j: int| 0 <= j < 8 implies #[trigger] data@[pos + 1 + j] == unpack8(
                    s.len() as u64,
                )[j] by {
                    assert(t[1 + j] == unpack8(s.len() as u64)[j]);
                }
                crate::sha256::lemma_pack_unpack(data@, pos + 1, s.len() as u64);
                    lemma_skip_skip(data@, pos as int, 9);
                    assert(data@.skip(pos + 9) =~= t.skip(9));
                    assert(s.len() == n);
                }
            }
            Some((items, p2))
        },
    }
}


/// Reads one block.
#[verifier::rlimit(100)]
pub fn read_block(data: &Vec<u8>, pos: usize) -> (r: Option<(Block, usize)>)
    requires
        pos <= data@.len(),
    ensures
        r matches Some(p) ==> pos < p.1 <= data@.len(),
        forall|v: BlockV|
            block_ok(v) && starts_with(data@.skip(pos as int), #[trigger] enc_block(v)) ==> (
            r matches Some(p) && p.0@ == v && p.1 == pos + enc_block(v).len()),
{
    let ghost t = data@.skip(pos as int);
    if data.len() - pos < 1 || data[pos] != 0x82 {
        proof {
            assert forall|v: BlockV|
                block_ok(v) && starts_with(t, #[trigger] enc_block(v)) implies false by {
                lemma_block_parts(t, v);
            }
        }
        return None;
    }
    match read_header(data, pos + 1) {
        None => {
            proof {
                assert forall|v: BlockV|
                    block_ok(v) && starts_with(t, #[trigger] enc_block(v)) implies false by {
                    lemma_block_parts(t, v);
                    assert(data@.skip(pos + 1) =~= t.skip(1));
                }
            }
            None
        },
        Some((hdr, p1)) => {
            match read_tx_vec(data, p1) {
                None => {
                    proof {
                        assert forall|v: BlockV|
                            block_ok(v) && starts_with(t, #[trigger] enc_block(v)) implies false by {
                            lemma_block_parts(t, v);
                            assert(data@.skip(pos + 1) =~= t.skip(1));
                            assert(data@.skip(pos + 122) =~= t.skip(122));
                        }
                    }
                    None
                },
                Some((txs, p2)) => {
                    let r = Block { header: hdr, transactions: txs };
                    proof {
                        assert forall|v: BlockV|
                            block_ok(v) && starts_with(t, #[trigger] enc_block(v)) implies r@ == v
                            && p2 == pos + enc_block(v).len() by {
                            lemma_block_parts(t, v);
                            assert(data@.skip(pos + 1) =~= t.skip(1));
                            assert(data@.skip(pos + 122) =~= t.skip(122));
                        }
                    }
                    Some((r, p2))
                },
            }
        },
    }
}

impl Transaction {
    /// Decodes a canonically encoded transaction; the inverse of `encode`.
    pub fn decode(data: &Vec<u8>) -> (r: Option<Transaction>)
        ensures
            forall|v: TxV|
                tx_ok(v) && starts_with(data@, #[trigger] enc_tx(v)) ==> (r matches Some(x) && x@
                    == v),
    {
        proof {
            assert(data@.skip(0) =~= data@);
        }
        match read_tx(data, 0) {
            Some(p) => Some(p.0),
            None => None,
        }
    }
}

impl Block {
    /// Decodes a canonically encoded block; the inverse of `encode`.
    pub fn decode(data: &Vec<u8>) -> (r: Option<Block>)
        ensures
            forall|v: BlockV|
                block_ok(v) && starts_with(data@, #[trigger] enc_block(v)) ==> (r matches Some(x)
                    && x@ == v),
    {
        proof {
            assert(data@.skip(0) =~= data@);
        }
        match read_block(data, 0) {
            Some(p) => Some(p.0),
            None => None,
        }
    }
}

} // verus!
