use vstd::prelude::*;
use crate::types::Transaction;
use crate::types::TransactionOutput;
use crate::types::TxOutV;
use crate::types::TxV;
use crate::u256::U256;
use crate::types::Block;
use crate::types::BlockV;

verus! {

// ---------------------------------------------------------------------------
// The UTXO set: a map from output digest to (reserved, output), stored as an
// association list with distinct keys.
// ---------------------------------------------------------------------------

/// One spendable entry: the digest it is indexed by, whether a pending
/// mempool transaction has claimed it, and the output itself.
#[derive(Clone, Debug, PartialEq, Eq)]
pub struct UtxoEntry {
    pub hash: crate::sha256::Hash,
    pub reserved: bool,
    pub output: TransactionOutput,
}

/// Mathematical shape of an entry.
pub struct UtxoEntryV {
    pub hash: crate::sha256::Hash,
    pub reserved: bool,
    pub output: TxOutV,
}

impl View for UtxoEntry {
    type V = UtxoEntryV;

    open spec fn view(&self) -> UtxoEntryV {
        UtxoEntryV { hash: self.hash, reserved: self.reserved, output: self.output@ }
    }
}

impl DeepView for UtxoEntry {
    type V = UtxoEntryV;

    open spec fn deep_view(&self) -> UtxoEntryV {
        self@
    }
}

/// The map an entry list denotes; later entries shadow earlier ones, though a
/// well-formed list has no two entries under one digest.
pub open spec fn umap(s: Seq<UtxoEntryV>) -> Map<crate::sha256::Hash, (bool, TxOutV)>
    decreases s.len(),
{
    if s.len() == 0 {
        Map::empty()
    } else {
        umap(s.drop_last()).insert(s.last().hash, (s.last().reserved, s.last().output))
    }
}

/// Entry digests are pairwise distinct.
pub open spec fn uwf(s: Seq<UtxoEntryV>) -> bool {
    forall|i: int, j: int|
        0 <= i < j < s.len() ==> (#[trigger] s[i].hash) != (#[trigger] s[j].hash)
}

/// A digest is in the map exactly when some entry carries it.
pub proof fn lemma_umap_contains(s: Seq<UtxoEntryV>, h: crate::sha256::Hash)
    ensures
        umap(s).contains_key(h) <==> exists|i: int| 0 <= i < s.len() && (#[trigger] s[i]).hash == h,
    decreases s.len(),
{
    if s.len() > 0 {
        lemma_umap_contains(s.drop_last(), h);
        if umap(s).contains_key(h) {
            if s.last().hash == h {
                assert(s[s.len() - 1].hash == h);
            } else {
                let i = choose|i: int|
                    0 <= i < s.drop_last().len() && (#[trigger] s.drop_last()[i]).hash == h;
                assert(s[i].hash == h);
            }
        }
        if exists|i: int| 0 <= i < s.len() && (#[trigger] s[i]).hash == h {
            let i = choose|i: int| 0 <= i < s.len() && (#[trigger] s[i]).hash == h;
            if i < s.len() - 1 {
                assert(s.drop_last()[i].hash == h);
            }
        }
    }
}

/// In a well-formed list, the map agrees with every entry.
pub proof fn lemma_umap_value(s: Seq<UtxoEntryV>, i: int)
    requires
        uwf(s),
        0 <= i < s.len(),
    ensures
        umap(s).contains_key(s[i].hash),
        umap(s)[s[i].hash] == (s[i].reserved, s[i].output),
    decreases s.len(),
{
    if i == s.len() - 1 {
    } else {
        assert(uwf(s.drop_last())) by {
            assert forall|a: int, b: int|
                0 <= a < b < s.drop_last().len() implies (#[trigger] s.drop_last()[a].hash) != (
            #[trigger] s.drop_last()[b].hash) by {
                assert(s[a].hash != s[b].hash);
            }
        }
        assert(s.drop_last()[i] == s[i]);
        lemma_umap_value(s.drop_last(), i);
        assert(s[i].hash != s.last().hash);
    }
}

/// Dropping the last entry keeps the list well formed.
pub proof fn lemma_uwf_drop_last(s: Seq<UtxoEntryV>)
    requires
        uwf(s),
        s.len() > 0,
    ensures
        uwf(s.drop_last()),
{
    assert forall|a: int, b: int|
        0 <= a < b < s.drop_last().len() implies (#[trigger] s.drop_last()[a].hash) != (
    #[trigger] s.drop_last()[b].hash) by {
        assert(s[a].hash != s[b].hash);
    }
}

/// Overwriting the entry at `i` with one carrying the same digest updates the
/// map at that digest.
pub proof fn lemma_umap_update(s: Seq<UtxoEntryV>, i: int, e: UtxoEntryV)
    requires
        uwf(s),
        0 <= i < s.len(),
        e.hash == s[i].hash,
    ensures
        umap(s.update(i, e)) == umap(s).insert(e.hash, (e.reserved, e.output)),
        uwf(s.update(i, e)),
    decreases s.len(),
{
    lemma_uwf_drop_last(s);
    if i == s.len() - 1 {
        assert(s.update(i, e).drop_last() =~= s.drop_last());
        assert(s.update(i, e).last() == e);
        assert(umap(s.drop_last()).insert(s.last().hash, (s.last().reserved, s.last().output))
            .insert(e.hash, (e.reserved, e.output)) =~= umap(s.drop_last()).insert(
            e.hash,
            (e.reserved, e.output),
        ));
    } else {
        assert(s.update(i, e).drop_last() =~= s.drop_last().update(i, e));
        assert(s.drop_last()[i] == s[i]);
        lemma_umap_update(s.drop_last(), i, e);
        assert(s.update(i, e).last() == s.last());
        assert(s[i].hash != s.last().hash);
        assert(umap(s.drop_last()).insert(e.hash, (e.reserved, e.output)).insert(
            s.last().hash,
            (s.last().reserved, s.last().output),
        ) =~= umap(s.drop_last()).insert(
            s.last().hash,
            (s.last().reserved, s.last().output),
        ).insert(e.hash, (e.reserved, e.output)));
    }
    assert forall|a: int, b: int|
        0 <= a < b < s.update(i, e).len() implies (#[trigger] s.update(i, e)[a].hash) != (
    #[trigger] s.update(i, e)[b].hash) by {
        assert(s[a].hash != s[b].hash);
    }
}

/// Removing the entry at `i` removes its digest from the map.
pub proof fn lemma_umap_remove(s: Seq<UtxoEntryV>, i: int)
    requires
        uwf(s),
        0 <= i < s.len(),
    ensures
        umap(s.remove(i)) == umap(s).remove(s[i].hash),
        uwf(s.remove(i)),
    decreases s.len(),
{
    lemma_uwf_drop_last(s);
    if i == s.len() - 1 {
        assert(s.remove(i) =~= s.drop_last());
        lemma_umap_contains(s.drop_last(), s[i].hash);
        assert forall|a: int| 0 <= a < s.drop_last().len() implies (#[trigger] s.drop_last()[a]).hash
            != s[i].hash by {
            assert(s[a].hash != s[i].hash);
        }
        assert(!umap(s.drop_last()).contains_key(s[i].hash));
        assert(umap(s.drop_last()).insert(s.last().hash, (s.last().reserved, s.last().output))
            .remove(s[i].hash) =~= umap(s.drop_last()));
    } else {
        assert(s.remove(i).drop_last() =~= s.drop_last().remove(i));
        assert(s.drop_last()[i] == s[i]);
        lemma_umap_remove(s.drop_last(), i);
        assert(s.remove(i).last() == s.last());
        assert(s[i].hash != s.last().hash);
        assert(umap(s.drop_last()).remove(s[i].hash).insert(
            s.last().hash,
            (s.last().reserved, s.last().output),
        ) =~= umap(s.drop_last()).insert(
            s.last().hash,
            (s.last().reserved, s.last().output),
        ).remove(s[i].hash));
    }
    assert forall|a: int, b: int|
        0 <= a < b < s.remove(i).len() implies (#[trigger] s.remove(i)[a].hash) != (
    #[trigger] s.remove(i)[b].hash) by {
        let ra = if a < i {
            a
        } else {
            a + 1
        };
        let rb = if b < i {
            b
        } else {
            b + 1
        };
        assert(s.remove(i)[a] == s[ra]);
        assert(s.remove(i)[b] == s[rb]);
        assert(s[ra].hash != s[rb].hash);
    }
}

/// Appending an entry with a fresh digest inserts it into the map.
pub proof fn lemma_umap_push(s: Seq<UtxoEntryV>, e: UtxoEntryV)
    requires
        uwf(s),
        forall|i: int| 0 <= i < s.len() ==> (#[trigger] s[i]).hash != e.hash,
    ensures
        umap(s.push(e)) == umap(s).insert(e.hash, (e.reserved, e.output)),
        uwf(s.push(e)),
{
    assert(s.push(e).drop_last() =~= s);
    assert(s.push(e).last() == e);
    assert forall|a: int, b: int|
        0 <= a < b < s.push(e).len() implies (#[trigger] s.push(e)[a].hash) != (
    #[trigger] s.push(e)[b].hash) by {
        if b < s.len() {
            assert(s[a].hash != s[b].hash);
        } else {
            assert(s.push(e)[b] == e);
            assert(s.push(e)[a] == s[a]);
        }
    }
}

/// The UTXO index: output digest to (reserved, output).
#[derive(Clone, Debug, PartialEq, Eq)]
pub struct UtxoSet {
    entries: Vec<UtxoEntry>,
}

impl View for UtxoSet {
    type V = Seq<UtxoEntryV>;

    closed spec fn view(&self) -> Seq<UtxoEntryV> {
        self.entries.deep_view()
    }
}

impl UtxoSet {
    /// Distinct digests.
    pub open spec fn wf(&self) -> bool {
        uwf(self@)
    }

    /// The map this set denotes.
    pub open spec fn as_map(&self) -> Map<crate::sha256::Hash, (bool, TxOutV)> {
        umap(self@)
    }

    pub fn new() -> (r: UtxoSet)
        ensures
            r@ =~= Seq::<UtxoEntryV>::empty(),
            r.wf(),
            r.as_map() =~= Map::<crate::sha256::Hash, (bool, TxOutV)>::empty(),
    {
        let r = UtxoSet { entries: Vec::new() };
        proof {
            assert(r@ =~= Seq::<UtxoEntryV>::empty());
        }
        r
    }

    /// How many entries the set holds.
    pub fn len(&self) -> (r: usize)
        ensures
            r == self@.len(),
    {
        self.entries.len()
    }

    /// The entry at a position, for iteration.
    pub fn entry_at(&self, i: usize) -> (r: &UtxoEntry)
        requires
            i < self@.len(),
        ensures
            r@ == self@[i as int],
    {
        &self.entries[i]
    }

    /// Index of the entry carrying `h`, if any.
    fn find(&self, h: &crate::sha256::Hash) -> (r: Option<usize>)
        ensures
            match r {
                Some(i) => 0 <= i < self@.len() && self@[i as int].hash == *h,
                None => !self.as_map().contains_key(*h),
            },
    {
        let n = self.entries.len();
        let mut i: usize = 0;
        while i < n
            invariant
                i <= n,
                n == self@.len(),
                self@.len() == self.entries@.len(),
                forall|j: int| 0 <= j < i ==> (#[trigger] self@[j]).hash != *h,
            decreases n - i,
        {
            proof {
                assert(self.entries@[i as int]@ == self@[i as int]);
            }
            if self.entries[i].hash == *h {
                return Some(i);
            }
            i = i + 1;
        }
        proof {
            lemma_umap_contains(self@, *h);
        }
        None
    }

    /// Whether the set holds an entry for `h`.
    pub fn contains(&self, h: &crate::sha256::Hash) -> (r: bool)
        ensures
            r == self.as_map().contains_key(*h),
    {
        proof {
            lemma_umap_contains(self@, *h);
        }
        match self.find(h) {
            Some(i) => {
                proof {
                    let ghost ii = i as int;
                    assert(0 <= ii < self@.len() && self@[ii].hash == *h);
                }
                true
            },
            None => false,
        }
    }

    /// The entry for `h`, if any.
    pub fn get(&self, h: &crate::sha256::Hash) -> (r: Option<&UtxoEntry>)
        requires
            self.wf(),
        ensures
            match r {
                Some(e) => self.as_map().contains_key(*h) && e@.hash == *h && self.as_map()[*h] == (
                e@.reserved, e@.output),
                None => !self.as_map().contains_key(*h),
            },
    {
        match self.find(h) {
            Some(i) => {
                proof {
                    lemma_umap_value(self@, i as int);
                    assert(self.entries@[i as int]@ == self@[i as int]);
                }
                Some(&self.entries[i])
            },
            None => None,
        }
    }

    /// Binds `h` to `(reserved, output)`, replacing any previous binding.
    pub fn insert(&mut self, h: crate::sha256::Hash, reserved: bool, output: TransactionOutput)
        requires
            old(self).wf(),
        ensures
            final(self).wf(),
            final(self).as_map() == old(self).as_map().insert(h, (reserved, output@)),
    {
        let e = UtxoEntry { hash: h, reserved, output };
        match self.find(&h) {
            Some(i) => {
                proof {
                    lemma_umap_update(self@, i as int, e@);
                }
                self.entries.set(i, e);
                proof {
                    assert(self@ =~= old(self)@.update(i as int, e@));
                }
            },
            None => {
                proof {
                    lemma_umap_contains(self@, h);
                    assert forall|i: int| 0 <= i < self@.len() implies (#[trigger] self@[i]).hash
                        != h by {
                        if self@[i].hash == h {
                            assert(exists|j: int|
                                0 <= j < self@.len() && (#[trigger] self@[j]).hash == h);
                        }
                    }
                    lemma_umap_push(self@, e@);
                }
                self.entries.push(e);
                proof {
                    assert(self@ =~= old(self)@.push(e@));
                }
            },
        }
    }

    /// Removes the binding of `h`, if any.
    pub fn remove(&mut self, h: &crate::sha256::Hash)
        requires
            old(self).wf(),
        ensures
            final(self).wf(),
            final(self).as_map() == old(self).as_map().remove(*h),
    {
        match self.find(h) {
            Some(i) => {
                proof {
                    lemma_umap_remove(self@, i as int);
                }
                self.entries.remove(i);
                proof {
                    assert(self@ =~= old(self)@.remove(i as int));
                }
            },
            None => {
                proof {
                    assert(old(self).as_map().remove(*h) =~= old(self).as_map());
                }
            },
        }
    }

    /// Sets the reserved flag of `h`, if bound; otherwise does nothing.
    pub fn set_reserved(&mut self, h: &crate::sha256::Hash, reserved: bool)
        requires
            old(self).wf(),
        ensures
            final(self).wf(),
            final(self).as_map() == set_flag(old(self).as_map(), *h, reserved),
    {
        match self.find(h) {
            Some(i) => {
                proof {
                    lemma_umap_value(self@, i as int);
                }
                let prev = self.entries.remove(i);
                let e = UtxoEntry { hash: prev.hash, reserved, output: prev.output };
                self.entries.insert(i, e);
                proof {
                    assert(prev@ == old(self)@[i as int]);
                    assert(self.entries@ =~= old(self).entries@.update(i as int, e));
                    assert(self@ =~= old(self)@.update(i as int, e@));
                    lemma_umap_update(old(self)@, i as int, e@);
                }
            },
            None => {},
        }
    }
}

/// Rebinds `h` with its flag set to `reserved`; no change when `h` is free.
pub open spec fn set_flag(
    u: Map<crate::sha256::Hash, (bool, TxOutV)>,
    h: crate::sha256::Hash,
    reserved: bool,
) -> Map<crate::sha256::Hash, (bool, TxOutV)> {
    if u.contains_key(h) {
        u.insert(h, (reserved, u[h].1))
    } else {
        u
    }
}

// ---------------------------------------------------------------------------
// The mempool and the chain state
// ---------------------------------------------------------------------------

/// A pending transaction with its admission time (UTC milliseconds).
#[derive(Clone, Debug, PartialEq, Eq)]
pub struct MempoolEntry {
    pub time: i64,
    pub transaction: Transaction,
}

/// Mathematical shape of a mempool entry.
pub struct MempoolEntryV {
    pub time: i64,
    pub transaction: TxV,
}

impl View for MempoolEntry {
    type V = MempoolEntryV;

    open spec fn view(&self) -> MempoolEntryV {
        MempoolEntryV { time: self.time, transaction: self.transaction@ }
    }
}

impl DeepView for MempoolEntry {
    type V = MempoolEntryV;

    open spec fn deep_view(&self) -> MempoolEntryV {
        self@
    }
}

/// Mathematical shape of the whole chain state.
pub struct ChainV {
    pub utxos: Seq<UtxoEntryV>,
    pub target: U256,
    pub blocks: Seq<BlockV>,
    pub mempool: Seq<MempoolEntryV>,
}

/// The chain state: ordered blocks, the UTXO index, pending transactions,
/// and the current difficulty target.
#[derive(Clone, Debug)]
pub struct Blockchain {
    utxos: UtxoSet,
    target: U256,
    blocks: Vec<Block>,
    mempool: Vec<MempoolEntry>,
}

impl View for Blockchain {
    type V = ChainV;

    closed spec fn view(&self) -> ChainV {
        ChainV {
            utxos: self.utxos@,
            target: self.target,
            blocks: self.blocks.deep_view(),
            mempool: self.mempool.deep_view(),
        }
    }
}

// ---------------------------------------------------------------------------
// Validation specifications
// ---------------------------------------------------------------------------

/// Concatenation of `f` over a list.
pub open spec fn cat_list<T, U>(s: Seq<T>, f: spec_fn(T) -> Seq<U>) -> Seq<U>
    decreases s.len(),
{
    if s.len() == 0 {
        Seq::empty()
    } else {
        f(s[0]) + cat_list(s.skip(1), f)
    }
}

pub proof fn lemma_cat_list_push<T, U>(s: Seq<T>, x: T, f: spec_fn(T) -> Seq<U>)
    ensures
        cat_list(s.push(x), f) == cat_list(s, f) + f(x),
    decreases s.len(),
{
    if s.len() == 0 {
        assert(s.push(x).skip(1) =~= Seq::<T>::empty());
        assert(s.push(x)[0] == x);
        assert(cat_list(Seq::<T>::empty(), f) == Seq::<U>::empty());
        assert(cat_list(s.push(x), f) == f(x) + Seq::<U>::empty());
        assert(f(x) + Seq::<U>::empty() =~= f(x));
        assert(cat_list(s, f) + f(x) =~= f(x));
    } else {
        assert(s.push(x).skip(1) =~= s.skip(1).push(x));
        lemma_cat_list_push(s.skip(1), x, f);
        assert(s.push(x)[0] == s[0]);
        assert(f(s[0]) + (cat_list(s.skip(1), f) + f(x)) =~= (f(s[0]) + cat_list(s.skip(1), f))
            + f(x));
    }
}

/// The digests a transaction's inputs spend, in order.
pub open spec fn prevs(s: Seq<crate::types::TxInV>) -> Seq<crate::sha256::Hash> {
    Seq::new(s.len(), |i: int| s[i].prev)
}

/// Spent digests of a transaction.
pub open spec fn tx_prevs() -> spec_fn(TxV) -> Seq<crate::sha256::Hash> {
    |t: TxV| prevs(t.inputs)
}

/// Outputs of a transaction.
pub open spec fn tx_outs() -> spec_fn(TxV) -> Seq<TxOutV> {
    |t: TxV| t.outputs
}

/// Pairwise-distinct digests.
pub open spec fn distinct_hashes(s: Seq<crate::sha256::Hash>) -> bool {
    forall|i: int, j: int| 0 <= i < j < s.len() ==> s[i] != s[j]
}

/// Every digest is bound in the UTXO map.
pub open spec fn all_present(
    s: Seq<crate::sha256::Hash>,
    u: Map<crate::sha256::Hash, (bool, TxOutV)>,
) -> bool {
    forall|k: int| 0 <= k < s.len() ==> u.contains_key(#[trigger] s[k])
}

/// Sum of the values the digests refer to; an unbound digest counts zero.
pub open spec fn hash_vals(
    s: Seq<crate::sha256::Hash>,
    u: Map<crate::sha256::Hash, (bool, TxOutV)>,
) -> int
    decreases s.len(),
{
    if s.len() == 0 {
        0
    } else {
        (if u.contains_key(s[0]) {
            u[s[0]].1.value as int
        } else {
            0
        }) + hash_vals(s.skip(1), u)
    }
}

/// Sum of output values.
pub open spec fn out_vals(s: Seq<TxOutV>) -> int
    decreases s.len(),
{
    if s.len() == 0 {
        0
    } else {
        s[0].value + out_vals(s.skip(1))
    }
}

/// The digests of a list of outputs.
pub open spec fn out_hashes(s: Seq<TxOutV>) -> Seq<crate::sha256::Hash> {
    Seq::new(s.len(), |i: int| crate::types::txout_hash(s[i]))
}

/// The non-coinbase transactions of a block.
pub open spec fn non_coinbase(txs: Seq<TxV>) -> Seq<TxV> {
    if txs.len() >= 1 {
        txs.skip(1)
    } else {
        txs
    }
}

/// Total miner fee of the non-coinbase transactions against a UTXO snapshot.
pub open spec fn fee_spec(region: Seq<TxV>, u: Map<crate::sha256::Hash, (bool, TxOutV)>) -> int {
    hash_vals(cat_list(region, tx_prevs()), u) - out_vals(cat_list(region, tx_outs()))
}

/// The fee of the non-coinbase transactions is well defined: every spent
/// digest exists, no digest is spent twice, no two outputs collide, and the
/// fee fits an unsigned 64-bit value.
pub open spec fn fees_ok(region: Seq<TxV>, u: Map<crate::sha256::Hash, (bool, TxOutV)>) -> bool {
    &&& all_present(cat_list(region, tx_prevs()), u)
    &&& distinct_hashes(cat_list(region, tx_prevs()))
    &&& distinct_hashes(out_hashes(cat_list(region, tx_outs())))
    &&& 0 <= fee_spec(region, u)
    &&& fee_spec(region, u) <= 0xffffffffffffffff
}

/// Reward of the block at `height`: fifty coins, halved every
/// `HALVING_INTERVAL` blocks, in satoshis.
pub open spec fn block_reward_spec(height: u64) -> int {
    5000000000int / (vstd::arithmetic::power2::pow2((height / crate::HALVING_INTERVAL) as nat) as int)
}

/// The coinbase rule: no inputs, at least one output, well-defined fees, and
/// outputs summing exactly to reward plus fees.
pub open spec fn coinbase_ok(
    txs: Seq<TxV>,
    height: u64,
    u: Map<crate::sha256::Hash, (bool, TxOutV)>,
) -> bool {
    &&& txs.len() >= 1
    &&& txs[0].inputs.len() == 0
    &&& txs[0].outputs.len() >= 1
    &&& fees_ok(non_coinbase(txs), u)
    &&& out_vals(txs[0].outputs) == block_reward_spec(height) + fee_spec(non_coinbase(txs), u)
}

/// Checks one transaction's inputs in order, against the digests already
/// consumed by earlier inputs of the block.
pub open spec fn check_inputs(
    inputs: Seq<crate::types::TxInV>,
    seen: Seq<crate::sha256::Hash>,
    u: Map<crate::sha256::Hash, (bool, TxOutV)>,
) -> Option<crate::error::BtcError>
    decreases inputs.len(),
{
    if inputs.len() == 0 {
        None
    } else if !u.contains_key(inputs[0].prev) {
        Some(crate::error::BtcError::InvalidTransaction)
    } else if seen.contains(inputs[0].prev) {
        Some(crate::error::BtcError::InvalidTransaction)
    } else if !crate::crypto::sig_verifies(
        inputs[0].signature,
        crate::sha256::hash_bytes_spec(inputs[0].prev),
        u[inputs[0].prev].1.pubkey,
    ) {
        Some(crate::error::BtcError::InvalidSignature)
    } else {
        check_inputs(inputs.skip(1), seen.push(inputs[0].prev), u)
    }
}

/// Checks the non-coinbase transactions in order: inputs first, then
/// per-transaction solvency.
pub open spec fn check_txs(
    txs: Seq<TxV>,
    seen: Seq<crate::sha256::Hash>,
    u: Map<crate::sha256::Hash, (bool, TxOutV)>,
) -> Option<crate::error::BtcError>
    decreases txs.len(),
{
    if txs.len() == 0 {
        None
    } else {
        match check_inputs(txs[0].inputs, seen, u) {
            Some(e) => Some(e),
            None => {
                if hash_vals(prevs(txs[0].inputs), u) < out_vals(txs[0].outputs) {
                    Some(crate::error::BtcError::InvalidTransaction)
                } else {
                    check_txs(txs.skip(1), seen + prevs(txs[0].inputs), u)
                }
            },
        }
    }
}

/// The whole transaction check of a candidate block at `height`: non-empty,
/// coinbase rule, then the per-transaction pipeline.
pub open spec fn verify_txs_spec(
    txs: Seq<TxV>,
    height: u64,
    u: Map<crate::sha256::Hash, (bool, TxOutV)>,
) -> Option<crate::error::BtcError> {
    if txs.len() == 0 {
        Some(crate::error::BtcError::InvalidTransaction)
    } else if !coinbase_ok(txs, height, u) {
        Some(crate::error::BtcError::InvalidTransaction)
    } else {
        check_txs(non_coinbase(txs), Seq::empty(), u)
    }
}

/// The acceptance decision for a candidate block: the genesis rule on an
/// empty chain, else proof of work, linkage, commitment, time, and the
/// transaction checks, in that order.
pub open spec fn add_block_check(
    blocks: Seq<BlockV>,
    u: Map<crate::sha256::Hash, (bool, TxOutV)>,
    b: BlockV,
) -> Option<crate::error::BtcError> {
    if blocks.len() == 0 {
        if b.header.prev_block_hash != crate::sha256::Hash(U256 { w0: 0, w1: 0, w2: 0, w3: 0 }) {
            Some(crate::error::BtcError::InvalidBlock)
        } else {
            None
        }
    } else {
        let last = blocks.last();
        if !(crate::sha256::hash_val(crate::types::header_hash(b.header)) <= crate::u256::u256_val(
            b.header.target,
        )) {
            Some(crate::error::BtcError::InvalidBlock)
        } else if b.header.prev_block_hash != crate::types::block_hash(last) {
            Some(crate::error::BtcError::InvalidBlock)
        } else if b.header.merkle_root != crate::util::MerkleRoot(
            crate::util::merkle_root_of(b.transactions),
        ) {
            Some(crate::error::BtcError::InvalidMerkleRoot)
        } else if b.header.timestamp <= last.header.timestamp {
            Some(crate::error::BtcError::InvalidBlock)
        } else {
            verify_txs_spec(b.transactions, blocks.len() as u64, u)
        }
    }
}

/// The structural chain invariant: every block after the first links to its
/// predecessor by hash, meets its own target, strictly advances time, and
/// commits to its transaction list.
pub open spec fn chain_linked(blocks: Seq<BlockV>) -> bool {
    forall|i: int|
        1 <= i < blocks.len() ==> {
            &&& (#[trigger] blocks[i]).header.prev_block_hash == crate::types::block_hash(
                blocks[i - 1],
            )
            &&& crate::sha256::hash_val(crate::types::header_hash(blocks[i].header))
                <= crate::u256::u256_val(blocks[i].header.target)
            &&& blocks[i].header.timestamp > blocks[i - 1].header.timestamp
            &&& blocks[i].header.merkle_root == crate::util::MerkleRoot(
                crate::util::merkle_root_of(blocks[i].transactions),
            )
        }
}

/// In a linked chain, timestamps never decrease between any two blocks.
pub proof fn lemma_timestamps_mono(blocks: Seq<BlockV>, i: int, j: int)
    requires
        chain_linked(blocks),
        0 <= i <= j < blocks.len(),
    ensures
        blocks[i].header.timestamp <= blocks[j].header.timestamp,
    decreases j - i,
{
    if i < j {
        lemma_timestamps_mono(blocks, i, j - 1);
    }
}

impl Blockchain {
    /// The UTXO index has distinct keys.
    pub open spec fn utxos_wf(&self) -> bool {
        uwf(self@.utxos)
    }

    /// The structural invariant every public operation preserves.
    pub open spec fn wf(&self) -> bool {
        self.utxos_wf() && chain_linked(self@.blocks)
    }

    /// A fresh chain: no blocks, no UTXOs, an empty mempool, and the easiest
    /// target.
    pub fn new() -> (r: Blockchain)
        ensures
            r@.blocks =~= Seq::<BlockV>::empty(),
            r@.mempool =~= Seq::<MempoolEntryV>::empty(),
            r@.utxos =~= Seq::<UtxoEntryV>::empty(),
            crate::u256::u256_val(r@.target) == crate::u256::u256_max(),
            r.wf(),
    {
        let r = Blockchain {
            utxos: UtxoSet::new(),
            target: U256::max_value(),
            blocks: Vec::new(),
            mempool: Vec::new(),
        };
        proof {
            assert(r@.blocks =~= Seq::<BlockV>::empty());
            assert(r@.mempool =~= Seq::<MempoolEntryV>::empty());
        }
        r
    }

    /// The UTXO index.
    pub fn utxos(&self) -> (r: &UtxoSet)
        ensures
            r@ == self@.utxos,
    {
        &self.utxos
    }

    /// The current difficulty target.
    pub fn target(&self) -> (r: U256)
        ensures
            r == self@.target,
    {
        self.target
    }

    /// The accepted blocks, oldest first.
    pub fn blocks(&self) -> (r: &Vec<Block>)
        ensures
            r.deep_view() == self@.blocks,
    {
        &self.blocks
    }

    /// Number of accepted blocks.
    pub fn block_height(&self) -> (r: u64)
        ensures
            r == self@.blocks.len(),
    {
        self.blocks.len() as u64
    }

    /// The pending transactions, lowest fee first.
    pub fn mempool(&self) -> (r: &Vec<MempoolEntry>)
        ensures
            r.deep_view() == self@.mempool,
    {
        &self.mempool
    }
}

// ---------------------------------------------------------------------------
// Executable validation
// ---------------------------------------------------------------------------

pub proof fn lemma_cat_list_skip<T, U>(s: Seq<T>, m: int, f: spec_fn(T) -> Seq<U>)
    requires
        0 <= m <= s.len(),
    ensures
        cat_list(s, f) == cat_list(s.take(m), f) + cat_list(s.skip(m), f),
    decreases m,
{
    if m == 0 {
        assert(s.take(0) =~= Seq::<T>::empty());
        assert(s.skip(0) =~= s);
        assert(cat_list(Seq::<T>::empty(), f) == Seq::<U>::empty());
        assert(Seq::<U>::empty() + cat_list(s, f) =~= cat_list(s, f));
    } else {
        assert(s.take(m)[0] == s[0]);
        assert(s.take(m).skip(1) =~= s.skip(1).take(m - 1));
        assert(s.skip(1).skip(m - 1) =~= s.skip(m));
        lemma_cat_list_skip(s.skip(1), m - 1, f);
        assert(cat_list(s, f) == f(s[0]) + cat_list(s.skip(1), f));
        assert(cat_list(s.take(m), f) == f(s.take(m)[0]) + cat_list(s.take(m).skip(1), f));
        assert((f(s[0]) + cat_list(s.skip(1).take(m - 1), f)) + cat_list(s.skip(m), f) =~= f(s[0])
            + (cat_list(s.skip(1).take(m - 1), f) + cat_list(s.skip(m), f)));
    }
}

pub proof fn lemma_hash_vals_push(
    s: Seq<crate::sha256::Hash>,
    h: crate::sha256::Hash,
    u: Map<crate::sha256::Hash, (bool, TxOutV)>,
)
    ensures
        hash_vals(s.push(h), u) == hash_vals(s, u) + (if u.contains_key(h) {
            u[h].1.value as int
        } else {
            0
        }),
    decreases s.len(),
{
    assert(hash_vals(s.push(h), u) == (if u.contains_key(s.push(h)[0]) {
        u[s.push(h)[0]].1.value as int
    } else {
        0
    }) + hash_vals(s.push(h).skip(1), u));
    if s.len() == 0 {
        assert(s.push(h).skip(1) =~= Seq::<crate::sha256::Hash>::empty());
        assert(hash_vals(Seq::<crate::sha256::Hash>::empty(), u) == 0);
        assert(s.push(h)[0] == h);
    } else {
        assert(s.push(h).skip(1) =~= s.skip(1).push(h));
        assert(s.push(h)[0] == s[0]);
        lemma_hash_vals_push(s.skip(1), h, u);
    }
}

pub proof fn lemma_hash_vals_bounds(
    s: Seq<crate::sha256::Hash>,
    u: Map<crate::sha256::Hash, (bool, TxOutV)>,
)
    ensures
        0 <= hash_vals(s, u),
        hash_vals(s, u) <= s.len() * 0xffffffffffffffff,
    decreases s.len(),
{
    if s.len() > 0 {
        lemma_hash_vals_bounds(s.skip(1), u);
    }
}

pub proof fn lemma_out_vals_push(s: Seq<TxOutV>, o: TxOutV)
    ensures
        out_vals(s.push(o)) == out_vals(s) + o.value,
    decreases s.len(),
{
    assert(out_vals(s.push(o)) == s.push(o)[0].value + out_vals(s.push(o).skip(1)));
    if s.len() == 0 {
        assert(s.push(o).skip(1) =~= Seq::<TxOutV>::empty());
        assert(out_vals(Seq::<TxOutV>::empty()) == 0);
        assert(s.push(o)[0] == o);
    } else {
        assert(s.push(o).skip(1) =~= s.skip(1).push(o));
        assert(s.push(o)[0] == s[0]);
        lemma_out_vals_push(s.skip(1), o);
    }
}

pub proof fn lemma_out_vals_bounds(s: Seq<TxOutV>)
    ensures
        0 <= out_vals(s),
        out_vals(s) <= s.len() * 0xffffffffffffffff,
    decreases s.len(),
{
    if s.len() > 0 {
        lemma_out_vals_bounds(s.skip(1));
    }
}

proof fn lemma_sum_fits(len: int)
    requires
        0 <= len <= 0xffffffffffffffff,
    ensures
        (len + 1) * 0xffffffffffffffffint < 0x100000000000000000000000000000000int,
{
    assert((len + 1) * 0xffffffffffffffffint <= 0x10000000000000000int * 0xffffffffffffffffint)
        by (nonlinear_arith)
        requires
            0 <= len <= 0xffffffffffffffff,
    ;
}

/// Whether `v` holds the digest `h`.
fn contains_hash(v: &Vec<crate::sha256::Hash>, h: &crate::sha256::Hash) -> (r: bool)
    ensures
        r == v@.contains(*h),
{
    let mut i: usize = 0;
    while i < v.len()
        invariant
            i <= v@.len(),
            forall|j: int| 0 <= j < i ==> v@[j] != *h,
        decreases v@.len() - i,
    {
        if v[i] == *h {
            proof {
                assert(v@[i as int] == *h);
            }
            return true;
        }
        i = i + 1;
    }
    proof {
        if v@.contains(*h) {
            let j = choose|j: int| 0 <= j < v@.len() && v@[j] == *h;
        }
    }
    false
}

/// Reward of the block at `height`, in satoshis.
pub fn block_reward(height: u64) -> (r: u64)
    ensures
        r == block_reward_spec(height),
{
    let e: u64 = height / crate::HALVING_INTERVAL;
    proof {
        vstd::arithmetic::power2::lemma2_to64();
        vstd::arithmetic::power2::lemma2_to64_rest();
    }
    if e >= 33 {
        proof {
            if e > 33 {
                vstd::arithmetic::power2::lemma_pow2_strictly_increases(33, e as nat);
            }
            vstd::arithmetic::div_mod::lemma_basic_div(
                5000000000int,
                vstd::arithmetic::power2::pow2(e as nat) as int,
            );
        }
        0
    } else {
        let r = 5000000000u64 >> e;
        proof {
            vstd::bits::lemma_u64_shr_is_div(5000000000u64, e);
        }
        r
    }
}

impl Block {
    /// Total miner fee of the non-coinbase transactions against the given
    /// UTXO snapshot; fails when a spent output is missing, an output digest
    /// or spent digest repeats, or the fee is negative or too large.
    pub fn calculate_miner_fees(&self, utxos: &UtxoSet) -> (r: Result<
        u64,
        crate::error::BtcError,
    >)
        requires
            utxos.wf(),
        ensures
            match r {
                Ok(f) => fees_ok(non_coinbase(self@.transactions), utxos.as_map()) && f == fee_spec(
                    non_coinbase(self@.transactions),
                    utxos.as_map(),
                ),
                Err(e) => e == crate::error::BtcError::InvalidTransaction && !fees_ok(
                    non_coinbase(self@.transactions),
                    utxos.as_map(),
                ),
            },
    {
        let ghost u = utxos.as_map();
        let ghost dv = self@.transactions;
        let ghost region = non_coinbase(dv);
        let ghost fullin = cat_list(region, tx_prevs());
        let ghost fullout = cat_list(region, tx_outs());
        let n = self.transactions.len();
        let mut seen_in: Vec<crate::sha256::Hash> = Vec::new();
        let mut seen_out: Vec<crate::sha256::Hash> = Vec::new();
        let mut total_in: u128 = 0;
        let mut total_out: u128 = 0;
        let mut outs_count: usize = 0;
        let mut i: usize = 1;
        proof {
            if n == 0 {
                assert(region == dv);
            } else {
                assert(region == dv.skip(1));
            }
            assert(region.take(0) =~= Seq::<TxV>::empty());
            assert(cat_list(region.take(0), tx_prevs()) == Seq::<crate::sha256::Hash>::empty());
            assert(cat_list(region.take(0), tx_outs()) == Seq::<TxOutV>::empty());
            assert(seen_in@ =~= cat_list(region.take(0), tx_prevs()));
            assert(seen_out@ =~= out_hashes(cat_list(region.take(0), tx_outs())));
        }
        while i < n
            invariant
                1 <= i <= n || (n == 0 && i == 1),
                n == dv.len(),
                dv == self@.transactions,
                u == utxos.as_map(),
                utxos.wf(),
                region == non_coinbase(dv),
                n >= 1 ==> region == dv.skip(1),
                n >= 1 ==> region.len() == n - 1,
                fullin == cat_list(region, tx_prevs()),
                fullout == cat_list(region, tx_outs()),
                seen_in@ == cat_list(region.take(i - 1), tx_prevs()),
                seen_out@ == out_hashes(cat_list(region.take(i - 1), tx_outs())),
                outs_count == cat_list(region.take(i - 1), tx_outs()).len(),
                all_present(seen_in@, u),
                distinct_hashes(seen_in@),
                distinct_hashes(seen_out@),
                total_in == hash_vals(seen_in@, u),
                total_out == out_vals(cat_list(region.take(i - 1), tx_outs())),
            decreases n - i,
        {
            let ghost m = i - 1;
            let ghost tv = region[m as int];
            proof {
                assert(self.transactions@[i as int]@ == dv[i as int]);
                assert(region[m as int] == dv[i as int]);
                lemma_cat_list_skip(region, m as int, tx_prevs());
                assert(region.skip(m as int)[0] == tv);
                assert(region.skip(m as int).skip(1) =~= region.skip(m + 1));
                assert(cat_list(region.skip(m as int), tx_prevs()) == prevs(tv.inputs) + cat_list(
                    region.skip(m + 1),
                    tx_prevs(),
                ));
                lemma_cat_list_skip(region, m as int, tx_outs());
                assert(cat_list(region.skip(m as int), tx_outs()) == tv.outputs + cat_list(
                    region.skip(m + 1),
                    tx_outs(),
                ));
            }
            let nk = self.transactions[i].inputs.len();
            let mut k: usize = 0;
            proof {
                assert(prevs(tv.inputs).take(0) =~= Seq::<crate::sha256::Hash>::empty());
                assert(seen_in@ + prevs(tv.inputs).take(0) =~= seen_in@);
            }
            while k < nk
                invariant
                    k <= nk,
                    0 <= i < n,
                    n == dv.len(),
                    dv == self@.transactions,
                    u == utxos.as_map(),
                    utxos.wf(),
                    region == non_coinbase(dv),
                    n >= 1 ==> region == dv.skip(1),
                    region.len() == n - 1,
                    m == i - 1,
                    tv == region[m as int],
                    tv == dv[i as int],
                    nk == tv.inputs.len(),
                    fullin == cat_list(region, tx_prevs()),
                    fullin == cat_list(region.take(m as int), tx_prevs()) + prevs(tv.inputs)
                        + cat_list(region.skip(m + 1), tx_prevs()),
                    seen_in@ == cat_list(region.take(m as int), tx_prevs()) + prevs(
                        tv.inputs,
                    ).take(k as int),
                    all_present(seen_in@, u),
                    distinct_hashes(seen_in@),
                    total_in == hash_vals(seen_in@, u),
                decreases nk - k,
            {
                let h = self.transactions[i].inputs[k].prev_transaction_output_hash;
                proof {
                    assert(self.transactions@[i as int]@ == tv);
                    assert(self.transactions@[i as int].inputs@[k as int]@ == tv.inputs[k as int]);
                    assert(prevs(tv.inputs)[k as int] == tv.inputs[k as int].prev);
                    assert(h == prevs(tv.inputs)[k as int]);
                    assert(fullin[seen_in@.len() as int] == h) by {
                        let pre = cat_list(region.take(m as int), tx_prevs());
                        assert(fullin[pre.len() + k] == prevs(tv.inputs)[k as int]);
                    }
                }
                let got = utxos.get(&h);
                match got {
                    None => {
                        proof {
                            assert(!all_present(fullin, u)) by {
                                assert(!u.contains_key(fullin[seen_in@.len() as int]));
                            }
                        }
                        return Err(crate::error::BtcError::InvalidTransaction);
                    },
                    Some(e) => {
                        if contains_hash(&seen_in, &h) {
                            proof {
                                let j = choose|j: int|
                                    0 <= j < seen_in@.len() && seen_in@[j] == h;
                                assert(!distinct_hashes(fullin)) by {
                                    assert(fullin[j] == seen_in@[j]);
                                    assert(fullin[seen_in@.len() as int] == h);
                                }
                            }
                            return Err(crate::error::BtcError::InvalidTransaction);
                        }
                        let v = e.output.value;
                        proof {
                            assert(u[h].1.value == v);
                            lemma_hash_vals_bounds(seen_in@, u);
                            let sl = seen_in.len();
                            lemma_sum_fits(sl as int);
                            lemma_hash_vals_push(seen_in@, h, u);
                            assert(seen_in@.push(h) =~= cat_list(region.take(m as int), tx_prevs())
                                + prevs(tv.inputs).take(k + 1)) by {
                                assert(prevs(tv.inputs).take(k + 1) =~= prevs(tv.inputs).take(
                                    k as int,
                                ).push(prevs(tv.inputs)[k as int]));
                            }
                            assert forall|a: int, b: int|
                                0 <= a < b < seen_in@.push(h).len() implies seen_in@.push(h)[a]
                                != seen_in@.push(h)[b] by {
                                if b < seen_in@.len() {
                                    assert(seen_in@[a] != seen_in@[b]);
                                } else {
                                    assert(seen_in@.push(h)[b] == h);
                                    assert(!seen_in@.contains(h));
                                    assert(seen_in@.push(h)[a] == seen_in@[a]);
                                }
                            }
                        }
                        seen_in.push(h);
                        total_in = total_in + (v as u128);
                        k = k + 1;
                    },
                }
            }
            proof {
                assert(prevs(tv.inputs).take(nk as int) =~= prevs(tv.inputs));
                lemma_cat_list_push(region.take(m as int), tv, tx_prevs());
                assert(region.take(m + 1) =~= region.take(m as int).push(tv));
                assert(seen_in@ == cat_list(region.take(m + 1), tx_prevs()));
            }
            let no = self.transactions[i].outputs.len();
            let mut q: usize = 0;
            proof {
                assert(tv.outputs.take(0) =~= Seq::<TxOutV>::empty());
                assert(cat_list(region.take(m as int), tx_outs()) + tv.outputs.take(0) =~= cat_list(
                    region.take(m as int),
                    tx_outs(),
                ));
            }
            while q < no
                invariant
                    q <= no,
                    0 <= i < n,
                    n == dv.len(),
                    dv == self@.transactions,
                    u == utxos.as_map(),
                    utxos.wf(),
                    region == non_coinbase(dv),
                    n >= 1 ==> region == dv.skip(1),
                    region.len() == n - 1,
                    m == i - 1,
                    tv == region[m as int],
                    tv == dv[i as int],
                    no == tv.outputs.len(),
                    fullout == cat_list(region, tx_outs()),
                    fullout == cat_list(region.take(m as int), tx_outs()) + tv.outputs + cat_list(
                        region.skip(m + 1),
                        tx_outs(),
                    ),
                    seen_out@ == out_hashes(
                        cat_list(region.take(m as int), tx_outs()) + tv.outputs.take(q as int),
                    ),
                    outs_count == cat_list(region.take(m as int), tx_outs()).len() + q,
                    distinct_hashes(seen_out@),
                    total_out == out_vals(
                        cat_list(region.take(m as int), tx_outs()) + tv.outputs.take(q as int),
                    ),
                decreases no - q,
            {
                let ghost part = cat_list(region.take(m as int), tx_outs()) + tv.outputs.take(
                    q as int,
                );
                let oh = self.transactions[i].outputs[q].hash();
                let ov = self.transactions[i].outputs[q].value;
                proof {
                    assert(self.transactions@[i as int]@ == tv);
                    assert(self.transactions@[i as int].outputs@[q as int]@ == tv.outputs[
                        q as int]);
                    assert(oh == crate::types::txout_hash(tv.outputs[q as int]));
                    assert(ov == tv.outputs[q as int].value);
                    assert(fullout[part.len() as int] == tv.outputs[q as int]) by {
                        let pre = cat_list(region.take(m as int), tx_outs());
                        assert(fullout[pre.len() + q] == tv.outputs[q as int]);
                    }
                    assert(out_hashes(fullout)[part.len() as int] == oh);
                }
                if contains_hash(&seen_out, &oh) {
                    proof {
                        let j = choose|j: int| 0 <= j < seen_out@.len() && seen_out@[j] == oh;
                        assert(!distinct_hashes(out_hashes(fullout))) by {
                            assert(out_hashes(part)[j] == oh);
                            assert(out_hashes(fullout)[j] == out_hashes(part)[j]) by {
                                assert(fullout[j] == part[j]);
                            }
                        }
                    }
                    return Err(crate::error::BtcError::InvalidTransaction);
                }
                proof {
                    lemma_out_vals_bounds(part);
                    let sl = outs_count;
                    lemma_sum_fits(sl as int);
                    lemma_out_vals_push(part, tv.outputs[q as int]);
                    assert(part.push(tv.outputs[q as int]) =~= cat_list(
                        region.take(m as int),
                        tx_outs(),
                    ) + tv.outputs.take(q + 1)) by {
                        assert(tv.outputs.take(q + 1) =~= tv.outputs.take(q as int).push(
                            tv.outputs[q as int],
                        ));
                    }
                    assert(out_hashes(part.push(tv.outputs[q as int])) =~= out_hashes(part).push(
                        oh,
                    ));
                    assert forall|a: int, b: int|
                        0 <= a < b < seen_out@.push(oh).len() implies seen_out@.push(oh)[a]
                        != seen_out@.push(oh)[b] by {
                        if b < seen_out@.len() {
                            assert(seen_out@[a] != seen_out@[b]);
                        } else {
                            assert(seen_out@.push(oh)[b] == oh);
                            assert(!seen_out@.contains(oh));
                            assert(seen_out@.push(oh)[a] == seen_out@[a]);
                        }
                    }
                }
                seen_out.push(oh);
                total_out = total_out + (ov as u128);
                outs_count = seen_out.len();
                q = q + 1;
            }
            proof {
                assert(tv.outputs.take(no as int) =~= tv.outputs);
                lemma_cat_list_push(region.take(m as int), tv, tx_outs());
                assert(region.take(m + 1) =~= region.take(m as int).push(tv));
            }
            i = i + 1;
        }
        proof {
            if n >= 1 {
                assert(region.take(n - 1) =~= region);
            } else {
                assert(region.take(i - 1) =~= region);
            }
            assert(seen_in@ == fullin);
            assert(seen_out@ == out_hashes(fullout));
            assert(total_out == out_vals(fullout));
        }
        if total_in < total_out {
            proof {
                assert(fee_spec(region, u) < 0);
            }
            return Err(crate::error::BtcError::InvalidTransaction);
        }
        let fee: u128 = total_in - total_out;
        if fee > 0xffffffffffffffff {
            proof {
                assert(fee_spec(region, u) > 0xffffffffffffffff);
            }
            return Err(crate::error::BtcError::InvalidTransaction);
        }
        proof {
            assert(fees_ok(region, u));
            assert(fee == fee_spec(region, u));
        }
        Ok(fee as u64)
    }

    /// The coinbase rule: the first transaction mints exactly the block
    /// reward plus the fees of the other transactions.
    pub fn verify_coinbase_transaction(
        &self,
        predicted_block_height: u64,
        utxos: &UtxoSet,
    ) -> (r: Result<(), crate::error::BtcError>)
        requires
            utxos.wf(),
            self@.transactions.len() >= 1,
        ensures
            r == (if coinbase_ok(self@.transactions, predicted_block_height, utxos.as_map()) {
                Ok::<(), crate::error::BtcError>(())
            } else {
                Err::<(), crate::error::BtcError>(crate::error::BtcError::InvalidTransaction)
            }),
    {
        let ghost dv = self@.transactions;
        let ghost u = utxos.as_map();
        proof {
            assert(self.transactions@[0]@ == dv[0]);
        }
        if self.transactions[0].inputs.len() != 0 {
            return Err(crate::error::BtcError::InvalidTransaction);
        }
        if self.transactions[0].outputs.len() == 0 {
            return Err(crate::error::BtcError::InvalidTransaction);
        }
        let fees = match self.calculate_miner_fees(utxos) {
            Ok(f) => f,
            Err(_) => {
                return Err(crate::error::BtcError::InvalidTransaction);
            },
        };
        let reward = block_reward(predicted_block_height);
        let no = self.transactions[0].outputs.len();
        let mut total: u128 = 0;
        let mut q: usize = 0;
        proof {
            assert(dv[0].outputs.take(0) =~= Seq::<TxOutV>::empty());
        }
        while q < no
            invariant
                q <= no,
                dv == self@.transactions,
                dv.len() >= 1,
                self.transactions@[0]@ == dv[0],
                no == dv[0].outputs.len(),
                total == out_vals(dv[0].outputs.take(q as int)),
            decreases no - q,
        {
            let ov = self.transactions[0].outputs[q].value;
            proof {
                assert(self.transactions@[0].outputs@[q as int]@ == dv[0].outputs[q as int]);
                lemma_out_vals_bounds(dv[0].outputs.take(q as int));
                lemma_sum_fits(q as int);
                lemma_out_vals_push(dv[0].outputs.take(q as int), dv[0].outputs[q as int]);
                assert(dv[0].outputs.take(q + 1) =~= dv[0].outputs.take(q as int).push(
                    dv[0].outputs[q as int],
                ));
            }
            total = total + (ov as u128);
            q = q + 1;
        }
        proof {
            assert(dv[0].outputs.take(no as int) =~= dv[0].outputs);
        }
        if total != (reward as u128) + (fees as u128) {
            proof {
                assert(out_vals(dv[0].outputs) != block_reward_spec(predicted_block_height)
                    + fee_spec(non_coinbase(dv), u));
            }
            return Err(crate::error::BtcError::InvalidTransaction);
        }
        Ok(())
    }
}

impl Block {
    /// Full transaction check of a candidate block at the given height.
    pub fn verify_transactions(&self, predicted_block_height: u64, utxos: &UtxoSet) -> (r: Result<
        (),
        crate::error::BtcError,
    >)
        requires
            utxos.wf(),
        ensures
            r == (match verify_txs_spec(
                self@.transactions,
                predicted_block_height,
                utxos.as_map(),
            ) {
                None => Ok::<(), crate::error::BtcError>(()),
                Some(e) => Err::<(), crate::error::BtcError>(e),
            }),
    {
        let ghost dv = self@.transactions;
        let ghost u = utxos.as_map();
        let n = self.transactions.len();
        if n == 0 {
            return Err(crate::error::BtcError::InvalidTransaction);
        }
        match self.verify_coinbase_transaction(predicted_block_height, utxos) {
            Err(e) => {
                return Err(e);
            },
            Ok(()) => {},
        }
        let ghost region = dv.skip(1);
        let mut seen: Vec<crate::sha256::Hash> = Vec::new();
        let mut i: usize = 1;
        proof {
            assert(region.skip(0) =~= region);
            assert(seen@ =~= Seq::<crate::sha256::Hash>::empty());
        }
        while i < n
            invariant
                1 <= i <= n,
                n == dv.len(),
                dv == self@.transactions,
                u == utxos.as_map(),
                utxos.wf(),
                region == dv.skip(1),
                region.len() == n - 1,
                verify_txs_spec(dv, predicted_block_height, u) == check_txs(
                    region,
                    Seq::empty(),
                    u,
                ),
                check_txs(region, Seq::empty(), u) == check_txs(region.skip(i - 1), seen@, u),
            decreases n - i,
        {
            let ghost tv = region[i - 1];
            let ghost seen0 = seen@;
            proof {
                assert(self.transactions@[i as int]@ == dv[i as int]);
                assert(region[i - 1] == dv[i as int]);
                assert(region.skip(i - 1)[0] == tv);
                assert(region.skip(i - 1).skip(1) =~= region.skip(i as int));
            }
            let nk = self.transactions[i].inputs.len();
            let mut tin: u128 = 0;
            let mut k: usize = 0;
            proof {
                assert(tv.inputs.skip(0) =~= tv.inputs);
                assert(seen@ =~= seen0 + prevs(tv.inputs).take(0));
                assert(hash_vals(prevs(tv.inputs).take(0), u) == 0);
            }
            while k < nk
                invariant
                    k <= nk,
                    1 <= i < n,
                    n == dv.len(),
                    dv == self@.transactions,
                    u == utxos.as_map(),
                    utxos.wf(),
                    region == dv.skip(1),
                    region.len() == n - 1,
                    tv == region[i - 1],
                    tv == dv[i as int],
                    nk == tv.inputs.len(),
                    verify_txs_spec(dv, predicted_block_height, u) == check_txs(
                        region,
                        Seq::empty(),
                        u,
                    ),
                    check_txs(region, Seq::empty(), u) == check_txs(region.skip(i - 1), seen0, u),
                    check_inputs(tv.inputs, seen0, u) == check_inputs(
                        tv.inputs.skip(k as int),
                        seen@,
                        u,
                    ),
                    seen@ == seen0 + prevs(tv.inputs).take(k as int),
                    tin == hash_vals(prevs(tv.inputs).take(k as int), u),
                decreases nk - k,
            {
                let h = self.transactions[i].inputs[k].prev_transaction_output_hash;
                proof {
                    assert(self.transactions@[i as int]@ == tv);
                    assert(self.transactions@[i as int].inputs@[k as int]@ == tv.inputs[k as int]);
                    assert(tv.inputs.skip(k as int)[0] == tv.inputs[k as int]);
                    assert(tv.inputs.skip(k as int).skip(1) =~= tv.inputs.skip(k + 1));
                    assert(h == tv.inputs[k as int].prev);
                }
                match utxos.get(&h) {
                    None => {
                        proof {
                            assert(check_inputs(tv.inputs.skip(k as int), seen@, u) == Some(
                                crate::error::BtcError::InvalidTransaction,
                            ));
                        }
                        return Err(crate::error::BtcError::InvalidTransaction);
                    },
                    Some(entry) => {
                        if contains_hash(&seen, &h) {
                            proof {
                                assert(check_inputs(tv.inputs.skip(k as int), seen@, u) == Some(
                                    crate::error::BtcError::InvalidTransaction,
                                ));
                            }
                            return Err(crate::error::BtcError::InvalidTransaction);
                        }
                        let ok = self.transactions[i].inputs[k].signature.verify(
                            &h,
                            &entry.output.pubkey,
                        );
                        proof {
                            assert(entry@.output == u[h].1);
                            assert(entry.output@ == entry@.output);
                            assert(tv.inputs[k as int].signature
                                == self.transactions@[i as int].inputs@[k as int].signature@);
                        }
                        if !ok {
                            proof {
                                assert(check_inputs(tv.inputs.skip(k as int), seen@, u) == Some(
                                    crate::error::BtcError::InvalidSignature,
                                ));
                            }
                            return Err(crate::error::BtcError::InvalidSignature);
                        }
                        let v = entry.output.value;
                        proof {
                            assert(check_inputs(tv.inputs.skip(k as int), seen@, u) == check_inputs(
                                tv.inputs.skip(k + 1),
                                seen@.push(h),
                                u,
                            ));
                            assert(seen@.push(h) =~= seen0 + prevs(tv.inputs).take(k + 1)) by {
                                assert(prevs(tv.inputs).take(k + 1) =~= prevs(tv.inputs).take(
                                    k as int,
                                ).push(tv.inputs[k as int].prev));
                            }
                            assert(prevs(tv.inputs).take(k + 1) =~= prevs(tv.inputs).take(
                                k as int,
                            ).push(h));
                            lemma_hash_vals_bounds(prevs(tv.inputs).take(k as int), u);
                            lemma_sum_fits(k as int);
                            lemma_hash_vals_push(prevs(tv.inputs).take(k as int), h, u);
                            assert(u[h].1.value == v);
                        }
                        seen.push(h);
                        tin = tin + (v as u128);
                        k = k + 1;
                    },
                }
            }
            proof {
                assert(tv.inputs.skip(nk as int) =~= Seq::<crate::types::TxInV>::empty());
                assert(check_inputs(Seq::<crate::types::TxInV>::empty(), seen@, u) is None);
                assert(prevs(tv.inputs).take(nk as int) =~= prevs(tv.inputs));
            }
            let no = self.transactions[i].outputs.len();
            let mut tout: u128 = 0;
            let mut q: usize = 0;
            proof {
                assert(tv.outputs.take(0) =~= Seq::<TxOutV>::empty());
            }
            while q < no
                invariant
                    q <= no,
                    1 <= i < n,
                    dv == self@.transactions,
                    n == dv.len(),
                    tv == dv[i as int],
                    no == tv.outputs.len(),
                    tout == out_vals(tv.outputs.take(q as int)),
                decreases no - q,
            {
                let ov = self.transactions[i].outputs[q].value;
                proof {
                    assert(self.transactions@[i as int]@ == tv);
                    assert(self.transactions@[i as int].outputs@[q as int]@ == tv.outputs[
                        q as int]);
                    lemma_out_vals_bounds(tv.outputs.take(q as int));
                    lemma_sum_fits(q as int);
                    lemma_out_vals_push(tv.outputs.take(q as int), tv.outputs[q as int]);
                    assert(tv.outputs.take(q + 1) =~= tv.outputs.take(q as int).push(
                        tv.outputs[q as int],
                    ));
                }
                tout = tout + (ov as u128);
                q = q + 1;
            }
            proof {
                assert(tv.outputs.take(no as int) =~= tv.outputs);
            }
            if tin < tout {
                proof {
                    assert(check_txs(region.skip(i - 1), seen0, u) == Some(
                        crate::error::BtcError::InvalidTransaction,
                    ));
                }
                return Err(crate::error::BtcError::InvalidTransaction);
            }
            proof {
                assert(check_txs(region.skip(i - 1), seen0, u) == check_txs(
                    region.skip(i as int),
                    seen0 + prevs(tv.inputs),
                    u,
                ));
                assert(seen@ == seen0 + prevs(tv.inputs));
            }
            i = i + 1;
        }
        proof {
            assert(region.skip(n - 1) =~= Seq::<TxV>::empty());
            assert(check_txs(Seq::<TxV>::empty(), seen@, u) is None);
        }
        Ok(())
    }
}

/// Whatever a retarget step reads is in range: when the chain length is a
/// positive multiple of the update interval, the newest timestamp is not
/// before the one an interval ago.
pub open spec fn retarget_ready(blocks: Seq<BlockV>) -> bool {
    (blocks.len() > 0 && blocks.len() % (crate::DIFFICULTY_UPDATE_INTERVAL as nat) == 0)
        ==> blocks.last().header.timestamp >= blocks[blocks.len() - (
    crate::DIFFICULTY_UPDATE_INTERVAL as int)].header.timestamp
}

/// Seconds between the newest block and the one an interval ago.
pub open spec fn elapsed_secs(blocks: Seq<BlockV>) -> int {
    (blocks.last().header.timestamp - blocks[blocks.len() - (
    crate::DIFFICULTY_UPDATE_INTERVAL as int)].header.timestamp) / 1000
}

/// The target after the adjustment that follows appending a block: unchanged
/// off the interval boundary, else the clamped retarget rule.
pub open spec fn retarget_step(blocks: Seq<BlockV>, t: int) -> int {
    if blocks.len() == 0 || blocks.len() % (crate::DIFFICULTY_UPDATE_INTERVAL as nat) != 0 {
        t
    } else {
        crate::u256::retarget_spec(
            t,
            elapsed_secs(blocks),
            (crate::IDEAL_BLOCK_TIME * crate::DIFFICULTY_UPDATE_INTERVAL) as int,
        )
    }
}

/// Off the interval boundary the adjustment is a no-op.
pub proof fn lemma_retarget_noop(blocks: Seq<BlockV>, t: int)
    requires
        blocks.len() % (crate::DIFFICULTY_UPDATE_INTERVAL as nat) != 0,
    ensures
        retarget_step(blocks, t) == t,
{
}

impl Blockchain {
    /// Adjusts the difficulty target when the chain length is a positive
    /// multiple of `DIFFICULTY_UPDATE_INTERVAL`; otherwise does nothing.
    pub fn try_adjust_target(&mut self)
        requires
            retarget_ready(old(self)@.blocks),
        ensures
            final(self)@.blocks == old(self)@.blocks,
            final(self)@.mempool == old(self)@.mempool,
            final(self)@.utxos == old(self)@.utxos,
            crate::u256::u256_val(final(self)@.target) == retarget_step(
                old(self)@.blocks,
                crate::u256::u256_val(old(self)@.target),
            ),
    {
        let n = self.blocks.len();
        if n == 0 {
            return;
        }
        let interval: usize = 50;
        proof {
            assert(interval as int == crate::DIFFICULTY_UPDATE_INTERVAL as int);
        }
        if n % interval != 0 {
            return;
        }
        let ghost bv = self@.blocks;
        let start = self.blocks[n - interval].header.timestamp;
        let end = self.blocks[n - 1].header.timestamp;
        proof {
            assert(self.blocks@[n - interval]@ == bv[n - interval]);
            assert(self.blocks@[n - 1]@ == bv[n - 1]);
            assert(bv[n - 1] == bv.last());
            assert(end >= start);
        }
        let d128: i128 = (end as i128) - (start as i128);
        let du: u128 = d128 as u128;
        let secs: u128 = du / 1000;
        proof {
            assert(du == end - start);
            assert(secs == elapsed_secs(bv));
            assert(secs <= du) by {
                vstd::arithmetic::div_mod::lemma_div_is_ordered_by_denominator(
                    du as int,
                    1,
                    1000,
                );
            }
            assert(du <= 0xffffffffffffffffffffffffffffffff);
            assert(secs < 0x10000000000000000) by {
                assert(du < 0x100000000000000000000000000000000);
            }
        }
        let e64: u64 = secs as u64;
        let ideal: u64 = crate::IDEAL_BLOCK_TIME * crate::DIFFICULTY_UPDATE_INTERVAL;
        let newt = self.target.retarget(e64, ideal);
        self.target = newt;
    }
}

/// Whether the transaction of `e` appears in `txs`, compared by digest.
pub open spec fn entry_in_block(e: MempoolEntryV, txs: Seq<TxV>) -> bool {
    exists|j: int| 0 <= j < txs.len() && crate::types::tx_hash(#[trigger] txs[j])
        == crate::types::tx_hash(e.transaction)
}

/// The mempool entries whose transactions a block did not include.
pub open spec fn prune_mempool(mp: Seq<MempoolEntryV>, txs: Seq<TxV>) -> Seq<MempoolEntryV>
    decreases mp.len(),
{
    if mp.len() == 0 {
        Seq::empty()
    } else {
        prune_mempool(mp.drop_last(), txs) + (if entry_in_block(mp.last(), txs) {
            Seq::empty()
        } else {
            seq![mp.last()]
        })
    }
}


/// Appending a block that passes the non-genesis checks keeps the chain
/// linked.
pub proof fn lemma_chain_linked_push(blocks: Seq<BlockV>, b: BlockV)
    requires
        chain_linked(blocks),
        blocks.len() > 0 ==> {
            &&& b.header.prev_block_hash == crate::types::block_hash(blocks.last())
            &&& crate::sha256::hash_val(crate::types::header_hash(b.header))
                <= crate::u256::u256_val(b.header.target)
            &&& b.header.timestamp > blocks.last().header.timestamp
            &&& b.header.merkle_root == crate::util::MerkleRoot(
                crate::util::merkle_root_of(b.transactions),
            )
        },
    ensures
        chain_linked(blocks.push(b)),
{
    let nb = blocks.push(b);
    assert forall|i: int| 1 <= i < nb.len() implies {
        &&& (#[trigger] nb[i]).header.prev_block_hash == crate::types::block_hash(nb[i - 1])
        &&& crate::sha256::hash_val(crate::types::header_hash(nb[i].header))
            <= crate::u256::u256_val(nb[i].header.target)
        &&& nb[i].header.timestamp > nb[i - 1].header.timestamp
        &&& nb[i].header.merkle_root == crate::util::MerkleRoot(
            crate::util::merkle_root_of(nb[i].transactions),
        )
    } by {
        if i < blocks.len() {
            assert(nb[i] == blocks[i]);
            assert(nb[i - 1] == blocks[i - 1]);
        } else {
            assert(nb[i] == b);
            assert(nb[i - 1] == blocks[i - 1]);
            assert(blocks[i - 1] == blocks.last());
        }
    }
}

impl Blockchain {
    /// Removes from the mempool every transaction the block includes.
    fn prune_included(&mut self, block: &Block)
        ensures
            final(self)@.mempool == prune_mempool(old(self)@.mempool, block@.transactions),
            final(self)@.blocks == old(self)@.blocks,
            final(self)@.utxos == old(self)@.utxos,
            final(self)@.target == old(self)@.target,
    {
        let ghost mpv = self@.mempool;
        let ghost txsv = block@.transactions;
        let mut bh: Vec<crate::sha256::Hash> = Vec::new();
        let mut j: usize = 0;
        while j < block.transactions.len()
            invariant
                j <= block@.transactions.len(),
                txsv == block@.transactions,
                bh@.len() == j,
                forall|x: int| 0 <= x < j ==> bh@[x] == crate::types::tx_hash(#[trigger] txsv[x]),
            decreases block@.transactions.len() - j,
        {
            let h = block.transactions[j].hash();
            proof {
                assert(block.transactions@[j as int]@ == txsv[j as int]);
            }
            bh.push(h);
            j = j + 1;
        }
        let mut mp: Vec<MempoolEntry> = Vec::new();
        core::mem::swap(&mut self.mempool, &mut mp);
        let ghost total = mp@.len();
        let mut kept: Vec<MempoolEntry> = Vec::new();
        let mut t: usize = 0;
        proof {
            assert(mpv.take(0) =~= Seq::<MempoolEntryV>::empty());
            assert(kept.deep_view() =~= prune_mempool(mpv.take(0), txsv));
        }
        while t < mp.len()
            invariant
                t <= mp@.len(),
                mp.deep_view() == mpv,
                txsv == block@.transactions,
                bh@.len() == txsv.len(),
                forall|x: int|
                    0 <= x < txsv.len() ==> bh@[x] == crate::types::tx_hash(#[trigger] txsv[x]),
                kept.deep_view() == prune_mempool(mpv.take(t as int), txsv),
            decreases mp@.len() - t,
        {
            let h = mp[t].transaction.hash();
            proof {
                assert(mp@[t as int]@ == mpv[t as int]);
                assert(h == crate::types::tx_hash(mpv[t as int].transaction));
            }
            let inblock = contains_hash(&bh, &h);
            proof {
                assert(inblock == entry_in_block(mpv[t as int], txsv)) by {
                    if bh@.contains(h) {
                        let x = choose|x: int| 0 <= x < bh@.len() && bh@[x] == h;
                        assert(crate::types::tx_hash(txsv[x]) == crate::types::tx_hash(
                            mpv[t as int].transaction,
                        ));
                    }
                    if entry_in_block(mpv[t as int], txsv) {
                        let x = choose|x: int|
                            0 <= x < txsv.len() && crate::types::tx_hash(#[trigger] txsv[x])
                                == crate::types::tx_hash(mpv[t as int].transaction);
                        assert(bh@[x] == h);
                    }
                }
                assert(mpv.take(t + 1) =~= mpv.take(t as int).push(mpv[t as int]));
                assert(prune_mempool(mpv.take(t + 1), txsv) == prune_mempool(
                    mpv.take(t as int),
                    txsv,
                ) + (if entry_in_block(mpv[t as int], txsv) {
                    Seq::<MempoolEntryV>::empty()
                } else {
                    seq![mpv[t as int]]
                })) by {
                    assert(mpv.take(t + 1).drop_last() =~= mpv.take(t as int));
                    assert(mpv.take(t + 1).last() == mpv[t as int]);
                }
            }
            if !inblock {
                let e = MempoolEntry {
                    time: mp[t].time,
                    transaction: Transaction {
                        inputs: clone_inputs(&mp[t].transaction.inputs),
                        outputs: clone_outputs(&mp[t].transaction.outputs),
                    },
                };
                proof {
                    assert(e@ == mpv[t as int]);
                }
                kept.push(e);
                proof {
                    assert forall|x: int| 0 <= x < kept.deep_view().len() implies #[trigger] kept
                        .deep_view()[x] == (prune_mempool(mpv.take(t as int), txsv) + seq![
                        mpv[t as int],
                    ])[x] by {
                        assert(kept.deep_view()[x] == kept@[x].deep_view());
                    }
                    assert(kept.deep_view() =~= prune_mempool(mpv.take(t as int), txsv) + seq![
                        mpv[t as int],
                    ]);
                }
            } else {
                proof {
                    assert(prune_mempool(mpv.take(t as int), txsv) + Seq::<
                        MempoolEntryV,
                    >::empty() =~= prune_mempool(mpv.take(t as int), txsv));
                }
            }
            t = t + 1;
        }
        proof {
            assert(mpv.take(total as int) =~= mpv);
        }
        self.mempool = kept;
    }
}

impl Blockchain {
    /// Accepts a candidate block: the genesis rule on an empty chain, else
    /// proof of work, linkage, Merkle commitment, strictly advancing time,
    /// and the transaction rules; on success the block is appended, included
    /// transactions leave the mempool, and the difficulty may adjust. On
    /// failure the state is unchanged and the error says which rule failed.
    #[verifier::rlimit(100)]
    pub fn add_block(&mut self, block: Block) -> (r: Result<(), crate::error::BtcError>)
        requires
            old(self).wf(),
        ensures
            final(self).wf(),
            final(self)@.utxos == old(self)@.utxos,
            match r {
                Ok(()) => {
                    &&& add_block_check(old(self)@.blocks, umap(old(self)@.utxos), block@) is None
                    &&& final(self)@.blocks == old(self)@.blocks.push(block@)
                    &&& final(self)@.mempool == prune_mempool(
                        old(self)@.mempool,
                        block@.transactions,
                    )
                    &&& crate::u256::u256_val(final(self)@.target) == retarget_step(
                        old(self)@.blocks.push(block@),
                        crate::u256::u256_val(old(self)@.target),
                    )
                },
                Err(e) => {
                    &&& add_block_check(old(self)@.blocks, umap(old(self)@.utxos), block@) == Some(
                        e,
                    )
                    &&& final(self)@ == old(self)@
                },
            },
    {
        let ghost bv = self@.blocks;
        let ghost u = umap(self@.utxos);
        let n = self.blocks.len();
        if n == 0 {
            if !(block.header.prev_block_hash == crate::sha256::Hash::zero()) {
                return Err(crate::error::BtcError::InvalidBlock);
            }
        } else {
            proof {
                assert(self.blocks@[n - 1]@ == bv[n - 1]);
                assert(bv[n - 1] == bv.last());
            }
            if !block.header.hash().matches_target(block.header.target) {
                return Err(crate::error::BtcError::InvalidBlock);
            }
            let last_hash = self.blocks[n - 1].hash();
            if !(block.header.prev_block_hash == last_hash) {
                return Err(crate::error::BtcError::InvalidBlock);
            }
            let root = crate::util::MerkleRoot::calculate(&block.transactions);
            if !(root == block.header.merkle_root) {
                return Err(crate::error::BtcError::InvalidMerkleRoot);
            }
            if block.header.timestamp <= self.blocks[n - 1].header.timestamp {
                return Err(crate::error::BtcError::InvalidBlock);
            }
            let height = self.block_height();
            match block.verify_transactions(height, &self.utxos) {
                Err(e) => {
                    return Err(e);
                },
                Ok(()) => {},
            }
        }
        self.prune_included(&block);
        // Append and retarget.
        let ghost oldblocks = bv;
        self.blocks.push(block);
        proof {
            assert(self@.blocks =~= oldblocks.push(block@));
            lemma_chain_linked_push(oldblocks, block@);
            if self@.blocks.len() % (crate::DIFFICULTY_UPDATE_INTERVAL as nat) == 0 {
                lemma_timestamps_mono(
                    self@.blocks,
                    self@.blocks.len() - (crate::DIFFICULTY_UPDATE_INTERVAL as int),
                    self@.blocks.len() - 1,
                );
            }
        }
        self.try_adjust_target();
        Ok(())
    }
}

/// A field-exact copy of a list of inputs.
fn clone_inputs(v: &Vec<crate::types::TransactionInput>) -> (r: Vec<
    crate::types::TransactionInput,
>)
    ensures
        r.deep_view() == v.deep_view(),
{
    let mut out: Vec<crate::types::TransactionInput> = Vec::new();
    let mut i: usize = 0;
    while i < v.len()
        invariant
            i <= v@.len(),
            out@.len() == i,
            forall|x: int| 0 <= x < i ==> (#[trigger] out@[x])@ == v@[x]@,
        decreases v@.len() - i,
    {
        let mut sig: Vec<u8> = Vec::new();
        sig.extend_from_slice(v[i].signature.bytes.as_slice());
        proof {
            assert(sig@ =~= v@[i as int].signature.bytes@);
        }
        let e = crate::types::TransactionInput {
            prev_transaction_output_hash: v[i].prev_transaction_output_hash,
            signature: crate::crypto::Signature { bytes: sig },
        };
        proof {
            assert(e@ == v@[i as int]@);
        }
        out.push(e);
        i = i + 1;
    }
    proof {
        assert forall|x: int| 0 <= x < out.deep_view().len() implies #[trigger] out.deep_view()[x]
            == v.deep_view()[x] by {
            assert(out.deep_view()[x] == out@[x].deep_view());
            assert(v.deep_view()[x] == v@[x].deep_view());
        }
        assert(out.deep_view() =~= v.deep_view());
    }
    out
}

/// A field-exact copy of a list of outputs.
fn clone_outputs(v: &Vec<TransactionOutput>) -> (r: Vec<TransactionOutput>)
    ensures
        r.deep_view() == v.deep_view(),
{
    let mut out: Vec<TransactionOutput> = Vec::new();
    let mut i: usize = 0;
    while i < v.len()
        invariant
            i <= v@.len(),
            out@.len() == i,
            forall|x: int| 0 <= x < i ==> (#[trigger] out@[x])@ == v@[x]@,
        decreases v@.len() - i,
    {
        let mut pk: Vec<u8> = Vec::new();
        pk.extend_from_slice(v[i].pubkey.bytes.as_slice());
        proof {
            assert(pk@ =~= v@[i as int].pubkey.bytes@);
        }
        let e = TransactionOutput {
            value: v[i].value,
            unique_id: v[i].unique_id,
            pubkey: crate::crypto::PublicKey { bytes: pk },
        };
        proof {
            assert(e@ == v@[i as int]@);
        }
        out.push(e);
        i = i + 1;
    }
    proof {
        assert forall|x: int| 0 <= x < out.deep_view().len() implies #[trigger] out.deep_view()[x]
            == v.deep_view()[x] by {
            assert(out.deep_view()[x] == out@[x].deep_view());
            assert(v.deep_view()[x] == v@[x].deep_view());
        }
        assert(out.deep_view() =~= v.deep_view());
    }
    out
}

// ---------------------------------------------------------------------------
// Mempool admission and cleanup
// ---------------------------------------------------------------------------

/// Whether `h` is among the inputs of `t`.
pub open spec fn tx_has_input(t: TxV, h: crate::sha256::Hash) -> bool {
    exists|k: int| 0 <= k < t.inputs.len() && (#[trigger] t.inputs[k]).prev == h
}

/// Index of the first mempool entry whose transaction spends `h`.
pub open spec fn find_reserver(mp: Seq<MempoolEntryV>, h: crate::sha256::Hash) -> Option<int>
    decreases mp.len(),
{
    if mp.len() == 0 {
        None
    } else if tx_has_input(mp[0].transaction, h) {
        Some(0int)
    } else {
        match find_reserver(mp.skip(1), h) {
            None => None,
            Some(i) => Some(i + 1),
        }
    }
}

/// Clears the reserved flag of every digest in `s`.
pub open spec fn unreserve_list(
    u: Map<crate::sha256::Hash, (bool, TxOutV)>,
    s: Seq<crate::types::TxInV>,
) -> Map<crate::sha256::Hash, (bool, TxOutV)>
    decreases s.len(),
{
    if s.len() == 0 {
        u
    } else {
        unreserve_list(set_flag(u, s[0].prev, false), s.skip(1))
    }
}

/// Sets the reserved flag of every digest in `s`.
pub open spec fn reserve_list(
    u: Map<crate::sha256::Hash, (bool, TxOutV)>,
    s: Seq<crate::types::TxInV>,
) -> Map<crate::sha256::Hash, (bool, TxOutV)>
    decreases s.len(),
{
    if s.len() == 0 {
        u
    } else {
        reserve_list(set_flag(u, s[0].prev, true), s.skip(1))
    }
}

/// Resolves one conflict: when `h` is reserved, the first mempool entry
/// spending it is evicted and its reservations cleared; a reservation with no
/// owner is just cleared.
pub open spec fn evict_step(
    u: Map<crate::sha256::Hash, (bool, TxOutV)>,
    mp: Seq<MempoolEntryV>,
    h: crate::sha256::Hash,
) -> (Map<crate::sha256::Hash, (bool, TxOutV)>, Seq<MempoolEntryV>) {
    if u.contains_key(h) && u[h].0 {
        match find_reserver(mp, h) {
            Some(i) => (unreserve_list(u, mp[i].transaction.inputs), mp.remove(i)),
            None => (set_flag(u, h, false), mp),
        }
    } else {
        (u, mp)
    }
}

/// Conflict resolution for every input of the candidate, in order.
pub open spec fn evict_all(
    u: Map<crate::sha256::Hash, (bool, TxOutV)>,
    mp: Seq<MempoolEntryV>,
    inputs: Seq<crate::types::TxInV>,
) -> (Map<crate::sha256::Hash, (bool, TxOutV)>, Seq<MempoolEntryV>)
    decreases inputs.len(),
{
    if inputs.len() == 0 {
        (u, mp)
    } else {
        let st = evict_step(u, mp, inputs[0].prev);
        evict_all(st.0, st.1, inputs.skip(1))
    }
}

/// The miner fee of a transaction against a UTXO snapshot.
pub open spec fn fee_of(t: TxV, u: Map<crate::sha256::Hash, (bool, TxOutV)>) -> int {
    hash_vals(prevs(t.inputs), u) - out_vals(t.outputs)
}

/// Where a transaction of fee `f` goes in a fee-sorted mempool: after every
/// entry whose fee is at most `f`.
pub open spec fn insert_pos(
    mp: Seq<MempoolEntryV>,
    u: Map<crate::sha256::Hash, (bool, TxOutV)>,
    f: int,
) -> int
    decreases mp.len(),
{
    if mp.len() == 0 {
        0
    } else if fee_of(mp[0].transaction, u) <= f {
        1 + insert_pos(mp.skip(1), u, f)
    } else {
        0
    }
}

/// Every input of the candidate refers to a bound UTXO.
pub open spec fn tx_inputs_present(t: TxV, u: Map<crate::sha256::Hash, (bool, TxOutV)>) -> bool {
    forall|k: int| 0 <= k < t.inputs.len() ==> u.contains_key((#[trigger] t.inputs[k]).prev)
}

/// No digest is spent twice within the candidate.
pub open spec fn tx_inputs_distinct(t: TxV) -> bool {
    forall|k: int, l: int|
        0 <= k < l < t.inputs.len() ==> (#[trigger] t.inputs[k]).prev != (
        #[trigger] t.inputs[l]).prev
}

/// Every input of every mempool entry refers to a bound UTXO; what fee
/// computation and admission rely on.
pub open spec fn mempool_basic(
    mp: Seq<MempoolEntryV>,
    u: Map<crate::sha256::Hash, (bool, TxOutV)>,
) -> bool {
    forall|i: int|
        0 <= i < mp.len() ==> tx_inputs_present((#[trigger] mp[i]).transaction, u)
}

/// Entries ordered by fee, lowest first.
pub open spec fn sorted_by_fee(
    mp: Seq<MempoolEntryV>,
    u: Map<crate::sha256::Hash, (bool, TxOutV)>,
) -> bool {
    forall|i: int, j: int|
        0 <= i <= j < mp.len() ==> fee_of((#[trigger] mp[i]).transaction, u) <= fee_of(
            (#[trigger] mp[j]).transaction,
            u,
        )
}

/// What cleanup keeps: entries not older than the age cutoff at time `now`.
pub open spec fn cleanup_keep(mp: Seq<MempoolEntryV>, now: i64) -> Seq<MempoolEntryV>
    decreases mp.len(),
{
    if mp.len() == 0 {
        Seq::empty()
    } else {
        cleanup_keep(mp.drop_last(), now) + (if now - mp.last().time > (
        crate::MAX_MEMPOOL_TRANSACTION_AGE * 1000) as int {
            Seq::empty()
        } else {
            seq![mp.last()]
        })
    }
}

/// The digests reserved by the entries cleanup drops.
pub open spec fn cleanup_unreserve(
    u: Map<crate::sha256::Hash, (bool, TxOutV)>,
    mp: Seq<MempoolEntryV>,
    now: i64,
) -> Map<crate::sha256::Hash, (bool, TxOutV)>
    decreases mp.len(),
{
    if mp.len() == 0 {
        u
    } else {
        let rest = cleanup_unreserve(u, mp.drop_last(), now);
        if now - mp.last().time > (crate::MAX_MEMPOOL_TRANSACTION_AGE * 1000) as int {
            unreserve_list(rest, mp.last().transaction.inputs)
        } else {
            rest
        }
    }
}

impl Blockchain {
    /// Evicts every mempool entry older than `MAX_MEMPOOL_TRANSACTION_AGE`
    /// seconds at time `now` and clears the reservations those entries held.
    pub fn cleanup_mempool_at(&mut self, now: i64)
        requires
            old(self).utxos_wf(),
        ensures
            final(self).utxos_wf(),
            final(self)@.blocks == old(self)@.blocks,
            final(self)@.target == old(self)@.target,
            final(self)@.mempool == cleanup_keep(old(self)@.mempool, now),
            umap(final(self)@.utxos) == cleanup_unreserve(
                umap(old(self)@.utxos),
                old(self)@.mempool,
                now,
            ),
    {
        let ghost mpv = self@.mempool;
        let ghost u0 = umap(self@.utxos);
        let mut mp: Vec<MempoolEntry> = Vec::new();
        core::mem::swap(&mut self.mempool, &mut mp);
        let mut kept: Vec<MempoolEntry> = Vec::new();
        let mut t: usize = 0;
        let total = mp.len();
        proof {
            assert(mpv.take(0) =~= Seq::<MempoolEntryV>::empty());
            assert(kept.deep_view() =~= cleanup_keep(mpv.take(0), now));
        }
        while t < total
            invariant
                t <= total,
                total == mp@.len(),
                mp.deep_view() == mpv,
                old(self).utxos_wf(),
                self.utxos.wf(),
                self@.blocks == old(self)@.blocks,
                self@.target == old(self)@.target,
                kept.deep_view() == cleanup_keep(mpv.take(t as int), now),
                umap(self@.utxos) == cleanup_unreserve(u0, mpv.take(t as int), now),
                u0 == umap(old(self)@.utxos),
            decreases total - t,
        {
            let ghost ev = mpv[t as int];
            proof {
                assert(mp@[t as int]@ == ev);
                assert(mpv.take(t + 1).drop_last() =~= mpv.take(t as int));
                assert(mpv.take(t + 1).last() == ev);
            }
            let age_ms: i128 = (now as i128) - (mp[t].time as i128);
            let stale = age_ms > (crate::MAX_MEMPOOL_TRANSACTION_AGE as i128) * 1000;
            proof {
                assert(stale == (now - ev.time > (crate::MAX_MEMPOOL_TRANSACTION_AGE
                    * 1000) as int));
            }
            if stale {
                let ghost ubefore = umap(self@.utxos);
                let ni = mp[t].transaction.inputs.len();
                let mut k: usize = 0;
                proof {
                    assert(ev.transaction.inputs.skip(0) =~= ev.transaction.inputs);
                }
                while k < ni
                    invariant
                        k <= ni,
                        t < total,
                        total == mp@.len(),
                        mp.deep_view() == mpv,
                        ev == mpv[t as int],
                        ni == ev.transaction.inputs.len(),
                        self.utxos.wf(),
                        self@.blocks == old(self)@.blocks,
                        self@.target == old(self)@.target,
                        self@.mempool == Seq::<MempoolEntryV>::empty() || true,
                        unreserve_list(ubefore, ev.transaction.inputs) == unreserve_list(
                            umap(self@.utxos),
                            ev.transaction.inputs.skip(k as int),
                        ),
                    decreases ni - k,
                {
                    let ph = mp[t].transaction.inputs[k].prev_transaction_output_hash;
                    proof {
                        assert(mp@[t as int]@ == ev);
                        assert(mp@[t as int].transaction.inputs@[k as int]@
                            == ev.transaction.inputs[k as int]);
                        assert(ev.transaction.inputs.skip(k as int)[0] == ev.transaction.inputs[
                        k as int]);
                        assert(ev.transaction.inputs.skip(k as int).skip(1)
                            =~= ev.transaction.inputs.skip(k + 1));
                    }
                    self.utxos.set_reserved(&ph, false);
                    k = k + 1;
                }
                proof {
                    assert(ev.transaction.inputs.skip(ni as int) =~= Seq::<
                        crate::types::TxInV,
                    >::empty());
                    assert(umap(self@.utxos) == unreserve_list(ubefore, ev.transaction.inputs));
                    assert(cleanup_keep(mpv.take(t + 1), now) =~= cleanup_keep(
                        mpv.take(t as int),
                        now,
                    ));
                }
            } else {
                let e = MempoolEntry {
                    time: mp[t].time,
                    transaction: Transaction {
                        inputs: clone_inputs(&mp[t].transaction.inputs),
                        outputs: clone_outputs(&mp[t].transaction.outputs),
                    },
                };
                proof {
                    assert(e@ == ev);
                }
                kept.push(e);
                proof {
                    assert forall|x: int| 0 <= x < kept.deep_view().len() implies #[trigger] kept
                        .deep_view()[x] == (cleanup_keep(mpv.take(t as int), now) + seq![ev])[x] by {
                        assert(kept.deep_view()[x] == kept@[x].deep_view());
                    }
                    assert(kept.deep_view() =~= cleanup_keep(mpv.take(t as int), now) + seq![ev]);
                }
            }
            t = t + 1;
        }
        proof {
            assert(mpv.take(total as int) =~= mpv);
        }
        self.mempool = kept;
    }

    /// Cleanup against the wall clock; the exact rule, for the time the call
    /// read, is `cleanup_mempool_at`.
    pub fn cleanup_mempool(&mut self)
        requires
            old(self).utxos_wf(),
        ensures
            final(self).utxos_wf(),
            final(self)@.blocks == old(self)@.blocks,
            final(self)@.target == old(self)@.target,
            exists|now: i64|
                final(self)@.mempool == cleanup_keep(old(self)@.mempool, now) && umap(
                    final(self)@.utxos,
                ) == cleanup_unreserve(umap(old(self)@.utxos), old(self)@.mempool, now),
    {
        let now = crate::util::now_millis();
        self.cleanup_mempool_at(now);
    }
}

/// Identity on timestamps; a quantifier handle.
pub open spec fn spec_i64(x: i64) -> i64 {
    x
}

/// What mempool admission at time `now` does: reject a candidate with a
/// missing or repeated input untouched; resolve conflicts, and reject an
/// insolvent candidate with the conflicts resolved; otherwise reserve the
/// candidate's inputs and insert it in fee order.
pub open spec fn admit_post(c0: ChainV, c1: ChainV, tv: TxV, ok: bool, now: i64) -> bool {
    let u0 = umap(c0.utxos);
    let mp0 = c0.mempool;
    let ev = evict_all(u0, mp0, tv.inputs);
    if !(tx_inputs_present(tv, u0) && tx_inputs_distinct(tv)) {
        !ok && c1 == c0
    } else if fee_of(tv, ev.0) < 0 {
        !ok && umap(c1.utxos) == ev.0 && c1.mempool == ev.1
    } else {
        let u1 = reserve_list(ev.0, tv.inputs);
        ok && umap(c1.utxos) == u1 && c1.mempool == ev.1.insert(
            insert_pos(ev.1, u1, fee_of(tv, u1)),
            MempoolEntryV { time: now, transaction: tv },
        )
    }
}

/// Whether the transaction spends `h`.
fn tx_has_input_exec(t: &Transaction, h: &crate::sha256::Hash) -> (r: bool)
    ensures
        r == tx_has_input(t@, *h),
{
    let mut k: usize = 0;
    while k < t.inputs.len()
        invariant
            k <= t@.inputs.len(),
            t@.inputs.len() == t.inputs@.len(),
            forall|x: int| 0 <= x < k ==> (#[trigger] t@.inputs[x]).prev != *h,
        decreases t@.inputs.len() - k,
    {
        proof {
            assert(t.inputs@[k as int]@ == t@.inputs[k as int]);
        }
        if t.inputs[k].prev_transaction_output_hash == *h {
            return true;
        }
        k = k + 1;
    }
    proof {
        if tx_has_input(t@, *h) {
            let x = choose|x: int| 0 <= x < t@.inputs.len() && (#[trigger] t@.inputs[x]).prev
                == *h;
        }
    }
    false
}

impl Blockchain {
    /// Index of the first mempool entry spending `h`, if any.
    fn find_reserver_exec(&self, h: &crate::sha256::Hash) -> (r: Option<usize>)
        ensures
            match r {
                Some(i) => 0 <= i < self@.mempool.len() && find_reserver(self@.mempool, *h)
                    == Some(i as int),
                None => find_reserver(self@.mempool, *h) is None,
            },
    {
        let ghost mpv = self@.mempool;
        let n = self.mempool.len();
        let mut i: usize = 0;
        proof {
            assert(mpv.skip(0) =~= mpv);
        }
        while i < n
            invariant
                i <= n,
                n == mpv.len(),
                mpv == self@.mempool,
                self@.mempool.len() == self.mempool@.len(),
                find_reserver(mpv, *h) == (match find_reserver(mpv.skip(i as int), *h) {
                    None => None::<int>,
                    Some(x) => Some(x + i),
                }),
            decreases n - i,
        {
            proof {
                assert(self.mempool@[i as int]@ == mpv[i as int]);
                assert(mpv.skip(i as int)[0] == mpv[i as int]);
                assert(mpv.skip(i as int).skip(1) =~= mpv.skip(i + 1));
            }
            if tx_has_input_exec(&self.mempool[i].transaction, h) {
                return Some(i);
            }
            i = i + 1;
        }
        proof {
            assert(mpv.skip(n as int) =~= Seq::<MempoolEntryV>::empty());
        }
        None
    }

    /// Admits a transaction to the mempool at time `now`: inputs must exist
    /// and be distinct; reservations it conflicts with evict their holders;
    /// it must not spend more than it has; then its inputs are reserved and
    /// it is inserted in fee order. On an input error before conflict
    /// resolution the state is unchanged; an insolvent transaction leaves the
    /// conflict resolution in place, as the pipeline orders it.
    #[verifier::rlimit(100)]
    pub fn add_to_mempool_at(&mut self, transaction: Transaction, now: i64) -> (r: Result<
        (),
        crate::error::BtcError,
    >)
        requires
            old(self).utxos_wf(),
            mempool_basic(old(self)@.mempool, umap(old(self)@.utxos)),
        ensures
            final(self).utxos_wf(),
            final(self)@.blocks == old(self)@.blocks,
            final(self)@.target == old(self)@.target,
            admit_post(old(self)@, final(self)@, transaction@, r is Ok, now),
            r is Err ==> r == Err::<(), crate::error::BtcError>(
                crate::error::BtcError::InvalidTransaction,
            ),
    {
        let ghost u0 = umap(self@.utxos);
        let ghost mp0 = self@.mempool;
        let ghost tv = transaction@;
        let ni = transaction.inputs.len();
        // Referential integrity and intra-transaction double spends.
        let mut k: usize = 0;
        while k < ni
            invariant
                k <= ni,
                tv == transaction@,
                ni == tv.inputs.len(),
                tv.inputs.len() == transaction.inputs@.len(),
                u0 == umap(self@.utxos),
                self.utxos.wf(),
                self@ == old(self)@,
                forall|x: int| 0 <= x < k ==> u0.contains_key((#[trigger] tv.inputs[x]).prev),
                forall|x: int, y: int|
                    0 <= x < y < k ==> (#[trigger] tv.inputs[x]).prev != (
                    #[trigger] tv.inputs[y]).prev,
            decreases ni - k,
        {
            proof {
                assert(transaction.inputs@[k as int]@ == tv.inputs[k as int]);
            }
            let h = transaction.inputs[k].prev_transaction_output_hash;
            if !self.utxos.contains(&h) {
                proof {
                    assert(!tx_inputs_present(tv, u0));
                }
                return Err(crate::error::BtcError::InvalidTransaction);
            }
            let mut j: usize = 0;
            while j < k
                invariant
                    j <= k < ni,
                    tv == transaction@,
                    ni == tv.inputs.len(),
                    tv.inputs.len() == transaction.inputs@.len(),
                    h == tv.inputs[k as int].prev,
                    self.utxos.wf(),
                    self@ == old(self)@,
                    forall|x: int| 0 <= x < j ==> (#[trigger] tv.inputs[x]).prev != h,
                decreases k - j,
            {
                proof {
                    assert(transaction.inputs@[j as int]@ == tv.inputs[j as int]);
                }
                if transaction.inputs[j].prev_transaction_output_hash == h {
                    proof {
                        assert(!tx_inputs_distinct(tv));
                    }
                    return Err(crate::error::BtcError::InvalidTransaction);
                }
                j = j + 1;
            }
            k = k + 1;
        }
        proof {
            assert(tx_inputs_present(tv, u0));
            assert(tx_inputs_distinct(tv));
        }
        // Conflict resolution against reserved UTXOs.
        let mut k: usize = 0;
        proof {
            assert(tv.inputs.skip(0) =~= tv.inputs);
        }
        while k < ni
            invariant
                k <= ni,
                tv == transaction@,
                ni == tv.inputs.len(),
                tv.inputs.len() == transaction.inputs@.len(),
                self.utxos.wf(),
                self@.blocks == old(self)@.blocks,
                self@.target == old(self)@.target,
                evict_all(u0, mp0, tv.inputs) == evict_all(
                    umap(self@.utxos),
                    self@.mempool,
                    tv.inputs.skip(k as int),
                ),
            decreases ni - k,
        {
            proof {
                assert(transaction.inputs@[k as int]@ == tv.inputs[k as int]);
                assert(tv.inputs.skip(k as int)[0] == tv.inputs[k as int]);
                assert(tv.inputs.skip(k as int).skip(1) =~= tv.inputs.skip(k + 1));
            }
            let h = transaction.inputs[k].prev_transaction_output_hash;
            let ghost ucur = umap(self@.utxos);
            let ghost mpcur = self@.mempool;
            let reserved = match self.utxos.get(&h) {
                Some(e) => e.reserved,
                None => false,
            };
            if reserved {
                match self.find_reserver_exec(&h) {
                    Some(i) => {
                        let ghost evicted = mpcur[i as int];
                        let ghost ubefore = umap(self@.utxos);
                        let nk = self.mempool[i].transaction.inputs.len();
                        let mut k2: usize = 0;
                        proof {
                            assert(self.mempool@[i as int]@ == evicted);
                            assert(evicted.transaction.inputs.skip(0)
                                =~= evicted.transaction.inputs);
                        }
                        while k2 < nk
                            invariant
                                k2 <= nk,
                                i < self.mempool@.len(),
                                self.mempool@[i as int]@ == evicted,
                                nk == evicted.transaction.inputs.len(),
                                self.utxos.wf(),
                                self@.blocks == old(self)@.blocks,
                                self@.target == old(self)@.target,
                                self@.mempool == mpcur,
                                unreserve_list(ubefore, evicted.transaction.inputs)
                                    == unreserve_list(
                                    umap(self@.utxos),
                                    evicted.transaction.inputs.skip(k2 as int),
                                ),
                            decreases nk - k2,
                        {
                            proof {
                                assert(self.mempool@[i as int].transaction.inputs@[k2 as int]@
                                    == evicted.transaction.inputs[k2 as int]);
                                assert(evicted.transaction.inputs.skip(k2 as int)[0]
                                    == evicted.transaction.inputs[k2 as int]);
                                assert(evicted.transaction.inputs.skip(k2 as int).skip(1)
                                    =~= evicted.transaction.inputs.skip(k2 + 1));
                            }
                            let ph = self.mempool[i].transaction.inputs[k2]
                                .prev_transaction_output_hash;
                            self.utxos.set_reserved(&ph, false);
                            k2 = k2 + 1;
                        }
                        proof {
                            assert(evicted.transaction.inputs.skip(nk as int) =~= Seq::<
                                crate::types::TxInV,
                            >::empty());
                            assert(umap(self@.utxos) == unreserve_list(
                                ubefore,
                                evicted.transaction.inputs,
                            ));
                        }
                        self.mempool.remove(i);
                        proof {
                            assert(self@.mempool =~= mpcur.remove(i as int));
                        }
                    },
                    None => {
                        self.utxos.set_reserved(&h, false);
                    },
                }
            }
            k = k + 1;
        }
        proof {
            assert(tv.inputs.skip(ni as int) =~= Seq::<crate::types::TxInV>::empty());
        }
        let ghost ev = evict_all(u0, mp0, tv.inputs);
        proof {
            assert(umap(self@.utxos) == ev.0);
            assert(self@.mempool == ev.1);
        }
        // Solvency against the post-eviction snapshot.
        let tin = self.sum_inputs(&transaction);
        let tout = sum_outputs(&transaction);
        proof {
            assert(fee_of(tv, ev.0) == tin - tout);
        }
        if tin < tout {
            return Err(crate::error::BtcError::InvalidTransaction);
        }
        // Reserve the candidate's inputs.
        let ghost ubefore = umap(self@.utxos);
        let mut k: usize = 0;
        proof {
            assert(tv.inputs.skip(0) =~= tv.inputs);
        }
        while k < ni
            invariant
                k <= ni,
                tv == transaction@,
                ni == tv.inputs.len(),
                tv.inputs.len() == transaction.inputs@.len(),
                self.utxos.wf(),
                self@.blocks == old(self)@.blocks,
                self@.target == old(self)@.target,
                self@.mempool == ev.1,
                reserve_list(ubefore, tv.inputs) == reserve_list(
                    umap(self@.utxos),
                    tv.inputs.skip(k as int),
                ),
            decreases ni - k,
        {
            proof {
                assert(transaction.inputs@[k as int]@ == tv.inputs[k as int]);
                assert(tv.inputs.skip(k as int)[0] == tv.inputs[k as int]);
                assert(tv.inputs.skip(k as int).skip(1) =~= tv.inputs.skip(k + 1));
            }
            let ph = transaction.inputs[k].prev_transaction_output_hash;
            self.utxos.set_reserved(&ph, true);
            k = k + 1;
        }
        proof {
            assert(tv.inputs.skip(ni as int) =~= Seq::<crate::types::TxInV>::empty());
            assert(umap(self@.utxos) == reserve_list(ev.0, tv.inputs));
        }
        let ghost u1 = umap(self@.utxos);
        // Insert in fee order: after every entry with fee at most ours.
        let tin1 = self.sum_inputs(&transaction);
        proof {
            lemma_reserve_same_vals(ev.0, tv.inputs);
            lemma_hash_vals_same(prevs(tv.inputs), ev.0, u1);
            assert(tin1 - tout == fee_of(tv, u1));
        }
        let ghost myfee = fee_of(tv, u1);
        let ghost mpv = self@.mempool;
        let n = self.mempool.len();
        let mut pos: usize = 0;
        let mut stop = false;
        proof {
            assert(mpv.skip(0) =~= mpv);
        }
        while pos < n && !stop
            invariant
                pos <= n,
                n == mpv.len(),
                mpv == self@.mempool,
                self@.mempool.len() == self.mempool@.len(),
                self.utxos.wf(),
                u1 == umap(self@.utxos),
                myfee == fee_of(tv, u1),
                myfee == tin1 - tout,
                insert_pos(mpv, u1, myfee) == pos + insert_pos(mpv.skip(pos as int), u1, myfee),
                stop ==> (pos < n && fee_of(mpv[pos as int].transaction, u1) > myfee),
            decreases n - pos, (if stop { 0int } else { 1int }),
        {
            proof {
                assert(self.mempool@[pos as int]@ == mpv[pos as int]);
                assert(mpv.skip(pos as int)[0] == mpv[pos as int]);
                assert(mpv.skip(pos as int).skip(1) =~= mpv.skip(pos + 1));
            }
            let es = self.entry_sums(pos);
            if fee_le(es.0, es.1, tin1, tout) {
                proof {
                    assert(fee_of(mpv[pos as int].transaction, u1) <= myfee);
                    assert(insert_pos(mpv.skip(pos as int), u1, myfee) == 1 + insert_pos(
                        mpv.skip(pos + 1),
                        u1,
                        myfee,
                    ));
                }
                pos = pos + 1;
            } else {
                proof {
                    assert(fee_of(mpv[pos as int].transaction, u1) > myfee);
                }
                stop = true;
            }
        }
        proof {
            if !stop {
                assert(mpv.skip(n as int) =~= Seq::<MempoolEntryV>::empty());
            } else {
                assert(mpv.skip(pos as int)[0] == mpv[pos as int]);
            }
            assert(insert_pos(mpv, u1, myfee) == pos);
        }
        let e = MempoolEntry { time: now, transaction };
        self.mempool.insert(pos, e);
        proof {
            assert(self@.mempool =~= mpv.insert(
                pos as int,
                MempoolEntryV { time: now, transaction: tv },
            ));
        }
        Ok(())
    }

    /// Total value the transaction's inputs refer to in the UTXO set.
    fn sum_inputs(&self, transaction: &Transaction) -> (r: u128)
        requires
            self.utxos_wf(),
        ensures
            r == hash_vals(prevs(transaction@.inputs), umap(self@.utxos)),
            r >= 0,
    {
        let ghost u = umap(self@.utxos);
        let ghost pv = prevs(transaction@.inputs);
        let ni = transaction.inputs.len();
        let mut total: u128 = 0;
        let mut k: usize = 0;
        proof {
            assert(pv.take(0) =~= Seq::<crate::sha256::Hash>::empty());
        }
        while k < ni
            invariant
                k <= ni,
                ni == transaction@.inputs.len(),
                transaction@.inputs.len() == transaction.inputs@.len(),
                pv == prevs(transaction@.inputs),
                u == umap(self@.utxos),
                self.utxos_wf(),
                total == hash_vals(pv.take(k as int), u),
                total >= 0,
            decreases ni - k,
        {
            proof {
                assert(transaction.inputs@[k as int]@ == transaction@.inputs[k as int]);
                assert(pv[k as int] == transaction@.inputs[k as int].prev);
            }
            let h = transaction.inputs[k].prev_transaction_output_hash;
            let v: u64 = match self.utxos.get(&h) {
                Some(e) => e.output.value,
                None => 0,
            };
            proof {
                lemma_hash_vals_bounds(pv.take(k as int), u);
                lemma_sum_fits(k as int);
                lemma_hash_vals_push(pv.take(k as int), h, u);
                assert(pv.take(k + 1) =~= pv.take(k as int).push(h));
            }
            total = total + (v as u128);
            k = k + 1;
        }
        proof {
            assert(pv.take(ni as int) =~= pv);
        }
        total
    }

    /// Input and output totals of the entry at `i`, against the current
    /// UTXO values.
    fn entry_sums(&self, i: usize) -> (r: (u128, u128))
        requires
            self.utxos_wf(),
            i < self@.mempool.len(),
        ensures
            r.0 == hash_vals(prevs(self@.mempool[i as int].transaction.inputs), umap(self@.utxos)),
            r.1 == out_vals(self@.mempool[i as int].transaction.outputs),
    {
        proof {
            assert(self.mempool@[i as int]@ == self@.mempool[i as int]);
        }
        let tin = self.sum_inputs(&self.mempool[i].transaction);
        let tout = sum_outputs(&self.mempool[i].transaction);
        (tin, tout)
    }

    /// Mempool admission against the wall clock; the exact rule, for the
    /// admission time the call read, is `add_to_mempool_at`.
    pub fn add_to_mempool(&mut self, transaction: Transaction) -> (r: Result<
        (),
        crate::error::BtcError,
    >)
        requires
            old(self).utxos_wf(),
            mempool_basic(old(self)@.mempool, umap(old(self)@.utxos)),
        ensures
            final(self).utxos_wf(),
            final(self)@.blocks == old(self)@.blocks,
            final(self)@.target == old(self)@.target,
            r is Err ==> r == Err::<(), crate::error::BtcError>(
                crate::error::BtcError::InvalidTransaction,
            ),
            exists|now: i64|
                admit_post(old(self)@, final(self)@, transaction@, r is Ok, #[trigger] spec_i64(
                    now,
                )),
    {
        let now = crate::util::now_millis();
        let r = self.add_to_mempool_at(transaction, now);
        proof {
            assert(spec_i64(now) == now);
        }
        r
    }
}

/// Total value a transaction's outputs carry.
fn sum_outputs(transaction: &Transaction) -> (r: u128)
    ensures
        r == out_vals(transaction@.outputs),
        r >= 0,
{
    let ghost ov = transaction@.outputs;
    let no = transaction.outputs.len();
    let mut total: u128 = 0;
    let mut q: usize = 0;
    proof {
        assert(ov.take(0) =~= Seq::<TxOutV>::empty());
    }
    while q < no
        invariant
            q <= no,
            no == ov.len(),
            ov == transaction@.outputs,
            ov.len() == transaction.outputs@.len(),
            total == out_vals(ov.take(q as int)),
            total >= 0,
        decreases no - q,
    {
        proof {
            assert(transaction.outputs@[q as int]@ == ov[q as int]);
            lemma_out_vals_bounds(ov.take(q as int));
            lemma_sum_fits(q as int);
            lemma_out_vals_push(ov.take(q as int), ov[q as int]);
            assert(ov.take(q + 1) =~= ov.take(q as int).push(ov[q as int]));
        }
        total = total + (transaction.outputs[q].value as u128);
        q = q + 1;
    }
    proof {
        assert(ov.take(no as int) =~= ov);
    }
    total
}

/// Whether `a - b <= c - d`, computed without signed overflow.
fn fee_le(a: u128, b: u128, c: u128, d: u128) -> (r: bool)
    ensures
        r == (a - b <= c - d),
{
    if a <= c {
        if b >= d {
            true
        } else {
            d - b <= c - a
        }
    } else {
        if d >= b {
            false
        } else {
            a - c <= b - d
        }
    }
}

/// Two snapshots with the same domain and values (flags aside) give every
/// digest list the same total value.
pub proof fn lemma_hash_vals_same(
    s: Seq<crate::sha256::Hash>,
    u1: Map<crate::sha256::Hash, (bool, TxOutV)>,
    u2: Map<crate::sha256::Hash, (bool, TxOutV)>,
)
    requires
        forall|h: crate::sha256::Hash|
            u1.contains_key(h) <==> #[trigger] u2.contains_key(h),
        forall|h: crate::sha256::Hash| u1.contains_key(h) ==> u1[h].1 == #[trigger] u2[h].1,
    ensures
        hash_vals(s, u1) == hash_vals(s, u2),
    decreases s.len(),
{
    if s.len() > 0 {
        lemma_hash_vals_same(s.skip(1), u1, u2);
    }
}

/// Reserving digests changes no domain and no value.
pub proof fn lemma_reserve_same_vals(
    u: Map<crate::sha256::Hash, (bool, TxOutV)>,
    s: Seq<crate::types::TxInV>,
)
    ensures
        forall|h: crate::sha256::Hash|
            u.contains_key(h) <==> #[trigger] reserve_list(u, s).contains_key(h),
        forall|h: crate::sha256::Hash|
            u.contains_key(h) ==> u[h].1 == #[trigger] reserve_list(u, s)[h].1,
    decreases s.len(),
{
    if s.len() > 0 {
        let u2 = set_flag(u, s[0].prev, true);
        lemma_reserve_same_vals(u2, s.skip(1));
        assert(reserve_list(u, s) == reserve_list(u2, s.skip(1)));
        assert forall|h: crate::sha256::Hash|
            u.contains_key(h) <==> #[trigger] u2.contains_key(h) by {}
        assert forall|h: crate::sha256::Hash| u.contains_key(h) implies u[h].1 == #[trigger] u2[h].1
            by {}
        assert forall|h: crate::sha256::Hash|
            u.contains_key(h) <==> #[trigger] reserve_list(u, s).contains_key(h) by {
            assert(u2.contains_key(h) <==> reserve_list(u2, s.skip(1)).contains_key(h));
        }
        assert forall|h: crate::sha256::Hash| u.contains_key(h) implies u[h].1
            == #[trigger] reserve_list(u, s)[h].1 by {
            assert(u2.contains_key(h) ==> u2[h].1 == reserve_list(u2, s.skip(1))[h].1);
        }
    }
}

// ---------------------------------------------------------------------------
// Rebuilding the UTXO set from the chain
// ---------------------------------------------------------------------------

/// One step of the rebuild: drop a spent digest or bind a created output.
pub enum UtxoOp {
    Del(crate::sha256::Hash),
    Put(crate::sha256::Hash, TxOutV),
}

/// The digest an operation touches.
pub open spec fn op_key(op: UtxoOp) -> crate::sha256::Hash {
    match op {
        UtxoOp::Del(h) => h,
        UtxoOp::Put(h, _) => h,
    }
}

pub open spec fn apply_op(
    u: Map<crate::sha256::Hash, (bool, TxOutV)>,
    op: UtxoOp,
) -> Map<crate::sha256::Hash, (bool, TxOutV)> {
    match op {
        UtxoOp::Del(h) => u.remove(h),
        UtxoOp::Put(h, o) => u.insert(h, (false, o)),
    }
}

pub open spec fn apply_ops(
    u: Map<crate::sha256::Hash, (bool, TxOutV)>,
    ops: Seq<UtxoOp>,
) -> Map<crate::sha256::Hash, (bool, TxOutV)>
    decreases ops.len(),
{
    if ops.len() == 0 {
        u
    } else {
        apply_ops(apply_op(u, ops[0]), ops.skip(1))
    }
}

/// The operations one transaction contributes: remove what it spends, then
/// bind each output under the output's own digest, unreserved.
pub open spec fn tx_ops(t: TxV) -> Seq<UtxoOp> {
    Seq::new(t.inputs.len(), |k: int| UtxoOp::Del(t.inputs[k].prev)) + Seq::new(
        t.outputs.len(),
        |k: int| UtxoOp::Put(crate::types::txout_hash(t.outputs[k]), t.outputs[k]),
    )
}

pub open spec fn tx_ops_fn() -> spec_fn(TxV) -> Seq<UtxoOp> {
    |t: TxV| tx_ops(t)
}

pub open spec fn block_ops_fn() -> spec_fn(BlockV) -> Seq<UtxoOp> {
    |b: BlockV| cat_list(b.transactions, tx_ops_fn())
}

/// All the rebuild operations of a chain, in block and transaction order.
pub open spec fn chain_ops(blocks: Seq<BlockV>) -> Seq<UtxoOp> {
    cat_list(blocks, block_ops_fn())
}

pub proof fn lemma_apply_ops_push(
    u: Map<crate::sha256::Hash, (bool, TxOutV)>,
    ops: Seq<UtxoOp>,
    op: UtxoOp,
)
    ensures
        apply_ops(u, ops.push(op)) == apply_op(apply_ops(u, ops), op),
    decreases ops.len(),
{
    assert(apply_ops(u, ops.push(op)) == apply_ops(
        apply_op(u, ops.push(op)[0]),
        ops.push(op).skip(1),
    ));
    if ops.len() == 0 {
        assert(ops.push(op).skip(1) =~= Seq::<UtxoOp>::empty());
        assert(ops.push(op)[0] == op);
        assert(apply_ops(apply_op(u, op), Seq::<UtxoOp>::empty()) == apply_op(u, op));
        assert(apply_ops(u, Seq::<UtxoOp>::empty()) == u);
    } else {
        assert(ops.push(op).skip(1) =~= ops.skip(1).push(op));
        assert(ops.push(op)[0] == ops[0]);
        lemma_apply_ops_push(apply_op(u, ops[0]), ops.skip(1), op);
    }
}

/// Frame: a digest no operation touches keeps its binding.
pub proof fn lemma_apply_ops_frame(
    u: Map<crate::sha256::Hash, (bool, TxOutV)>,
    ops: Seq<UtxoOp>,
    h: crate::sha256::Hash,
)
    requires
        forall|i: int| 0 <= i < ops.len() ==> op_key(#[trigger] ops[i]) != h,
    ensures
        apply_ops(u, ops).contains_key(h) == u.contains_key(h),
        u.contains_key(h) ==> apply_ops(u, ops)[h] == u[h],
    decreases ops.len(),
{
    if ops.len() > 0 {
        assert(op_key(ops[0]) != h);
        lemma_apply_ops_frame(apply_op(u, ops[0]), ops.skip(1), h);
    }
}

/// A touched digest ends up the same whatever the starting map.
pub proof fn lemma_apply_ops_determined(
    u1: Map<crate::sha256::Hash, (bool, TxOutV)>,
    u2: Map<crate::sha256::Hash, (bool, TxOutV)>,
    ops: Seq<UtxoOp>,
    h: crate::sha256::Hash,
)
    requires
        exists|i: int| 0 <= i < ops.len() && op_key(#[trigger] ops[i]) == h,
    ensures
        apply_ops(u1, ops).contains_key(h) == apply_ops(u2, ops).contains_key(h),
        apply_ops(u1, ops).contains_key(h) ==> apply_ops(u1, ops)[h] == apply_ops(u2, ops)[h],
    decreases ops.len(),
{
    let i = choose|i: int| 0 <= i < ops.len() && op_key(#[trigger] ops[i]) == h;
    if exists|j: int| 0 <= j < ops.skip(1).len() && op_key(#[trigger] ops.skip(1)[j]) == h {
        lemma_apply_ops_determined(apply_op(u1, ops[0]), apply_op(u2, ops[0]), ops.skip(1), h);
    } else {
        assert(op_key(ops[0]) == h) by {
            if i > 0 {
                assert(op_key(ops.skip(1)[i - 1]) == h);
            }
        }
        assert forall|j: int| 0 <= j < ops.skip(1).len() implies op_key(#[trigger] ops.skip(1)[j])
            != h by {
            if op_key(ops.skip(1)[j]) == h {
                assert(exists|x: int|
                    0 <= x < ops.skip(1).len() && op_key(#[trigger] ops.skip(1)[x]) == h);
            }
        }
        lemma_apply_ops_frame(apply_op(u1, ops[0]), ops.skip(1), h);
        lemma_apply_ops_frame(apply_op(u2, ops[0]), ops.skip(1), h);
    }
}

/// Rebuilding twice from the same chain gives the same UTXO set as
/// rebuilding once: the rebuild is idempotent on an append-only chain.
pub proof fn lemma_rebuild_idempotent(
    u: Map<crate::sha256::Hash, (bool, TxOutV)>,
    blocks: Seq<BlockV>,
)
    ensures
        apply_ops(apply_ops(u, chain_ops(blocks)), chain_ops(blocks)) == apply_ops(
            u,
            chain_ops(blocks),
        ),
{
    let ops = chain_ops(blocks);
    let once = apply_ops(u, ops);
    let twice = apply_ops(once, ops);
    assert forall|h: crate::sha256::Hash|
        #![trigger once.contains_key(h)]
        #![trigger twice.contains_key(h)]
        twice.contains_key(h) == once.contains_key(h) && (once.contains_key(h) ==> twice[h]
            == once[h]) by {
        if exists|i: int| 0 <= i < ops.len() && op_key(#[trigger] ops[i]) == h {
            lemma_apply_ops_determined(once, u, ops, h);
        } else {
            lemma_apply_ops_frame(once, ops, h);
        }
    }
    assert(twice =~= once);
}

impl Blockchain {
    /// Replays the whole chain over the current UTXO set: every spent digest
    /// is dropped and every created output bound unreserved, in order.
    pub fn rebuild_utxos(&mut self)
        requires
            old(self).utxos_wf(),
        ensures
            final(self).utxos_wf(),
            final(self)@.blocks == old(self)@.blocks,
            final(self)@.mempool == old(self)@.mempool,
            final(self)@.target == old(self)@.target,
            umap(final(self)@.utxos) == apply_ops(
                umap(old(self)@.utxos),
                chain_ops(old(self)@.blocks),
            ),
    {
        let ghost u0 = umap(self@.utxos);
        let ghost bv = self@.blocks;
        let ghost done: Seq<UtxoOp> = Seq::empty();
        let nb = self.blocks.len();
        let mut i: usize = 0;
        proof {
            assert(bv.take(0) =~= Seq::<BlockV>::empty());
            assert(cat_list(bv.take(0), block_ops_fn()) == Seq::<UtxoOp>::empty());
        }
        while i < nb
            invariant
                i <= nb,
                nb == bv.len(),
                bv == self@.blocks,
                self@.blocks.len() == self.blocks@.len(),
                self@.mempool == old(self)@.mempool,
                self@.target == old(self)@.target,
                self.utxos.wf(),
                u0 == umap(old(self)@.utxos),
                umap(self@.utxos) == apply_ops(u0, cat_list(bv.take(i as int), block_ops_fn())),
            decreases nb - i,
        {
            let ghost blk = bv[i as int];
            let ghost base = cat_list(bv.take(i as int), block_ops_fn());
            let nt = self.blocks[i].transactions.len();
            let mut j: usize = 0;
            proof {
                assert(self.blocks@[i as int]@ == blk);
                assert(blk.transactions.take(0) =~= Seq::<TxV>::empty());
                assert(cat_list(blk.transactions.take(0), tx_ops_fn()) == Seq::<UtxoOp>::empty());
                assert(base + Seq::<UtxoOp>::empty() =~= base);
            }
            while j < nt
                invariant
                    j <= nt,
                    i < nb,
                    nb == bv.len(),
                    bv == self@.blocks,
                    self@.blocks.len() == self.blocks@.len(),
                    self@.mempool == old(self)@.mempool,
                    self@.target == old(self)@.target,
                    blk == bv[i as int],
                    self.blocks@[i as int]@ == blk,
                    nt == blk.transactions.len(),
                    self.utxos.wf(),
                    u0 == umap(old(self)@.utxos),
                    base == cat_list(bv.take(i as int), block_ops_fn()),
                    umap(self@.utxos) == apply_ops(
                        u0,
                        base + cat_list(blk.transactions.take(j as int), tx_ops_fn()),
                    ),
                decreases nt - j,
            {
                let ghost tv = blk.transactions[j as int];
                let ghost tbase = base + cat_list(blk.transactions.take(j as int), tx_ops_fn());
                let ghost dels = Seq::new(
                    tv.inputs.len(),
                    |k: int| UtxoOp::Del(tv.inputs[k].prev),
                );
                let ghost puts = Seq::new(
                    tv.outputs.len(),
                    |k: int| UtxoOp::Put(crate::types::txout_hash(tv.outputs[k]), tv.outputs[k]),
                );
                let ni = self.blocks[i].transactions[j].inputs.len();
                let mut k: usize = 0;
                proof {
                    assert(self.blocks@[i as int].transactions@[j as int]@ == tv);
                    assert(dels.take(0) =~= Seq::<UtxoOp>::empty());
                    assert(tbase + Seq::<UtxoOp>::empty() =~= tbase);
                }
                while k < ni
                    invariant
                        k <= ni,
                        i < nb,
                        j < nt,
                        nb == bv.len(),
                        bv == self@.blocks,
                        self@.blocks.len() == self.blocks@.len(),
                        self@.mempool == old(self)@.mempool,
                        self@.target == old(self)@.target,
                        blk == bv[i as int],
                        self.blocks@[i as int]@ == blk,
                        nt == blk.transactions.len(),
                        tv == blk.transactions[j as int],
                        self.blocks@[i as int].transactions@[j as int]@ == tv,
                        ni == tv.inputs.len(),
                        dels == Seq::new(
                            tv.inputs.len(),
                            |k: int| UtxoOp::Del(tv.inputs[k].prev),
                        ),
                        self.utxos.wf(),
                        u0 == umap(old(self)@.utxos),
                        umap(self@.utxos) == apply_ops(u0, tbase + dels.take(k as int)),
                    decreases ni - k,
                {
                    let ph = self.blocks[i].transactions[j].inputs[k].prev_transaction_output_hash;
                    proof {
                        assert(self.blocks@[i as int].transactions@[j as int].inputs@[k as int]@
                            == tv.inputs[k as int]);
                        assert(dels[k as int] == UtxoOp::Del(tv.inputs[k as int].prev));
                        lemma_apply_ops_push(u0, tbase + dels.take(k as int), dels[k as int]);
                        assert((tbase + dels.take(k as int)).push(dels[k as int]) =~= tbase
                            + dels.take(k + 1));
                    }
                    self.utxos.remove(&ph);
                    k = k + 1;
                }
                proof {
                    assert(dels.take(ni as int) =~= dels);
                }
                let no = self.blocks[i].transactions[j].outputs.len();
                let mut q: usize = 0;
                proof {
                    assert(puts.take(0) =~= Seq::<UtxoOp>::empty());
                    assert((tbase + dels) + Seq::<UtxoOp>::empty() =~= tbase + dels);
                }
                while q < no
                    invariant
                        q <= no,
                        i < nb,
                        j < nt,
                        nb == bv.len(),
                        bv == self@.blocks,
                        self@.blocks.len() == self.blocks@.len(),
                        self@.mempool == old(self)@.mempool,
                        self@.target == old(self)@.target,
                        blk == bv[i as int],
                        self.blocks@[i as int]@ == blk,
                        nt == blk.transactions.len(),
                        tv == blk.transactions[j as int],
                        self.blocks@[i as int].transactions@[j as int]@ == tv,
                        no == tv.outputs.len(),
                        puts == Seq::new(
                            tv.outputs.len(),
                            |k: int|
                                UtxoOp::Put(
                                    crate::types::txout_hash(tv.outputs[k]),
                                    tv.outputs[k],
                                ),
                        ),
                        self.utxos.wf(),
                        u0 == umap(old(self)@.utxos),
                        umap(self@.utxos) == apply_ops(u0, (tbase + dels) + puts.take(q as int)),
                    decreases no - q,
                {
                    let oh = self.blocks[i].transactions[j].outputs[q].hash();
                    proof {
                        assert(self.blocks@[i as int].transactions@[j as int].outputs@[q as int]@
                            == tv.outputs[q as int]);
                        assert(puts[q as int] == UtxoOp::Put(
                            crate::types::txout_hash(tv.outputs[q as int]),
                            tv.outputs[q as int],
                        ));
                        lemma_apply_ops_push(
                            u0,
                            (tbase + dels) + puts.take(q as int),
                            puts[q as int],
                        );
                        assert(((tbase + dels) + puts.take(q as int)).push(puts[q as int]) =~= (
                        tbase + dels) + puts.take(q + 1));
                    }
                    let out = clone_one_output(&self.blocks[i].transactions[j].outputs[q]);
                    self.utxos.insert(oh, false, out);
                    q = q + 1;
                }
                proof {
                    assert(puts.take(no as int) =~= puts);
                    assert(tx_ops_fn()(tv) == tx_ops(tv));
                    assert((tbase + dels) + puts =~= tbase + (dels + puts));
                    assert(tx_ops(tv) == dels + puts);
                    lemma_cat_list_push(blk.transactions.take(j as int), tv, tx_ops_fn());
                    assert(blk.transactions.take(j + 1) =~= blk.transactions.take(j as int).push(
                        tv,
                    ));
                    assert(base + (cat_list(blk.transactions.take(j as int), tx_ops_fn()) + tx_ops(
                        tv,
                    )) =~= tbase + tx_ops(tv));
                }
                j = j + 1;
            }
            proof {
                assert(blk.transactions.take(nt as int) =~= blk.transactions);
                assert(block_ops_fn()(blk) == cat_list(blk.transactions, tx_ops_fn()));
                lemma_cat_list_push(bv.take(i as int), blk, block_ops_fn());
                assert(bv.take(i + 1) =~= bv.take(i as int).push(blk));
            }
            i = i + 1;
        }
        proof {
            assert(bv.take(nb as int) =~= bv);
        }
    }
}

/// A field-exact copy of one output.
fn clone_one_output(v: &TransactionOutput) -> (r: TransactionOutput)
    ensures
        r@ == v@,
{
    let mut pk: Vec<u8> = Vec::new();
    pk.extend_from_slice(v.pubkey.bytes.as_slice());
    proof {
        assert(pk@ =~= v.pubkey.bytes@);
    }
    TransactionOutput {
        value: v.value,
        unique_id: v.unique_id,
        pubkey: crate::crypto::PublicKey { bytes: pk },
    }
}

// ---------------------------------------------------------------------------
// Laws of the mempool
// ---------------------------------------------------------------------------

/// The reservation invariant: every pending input exists and is reserved, no
/// two pending input slots spend one digest, and every reserved digest has a
/// pending spender.
pub open spec fn res_inv(
    mp: Seq<MempoolEntryV>,
    u: Map<crate::sha256::Hash, (bool, TxOutV)>,
) -> bool {
    &&& mempool_basic(mp, u)
    &&& (forall|i: int, k: int|
        0 <= i < mp.len() && 0 <= k < mp[i].transaction.inputs.len() ==> u[(
        #[trigger] mp[i].transaction.inputs[k]).prev].0 == true)
    &&& (forall|i: int, k: int, j: int, l: int|
        0 <= i < mp.len() && 0 <= k < mp[i].transaction.inputs.len() && 0 <= j < mp.len() && 0 <= l
            < mp[j].transaction.inputs.len() && (i != j || k != l) ==> (
        #[trigger] mp[i].transaction.inputs[k]).prev != (#[trigger] mp[j].transaction.inputs[l]).prev)
    &&& (forall|h: crate::sha256::Hash|
        u.contains_key(h) && (#[trigger] u[h]).0 ==> exists|i: int, k: int|
            0 <= i < mp.len() && 0 <= k < mp[i].transaction.inputs.len() && (
            #[trigger] mp[i].transaction.inputs[k]).prev == h)
}

/// Under the reservation invariant every pending transaction refers only to
/// existing UTXOs and never spends one digest twice.
pub proof fn lemma_mempool_integrity(
    mp: Seq<MempoolEntryV>,
    u: Map<crate::sha256::Hash, (bool, TxOutV)>,
    i: int,
)
    requires
        res_inv(mp, u),
        0 <= i < mp.len(),
    ensures
        tx_inputs_present(mp[i].transaction, u),
        tx_inputs_distinct(mp[i].transaction),
{
    assert forall|k: int, l: int|
        0 <= k < l < mp[i].transaction.inputs.len() implies (
    #[trigger] mp[i].transaction.inputs[k]).prev != (#[trigger] mp[i].transaction.inputs[l]).prev by {
        assert(mp[i].transaction.inputs[k].prev != mp[i].transaction.inputs[l].prev);
    }
}

/// A digest already flagged stays flagged while others are reserved.
proof fn lemma_reserve_keeps_true(
    u: Map<crate::sha256::Hash, (bool, TxOutV)>,
    s: Seq<crate::types::TxInV>,
    h: crate::sha256::Hash,
)
    requires
        u.contains_key(h),
        u[h].0 == true,
    ensures
        reserve_list(u, s).contains_key(h),
        reserve_list(u, s)[h].0 == true,
    decreases s.len(),
{
    if s.len() > 0 {
        lemma_reserve_keeps_true(set_flag(u, s[0].prev, true), s.skip(1), h);
    }
}

/// Reserving a list flags every listed digest that exists.
pub proof fn lemma_reserve_sets(
    u: Map<crate::sha256::Hash, (bool, TxOutV)>,
    s: Seq<crate::types::TxInV>,
    k: int,
)
    requires
        0 <= k < s.len(),
        u.contains_key(s[k].prev),
    ensures
        reserve_list(u, s).contains_key(s[k].prev),
        reserve_list(u, s)[s[k].prev].0 == true,
    decreases s.len(),
{
    let u2 = set_flag(u, s[0].prev, true);
    if k == 0 {
        lemma_reserve_keeps_true(u2, s.skip(1), s[0].prev);
    } else {
        assert(s.skip(1)[k - 1] == s[k]);
        lemma_reserve_sets(u2, s.skip(1), k - 1);
    }
}

/// Flag changes keep the domain and the stored outputs.
pub proof fn lemma_unreserve_same_vals(
    u: Map<crate::sha256::Hash, (bool, TxOutV)>,
    s: Seq<crate::types::TxInV>,
)
    ensures
        forall|h: crate::sha256::Hash|
            u.contains_key(h) <==> #[trigger] unreserve_list(u, s).contains_key(h),
        forall|h: crate::sha256::Hash|
            u.contains_key(h) ==> u[h].1 == #[trigger] unreserve_list(u, s)[h].1,
    decreases s.len(),
{
    if s.len() > 0 {
        let u2 = set_flag(u, s[0].prev, false);
        lemma_unreserve_same_vals(u2, s.skip(1));
        assert(unreserve_list(u, s) == unreserve_list(u2, s.skip(1)));
        assert forall|h: crate::sha256::Hash|
            u.contains_key(h) <==> #[trigger] unreserve_list(u, s).contains_key(h) by {
            assert(u2.contains_key(h) <==> unreserve_list(u2, s.skip(1)).contains_key(h));
        }
        assert forall|h: crate::sha256::Hash| u.contains_key(h) implies u[h].1
            == #[trigger] unreserve_list(u, s)[h].1 by {
            assert(u2.contains_key(h) ==> u2[h].1 == unreserve_list(u2, s.skip(1))[h].1);
        }
    }
}

/// Conflict resolution keeps the UTXO domain and the stored outputs; only
/// flags and the mempool change.
pub proof fn lemma_evict_same_vals(
    u: Map<crate::sha256::Hash, (bool, TxOutV)>,
    mp: Seq<MempoolEntryV>,
    inputs: Seq<crate::types::TxInV>,
)
    ensures
        forall|h: crate::sha256::Hash|
            u.contains_key(h) <==> #[trigger] evict_all(u, mp, inputs).0.contains_key(h),
        forall|h: crate::sha256::Hash|
            u.contains_key(h) ==> u[h].1 == #[trigger] evict_all(u, mp, inputs).0[h].1,
    decreases inputs.len(),
{
    if inputs.len() > 0 {
        let st = evict_step(u, mp, inputs[0].prev);
        lemma_evict_same_vals(st.0, st.1, inputs.skip(1));
        if u.contains_key(inputs[0].prev) && u[inputs[0].prev].0 {
            match find_reserver(mp, inputs[0].prev) {
                Some(i) => {
                    lemma_unreserve_same_vals(u, mp[i].transaction.inputs);
                },
                None => {},
            }
        }
        assert forall|h: crate::sha256::Hash|
            u.contains_key(h) <==> #[trigger] evict_all(u, mp, inputs).0.contains_key(h) by {
            assert(st.0.contains_key(h) <==> evict_all(st.0, st.1, inputs.skip(1)).0.contains_key(
                h,
            ));
        }
        assert forall|h: crate::sha256::Hash| u.contains_key(h) implies u[h].1
            == #[trigger] evict_all(u, mp, inputs).0[h].1 by {
            assert(st.0.contains_key(h) ==> st.0[h].1 == evict_all(
                st.0,
                st.1,
                inputs.skip(1),
            ).0[h].1);
        }
    }
}

/// After a successful admission every input of the admitted transaction is
/// reserved, and the transaction sits in the mempool at its fee position.
pub proof fn lemma_admission_reserves(c0: ChainV, c1: ChainV, tv: TxV, now: i64)
    requires
        admit_post(c0, c1, tv, true, now),
        tx_inputs_present(tv, umap(c0.utxos)),
    ensures
        forall|k: int|
            0 <= k < tv.inputs.len() ==> {
                &&& umap(c1.utxos).contains_key((#[trigger] tv.inputs[k]).prev)
                &&& umap(c1.utxos)[tv.inputs[k].prev].0 == true
            },
        c1.mempool.contains(MempoolEntryV { time: now, transaction: tv }),
{
    let u0 = umap(c0.utxos);
    let ev = evict_all(u0, c0.mempool, tv.inputs);
    lemma_evict_same_vals(u0, c0.mempool, tv.inputs);
    assert forall|k: int| 0 <= k < tv.inputs.len() implies {
        &&& umap(c1.utxos).contains_key((#[trigger] tv.inputs[k]).prev)
        &&& umap(c1.utxos)[tv.inputs[k].prev].0 == true
    } by {
        assert(ev.0.contains_key(tv.inputs[k].prev));
        lemma_reserve_sets(ev.0, tv.inputs, k);
    }
    let u1 = reserve_list(ev.0, tv.inputs);
    let pos = insert_pos(ev.1, u1, fee_of(tv, u1));
    lemma_insert_pos_range(ev.1, u1, fee_of(tv, u1));
    assert(c1.mempool[pos] == MempoolEntryV { time: now, transaction: tv });
}

/// The insertion position lies within the list.
pub proof fn lemma_insert_pos_range(
    mp: Seq<MempoolEntryV>,
    u: Map<crate::sha256::Hash, (bool, TxOutV)>,
    f: int,
)
    ensures
        0 <= insert_pos(mp, u, f) <= mp.len(),
    decreases mp.len(),
{
    if mp.len() > 0 && fee_of(mp[0].transaction, u) <= f {
        lemma_insert_pos_range(mp.skip(1), u, f);
    }
}

/// After cleanup at time `now` no entry older than the age limit remains,
/// and the survivors keep their order.
pub proof fn lemma_cleanup_fresh(mp: Seq<MempoolEntryV>, now: i64, i: int)
    requires
        0 <= i < cleanup_keep(mp, now).len(),
    ensures
        now - cleanup_keep(mp, now)[i].time <= (crate::MAX_MEMPOOL_TRANSACTION_AGE * 1000) as int,
    decreases mp.len(),
{
    if mp.len() > 0 {
        let rest = cleanup_keep(mp.drop_last(), now);
        if i < rest.len() {
            lemma_cleanup_fresh(mp.drop_last(), now, i);
        }
    }
}

} // verus!
