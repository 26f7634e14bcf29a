use vstd::prelude::*;
use crate::codec::enc_hash;
use crate::codec::write_hash;
use crate::sha256::hash_of_bytes;
use crate::types::Transaction;
use crate::types::TxV;
use crate::types::tx_hash;

verus! {

/// Commitment to an ordered transaction list, computed by pairwise hashing.
#[derive(Clone, Copy, Debug, PartialEq, Eq, Structural)]
pub struct MerkleRoot(pub crate::sha256::Hash);

/// The digest of a two-element array of digests; an odd element is paired
/// with itself.
pub open spec fn pair_hash(a: crate::sha256::Hash, b: crate::sha256::Hash) -> crate::sha256::Hash {
    hash_of_bytes(seq![0x82u8] + enc_hash(a) + enc_hash(b))
}

/// One reduction layer: adjacent elements pairwise hashed, a lone tail
/// element hashed with itself.
pub open spec fn merkle_layer(s: Seq<crate::sha256::Hash>) -> Seq<crate::sha256::Hash>
    decreases s.len(),
{
    if s.len() == 0 {
        Seq::empty()
    } else if s.len() == 1 {
        seq![pair_hash(s[0], s[0])]
    } else {
        seq![pair_hash(s[0], s[1])] + merkle_layer(s.skip(2))
    }
}

pub proof fn lemma_merkle_layer_len(s: Seq<crate::sha256::Hash>)
    ensures
        2 * merkle_layer(s).len() == s.len() + (if s.len() % 2 == 0 {
            0int
        } else {
            1int
        }),
    decreases s.len(),
{
    if s.len() >= 2 {
        lemma_merkle_layer_len(s.skip(2));
    }
}

/// Repeated layering down to a single digest. The empty list reduces to the
/// zero digest; block validation never accepts an empty transaction list, so
/// nothing may rely on that value.
pub open spec fn merkle_reduce(s: Seq<crate::sha256::Hash>) -> crate::sha256::Hash
    decreases s.len(),
        via merkle_reduce_dec
{
    if s.len() == 0 {
        crate::sha256::Hash(crate::u256::U256 { w0: 0, w1: 0, w2: 0, w3: 0 })
    } else if s.len() == 1 {
        s[0]
    } else {
        merkle_reduce(merkle_layer(s))
    }
}

#[via_fn]
proof fn merkle_reduce_dec(s: Seq<crate::sha256::Hash>) {
    lemma_merkle_layer_len(s);
}

/// The digests of the transactions, in order.
pub open spec fn tx_hashes(txs: Seq<TxV>) -> Seq<crate::sha256::Hash> {
    Seq::new(txs.len(), |i: int| tx_hash(txs[i]))
}

/// The Merkle root of a transaction list.
pub open spec fn merkle_root_of(txs: Seq<TxV>) -> crate::sha256::Hash {
    merkle_reduce(tx_hashes(txs))
}

/// The Merkle root is a function of the transaction list alone: equal lists
/// give equal roots, independent of the wall clock or the machine.
pub proof fn lemma_merkle_deterministic(a: Seq<TxV>, b: Seq<TxV>)
    requires
        a == b,
    ensures
        merkle_root_of(a) == merkle_root_of(b),
{
}

/// The digest of the two-element array holding `a` and `b`.
fn pair_hash_exec(a: &crate::sha256::Hash, b: &crate::sha256::Hash) -> (r: crate::sha256::Hash)
    ensures
        r == pair_hash(*a, *b),
{
    let mut buf: Vec<u8> = Vec::new();
    buf.push(0x82u8);
    write_hash(&mut buf, a);
    write_hash(&mut buf, b);
    proof {
        assert(buf@ =~= seq![0x82u8] + enc_hash(*a) + enc_hash(*b));
    }
    crate::sha256::Hash::hash_bytes(&buf)
}

/// One reduction layer over `v[start..]`.
fn merkle_layer_exec(v: &Vec<crate::sha256::Hash>, start: usize) -> (r: Vec<crate::sha256::Hash>)
    requires
        start <= v@.len(),
    ensures
        r@ == merkle_layer(v@.skip(start as int)),
    decreases v@.len() - start,
{
    let n = v.len();
    if n - start == 0 {
        Vec::new()
    } else if n - start == 1 {
        let h = pair_hash_exec(&v[start], &v[start]);
        let mut out: Vec<crate::sha256::Hash> = Vec::new();
        out.push(h);
        proof {
            assert(v@.skip(start as int)[0] == v@[start as int]);
            assert(out@ =~= merkle_layer(v@.skip(start as int)));
        }
        out
    } else {
        let h = pair_hash_exec(&v[start], &v[start + 1]);
        let mut rest = merkle_layer_exec(v, start + 2);
        rest.insert(0, h);
        proof {
            let s = v@.skip(start as int);
            assert(s[0] == v@[start as int]);
            assert(s[1] == v@[start + 1]);
            assert(s.skip(2) =~= v@.skip(start + 2));
            assert(rest@ =~= seq![pair_hash(s[0], s[1])] + merkle_layer(s.skip(2)));
        }
        rest
    }
}

impl MerkleRoot {
    /// The Merkle root of the given transactions: hash each, then reduce
    /// pairwise until one digest remains.
    pub fn calculate(transactions: &Vec<Transaction>) -> (r: MerkleRoot)
        ensures
            r == MerkleRoot(merkle_root_of(transactions.deep_view())),
    {
        let ghost dv = transactions.deep_view();
        let mut layer: Vec<crate::sha256::Hash> = Vec::new();
        let mut i: usize = 0;
        while i < transactions.len()
            invariant
                i <= transactions@.len(),
                dv == transactions.deep_view(),
                dv.len() == transactions@.len(),
                layer@ =~= tx_hashes(dv).take(i as int),
            decreases transactions@.len() - i,
        {
            let h = transactions[i].hash();
            proof {
                assert(transactions@[i as int]@ == dv[i as int]);
                assert(tx_hashes(dv)[i as int] == tx_hash(dv[i as int]));
            }
            layer.push(h);
            proof {
                assert(layer@ =~= tx_hashes(dv).take(i + 1));
            }
            i = i + 1;
        }
        proof {
            assert(tx_hashes(dv).take(dv.len() as int) =~= tx_hashes(dv));
        }
        if layer.len() == 0 {
            return MerkleRoot(crate::sha256::Hash::zero());
        }
        while layer.len() > 1
            invariant
                layer@.len() >= 1,
                merkle_reduce(layer@) == merkle_reduce(tx_hashes(dv)),
            decreases layer@.len(),
        {
            proof {
                lemma_merkle_layer_len(layer@);
            }
            let next = merkle_layer_exec(&layer, 0);
            proof {
                assert(layer@.skip(0) =~= layer@);
                assert(merkle_reduce(layer@) == merkle_reduce(merkle_layer(layer@)));
            }
            layer = next;
        }
        MerkleRoot(layer[0])
    }
}

/// Relies on chrono's `Utc::now`: the current UTC time in milliseconds since
/// the Unix epoch. Nothing is assumed about the value returned.
#[verifier::external_body]
pub fn now_millis() -> i64 {
    chrono::Utc::now().timestamp_millis()
}

} // verus!
