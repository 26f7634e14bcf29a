use vstd::prelude::*;
use crate::codec::enc_bool;
use crate::codec::enc_bytes;
use crate::codec::enc_i64;
use crate::codec::enc_list;
use crate::codec::enc_string;
use crate::codec::enc_u64;
use crate::codec::enc_vec;
use crate::codec::lemma_enc_list_len;
use crate::codec::lemma_enc_list_push;
use crate::codec::lemma_skip_skip;
use crate::codec::lemma_starts_with_cat;
use crate::codec::lemma_vec_parts;
use crate::codec::read_bytes;
use crate::codec::read_bool;
use crate::codec::read_i64;
use crate::codec::read_u64;
use crate::codec::starts_with;
use crate::codec::string_ok;
use crate::codec::write_bool;
use crate::codec::write_bytes;
use crate::codec::write_i64;
use crate::codec::write_string;
use crate::codec::write_u64;
use crate::crypto::PublicKey;
use crate::sha256::unpack8;
use crate::sha256::push_be8;
use crate::types::Block;
use crate::types::BlockV;
use crate::types::Transaction;
use crate::types::TransactionOutput;
use crate::types::TxOutV;
use crate::types::TxV;
use crate::types::block_ok;
use crate::types::enc_block;
use crate::types::enc_tx;
use crate::types::enc_txout;
use crate::types::lemma_txout_parts;
use crate::types::read_block;
use crate::types::read_tx;
use crate::types::read_txout;
use crate::types::tx_ok;
use crate::types::txout_ok;
use crate::types::write_txs;

verus! {

// ---------------------------------------------------------------------------
// The peer protocol: a tagged message set with a canonical encoding and an
// eight-byte big-endian length framing.
// ---------------------------------------------------------------------------

/// Everything two peers, a wallet, or a miner can say to a node.
#[derive(Clone, Debug, PartialEq, Eq)]
pub enum Message {
    FetchUTXOs(PublicKey),
    UTXOs(Vec<(TransactionOutput, bool)>),
    SubmitTransaction(Transaction),
    NewTransaction(Transaction),
    FetchTemplate(PublicKey),
    Template(Block),
    ValidateTemplate(Block),
    TemplateValidity(bool),
    SubmitTemplate(Block),
    DiscoverNodes,
    NodeList(Vec<String>),
    AskDifference(u32),
    Difference(i32),
    FetchBlock(usize),
    NewBlock(Block),
}

/// Mathematical shape of a message.
pub enum MsgV {
    FetchUTXOs(Seq<u8>),
    UTXOs(Seq<(TxOutV, bool)>),
    SubmitTransaction(TxV),
    NewTransaction(TxV),
    FetchTemplate(Seq<u8>),
    Template(BlockV),
    ValidateTemplate(BlockV),
    TemplateValidity(bool),
    SubmitTemplate(BlockV),
    DiscoverNodes,
    NodeList(Seq<Seq<char>>),
    AskDifference(u32),
    Difference(i32),
    FetchBlock(usize),
    NewBlock(BlockV),
}

impl View for Message {
    type V = MsgV;

    open spec fn view(&self) -> MsgV {
        match self {
            Message::FetchUTXOs(pk) => MsgV::FetchUTXOs(pk@),
            Message::UTXOs(v) => MsgV::UTXOs(v.deep_view()),
            Message::SubmitTransaction(t) => MsgV::SubmitTransaction(t@),
            Message::NewTransaction(t) => MsgV::NewTransaction(t@),
            Message::FetchTemplate(pk) => MsgV::FetchTemplate(pk@),
            Message::Template(b) => MsgV::Template(b@),
            Message::ValidateTemplate(b) => MsgV::ValidateTemplate(b@),
            Message::TemplateValidity(x) => MsgV::TemplateValidity(*x),
            Message::SubmitTemplate(b) => MsgV::SubmitTemplate(b@),
            Message::DiscoverNodes => MsgV::DiscoverNodes,
            Message::NodeList(v) => MsgV::NodeList(v.deep_view()),
            Message::AskDifference(x) => MsgV::AskDifference(*x),
            Message::Difference(x) => MsgV::Difference(*x),
            Message::FetchBlock(x) => MsgV::FetchBlock(*x),
            Message::NewBlock(b) => MsgV::NewBlock(b@),
        }
    }
}

// --- output-flag pairs, as the UTXOs reply carries them ---

pub open spec fn enc_pair(p: (TxOutV, bool)) -> Seq<u8> {
    seq![0x82u8] + enc_txout(p.0) + enc_bool(p.1)
}

pub open spec fn pair_ok(p: (TxOutV, bool)) -> bool {
    txout_ok(p.0)
}

pub open spec fn pair_encoder() -> spec_fn((TxOutV, bool)) -> Seq<u8> {
    |p: (TxOutV, bool)| enc_pair(p)
}

pub open spec fn pairs_ok(s: Seq<(TxOutV, bool)>) -> bool {
    s.len() <= 0xffffffffffffffff && forall|i: int| 0 <= i < s.len() ==> pair_ok(#[trigger] s[i])
}

pub proof fn lemma_pair_parts(t: Seq<u8>, v: (TxOutV, bool))
    requires
        starts_with(t, enc_pair(v)),
    ensures
        t.len() >= 1,
        t[0] == 0x82u8,
        starts_with(t.skip(1), enc_txout(v.0)),
        starts_with(t.skip(1 + enc_txout(v.0).len() as int), enc_bool(v.1)),
        enc_pair(v).len() == 2 + enc_txout(v.0).len(),
{
    lemma_starts_with_cat(t, seq![0x82u8] + enc_txout(v.0), enc_bool(v.1));
    lemma_starts_with_cat(t, seq![0x82u8], enc_txout(v.0));
    lemma_skip_skip(t, 1, enc_txout(v.0).len() as int);
    assert(t.take(1)[0] == 0x82u8);
}

fn write_pair(out: &mut Vec<u8>, p: &(TransactionOutput, bool))
    ensures
        final(out)@ == old(out)@ + enc_pair(p.deep_view()),
        pair_ok(p.deep_view()),
{
    out.push(0x82u8);
    p.0.write(out);
    write_bool(out, p.1);
    proof {
        assert(out@ =~= old(out)@ + enc_pair(p.deep_view()));
    }
}

/// Reads one output-flag pair.
fn read_pair(data: &Vec<u8>, pos: usize) -> (r: Option<((TransactionOutput, bool), usize)>)
    requires
        pos <= data@.len(),
    ensures
        r matches Some(p) ==> pos < p.1 <= data@.len(),
        forall|v: (TxOutV, bool)|
            pair_ok(v) && starts_with(data@.skip(pos as int), #[trigger] enc_pair(v)) ==> (
            r matches Some(p) && p.0@ == v && p.1 == pos + enc_pair(v).len()),
{
    let ghost t = data@.skip(pos as int);
    if data.len() - pos < 1 || data[pos] != 0x82 {
        proof {
            assert forall|v: (TxOutV, bool)|
                pair_ok(v) && starts_with(t, #[trigger] enc_pair(v)) implies false by {
                lemma_pair_parts(t, v);
            }
        }
        return None;
    }
    match read_txout(data, pos + 1) {
        None => {
            proof {
                assert forall|v: (TxOutV, bool)|
                    pair_ok(v) && starts_with(t, #[trigger] enc_pair(v)) implies false by {
                    lemma_pair_parts(t, v);
                    assert(data@.skip(pos + 1) =~= t.skip(1));
                }
            }
            None
        },
        Some((o, p1)) => {
            match read_bool(data, p1) {
                None => {
                    proof {
                        assert forall|v: (TxOutV, bool)|
                            pair_ok(v) && starts_with(t, #[trigger] enc_pair(v)) implies false by {
                            lemma_pair_parts(t, v);
                            assert(data@.skip(pos + 1) =~= t.skip(1));
                            lemma_skip_skip(data@, pos as int, 1 + enc_txout(v.0).len() as int);
                            assert(data@.skip(pos + 1 + enc_txout(v.0).len()) =~= t.skip(
                                1 + enc_txout(v.0).len() as int,
                            ));
                        }
                    }
                    None
                },
                Some((b, p2)) => {
                    let r = (o, b);
                    proof {
                        assert forall|v: (TxOutV, bool)|
                            pair_ok(v) && starts_with(t, #[trigger] enc_pair(v)) implies r@ == v
                            && p2 == pos + enc_pair(v).len() by {
                            lemma_pair_parts(t, v);
                            assert(data@.skip(pos + 1) =~= t.skip(1));
                            lemma_skip_skip(data@, pos as int, 1 + enc_txout(v.0).len() as int);
                            assert(data@.skip(pos + 1 + enc_txout(v.0).len()) =~= t.skip(
                                1 + enc_txout(v.0).len() as int,
                            ));
                        }
                    }
                    Some((r, p2))
                },
            }
        },
    }
}

fn write_pairs(out: &mut Vec<u8>, v: &Vec<(TransactionOutput, bool)>)
    ensures
        final(out)@ == old(out)@ + enc_vec(v.deep_view(), pair_encoder()),
        pairs_ok(v.deep_view()),
{
    out.push(0x9bu8);
    push_be8(out, v.len() as u64);
    let ghost dv = v.deep_view();
    proof {
        assert(dv.len() == v@.len());
        assert(dv.take(0) =~= Seq::<(TxOutV, bool)>::empty());
        assert(out@ =~= old(out)@ + seq![0x9bu8] + unpack8(dv.len() as u64) + enc_list(
            dv.take(0),
            pair_encoder(),
        ));
    }
    let mut i: usize = 0;
    while i < v.len()
        invariant
            i <= v@.len(),
            dv == v.deep_view(),
            dv.len() == v@.len(),
            out@ == old(out)@ + seq![0x9bu8] + unpack8(dv.len() as u64) + enc_list(
                dv.take(i as int),
                pair_encoder(),
            ),
            forall|j: int| 0 <= j < i ==> pair_ok(#[trigger] dv[j]),
        decreases v@.len() - i,
    {
        write_pair(out, &v[i]);
        proof {
            assert(v@[i as int].deep_view() == dv[i as int]);
            assert(pair_encoder()(dv[i as int]) == enc_pair(dv[i as int]));
            assert(dv.take(i + 1) =~= dv.take(i as int).push(dv[i as int]));
            lemma_enc_list_push(dv.take(i as int), dv[i as int], pair_encoder());
            assert(out@ =~= old(out)@ + seq![0x9bu8] + unpack8(dv.len() as u64) + enc_list(
                dv.take(i + 1),
                pair_encoder(),
            ));
        }
        i = i + 1;
    }
    proof {
        assert(dv.take(v@.len() as int) =~= dv);
        assert(out@ =~= old(out)@ + enc_vec(dv, pair_encoder()));
    }
}

// --- strings, as the peer list carries them ---

pub open spec fn string_encoder() -> spec_fn(Seq<char>) -> Seq<u8> {
    |s: Seq<char>| enc_string(s)
}

pub open spec fn strings_ok(s: Seq<Seq<char>>) -> bool {
    s.len() <= 0xffffffffffffffff && forall|i: int| 0 <= i < s.len() ==> string_ok(#[trigger] s[i])
}

fn write_strings(out: &mut Vec<u8>, v: &Vec<String>)
    ensures
        final(out)@ == old(out)@ + enc_vec(v.deep_view(), string_encoder()),
        strings_ok(v.deep_view()),
{
    out.push(0x9bu8);
    push_be8(out, v.len() as u64);
    let ghost dv = v.deep_view();
    proof {
        assert(dv.len() == v@.len());
        assert(dv.take(0) =~= Seq::<Seq<char>>::empty());
        assert(out@ =~= old(out)@ + seq![0x9bu8] + unpack8(dv.len() as u64) + enc_list(
            dv.take(0),
            string_encoder(),
        ));
    }
    let mut i: usize = 0;
    while i < v.len()
        invariant
            i <= v@.len(),
            dv == v.deep_view(),
            dv.len() == v@.len(),
            out@ == old(out)@ + seq![0x9bu8] + unpack8(dv.len() as u64) + enc_list(
                dv.take(i as int),
                string_encoder(),
            ),
            forall|j: int| 0 <= j < i ==> string_ok(#[trigger] dv[j]),
        decreases v@.len() - i,
    {
        write_string(out, &v[i]);
        proof {
            assert(v@[i as int].deep_view() == dv[i as int]);
            assert(string_encoder()(dv[i as int]) == enc_string(dv[i as int]));
            assert(dv.take(i + 1) =~= dv.take(i as int).push(dv[i as int]));
            lemma_enc_list_push(dv.take(i as int), dv[i as int], string_encoder());
            assert(out@ =~= old(out)@ + seq![0x9bu8] + unpack8(dv.len() as u64) + enc_list(
                dv.take(i + 1),
                string_encoder(),
            ));
        }
        i = i + 1;
    }
    proof {
        assert(dv.take(v@.len() as int) =~= dv);
        assert(out@ =~= old(out)@ + enc_vec(dv, string_encoder()));
    }
}

/// Reads exactly `n` consecutive output-flag pair encodings.
pub fn read_pair_items(data: &Vec<u8>, pos: usize, n: usize) -> (r: Option<(Vec<(TransactionOutput, bool)>, usize)>)
    requires
        pos <= data@.len(),
    ensures
        r matches Some(p) ==> pos <= p.1 <= data@.len(),
        forall|s: Seq<(TxOutV, bool)>|
            s.len() == n && pairs_ok(s) && starts_with(
                data@.skip(pos as int),
                #[trigger] enc_list(s, pair_encoder()),
            ) ==> (r matches Some(p) && p.0.deep_view() == s && p.1 == pos + enc_list(
                s,
                pair_encoder(),
            ).len()),
    decreases n,
{
    let ghost t = data@.skip(pos as int);
    if n == 0 {
        let out: Vec<(TransactionOutput, bool)> = Vec::new();
        proof {
            assert forall|s: Seq<(TxOutV, bool)>|
                s.len() == 0 && pairs_ok(s) && starts_with(
                    t,
                    #[trigger] enc_list(s, pair_encoder()),
                ) implies out.deep_view() == s && enc_list(s, pair_encoder()).len() == 0 by {
                assert(out.deep_view() =~= s);
            }
        }
        return Some((out, pos));
    }
    match read_pair(data, pos) {
        None => {
            proof {
                assert forall|s: Seq<(TxOutV, bool)>|
                    s.len() == n && pairs_ok(s) && starts_with(
                        t,
                        #[trigger] enc_list(s, pair_encoder()),
                    ) implies false by {
                    assert(enc_list(s, pair_encoder()) == pair_encoder()(s[0]) + enc_list(
                        s.skip(1),
                        pair_encoder(),
                    ));
                    assert(pair_encoder()(s[0]) == enc_pair(s[0]));
                    lemma_starts_with_cat(t, enc_pair(s[0]), enc_list(s.skip(1), pair_encoder()));
                    assert(pair_ok(s[0]));
                }
            }
            None
        },
        Some((x, p1)) => {
            match read_pair_items(data, p1, n - 1) {
                None => {
                    proof {
                        assert forall|s: Seq<(TxOutV, bool)>|
                            s.len() == n && pairs_ok(s) && starts_with(
                                t,
                                #[trigger] enc_list(s, pair_encoder()),
                            ) implies false by {
                            assert(enc_list(s, pair_encoder()) == pair_encoder()(s[0]) + enc_list(
                                s.skip(1),
                                pair_encoder(),
                            ));
                            assert(pair_encoder()(s[0]) == enc_pair(s[0]));
                            lemma_starts_with_cat(t, enc_pair(s[0]), enc_list(s.skip(1), pair_encoder()));
                            assert(pair_ok(s[0]));
                            assert(p1 == pos + enc_pair(s[0]).len());
                            lemma_skip_skip(data@, pos as int, enc_pair(s[0]).len() as int);
                            assert(data@.skip(p1 as int) =~= t.skip(enc_pair(s[0]).len() as int));
                            assert(s.skip(1).len() == n - 1);
                            assert(pairs_ok(s.skip(1)));
                        }
                    }
                    None
                },
                Some((rest, p2)) => {
                    let mut out = rest;
                    out.insert(0, x);
                    proof {
                        assert forall|s: Seq<(TxOutV, bool)>|
                            s.len() == n && pairs_ok(s) && starts_with(
                                t,
                                #[trigger] enc_list(s, pair_encoder()),
                            ) implies out.deep_view() == s && p2 == pos + enc_list(
                                s,
                                pair_encoder(),
                            ).len() by {
                            assert(enc_list(s, pair_encoder()) == pair_encoder()(s[0]) + enc_list(
                                s.skip(1),
                                pair_encoder(),
                            ));
                            assert(pair_encoder()(s[0]) == enc_pair(s[0]));
                            lemma_starts_with_cat(t, enc_pair(s[0]), enc_list(s.skip(1), pair_encoder()));
                            assert(pair_ok(s[0]));
                            assert(p1 == pos + enc_pair(s[0]).len());
                            lemma_skip_skip(data@, pos as int, enc_pair(s[0]).len() as int);
                            assert(data@.skip(p1 as int) =~= t.skip(enc_pair(s[0]).len() as int));
                            assert(s.skip(1).len() == n - 1);
                            assert(pairs_ok(s.skip(1)));
                            assert(x@ == s[0]);
                            assert(rest.deep_view() == s.skip(1));
                            assert forall|j: int| 0 <= j < out.deep_view().len() implies #[trigger] out.deep_view()[j] == s[j] by {
                                if j == 0 {
                                } else {
                                    assert(out@[j] == rest@[j - 1]);
                                    assert(rest.deep_view()[j - 1] == s.skip(1)[j - 1]);
                                }
                            }
                            assert(out.deep_view() =~= s);
                        }
                    }
                    Some((out, p2))
                },
            }
        },
    }
}

/// Reads an array of input values: count, then the items.
pub fn read_pair_vec(data: &Vec<u8>, pos: usize) -> (r: Option<(Vec<(TransactionOutput, bool)>, usize)>)
    requires
        pos <= data@.len(),
    ensures
        r matches Some(p) ==> pos <= p.1 <= data@.len(),
        forall|s: Seq<(TxOutV, bool)>|
            pairs_ok(s) && starts_with(data@.skip(pos as int), #[trigger] enc_vec(s, pair_encoder()))
                ==> (r matches Some(p) && p.0.deep_view() == s && p.1 == pos + enc_vec(
                s,
                pair_encoder(),
            ).len()),
{
    let ghost t = data@.skip(pos as int);
    proof {
        assert forall|x: (TxOutV, bool)| (#[trigger] pair_encoder()(x)).len() >= 1 by {
            assert(pair_encoder()(x) == enc_pair(x));
        }
    }
    if data.len() - pos < 9 || data[pos] != 0x9b {
        proof {
            assert forall|s: Seq<(TxOutV, bool)>|
                pairs_ok(s) && starts_with(t, #[trigger] enc_vec(s, pair_encoder())) implies false by {
                lemma_vec_parts(t, s, pair_encoder());
            }
        }
        return None;
    }
    let w = crate::u256::pack8_exec(data.as_slice(), pos + 1);
    let remaining: usize = data.len() - (pos + 9);
    if w > remaining as u64 {
        proof {
            assert forall|s: Seq<(TxOutV, bool)>|
                pairs_ok(s) && starts_with(t, #[trigger] enc_vec(s, pair_encoder())) implies false by {
                lemma_vec_parts(t, s, pair_encoder());
                assert forall|j: int| 0 <= j < 8 implies #[trigger] data@[pos + 1 + j] == unpack8(
                    s.len() as u64,
                )[j] by {
                    assert(t[1 + j] == unpack8(s.len() as u64)[j]);
                }
                crate::sha256::lemma_pack_unpack(data@, pos + 1, s.len() as u64);
                lemma_enc_list_len(s, pair_encoder());
            }
        }
        return None;
    }
    let n = w as usize;
    match read_pair_items(data, pos + 9, n) {
        None => {
            proof {
                assert forall|s: Seq<(TxOutV, bool)>|
                    pairs_ok(s) && starts_with(t, #[trigger] enc_vec(s, pair_encoder())) implies false by {
                    lemma_vec_parts(t, s, pair_encoder());
                    assert forall|j: int| 0 <= j < 8 implies #[trigger] data@[pos + 1 + j] == unpack8(
                    s.len() as u64,
                )[j] by {
                    assert(t[1 + j] == unpack8(s.len() as u64)[j]);
                }
                crate::sha256::lemma_pack_unpack(data@, pos + 1, s.len() as u64);
                    lemma_skip_skip(data@, pos as int, 9);
                    assert(data@.skip(pos + 9) =~= t.skip(9));
                }
            }
            None
        },
        Some((items, p2)) => {
            proof {
                assert forall|s: Seq<(TxOutV, bool)>|
                    pairs_ok(s) && starts_with(t, #[trigger] enc_vec(s, pair_encoder())) implies
                    items.deep_view() == s && p2 == pos + enc_vec(s, pair_encoder()).len() by {
                    lemma_vec_parts(t, s, pair_encoder());
                    assert forall|j: int| 0 <= j < 8 implies #[trigger] data@[pos + 1 + j] == unpack8(
                    s.len() as u64,
                )[j] by {
                    assert(t[1 + j] == unpack8(s.len() as u64)[j]);
                }
                crate::sha256::lemma_pack_unpack(data@, pos + 1, s.len() as u64);
                    lemma_skip_skip(data@, pos as int, 9);
                    assert(data@.skip(pos + 9) =~= t.skip(9));
                    assert(s.len() == n);
                }
            }
            Some((items, p2))
        },
    }
}

/// Reads exactly `n` consecutive text encodings.
pub fn read_string_items(data: &Vec<u8>, pos: usize, n: usize) -> (r: Option<(Vec<String>, usize)>)
    requires
        pos <= data@.len(),
    ensures
        r matches Some(p) ==> pos <= p.1 <= data@.len(),
        forall|s: Seq<Seq<char>>|
            s.len() == n && strings_ok(s) && starts_with(
                data@.skip(pos as int),
                #[trigger] enc_list(s, string_encoder()),
            ) ==> (r matches Some(p) && p.0.deep_view() == s && p.1 == pos + enc_list(
                s,
                string_encoder(),
            ).len()),
    decreases n,
{
    let ghost t = data@.skip(pos as int);
    if n == 0 {
        let out: Vec<String> = Vec::new();
        proof {
            assert forall|s: Seq<Seq<char>>|
                s.len() == 0 && strings_ok(s) && starts_with(
                    t,
                    #[trigger] enc_list(s, string_encoder()),
                ) implies out.deep_view() == s && enc_list(s, string_encoder()).len() == 0 by {
                assert(out.deep_view() =~= s);
            }
        }
        return Some((out, pos));
    }
    match crate::codec::read_string(data, pos) {
        None => {
            proof {
                assert forall|s: Seq<Seq<char>>|
                    s.len() == n && strings_ok(s) && starts_with(
                        t,
                        #[trigger] enc_list(s, string_encoder()),
                    ) implies false by {
                    assert(enc_list(s, string_encoder()) == string_encoder()(s[0]) + enc_list(
                        s.skip(1),
                        string_encoder(),
                    ));
                    assert(string_encoder()(s[0]) == enc_string(s[0]));
                    lemma_starts_with_cat(t, enc_string(s[0]), enc_list(s.skip(1), string_encoder()));
                    assert(string_ok(s[0]));
                }
            }
            None
        },
        Some((x, p1)) => {
            match read_string_items(data, p1, n - 1) {
                None => {
                    proof {
                        assert forall|s: Seq<Seq<char>>|
                            s.len() == n && strings_ok(s) && starts_with(
                                t,
                                #[trigger] enc_list(s, string_encoder()),
                            ) implies false by {
                            assert(enc_list(s, string_encoder()) == string_encoder()(s[0]) + enc_list(
                                s.skip(1),
                                string_encoder(),
                            ));
                            assert(string_encoder()(s[0]) == enc_string(s[0]));
                            lemma_starts_with_cat(t, enc_string(s[0]), enc_list(s.skip(1), string_encoder()));
                            assert(string_ok(s[0]));
                            assert(p1 == pos + enc_string(s[0]).len());
                            lemma_skip_skip(data@, pos as int, enc_string(s[0]).len() as int);
                            assert(data@.skip(p1 as int) =~= t.skip(enc_string(s[0]).len() as int));
                            assert(s.skip(1).len() == n - 1);
                            assert(strings_ok(s.skip(1)));
                        }
                    }
                    None
                },
                Some((rest, p2)) => {
                    let mut out = rest;
                    out.insert(0, x);
                    proof {
                        assert forall|s: Seq<Seq<char>>|
                            s.len() == n && strings_ok(s) && starts_with(
                                t,
                                #[trigger] enc_list(s, string_encoder()),
                            ) implies out.deep_view() == s && p2 == pos + enc_list(
                                s,
                                string_encoder(),
                            ).len() by {
                            assert(enc_list(s, string_encoder()) == string_encoder()(s[0]) + enc_list(
                                s.skip(1),
                                string_encoder(),
                            ));
                            assert(string_encoder()(s[0]) == enc_string(s[0]));
                            lemma_starts_with_cat(t, enc_string(s[0]), enc_list(s.skip(1), string_encoder()));
                            assert(string_ok(s[0]));
                            assert(p1 == pos + enc_string(s[0]).len());
                            lemma_skip_skip(data@, pos as int, enc_string(s[0]).len() as int);
                            assert(data@.skip(p1 as int) =~= t.skip(enc_string(s[0]).len() as int));
                            assert(s.skip(1).len() == n - 1);
                            assert(strings_ok(s.skip(1)));
                            assert(x@ == s[0]);
                            assert(rest.deep_view() == s.skip(1));
                            assert forall|j: int| 0 <= j < out.deep_view().len() implies #[trigger] out.deep_view()[j] == s[j] by {
                                if j == 0 {
                                } else {
                                    assert(out@[j] == rest@[j - 1]);
                                    assert(rest.deep_view()[j - 1] == s.skip(1)[j - 1]);
                                }
                            }
                            assert(out.deep_view() =~= s);
                        }
                    }
                    Some((out, p2))
                },
            }
        },
    }
}

/// Reads an array of input values: count, then the items.
pub fn read_string_vec(data: &Vec<u8>, pos: usize) -> (r: Option<(Vec<String>, usize)>)
    requires
        pos <= data@.len(),
    ensures
        r matches Some(p) ==> pos <= p.1 <= data@.len(),
        forall|s: Seq<Seq<char>>|
            strings_ok(s) && starts_with(data@.skip(pos as int), #[trigger] enc_vec(s, string_encoder()))
                ==> (r matches Some(p) && p.0.deep_view() == s && p.1 == pos + enc_vec(
                s,
                string_encoder(),
            ).len()),
{
    let ghost t = data@.skip(pos as int);
    proof {
        assert forall|x: Seq<char>| (#[trigger] string_encoder()(x)).len() >= 1 by {
            assert(string_encoder()(x) == enc_string(x));
        }
    }
    if data.len() - pos < 9 || data[pos] != 0x9b {
        proof {
            assert forall|s: Seq<Seq<char>>|
                strings_ok(s) && starts_with(t, #[trigger] enc_vec(s, string_encoder())) implies false by {
                lemma_vec_parts(t, s, string_encoder());
            }
        }
        return None;
    }
    let w = crate::u256::pack8_exec(data.as_slice(), pos + 1);
    let remaining: usize = data.len() - (pos + 9);
    if w > remaining as u64 {
        proof {
            assert forall|s: Seq<Seq<char>>|
                strings_ok(s) && starts_with(t, #[trigger] enc_vec(s, string_encoder())) implies false by {
                lemma_vec_parts(t, s, string_encoder());
                assert forall|j: int| 0 <= j < 8 implies #[trigger] data@[pos + 1 + j] == unpack8(
                    s.len() as u64,
                )[j] by {
                    assert(t[1 + j] == unpack8(s.len() as u64)[j]);
                }
                crate::sha256::lemma_pack_unpack(data@, pos + 1, s.len() as u64);
                lemma_enc_list_len(s, string_encoder());
            }
        }
        return None;
    }
    let n = w as usize;
    match read_string_items(data, pos + 9, n) {
        None => {
            proof {
                assert forall|s: Seq<Seq<char>>|
                    strings_ok(s) && starts_with(t, #[trigger] enc_vec(s, string_encoder())) implies false by {
                    lemma_vec_parts(t, s, string_encoder());
                    assert forall|j: int| 0 <= j < 8 implies #[trigger] data@[pos + 1 + j] == unpack8(
                    s.len() as u64,
                )[j] by {
                    assert(t[1 + j] == unpack8(s.len() as u64)[j]);
                }
                crate::sha256::lemma_pack_unpack(data@, pos + 1, s.len() as u64);
                    lemma_skip_skip(data@, pos as int, 9);
                    assert(data@.skip(pos + 9) =~= t.skip(9));
                }
            }
            None
        },
        Some((items, p2)) => {
            proof {
                assert forall|s: Seq<Seq<char>>|
                    strings_ok(s) && starts_with(t, #[trigger] enc_vec(s, string_encoder())) implies
                    items.deep_view() == s && p2 == pos + enc_vec(s, string_encoder()).len() by {
                    lemma_vec_parts(t, s, string_encoder());
                    assert forall|j: int| 0 <= j < 8 implies #[trigger] data@[pos + 1 + j] == unpack8(
                    s.len() as u64,
                )[j] by {
                    assert(t[1 + j] == unpack8(s.len() as u64)[j]);
                }
                crate::sha256::lemma_pack_unpack(data@, pos + 1, s.len() as u64);
                    lemma_skip_skip(data@, pos as int, 9);
                    assert(data@.skip(pos + 9) =~= t.skip(9));
                    assert(s.len() == n);
                }
            }
            Some((items, p2))
        },
    }
}


// --- the message encoding itself ---

/// The wire tag of each message kind.
pub open spec fn msg_tag(m: MsgV) -> u64 {
    match m {
        MsgV::FetchUTXOs(_) => 0,
        MsgV::UTXOs(_) => 1,
        MsgV::SubmitTransaction(_) => 2,
        MsgV::NewTransaction(_) => 3,
        MsgV::FetchTemplate(_) => 4,
        MsgV::Template(_) => 5,
        MsgV::ValidateTemplate(_) => 6,
        MsgV::TemplateValidity(_) => 7,
        MsgV::SubmitTemplate(_) => 8,
        MsgV::DiscoverNodes => 9,
        MsgV::NodeList(_) => 10,
        MsgV::AskDifference(_) => 11,
        MsgV::Difference(_) => 12,
        MsgV::FetchBlock(_) => 13,
        MsgV::NewBlock(_) => 14,
    }
}

/// The payload bytes of a message.
pub open spec fn enc_payload(m: MsgV) -> Seq<u8> {
    match m {
        MsgV::FetchUTXOs(pk) => enc_bytes(pk),
        MsgV::UTXOs(s) => enc_vec(s, pair_encoder()),
        MsgV::SubmitTransaction(t) => enc_tx(t),
        MsgV::NewTransaction(t) => enc_tx(t),
        MsgV::FetchTemplate(pk) => enc_bytes(pk),
        MsgV::Template(b) => enc_block(b),
        MsgV::ValidateTemplate(b) => enc_block(b),
        MsgV::TemplateValidity(x) => enc_bool(x),
        MsgV::SubmitTemplate(b) => enc_block(b),
        MsgV::DiscoverNodes => Seq::empty(),
        MsgV::NodeList(s) => enc_vec(s, string_encoder()),
        MsgV::AskDifference(x) => enc_u64(x as u64),
        MsgV::Difference(x) => enc_i64(x as i64),
        MsgV::FetchBlock(x) => enc_u64(x as u64),
        MsgV::NewBlock(b) => enc_block(b),
    }
}

/// A message on the wire: a one- or two-element array of tag and payload.
pub open spec fn enc_msg(m: MsgV) -> Seq<u8> {
    seq![
        if m is DiscoverNodes {
            0x81u8
        } else {
            0x82u8
        },
    ] + enc_u64(msg_tag(m)) + enc_payload(m)
}

/// Structurally sound payload lengths.
pub open spec fn msg_ok(m: MsgV) -> bool {
    match m {
        MsgV::FetchUTXOs(pk) => pk.len() <= 0xffffffffffffffff,
        MsgV::UTXOs(s) => pairs_ok(s),
        MsgV::SubmitTransaction(t) => tx_ok(t),
        MsgV::NewTransaction(t) => tx_ok(t),
        MsgV::FetchTemplate(pk) => pk.len() <= 0xffffffffffffffff,
        MsgV::Template(b) => block_ok(b),
        MsgV::ValidateTemplate(b) => block_ok(b),
        MsgV::TemplateValidity(_) => true,
        MsgV::SubmitTemplate(b) => block_ok(b),
        MsgV::DiscoverNodes => true,
        MsgV::NodeList(s) => strings_ok(s),
        MsgV::AskDifference(_) => true,
        MsgV::Difference(_) => true,
        MsgV::FetchBlock(_) => true,
        MsgV::NewBlock(b) => block_ok(b),
    }
}

pub proof fn lemma_msg_parts(t: Seq<u8>, v: MsgV)
    requires
        starts_with(t, enc_msg(v)),
    ensures
        t.len() >= 1,
        t[0] == (if v is DiscoverNodes {
            0x81u8
        } else {
            0x82u8
        }),
        starts_with(t.skip(1), enc_u64(msg_tag(v))),
        starts_with(t.skip(10), enc_payload(v)),
        enc_msg(v).len() == 10 + enc_payload(v).len(),
{
    let hd = seq![
        if v is DiscoverNodes {
            0x81u8
        } else {
            0x82u8
        },
    ];
    lemma_starts_with_cat(t, hd + enc_u64(msg_tag(v)), enc_payload(v));
    lemma_starts_with_cat(t, hd, enc_u64(msg_tag(v)));
    lemma_skip_skip(t, 1, 9);
    assert(t.take(1)[0] == hd[0]);
}

impl Message {
    /// The canonical encoding of this message.
    pub fn encode(&self) -> (r: Vec<u8>)
        ensures
            r@ == enc_msg(self@),
            msg_ok(self@),
    {
        let mut out: Vec<u8> = Vec::new();
        match self {
            Message::DiscoverNodes => {
                out.push(0x81u8);
            },
            _ => {
                out.push(0x82u8);
            },
        }
        match self {
            Message::FetchUTXOs(pk) => {
                write_u64(&mut out, 0);
                write_bytes(&mut out, &pk.bytes);
            },
            Message::UTXOs(v) => {
                write_u64(&mut out, 1);
                write_pairs(&mut out, v);
            },
            Message::SubmitTransaction(t) => {
                write_u64(&mut out, 2);
                t.write(&mut out);
            },
            Message::NewTransaction(t) => {
                write_u64(&mut out, 3);
                t.write(&mut out);
            },
            Message::FetchTemplate(pk) => {
                write_u64(&mut out, 4);
                write_bytes(&mut out, &pk.bytes);
            },
            Message::Template(b) => {
                write_u64(&mut out, 5);
                b.write(&mut out);
            },
            Message::ValidateTemplate(b) => {
                write_u64(&mut out, 6);
                b.write(&mut out);
            },
            Message::TemplateValidity(x) => {
                write_u64(&mut out, 7);
                write_bool(&mut out, *x);
            },
            Message::SubmitTemplate(b) => {
                write_u64(&mut out, 8);
                b.write(&mut out);
            },
            Message::DiscoverNodes => {
                write_u64(&mut out, 9);
            },
            Message::NodeList(v) => {
                write_u64(&mut out, 10);
                write_strings(&mut out, v);
            },
            Message::AskDifference(x) => {
                write_u64(&mut out, 11);
                write_u64(&mut out, *x as u64);
            },
            Message::Difference(x) => {
                write_u64(&mut out, 12);
                write_i64(&mut out, *x as i64);
            },
            Message::FetchBlock(x) => {
                write_u64(&mut out, 13);
                write_u64(&mut out, *x as u64);
            },
            Message::NewBlock(b) => {
                write_u64(&mut out, 14);
                b.write(&mut out);
            },
        }
        proof {
            assert(out@ =~= enc_msg(self@));
        }
        out
    }

    /// Decodes a canonically encoded message; the inverse of `encode`.
    pub fn decode(data: &Vec<u8>) -> (r: Option<Message>)
        ensures
            forall|v: MsgV|
                msg_ok(v) && starts_with(data@, #[trigger] enc_msg(v)) ==> (r matches Some(x) && x@
                    == v),
    {
        proof {
            assert(data@.skip(0) =~= data@);
        }
        match read_msg(data, 0) {
            Some(p) => Some(p.0),
            None => None,
        }
    }

    /// The message framed for a socket: an eight-byte big-endian length,
    /// then the encoding.
    pub fn to_frame(&self) -> (r: Vec<u8>)
        ensures
            r@ == unpack8(enc_msg(self@).len() as u64) + enc_msg(self@),
            msg_ok(self@),
    {
        let body = self.encode();
        let mut out: Vec<u8> = Vec::new();
        push_be8(&mut out, body.len() as u64);
        out.extend_from_slice(body.as_slice());
        proof {
            assert(out@ =~= unpack8(enc_msg(self@).len() as u64) + enc_msg(self@));
        }
        out
    }
}

/// Reads one message.
#[verifier::rlimit(100)]
#[verifier::spinoff_prover]
pub fn read_msg(data: &Vec<u8>, pos: usize) -> (r: Option<(Message, usize)>)
    requires
        pos <= data@.len(),
    ensures
        r matches Some(p) ==> pos < p.1 <= data@.len(),
        forall|v: MsgV|
            msg_ok(v) && starts_with(data@.skip(pos as int), #[trigger] enc_msg(v)) ==> (
            r matches Some(p) && p.0@ == v),
{
    let ghost t = data@.skip(pos as int);
    if data.len() - pos < 1 || (data[pos] != 0x81 && data[pos] != 0x82) {
        proof {
            assert forall|v: MsgV|
                msg_ok(v) && starts_with(t, #[trigger] enc_msg(v)) implies false by {
                lemma_msg_parts(t, v);
            }
        }
        return None;
    }
    let tagr = read_u64(data, pos + 1);
    proof {
        assert(data@.skip(pos + 1) =~= t.skip(1));
    }
    let (tag, p1) = match tagr {
        Some(p) => p,
        None => {
            proof {
                assert forall|v: MsgV|
                    msg_ok(v) && starts_with(t, #[trigger] enc_msg(v)) implies false by {
                    lemma_msg_parts(t, v);
                }
            }
            return None;
        },
    };
    proof {
        assert forall|v: MsgV|
            msg_ok(v) && starts_with(t, #[trigger] enc_msg(v)) implies msg_tag(v) == tag && p1
            == pos + 10 && starts_with(data@.skip(pos + 10), enc_payload(v)) && enc_msg(v).len()
            == 10 + enc_payload(v).len() by {
            lemma_msg_parts(t, v);
            assert(data@.skip(pos + 10) =~= t.skip(10));
        }
    }
    read_msg_body(data, p1, tag)
}

/// Reads the payload of a message with the given tag.
#[verifier::rlimit(100)]
fn read_msg_body(data: &Vec<u8>, p1: usize, tag: u64) -> (r: Option<(Message, usize)>)
    requires
        p1 <= data@.len(),
    ensures
        r matches Some(p) ==> p1 <= p.1 <= data@.len(),
        forall|v: MsgV|
            msg_ok(v) && msg_tag(v) == tag && starts_with(
                data@.skip(p1 as int),
                #[trigger] enc_payload(v),
            ) ==> (r matches Some(p) && p.0@ == v),
{
    if tag == 0 {
        proof {
            assert forall|v: MsgV|
                msg_ok(v) && msg_tag(v) == tag && starts_with(
                    data@.skip(p1 as int),
                    #[trigger] enc_payload(v),
                ) implies v matches MsgV::FetchUTXOs(_) by {}
        }
        match read_bytes(data, p1) {
            Some((pk, p2)) => Some(
                (Message::FetchUTXOs(PublicKey { bytes: pk }), p2),
            ),
            None => None,
        }
    } else if tag == 1 {
        proof {
            assert forall|v: MsgV|
                msg_ok(v) && msg_tag(v) == tag && starts_with(
                    data@.skip(p1 as int),
                    #[trigger] enc_payload(v),
                ) implies v matches MsgV::UTXOs(_) by {}
        }
        match read_pair_vec(data, p1) {
            Some((v, p2)) => Some((Message::UTXOs(v), p2)),
            None => None,
        }
    } else if tag == 2 {
        proof {
            assert forall|v: MsgV|
                msg_ok(v) && msg_tag(v) == tag && starts_with(
                    data@.skip(p1 as int),
                    #[trigger] enc_payload(v),
                ) implies v matches MsgV::SubmitTransaction(_) by {}
        }
        match read_tx(data, p1) {
            Some((t2, p2)) => Some((Message::SubmitTransaction(t2), p2)),
            None => None,
        }
    } else if tag == 3 {
        proof {
            assert forall|v: MsgV|
                msg_ok(v) && msg_tag(v) == tag && starts_with(
                    data@.skip(p1 as int),
                    #[trigger] enc_payload(v),
                ) implies v matches MsgV::NewTransaction(_) by {}
        }
        match read_tx(data, p1) {
            Some((t2, p2)) => Some((Message::NewTransaction(t2), p2)),
            None => None,
        }
    } else if tag == 4 {
        proof {
            assert forall|v: MsgV|
                msg_ok(v) && msg_tag(v) == tag && starts_with(
                    data@.skip(p1 as int),
                    #[trigger] enc_payload(v),
                ) implies v matches MsgV::FetchTemplate(_) by {}
        }
        match read_bytes(data, p1) {
            Some((pk, p2)) => Some(
                (Message::FetchTemplate(PublicKey { bytes: pk }), p2),
            ),
            None => None,
        }
    } else if tag == 5 {
        proof {
            assert forall|v: MsgV|
                msg_ok(v) && msg_tag(v) == tag && starts_with(
                    data@.skip(p1 as int),
                    #[trigger] enc_payload(v),
                ) implies v matches MsgV::Template(_) by {}
        }
        match read_block(data, p1) {
            Some((b, p2)) => Some((Message::Template(b), p2)),
            None => None,
        }
    } else if tag == 6 {
        proof {
            assert forall|v: MsgV|
                msg_ok(v) && msg_tag(v) == tag && starts_with(
                    data@.skip(p1 as int),
                    #[trigger] enc_payload(v),
                ) implies v matches MsgV::ValidateTemplate(_) by {}
        }
        match read_block(data, p1) {
            Some((b, p2)) => Some((Message::ValidateTemplate(b), p2)),
            None => None,
        }
    } else if tag == 7 {
        proof {
            assert forall|v: MsgV|
                msg_ok(v) && msg_tag(v) == tag && starts_with(
                    data@.skip(p1 as int),
                    #[trigger] enc_payload(v),
                ) implies v matches MsgV::TemplateValidity(_) by {}
        }
        match read_bool(data, p1) {
            Some((x, p2)) => Some((Message::TemplateValidity(x), p2)),
            None => None,
        }
    } else if tag == 8 {
        proof {
            assert forall|v: MsgV|
                msg_ok(v) && msg_tag(v) == tag && starts_with(
                    data@.skip(p1 as int),
                    #[trigger] enc_payload(v),
                ) implies v matches MsgV::SubmitTemplate(_) by {}
        }
        match read_block(data, p1) {
            Some((b, p2)) => Some((Message::SubmitTemplate(b), p2)),
            None => None,
        }
    } else if tag == 9 {
        proof {
            assert forall|v: MsgV|
                msg_ok(v) && msg_tag(v) == tag && starts_with(
                    data@.skip(p1 as int),
                    #[trigger] enc_payload(v),
                ) implies v matches MsgV::DiscoverNodes && enc_payload(v).len() == 0 by {}
        }
        Some((Message::DiscoverNodes, p1))
    } else if tag == 10 {
        proof {
            assert forall|v: MsgV|
                msg_ok(v) && msg_tag(v) == tag && starts_with(
                    data@.skip(p1 as int),
                    #[trigger] enc_payload(v),
                ) implies v matches MsgV::NodeList(_) by {}
        }
        match read_string_vec(data, p1) {
            Some((v, p2)) => Some((Message::NodeList(v), p2)),
            None => None,
        }
    } else if tag == 11 {
        proof {
            assert forall|v: MsgV|
                msg_ok(v) && msg_tag(v) == tag && starts_with(
                    data@.skip(p1 as int),
                    #[trigger] enc_payload(v),
                ) implies v matches MsgV::AskDifference(_) by {}
        }
        match read_u64(data, p1) {
            Some((x, p2)) => {
                if x > 0xffffffff {
                    return None;
                }
                Some((Message::AskDifference(x as u32), p2))
            },
            None => None,
        }
    } else if tag == 12 {
        proof {
            assert forall|v: MsgV|
                msg_ok(v) && msg_tag(v) == tag && starts_with(
                    data@.skip(p1 as int),
                    #[trigger] enc_payload(v),
                ) implies v matches MsgV::Difference(_) by {}
        }
        match read_i64(data, p1) {
            Some((x, p2)) => {
                if x > 0x7fffffffi64 || x < -0x80000000i64 {
                    return None;
                }
                Some((Message::Difference(x as i32), p2))
            },
            None => None,
        }
    } else if tag == 13 {
        proof {
            assert forall|v: MsgV|
                msg_ok(v) && msg_tag(v) == tag && starts_with(
                    data@.skip(p1 as int),
                    #[trigger] enc_payload(v),
                ) implies v matches MsgV::FetchBlock(_) by {}
        }
        match read_u64(data, p1) {
            Some((x, p2)) => {
                if x > usize::MAX as u64 {
                    return None;
                }
                Some((Message::FetchBlock(x as usize), p2))
            },
            None => None,
        }
    } else if tag == 14 {
        proof {
            assert forall|v: MsgV|
                msg_ok(v) && msg_tag(v) == tag && starts_with(
                    data@.skip(p1 as int),
                    #[trigger] enc_payload(v),
                ) implies v matches MsgV::NewBlock(_) by {}
        }
        match read_block(data, p1) {
            Some((b, p2)) => Some((Message::NewBlock(b), p2)),
            None => None,
        }
    } else {
        proof {
            assert forall|v: MsgV|
                !(msg_ok(v) && msg_tag(v) == tag && starts_with(
                    data@.skip(p1 as int),
                    #[trigger] enc_payload(v),
                )) by {
                assert(msg_tag(v) <= 14);
            }
        }
        None
    }
}

} // verus!
