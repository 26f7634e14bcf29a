use vstd::prelude::*;
use crate::sha256::unpack8;
use crate::sha256::u256_bytes_spec;
use crate::sha256::push_be8;
use crate::sha256::lemma_pack_unpack;
use crate::u256::U256;
use crate::u256::pack8_exec;
use crate::u256::pack8;

verus! {

// Canonical serialization: a deterministic CBOR profile. Integers always
// carry an eight-byte argument, byte and text strings an eight-byte length
// (digests a one-byte length), so every value has exactly one encoding.

/// `p` is a prefix of `s`.
pub open spec fn starts_with(s: Seq<u8>, p: Seq<u8>) -> bool {
    p.len() <= s.len() && s.take(p.len() as int) == p
}

/// Prefix of a concatenation splits into a prefix and a prefix of the rest.
pub proof fn lemma_starts_with_cat(s: Seq<u8>, a: Seq<u8>, b: Seq<u8>)
    ensures
        starts_with(s, a + b) <==> (starts_with(s, a) && starts_with(
            s.skip(a.len() as int),
            b,
        )),
{
    let ab = a + b;
    if starts_with(s, ab) {
        assert forall|j: int| 0 <= j < a.len() implies s.take(a.len() as int)[j] == a[j] by {
            assert(s.take(ab.len() as int)[j] == ab[j]);
        }
        assert(s.take(a.len() as int) =~= a);
        let t = s.skip(a.len() as int);
        assert forall|j: int| 0 <= j < b.len() implies t.take(b.len() as int)[j] == b[j] by {
            assert(s.take(ab.len() as int)[a.len() + j] == ab[a.len() + j]);
        }
        assert(t.take(b.len() as int) =~= b);
    }
    if starts_with(s, a) && starts_with(s.skip(a.len() as int), b) {
        let t = s.skip(a.len() as int);
        assert forall|j: int| 0 <= j < ab.len() implies s.take(ab.len() as int)[j] == ab[j] by {
            if j < a.len() {
                assert(s.take(a.len() as int)[j] == a[j]);
            } else {
                assert(t.take(b.len() as int)[j - a.len()] == b[j - a.len()]);
            }
        }
        assert(s.take(ab.len() as int) =~= ab);
    }
}

/// Skipping twice is skipping the sum; used when decoding concatenations.
pub proof fn lemma_skip_skip(s: Seq<u8>, a: int, b: int)
    requires
        0 <= a,
        0 <= b,
        a + b <= s.len(),
    ensures
        s.skip(a).skip(b) =~= s.skip(a + b),
{
}

// --- unsigned 64-bit integers: major type 0, eight-byte argument ---

pub open spec fn enc_u64(v: u64) -> Seq<u8> {
    seq![0x1bu8] + unpack8(v)
}

pub fn write_u64(out: &mut Vec<u8>, v: u64)
    ensures
        final(out)@ == old(out)@ + enc_u64(v),
{
    out.push(0x1bu8);
    push_be8(out, v);
    proof {
        assert(out@ =~= old(out)@ + enc_u64(v));
    }
}

pub fn read_u64(data: &Vec<u8>, pos: usize) -> (r: Option<(u64, usize)>)
    requires
        pos <= data@.len(),
    ensures
        r matches Some(p) ==> pos < p.1 <= data@.len(),
        forall|v: u64|
            starts_with(data@.skip(pos as int), #[trigger] enc_u64(v)) ==> r == Some(
                (v, (pos + 9) as usize),
            ),
{
    if data.len() - pos < 9 {
        return None;
    }
    if data[pos] != 0x1b {
        proof {
            assert forall|v: u64| !starts_with(data@.skip(pos as int), #[trigger] enc_u64(v)) by {
                assert(enc_u64(v)[0] == 0x1bu8);
                if starts_with(data@.skip(pos as int), enc_u64(v)) {
                    assert(data@.skip(pos as int).take(9)[0] == enc_u64(v)[0]);
                }
            }
        }
        return None;
    }
    let w = pack8_exec(data.as_slice(), pos + 1);
    proof {
        assert forall|v: u64|
            starts_with(data@.skip(pos as int), #[trigger] enc_u64(v)) implies w == v && pos + 9
            <= data@.len() by {
            assert forall|j: int| 0 <= j < 8 implies data@[pos + 1 + j] == unpack8(v)[j] by {
                assert(data@.skip(pos as int).take(9)[1 + j] == enc_u64(v)[1 + j]);
                assert(enc_u64(v)[1 + j] == unpack8(v)[j]);
            }
            lemma_pack_unpack(data@, pos + 1, v);
        }
    }
    Some((w, pos + 9))
}

// --- signed 64-bit integers: major type 0 or 1, eight-byte argument ---

pub open spec fn enc_i64(v: i64) -> Seq<u8> {
    if v >= 0 {
        seq![0x1bu8] + unpack8(v as u64)
    } else {
        seq![0x3bu8] + unpack8((-1 - v) as u64)
    }
}

pub fn write_i64(out: &mut Vec<u8>, v: i64)
    ensures
        final(out)@ == old(out)@ + enc_i64(v),
{
    if v >= 0 {
        out.push(0x1bu8);
        push_be8(out, v as u64);
    } else {
        out.push(0x3bu8);
        push_be8(out, (-(v + 1)) as u64);
    }
    proof {
        assert(out@ =~= old(out)@ + enc_i64(v));
    }
}

pub fn read_i64(data: &Vec<u8>, pos: usize) -> (r: Option<(i64, usize)>)
    requires
        pos <= data@.len(),
    ensures
        r matches Some(p) ==> pos < p.1 <= data@.len(),
        forall|v: i64|
            starts_with(data@.skip(pos as int), #[trigger] enc_i64(v)) ==> r == Some(
                (v, (pos + 9) as usize),
            ),
{
    if data.len() - pos < 9 {
        return None;
    }
    let tag = data[pos];
    if tag != 0x1b && tag != 0x3b {
        proof {
            assert forall|v: i64| !starts_with(data@.skip(pos as int), #[trigger] enc_i64(v)) by {
                if starts_with(data@.skip(pos as int), enc_i64(v)) {
                    assert(data@.skip(pos as int).take(9)[0] == enc_i64(v)[0]);
                    assert(enc_i64(v)[0] == 0x1bu8 || enc_i64(v)[0] == 0x3bu8);
                }
            }
        }
        return None;
    }
    let w = pack8_exec(data.as_slice(), pos + 1);
    proof {
        assert forall|v: i64|
            starts_with(data@.skip(pos as int), #[trigger] enc_i64(v)) implies ({
            &&& data@.skip(pos as int).take(9)[0] == enc_i64(v)[0]
            &&& (v >= 0 ==> w == v as u64)
            &&& (v < 0 ==> w == (-1 - v) as u64)
        }) by {
            assert(data@.skip(pos as int).take(9)[0] == enc_i64(v)[0]);
            let u: u64 = if v >= 0 {
                v as u64
            } else {
                (-1 - v) as u64
            };
            assert forall|j: int| 0 <= j < 8 implies data@[pos + 1 + j] == unpack8(u)[j] by {
                assert(data@.skip(pos as int).take(9)[1 + j] == enc_i64(v)[1 + j]);
                assert(enc_i64(v)[1 + j] == unpack8(u)[j]);
            }
            lemma_pack_unpack(data@, pos + 1, u);
        }
    }
    if tag == 0x1b {
        if w > 0x7fffffffffffffff {
            proof {
                assert forall|v: i64|
                    !starts_with(data@.skip(pos as int), #[trigger] enc_i64(v)) by {
                    if starts_with(data@.skip(pos as int), enc_i64(v)) {
                        assert(enc_i64(v)[0] == 0x1bu8);
                    }
                }
            }
            return None;
        }
        Some((w as i64, pos + 9))
    } else {
        if w > 0x7fffffffffffffff {
            proof {
                assert forall|v: i64|
                    !starts_with(data@.skip(pos as int), #[trigger] enc_i64(v)) by {
                    if starts_with(data@.skip(pos as int), enc_i64(v)) {
                        assert(enc_i64(v)[0] == 0x3bu8);
                    }
                }
            }
            return None;
        }
        Some((-(w as i64) - 1, pos + 9))
    }
}

// --- booleans ---

pub open spec fn enc_bool(v: bool) -> Seq<u8> {
    if v {
        seq![0xf5u8]
    } else {
        seq![0xf4u8]
    }
}

pub fn write_bool(out: &mut Vec<u8>, v: bool)
    ensures
        final(out)@ == old(out)@ + enc_bool(v),
{
    if v {
        out.push(0xf5u8);
    } else {
        out.push(0xf4u8);
    }
    proof {
        assert(out@ =~= old(out)@ + enc_bool(v));
    }
}

pub fn read_bool(data: &Vec<u8>, pos: usize) -> (r: Option<(bool, usize)>)
    requires
        pos <= data@.len(),
    ensures
        r matches Some(p) ==> pos < p.1 <= data@.len(),
        forall|v: bool|
            starts_with(data@.skip(pos as int), #[trigger] enc_bool(v)) ==> r == Some(
                (v, (pos + 1) as usize),
            ),
{
    if data.len() - pos < 1 {
        return None;
    }
    let b = data[pos];
    proof {
        assert forall|v: bool|
            starts_with(data@.skip(pos as int), #[trigger] enc_bool(v)) implies data@[pos as int]
            == enc_bool(v)[0] by {
            assert(data@.skip(pos as int).take(1)[0] == enc_bool(v)[0]);
        }
    }
    if b == 0xf5 {
        Some((true, pos + 1))
    } else if b == 0xf4 {
        Some((false, pos + 1))
    } else {
        None
    }
}

// --- byte strings: major type 2, eight-byte length ---

pub open spec fn enc_bytes(s: Seq<u8>) -> Seq<u8> {
    seq![0x5bu8] + unpack8(s.len() as u64) + s
}

pub fn write_bytes(out: &mut Vec<u8>, v: &Vec<u8>)
    ensures
        final(out)@ == old(out)@ + enc_bytes(v@),
        v@.len() <= 0xffffffffffffffff,
{
    let _n: usize = v.len();
    out.push(0x5bu8);
    push_be8(out, v.len() as u64);
    out.extend_from_slice(v.as_slice());
    proof {
        assert(out@ =~= old(out)@ + enc_bytes(v@));
    }
}

pub fn read_bytes(data: &Vec<u8>, pos: usize) -> (r: Option<(Vec<u8>, usize)>)
    requires
        pos <= data@.len(),
    ensures
        forall|s: Seq<u8>|
            s.len() <= 0xffffffffffffffff && starts_with(
                data@.skip(pos as int),
                #[trigger] enc_bytes(s),
            ) ==> (r matches Some(p) && p.0@ == s && p.1 == pos + 9 + s.len()),
        r matches Some(p) ==> pos < p.1 <= data@.len(),
{
    if data.len() - pos < 9 {
        return None;
    }
    if data[pos] != 0x5b {
        proof {
            assert forall|s: Seq<u8>|
                s.len() <= 0xffffffffffffffff ==> !starts_with(
                    data@.skip(pos as int),
                    #[trigger] enc_bytes(s),
                ) by {
                if starts_with(data@.skip(pos as int), enc_bytes(s)) {
                    assert(data@.skip(pos as int).take(enc_bytes(s).len() as int)[0] == enc_bytes(
                        s,
                    )[0]);
                }
            }
        }
        return None;
    }
    let w = pack8_exec(data.as_slice(), pos + 1);
    proof {
        assert forall|s: Seq<u8>|
            s.len() <= 0xffffffffffffffff && starts_with(
                data@.skip(pos as int),
                #[trigger] enc_bytes(s),
            ) implies w == s.len() && pos + 9 + s.len() <= data@.len() by {
            let e = enc_bytes(s);
            assert forall|j: int| 0 <= j < 8 implies #[trigger] data@[pos + 1 + j] == unpack8(
                s.len() as u64,
            )[j] by {
                assert(data@.skip(pos as int).take(e.len() as int)[1 + j] == e[1 + j]);
                assert(e[1 + j] == unpack8(s.len() as u64)[j]);
            }
            lemma_pack_unpack(data@, pos + 1, s.len() as u64);
        }
    }
    if w > (data.len() - (pos + 9)) as u64 {
        return None;
    }
    let n = w as usize;
    let dlen: usize = data.len();
    let mut out: Vec<u8> = Vec::new();
    let mut i: usize = 0;
    while i < n
        invariant
            i <= n,
            pos + 9 + n <= dlen,
            dlen == data@.len(),
            out@ =~= data@.subrange(pos + 9, pos + 9 + i),
        decreases n - i,
    {
        out.push(data[pos + 9 + i]);
        proof {
            assert(out@ =~= data@.subrange(pos + 9, pos + 9 + i + 1));
        }
        i = i + 1;
    }
    proof {
        assert forall|s: Seq<u8>|
            s.len() <= 0xffffffffffffffff && starts_with(
                data@.skip(pos as int),
                #[trigger] enc_bytes(s),
            ) implies out@ == s by {
            let e = enc_bytes(s);
            assert forall|j: int| 0 <= j < s.len() implies data@[pos + 9 + j] == s[j] by {
                assert(data@.skip(pos as int).take(e.len() as int)[9 + j] == e[9 + j]);
                assert(e[9 + j] == s[j]);
            }
            assert(out@ =~= s);
        }
    }
    Some((out, pos + 9 + n))
}

// --- 128-bit identifiers: a sixteen-byte byte string with short header ---

pub open spec fn unpack16(v: u128) -> Seq<u8> {
    unpack8((v >> 64u128) as u64) + unpack8((v & 0xffffffffffffffff) as u64)
}

pub open spec fn enc_u128(v: u128) -> Seq<u8> {
    seq![0x50u8] + unpack16(v)
}

pub fn write_u128(out: &mut Vec<u8>, v: u128)
    ensures
        final(out)@ == old(out)@ + enc_u128(v),
{
    out.push(0x50u8);
    push_be8(out, (v >> 64u128) as u64);
    push_be8(out, (v & 0xffffffffffffffff) as u64);
    proof {
        assert(out@ =~= old(out)@ + enc_u128(v));
    }
}

pub fn read_u128(data: &Vec<u8>, pos: usize) -> (r: Option<(u128, usize)>)
    requires
        pos <= data@.len(),
    ensures
        r matches Some(p) ==> pos < p.1 <= data@.len(),
        forall|v: u128|
            starts_with(data@.skip(pos as int), #[trigger] enc_u128(v)) ==> r == Some(
                (v, (pos + 17) as usize),
            ),
{
    if data.len() - pos < 17 {
        return None;
    }
    if data[pos] != 0x50 {
        proof {
            assert forall|v: u128| !starts_with(data@.skip(pos as int), #[trigger] enc_u128(v)) by {
                if starts_with(data@.skip(pos as int), enc_u128(v)) {
                    assert(data@.skip(pos as int).take(17)[0] == enc_u128(v)[0]);
                }
            }
        }
        return None;
    }
    let hi = pack8_exec(data.as_slice(), pos + 1);
    let lo = pack8_exec(data.as_slice(), pos + 9);
    let v: u128 = ((hi as u128) << 64u128) | (lo as u128);
    proof {
        assert forall|x: u128|
            starts_with(data@.skip(pos as int), #[trigger] enc_u128(x)) implies v == x by {
            let xh = (x >> 64u128) as u64;
            let xl = (x & 0xffffffffffffffff) as u64;
            assert forall|j: int| 0 <= j < 8 implies data@[pos + 1 + j] == unpack8(xh)[j]
                && data@[pos + 9 + j] == unpack8(xl)[j] by {
                assert(data@.skip(pos as int).take(17)[1 + j] == enc_u128(x)[1 + j]);
                assert(data@.skip(pos as int).take(17)[9 + j] == enc_u128(x)[9 + j]);
                assert(enc_u128(x)[1 + j] == unpack8(xh)[j]);
                assert(enc_u128(x)[9 + j] == unpack8(xl)[j]);
            }
            lemma_pack_unpack(data@, pos + 1, xh);
            lemma_pack_unpack(data@, pos + 9, xl);
            assert(((((x >> 64u128) as u64) as u128) << 64u128) | (((x
                & 0xffffffffffffffff) as u64) as u128) == x) by (bit_vector);
        }
    }
    Some((v, pos + 17))
}

// --- 256-bit values: a 32-byte byte string, big-endian ---

pub open spec fn enc_u256(t: U256) -> Seq<u8> {
    seq![0x58u8, 0x20u8] + u256_bytes_spec(t)
}

pub fn write_u256(out: &mut Vec<u8>, t: &U256)
    ensures
        final(out)@ == old(out)@ + enc_u256(*t),
{
    out.push(0x58u8);
    out.push(0x20u8);
    push_be8(out, t.w3);
    push_be8(out, t.w2);
    push_be8(out, t.w1);
    push_be8(out, t.w0);
    proof {
        assert(out@ =~= old(out)@ + enc_u256(*t));
    }
}

pub fn read_u256(data: &Vec<u8>, pos: usize) -> (r: Option<(U256, usize)>)
    requires
        pos <= data@.len(),
    ensures
        r matches Some(p) ==> pos < p.1 <= data@.len(),
        forall|t: U256|
            starts_with(data@.skip(pos as int), #[trigger] enc_u256(t)) ==> r == Some(
                (t, (pos + 34) as usize),
            ),
{
    if data.len() - pos < 34 {
        return None;
    }
    if data[pos] != 0x58 || data[pos + 1] != 0x20 {
        proof {
            assert forall|t: U256| !starts_with(data@.skip(pos as int), #[trigger] enc_u256(t)) by {
                if starts_with(data@.skip(pos as int), enc_u256(t)) {
                    assert(data@.skip(pos as int).take(34)[0] == enc_u256(t)[0]);
                    assert(data@.skip(pos as int).take(34)[1] == enc_u256(t)[1]);
                }
            }
        }
        return None;
    }
    let w3 = pack8_exec(data.as_slice(), pos + 2);
    let w2 = pack8_exec(data.as_slice(), pos + 10);
    let w1 = pack8_exec(data.as_slice(), pos + 18);
    let w0 = pack8_exec(data.as_slice(), pos + 26);
    let t = U256 { w0, w1, w2, w3 };
    proof {
        assert forall|x: U256|
            starts_with(data@.skip(pos as int), #[trigger] enc_u256(x)) implies t == x by {
            assert forall|j: int| 0 <= j < 8 implies data@[pos + 2 + j] == unpack8(x.w3)[j]
                && data@[pos + 10 + j] == unpack8(x.w2)[j] && data@[pos + 18 + j] == unpack8(
                x.w1,
            )[j] && data@[pos + 26 + j] == unpack8(x.w0)[j] by {
                assert(data@.skip(pos as int).take(34)[2 + j] == enc_u256(x)[2 + j]);
                assert(data@.skip(pos as int).take(34)[10 + j] == enc_u256(x)[10 + j]);
                assert(data@.skip(pos as int).take(34)[18 + j] == enc_u256(x)[18 + j]);
                assert(data@.skip(pos as int).take(34)[26 + j] == enc_u256(x)[26 + j]);
                assert(enc_u256(x)[2 + j] == unpack8(x.w3)[j]);
                assert(enc_u256(x)[10 + j] == unpack8(x.w2)[j]);
                assert(enc_u256(x)[18 + j] == unpack8(x.w1)[j]);
                assert(enc_u256(x)[26 + j] == unpack8(x.w0)[j]);
            }
            lemma_pack_unpack(data@, pos + 2, x.w3);
            lemma_pack_unpack(data@, pos + 10, x.w2);
            lemma_pack_unpack(data@, pos + 18, x.w1);
            lemma_pack_unpack(data@, pos + 26, x.w0);
        }
    }
    Some((t, pos + 34))
}

// --- digests: same 32-byte form as 256-bit values ---

pub open spec fn enc_hash(h: crate::sha256::Hash) -> Seq<u8> {
    enc_u256(h.0)
}

pub fn write_hash(out: &mut Vec<u8>, h: &crate::sha256::Hash)
    ensures
        final(out)@ == old(out)@ + enc_hash(*h),
{
    write_u256(out, &h.0)
}

pub fn read_hash(data: &Vec<u8>, pos: usize) -> (r: Option<(crate::sha256::Hash, usize)>)
    requires
        pos <= data@.len(),
    ensures
        r matches Some(p) ==> pos < p.1 <= data@.len(),
        forall|h: crate::sha256::Hash|
            starts_with(data@.skip(pos as int), #[trigger] enc_hash(h)) ==> r == Some(
                (h, (pos + 34) as usize),
            ),
{
    match read_u256(data, pos) {
        Some(p) => Some((crate::sha256::Hash(p.0), p.1)),
        None => None,
    }
}

// --- homogeneous lists: major type 4, eight-byte count, items in order ---

/// Concatenated encodings of the elements of `s`, where `f` encodes one
/// element.
pub open spec fn enc_list<T>(s: Seq<T>, f: spec_fn(T) -> Seq<u8>) -> Seq<u8>
    decreases s.len(),
{
    if s.len() == 0 {
        Seq::empty()
    } else {
        f(s[0]) + enc_list(s.skip(1), f)
    }
}

/// An array: count, then the encoded items.
pub open spec fn enc_vec<T>(s: Seq<T>, f: spec_fn(T) -> Seq<u8>) -> Seq<u8> {
    seq![0x9bu8] + unpack8(s.len() as u64) + enc_list(s, f)
}

pub proof fn lemma_enc_list_push<T>(s: Seq<T>, x: T, f: spec_fn(T) -> Seq<u8>)
    ensures
        enc_list(s.push(x), f) == enc_list(s, f) + f(x),
    decreases s.len(),
{
    if s.len() == 0 {
        assert(s.push(x).skip(1) =~= Seq::<T>::empty());
        assert(s.push(x)[0] == x);
        assert(enc_list(Seq::<T>::empty(), f) == Seq::<u8>::empty());
        assert(enc_list(s.push(x), f) == f(x) + Seq::<u8>::empty());
        assert(f(x) + Seq::<u8>::empty() =~= f(x));
        assert(enc_list(s, f) + f(x) =~= f(x));
    } else {
        assert(s.push(x).skip(1) =~= s.skip(1).push(x));
        lemma_enc_list_push(s.skip(1), x, f);
        assert(s.push(x)[0] == s[0]);
        assert(f(s[0]) + (enc_list(s.skip(1), f) + f(x)) =~= (f(s[0]) + enc_list(s.skip(1), f))
            + f(x));
    }
}

/// Every item encoding is at least one byte, so a list of `n` items takes at
/// least `n` bytes.
pub proof fn lemma_enc_list_len<T>(s: Seq<T>, f: spec_fn(T) -> Seq<u8>)
    requires
        forall|t: T| (#[trigger] f(t)).len() >= 1,
    ensures
        enc_list(s, f).len() >= s.len(),
    decreases s.len(),
{
    if s.len() > 0 {
        lemma_enc_list_len(s.skip(1), f);
    }
}

/// Splits a prefix claim about an encoded array into its count bytes and its
/// item bytes.
pub proof fn lemma_vec_parts<T>(t: Seq<u8>, s: Seq<T>, f: spec_fn(T) -> Seq<u8>)
    requires
        starts_with(t, enc_vec(s, f)),
    ensures
        t.len() >= 9,
        t[0] == 0x9bu8,
        forall|j: int| 0 <= j < 8 ==> #[trigger] t[1 + j] == unpack8(s.len() as u64)[j],
        starts_with(t.skip(9), enc_list(s, f)),
{
    let head = seq![0x9bu8] + unpack8(s.len() as u64);
    assert(enc_vec(s, f) =~= head + enc_list(s, f));
    lemma_starts_with_cat(t, head, enc_list(s, f));
    assert forall|j: int| 0 <= j < 8 implies #[trigger] t[1 + j] == unpack8(s.len() as u64)[j] by {
        assert(t.take(9)[1 + j] == head[1 + j]);
        assert(head[1 + j] == unpack8(s.len() as u64)[j]);
    }
    assert(t[0] == t.take(9)[0]);
}


// --- text strings: major type 3, eight-byte length, UTF-8 bytes ---

pub open spec fn enc_string(s: Seq<char>) -> Seq<u8> {
    seq![0x7bu8] + unpack8(vstd::utf8::encode_utf8(s).len() as u64) + vstd::utf8::encode_utf8(s)
}

pub open spec fn string_ok(s: Seq<char>) -> bool {
    vstd::utf8::encode_utf8(s).len() <= 0xffffffffffffffff
}

pub fn write_string(out: &mut Vec<u8>, v: &String)
    ensures
        final(out)@ == old(out)@ + enc_string(v@),
        string_ok(v@),
{
    out.push(0x7bu8);
    let bytes = v.as_str().as_bytes();
    push_be8(out, bytes.len() as u64);
    out.extend_from_slice(bytes);
    proof {
        assert(out@ =~= old(out)@ + enc_string(v@));
    }
}

/// Relies on `String::from_utf8`: it succeeds exactly on valid UTF-8 and
/// returns the string those bytes decode to.
#[verifier::external_body]
fn string_from_utf8(bytes: Vec<u8>) -> (r: Option<String>)
    ensures
        r matches Some(s) ==> vstd::utf8::valid_utf8(bytes@) && s@ == vstd::utf8::decode_utf8(
            bytes@,
        ),
        r is None ==> !vstd::utf8::valid_utf8(bytes@),
{
    match String::from_utf8(bytes) {
        Ok(s) => Some(s),
        Err(_) => None,
    }
}

pub fn read_string(data: &Vec<u8>, pos: usize) -> (r: Option<(String, usize)>)
    requires
        pos <= data@.len(),
    ensures
        r matches Some(p) ==> pos < p.1 <= data@.len(),
        forall|s: Seq<char>|
            string_ok(s) && starts_with(data@.skip(pos as int), #[trigger] enc_string(s)) ==> (
            r matches Some(p) && p.0@ == s && p.1 == pos + enc_string(s).len()),
{
    if data.len() - pos < 9 {
        return None;
    }
    if data[pos] != 0x7b {
        proof {
            assert forall|s: Seq<char>|
                string_ok(s) ==> !starts_with(data@.skip(pos as int), #[trigger] enc_string(s)) by {
                if starts_with(data@.skip(pos as int), enc_string(s)) {
                    assert(data@.skip(pos as int).take(enc_string(s).len() as int)[0] == enc_string(
                        s,
                    )[0]);
                }
            }
        }
        return None;
    }
    let w = pack8_exec(data.as_slice(), pos + 1);
    proof {
        assert forall|s: Seq<char>|
            string_ok(s) && starts_with(
                data@.skip(pos as int),
                #[trigger] enc_string(s),
            ) implies w == vstd::utf8::encode_utf8(s).len() && pos + 9 + vstd::utf8::encode_utf8(
            s,
        ).len() <= data@.len() by {
            let e = enc_string(s);
            assert forall|j: int| 0 <= j < 8 implies #[trigger] data@[pos + 1 + j] == unpack8(
                vstd::utf8::encode_utf8(s).len() as u64,
            )[j] by {
                assert(data@.skip(pos as int).take(e.len() as int)[1 + j] == e[1 + j]);
                assert(e[1 + j] == unpack8(vstd::utf8::encode_utf8(s).len() as u64)[j]);
            }
            lemma_pack_unpack(data@, pos + 1, vstd::utf8::encode_utf8(s).len() as u64);
        }
    }
    if w > (data.len() - (pos + 9)) as u64 {
        return None;
    }
    let n = w as usize;
    let dlen: usize = data.len();
    let mut raw: Vec<u8> = Vec::new();
    let mut i: usize = 0;
    while i < n
        invariant
            i <= n,
            pos + 9 + n <= dlen,
            dlen == data@.len(),
            raw@ =~= data@.subrange(pos + 9, pos + 9 + i),
        decreases n - i,
    {
        raw.push(data[pos + 9 + i]);
        proof {
            assert(raw@ =~= data@.subrange(pos + 9, pos + 9 + i + 1));
        }
        i = i + 1;
    }
    let ghost rawv = raw@;
    let st = string_from_utf8(raw);
    proof {
        assert forall|s: Seq<char>|
            string_ok(s) && starts_with(
                data@.skip(pos as int),
                #[trigger] enc_string(s),
            ) implies rawv == vstd::utf8::encode_utf8(s) by {
            let e = enc_string(s);
            let eb = vstd::utf8::encode_utf8(s);
            assert forall|j: int| 0 <= j < eb.len() implies #[trigger] data@[pos + 9 + j]
                == eb[j] by {
                assert(data@.skip(pos as int).take(e.len() as int)[9 + j] == e[9 + j]);
                assert(e[9 + j] == eb[j]);
            }
            assert(rawv.len() == eb.len());
            assert forall|j: int| 0 <= j < eb.len() implies #[trigger] rawv[j] == eb[j] by {
                assert(rawv[j] == data@[pos + 9 + j]);
            }
            assert(rawv =~= eb);
        }
    }
    match st {
        Some(out) => {
            proof {
                assert forall|s: Seq<char>|
                    string_ok(s) && starts_with(
                        data@.skip(pos as int),
                        #[trigger] enc_string(s),
                    ) implies out@ == s by {
                    vstd::utf8::encode_utf8_valid_utf8(s);
                    vstd::utf8::encode_utf8_decode_utf8(s);
                }
            }
            Some((out, pos + 9 + n))
        },
        None => {
            proof {
                assert forall|s: Seq<char>|
                    string_ok(s) ==> !starts_with(
                        data@.skip(pos as int),
                        #[trigger] enc_string(s),
                    ) by {
                    if starts_with(data@.skip(pos as int), enc_string(s)) {
                        vstd::utf8::encode_utf8_valid_utf8(s);
                    }
                }
            }
            None
        },
    }
}

} // verus!
