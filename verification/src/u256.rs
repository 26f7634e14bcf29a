use vstd::prelude::*;
use vstd::arithmetic::div_mod::lemma_fundamental_div_mod;
use vstd::arithmetic::div_mod::lemma_fundamental_div_mod_converse;
use vstd::arithmetic::div_mod::lemma_mod_division_less_than_divisor;
use vstd::arithmetic::mul::lemma_mul_upper_bound;
use vstd::pervasive::VecAdditionalExecFns;

verus! {

/// Unsigned 256-bit integer, used as the difficulty target. Limbs are
/// 64 bits wide, `w0` least significant.
#[derive(Clone, Copy, Debug, PartialEq, Eq, Structural)]
pub struct U256 {
    pub w0: u64,
    pub w1: u64,
    pub w2: u64,
    pub w3: u64,
}

/// The integer a `U256` stands for.
pub open spec fn u256_val(x: U256) -> int {
    x.w0 + 0x10000000000000000int * (x.w1 + 0x10000000000000000int * (x.w2
        + 0x10000000000000000int * x.w3))
}

/// Largest value a `U256` can hold: 2^256 - 1. This is also `MIN_TARGET`,
/// the easiest difficulty.
pub open spec fn u256_max() -> int {
    0xffffffffffffffffffffffffffffffffffffffffffffffffffffffffffffffffint
}

/// Value of a little-endian sequence of 64-bit limbs.
pub open spec fn lv(s: Seq<u64>) -> int
    decreases s.len(),
{
    if s.len() == 0 {
        0
    } else {
        s[0] + 0x10000000000000000int * lv(s.skip(1))
    }
}

/// 2^(64 n): the weight of limb `n`.
pub open spec fn bpow(n: nat) -> int
    decreases n,
{
    if n == 0 {
        1
    } else {
        0x10000000000000000int * bpow((n - 1) as nat)
    }
}

pub proof fn lemma_bpow_pos(n: nat)
    ensures
        bpow(n) >= 1,
    decreases n,
{
    if n > 0 {
        lemma_bpow_pos((n - 1) as nat);
        assert(0x10000000000000000int * bpow((n - 1) as nat) >= 1) by (nonlinear_arith)
            requires
                bpow((n - 1) as nat) >= 1,
        ;
    }
}

pub proof fn lemma_lv_nonneg(s: Seq<u64>)
    ensures
        lv(s) >= 0,
    decreases s.len(),
{
    if s.len() > 0 {
        lemma_lv_nonneg(s.skip(1));
        assert(0x10000000000000000int * lv(s.skip(1)) >= 0) by (nonlinear_arith)
            requires
                lv(s.skip(1)) >= 0,
        ;
    }
}

pub proof fn lemma_lv_bound(s: Seq<u64>)
    ensures
        lv(s) < bpow(s.len()),
    decreases s.len(),
{
    lemma_bpow_pos(s.len());
    if s.len() > 0 {
        lemma_lv_bound(s.skip(1));
        lemma_lv_nonneg(s.skip(1));
        let t = lv(s.skip(1));
        let p = bpow((s.len() - 1) as nat);
        assert(bpow(s.len()) == 0x10000000000000000int * p);
        assert(s[0] + 0x10000000000000000int * t < 0x10000000000000000int * p)
            by (nonlinear_arith)
            requires
                0 <= t,
                t < p,
                0 <= s[0] < 0x10000000000000000int,
        ;
    }
}

pub proof fn lemma_lv_push(s: Seq<u64>, x: u64)
    ensures
        lv(s.push(x)) == lv(s) + x * bpow(s.len()),
    decreases s.len(),
{
    if s.len() == 0 {
        assert(s.push(x).skip(1) =~= Seq::<u64>::empty());
        assert(lv(Seq::<u64>::empty()) == 0);
        assert(lv(s.push(x)) == s.push(x)[0] + 0x10000000000000000int * lv(s.push(x).skip(1)));
        assert(x * bpow(0) == x * 1 == x) by (nonlinear_arith);
    } else {
        assert(s.push(x).skip(1) =~= s.skip(1).push(x));
        lemma_lv_push(s.skip(1), x);
        let t = lv(s.skip(1));
        let p = bpow((s.len() - 1) as nat);
        assert(bpow(s.len()) == 0x10000000000000000int * p);
        assert(lv(s.push(x)) == s.push(x)[0] + 0x10000000000000000int * lv(s.push(x).skip(1)));
        assert(s.push(x)[0] == s[0]);
        assert(s[0] + 0x10000000000000000int * (t + x * p) == (s[0] + 0x10000000000000000int * t)
            + x * (0x10000000000000000int * p)) by (nonlinear_arith);
    }
}

/// Value splits at any index: low part plus weighted high part.
pub proof fn lemma_lv_split(s: Seq<u64>, i: int)
    requires
        0 <= i <= s.len(),
    ensures
        lv(s) == lv(s.take(i)) + bpow(i as nat) * lv(s.skip(i)),
    decreases i,
{
    if i == 0 {
        assert(s.take(0) =~= Seq::<u64>::empty());
        assert(lv(Seq::<u64>::empty()) == 0);
        assert(s.skip(0) =~= s);
        assert(bpow(0) * lv(s) == 1 * lv(s) == lv(s)) by (nonlinear_arith);
    } else {
        assert(s.take(i).skip(1) =~= s.skip(1).take(i - 1));
        assert(s.skip(1).skip(i - 1) =~= s.skip(i));
        lemma_lv_split(s.skip(1), i - 1);
        let a = lv(s.skip(1).take(i - 1));
        let b = lv(s.skip(i));
        let p = bpow((i - 1) as nat);
        assert(bpow(i as nat) == 0x10000000000000000int * p);
        assert(lv(s) == s[0] + 0x10000000000000000int * lv(s.skip(1)));
        assert(lv(s.take(i)) == s.take(i)[0] + 0x10000000000000000int * lv(s.take(i).skip(1)));
        assert(s.take(i)[0] == s[0]);
        assert(s[0] + 0x10000000000000000int * (a + p * b) == (s[0] + 0x10000000000000000int * a)
            + (0x10000000000000000int * p) * b) by (nonlinear_arith);
    }
}

/// If two equal-length limb sequences agree above index `i` and differ at `i`,
/// the one with the smaller limb has the smaller value.
pub proof fn lemma_lv_lt_at(a: Seq<u64>, b: Seq<u64>, i: int)
    requires
        a.len() == b.len(),
        0 <= i < a.len(),
        a.skip(i + 1) == b.skip(i + 1),
        a[i] < b[i],
    ensures
        lv(a) < lv(b),
{
    lemma_lv_split(a, i);
    lemma_lv_split(b, i);
    assert(a.skip(i).skip(1) =~= a.skip(i + 1));
    assert(b.skip(i).skip(1) =~= b.skip(i + 1));
    let u = lv(a.skip(i + 1));
    lemma_lv_nonneg(a.skip(i + 1));
    lemma_lv_bound(a.take(i));
    lemma_lv_nonneg(a.take(i));
    lemma_lv_nonneg(b.take(i));
    let ta = lv(a.take(i));
    let tb = lv(b.take(i));
    let p = bpow(i as nat);
    lemma_bpow_pos(i as nat);
    assert(lv(a.skip(i)) == a.skip(i)[0] + 0x10000000000000000int * lv(a.skip(i).skip(1)));
    assert(lv(b.skip(i)) == b.skip(i)[0] + 0x10000000000000000int * lv(b.skip(i).skip(1)));
    assert(a.skip(i)[0] == a[i]);
    assert(b.skip(i)[0] == b[i]);
    assert(ta + p * (a[i] + 0x10000000000000000int * u) < tb + p * (b[i]
        + 0x10000000000000000int * u)) by (nonlinear_arith)
        requires
            0 <= ta < p,
            0 <= tb,
            0 <= u,
            a[i] + 1 <= b[i],
            p >= 1,
    ;
}

/// Strict comparison of two equal-length limb vectors.
fn limbs_lt(a: &Vec<u64>, b: &Vec<u64>) -> (r: bool)
    requires
        a@.len() == b@.len(),
    ensures
        r == (lv(a@) < lv(b@)),
{
    let mut i: usize = a.len();
    proof {
        assert(a@.skip(i as int) =~= b@.skip(i as int));
    }
    while i > 0
        invariant
            i <= a@.len(),
            a@.len() == b@.len(),
            a@.skip(i as int) == b@.skip(i as int),
        decreases i,
    {
        i = i - 1;
        if a[i] < b[i] {
            proof {
                lemma_lv_lt_at(a@, b@, i as int);
            }
            return true;
        }
        if a[i] > b[i] {
            proof {
                lemma_lv_lt_at(b@, a@, i as int);
            }
            return false;
        }
        proof {
            assert forall|k: int| 0 <= k < a@.skip(i as int).len() implies a@.skip(i as int)[k]
                == b@.skip(i as int)[k] by {
                if k == 0 {
                    assert(a@.skip(i as int)[0] == a@[i as int]);
                } else {
                    assert(a@.skip(i as int)[k] == a@.skip(i as int + 1)[k - 1]);
                    assert(b@.skip(i as int)[k] == b@.skip(i as int + 1)[k - 1]);
                }
            }
            assert(a@.skip(i as int) =~= b@.skip(i as int));
        }
    }
    proof {
        assert(a@.skip(0) =~= a@);
        assert(b@.skip(0) =~= b@);
    }
    false
}

/// Multiplies a limb vector by a single 64-bit factor; the result has one
/// extra limb and carries the exact product.
fn mul_small(a: &Vec<u64>, m: u64) -> (r: Vec<u64>)
    ensures
        r@.len() == a@.len() + 1,
        lv(r@) == lv(a@) * m,
{
    let mut out: Vec<u64> = Vec::new();
    let mut carry: u64 = 0;
    let mut i: usize = 0;
    proof {
        assert(a@.take(0) =~= Seq::<u64>::empty());
        assert(lv(Seq::<u64>::empty()) == 0);
        assert(0 * (m as int) == 0) by (nonlinear_arith);
        assert(lv(out@) + carry * bpow(0) == lv(a@.take(0)) * m);
    }
    while i < a.len()
        invariant
            i <= a@.len(),
            out@.len() == i,
            lv(out@) + carry * bpow(i as nat) == lv(a@.take(i as int)) * m,
        decreases a@.len() - i,
    {
        proof {
            lemma_mul_upper_bound(
                a@[i as int] as int,
                0xffffffffffffffff,
                m as int,
                0xffffffffffffffff,
            );
        }
        let prod: u128 = (a[i] as u128) * (m as u128) + (carry as u128);
        let lo: u64 = prod as u64;
        let hi: u64 = (prod >> 64u128) as u64;
        proof {
            assert((((prod >> 64u128) as u64) as u128) * 0x10000000000000000u128 + ((
            prod as u64) as u128) == prod) by (bit_vector);
            lemma_lv_push(out@, lo);
            let ta = lv(a@.take(i as int));
            let ai = a@[i as int] as int;
            let c0 = carry as int;
            let p = bpow(i as nat);
            assert(a@.take(i + 1) =~= a@.take(i as int).push(a@[i as int]));
            lemma_lv_push(a@.take(i as int), a@[i as int]);
            assert(bpow((i + 1) as nat) == 0x10000000000000000int * p);
            // lv(out.push(lo)) + hi * bpow(i+1) == lv(a.take(i+1)) * m
            assert((ta * m - c0 * p) + (lo as int) * p + (hi as int) * (0x10000000000000000int * p)
                == (ta + ai * p) * m) by (nonlinear_arith)
                requires
                    (hi as int) * 0x10000000000000000int + lo == ai * m + c0,
            ;
        }
        out.push(lo);
        carry = hi;
        i = i + 1;
    }
    proof {
        assert(a@.take(i as int) =~= a@);
        lemma_lv_push(out@, carry);
    }
    out.push(carry);
    out
}

/// Divides a limb vector by a single positive 64-bit divisor, returning the
/// quotient limbs and the remainder.
fn div_small(a: &Vec<u64>, d: u64) -> (r: (Vec<u64>, u64))
    requires
        d > 0,
    ensures
        r.0@.len() == a@.len(),
        lv(r.0@) * d + r.1 == lv(a@),
        r.1 < d,
        lv(r.0@) >= 0,
{
    let n: usize = a.len();
    let mut q: Vec<u64> = Vec::new();
    let mut j: usize = 0;
    while j < n
        invariant
            q@.len() == j,
            j <= n,
        decreases n - j,
    {
        q.push(0u64);
        j = j + 1;
    }
    let mut rem: u64 = 0;
    let mut i: usize = n;
    proof {
        assert(a@.skip(n as int) =~= Seq::<u64>::empty());
        assert(q@.skip(n as int) =~= Seq::<u64>::empty());
        assert(lv(Seq::<u64>::empty()) == 0);
        assert(0 * (d as int) == 0) by (nonlinear_arith);
    }
    while i > 0
        invariant
            i <= n,
            n == a@.len(),
            q@.len() == n,
            rem < d,
            lv(q@.skip(i as int)) * d + rem == lv(a@.skip(i as int)),
            lv(q@.skip(i as int)) >= 0,
        decreases i,
    {
        i = i - 1;
        let cur: u128 = ((rem as u128) << 64u128) | (a[i] as u128);
        proof {
            let r0 = rem;
            let ai = a@[i as int];
            assert((((r0 as u128) << 64u128) | (ai as u128)) == (r0 as u128)
                * 0x10000000000000000u128 + (ai as u128)) by (bit_vector);
            assert(cur < (d as u128) * 0x10000000000000000u128) by (nonlinear_arith)
                requires
                    cur == (r0 as u128) * 0x10000000000000000u128 + (ai as u128),
                    (r0 as u128) < (d as u128),
                    (ai as u128) < 0x10000000000000000u128,
                    d > 0,
            ;
        }
        let qi: u64 = (cur / (d as u128)) as u64;
        let newrem: u64 = (cur % (d as u128)) as u64;
        proof {
            let dd = d as u128;
            assert(cur / dd < 0x10000000000000000u128 && cur % dd < dd && (cur / dd) * dd + (cur
                % dd) == cur) by (nonlinear_arith)
                requires
                    dd > 0,
                    cur < dd * 0x10000000000000000u128,
            ;
            let oldq = q@;
            let newq = oldq.update(i as int, qi);
            let qs = lv(oldq.skip(i + 1));
            lemma_lv_nonneg(oldq.skip(i + 1));
            assert(newq.skip(i + 1) =~= oldq.skip(i + 1));
            assert(newq.skip(i as int).skip(1) =~= newq.skip(i + 1));
            assert(lv(newq.skip(i as int)) == newq.skip(i as int)[0] + 0x10000000000000000int * lv(
            newq.skip(i as int).skip(1)));
            assert(newq.skip(i as int)[0] == qi);
            assert(a@.skip(i as int).skip(1) =~= a@.skip(i + 1));
            assert(lv(a@.skip(i as int)) == a@.skip(i as int)[0] + 0x10000000000000000int * lv(
            a@.skip(i as int).skip(1)));
            assert(a@.skip(i as int)[0] == a@[i as int]);
            // (qi + B qs) d + newrem == ai + B (qs d + rem)
            assert(((qi as int) + 0x10000000000000000int * qs) * d + newrem == a@[i as int]
                + 0x10000000000000000int * (qs * d + rem)) by (nonlinear_arith)
                requires
                    ((qi as u128) as int) * (d as int) + (newrem as int) == (rem as int)
                        * 0x10000000000000000int + a@[i as int],
                    qs >= 0,
            ;
            assert((qi as int) + 0x10000000000000000int * qs >= 0) by (nonlinear_arith)
                requires
                    qs >= 0,
            ;
        }
        q.set(i, qi);
        rem = newrem;
    }
    proof {
        assert(q@.skip(0) =~= q@);
        assert(a@.skip(0) =~= a@);
    }
    (q, rem)
}

/// The retarget rule of the difficulty adjustment: scale `t` by
/// `e / i`, clamp the result to `[t/4, 4 t]`, and cap it at `2^256 - 1`.
pub open spec fn retarget_spec(t: int, e: int, i: int) -> int {
    let q = t * e / i;
    let lo = t / 4;
    let hi = 4 * t;
    let c = if q < lo {
        lo
    } else if q > hi {
        hi
    } else {
        q
    };
    if c > u256_max() {
        u256_max()
    } else {
        c
    }
}

/// Every retarget step stays within a factor of four of the old target and
/// below the easiest-difficulty cap.
pub proof fn lemma_retarget_bounds(t: int, e: int, i: int)
    requires
        0 <= t <= u256_max(),
        e >= 0,
        i > 0,
    ensures
        retarget_spec(t, e, i) >= t / 4,
        retarget_spec(t, e, i) <= if 4 * t <= u256_max() {
            4 * t
        } else {
            u256_max()
        },
        retarget_spec(t, e, i) <= u256_max(),
{
    let q = t * e / i;
    let lo = t / 4;
    assert(t * e >= 0) by (nonlinear_arith)
        requires
            t >= 0,
            e >= 0,
    ;
    lemma_fundamental_div_mod(t * e, i);
    lemma_mod_division_less_than_divisor(t * e, i);
    assert(q * i >= 0 ==> q >= 0) by (nonlinear_arith)
        requires
            i > 0,
    ;
    lemma_fundamental_div_mod(t, 4);
    lemma_mod_division_less_than_divisor(t, 4);
    assert(4 * lo <= t);
    assert(lo >= 0) by (nonlinear_arith)
        requires
            4 * lo + 3 >= t,
            t >= 0,
    ;
}

impl U256 {
    /// All-zero value.
    pub fn zero() -> (r: U256)
        ensures
            u256_val(r) == 0,
    {
        U256 { w0: 0, w1: 0, w2: 0, w3: 0 }
    }

    /// 2^256 - 1, the easiest difficulty target.
    pub fn max_value() -> (r: U256)
        ensures
            u256_val(r) == u256_max(),
    {
        U256 {
            w0: 0xffffffffffffffff,
            w1: 0xffffffffffffffff,
            w2: 0xffffffffffffffff,
            w3: 0xffffffffffffffff,
        }
    }

    /// The four limbs as a little-endian vector.
    pub fn to_limbs(&self) -> (r: Vec<u64>)
        ensures
            r@ =~= seq![self.w0, self.w1, self.w2, self.w3],
            lv(r@) == u256_val(*self),
    {
        let mut v: Vec<u64> = Vec::new();
        v.push(self.w0);
        v.push(self.w1);
        v.push(self.w2);
        v.push(self.w3);
        proof {
            lemma_lv4(v@);
        }
        v
    }

    /// Whether `self <= other` as integers.
    pub fn le(&self, other: &U256) -> (r: bool)
        ensures
            r == (u256_val(*self) <= u256_val(*other)),
    {
        let a = self.to_limbs();
        let b = other.to_limbs();
        !limbs_lt(&b, &a)
    }

    /// New target after one difficulty adjustment with elapsed time `elapsed`
    /// against ideal time `ideal` (both in seconds).
    pub fn retarget(&self, elapsed: u64, ideal: u64) -> (r: U256)
        requires
            ideal > 0,
        ensures
            u256_val(r) == retarget_spec(u256_val(*self), elapsed as int, ideal as int),
    {
        let ghost t = u256_val(*self);
        let tl = self.to_limbs();
        proof {
            lemma_lv_nonneg(tl@);
        }
        let p = mul_small(&tl, elapsed);
        let qd = div_small(&p, ideal);
        let q = qd.0;
        proof {
            lemma_fundamental_div_mod_converse(
                t * (elapsed as int),
                ideal as int,
                lv(q@),
                qd.1 as int,
            );
        }
        let lod = div_small(&tl, 4);
        let ghost loval = lv(lod.0@);
        let mut lo = lod.0;
        proof {
            lemma_fundamental_div_mod_converse(t, 4, loval, lod.1 as int);
            lemma_lv_push(lo@, 0);
            assert(loval + 0 * bpow(lo@.len()) == loval) by (nonlinear_arith);
        }
        lo.push(0u64);
        let hi = mul_small(&tl, 4);
        proof {
            assert(lv(tl@) * 4 == 4 * t) by (nonlinear_arith)
                requires
                    lv(tl@) == t,
            ;
        }
        let c: Vec<u64> = if limbs_lt(&q, &lo) {
            lo
        } else if limbs_lt(&hi, &q) {
            hi
        } else {
            q
        };
        let ghost cv = lv(c@);
        proof {
            lemma_lv_split(c@, 4);
            assert(c@.skip(4).skip(1) =~= Seq::<u64>::empty());
            assert(lv(Seq::<u64>::empty()) == 0);
            assert(lv(c@.skip(4)) == c@.skip(4)[0] + 0x10000000000000000int * lv(
            c@.skip(4).skip(1)));
            assert(c@.skip(4)[0] == c@[4]);
            lemma_lv_bound(c@.take(4));
            lemma_lv_nonneg(c@.take(4));
            assert(bpow(4)
                == 0x10000000000000000000000000000000000000000000000000000000000000000int) by {
                reveal_with_fuel(bpow, 5);
            }
        }
        if c[4] != 0 {
            proof {
                assert(bpow(4) * (c@[4] as int) >= bpow(4)) by (nonlinear_arith)
                    requires
                        c@[4] >= 1,
                        bpow(4) >= 1,
                ;
            }
            U256::max_value()
        } else {
            let r = U256 { w0: c[0], w1: c[1], w2: c[2], w3: c[3] };
            proof {
                assert(bpow(4) * (c@[4] as int) == 0) by (nonlinear_arith)
                    requires
                        c@[4] == 0,
                ;
                assert(c@.take(4) =~= seq![c@[0], c@[1], c@[2], c@[3]]);
                lemma_lv4(c@.take(4));
            }
            r
        }
    }
}

/// Closed form for the value of a four-limb sequence.
pub proof fn lemma_lv4(s: Seq<u64>)
    requires
        s.len() == 4,
    ensures
        lv(s) == s[0] + 0x10000000000000000int * (s[1] + 0x10000000000000000int * (s[2]
            + 0x10000000000000000int * s[3])),
{
    assert(s.skip(1).skip(1) =~= s.skip(2));
    assert(s.skip(2).skip(1) =~= s.skip(3));
    assert(s.skip(3).skip(1) =~= s.skip(4));
    assert(s.skip(4).len() == 0);
    assert(lv(s.skip(4)) == 0);
    assert(lv(s.skip(3)) == s.skip(3)[0] + 0x10000000000000000int * lv(s.skip(3).skip(1)));
    assert(lv(s.skip(2)) == s.skip(2)[0] + 0x10000000000000000int * lv(s.skip(2).skip(1)));
    assert(lv(s.skip(1)) == s.skip(1)[0] + 0x10000000000000000int * lv(s.skip(1).skip(1)));
    assert(lv(s) == s[0] + 0x10000000000000000int * lv(s.skip(1)));
    assert(s.skip(1)[0] == s[1]);
    assert(s.skip(2)[0] == s[2]);
    assert(s.skip(3)[0] == s[3]);
}

/// Reads a big-endian 64-bit word out of a byte sequence at offset `k`.
pub open spec fn pack8(s: Seq<u8>, k: int) -> u64 {
    ((s[k] as u64) << 56u64) | ((s[k + 1] as u64) << 48u64) | ((s[k + 2] as u64) << 40u64) | ((s[k
        + 3] as u64) << 32u64) | ((s[k + 4] as u64) << 24u64) | ((s[k + 5] as u64) << 16u64) | ((s[k
        + 6] as u64) << 8u64) | (s[k + 7] as u64)
}

/// The `U256` denoted by 32 big-endian bytes.
pub open spec fn u256_from_be_spec(s: Seq<u8>) -> U256 {
    U256 { w3: pack8(s, 0), w2: pack8(s, 8), w1: pack8(s, 16), w0: pack8(s, 24) }
}

/// Packs eight big-endian bytes of `bytes` starting at `k` into a word.
pub fn pack8_exec(bytes: &[u8], k: usize) -> (r: u64)
    requires
        k + 8 <= bytes@.len(),
    ensures
        r == pack8(bytes@, k as int),
{
    ((bytes[k] as u64) << 56u64) | ((bytes[k + 1] as u64) << 48u64) | ((bytes[k + 2] as u64)
        << 40u64) | ((bytes[k + 3] as u64) << 32u64) | ((bytes[k + 4] as u64) << 24u64) | ((bytes[k
        + 5] as u64) << 16u64) | ((bytes[k + 6] as u64) << 8u64) | (bytes[k + 7] as u64)
}

impl From<[u8; 32]> for U256 {
    /// Big-endian conversion: byte 0 is the most significant.
    fn from(bytes: [u8; 32]) -> (r: U256) {
        U256 {
            w3: pack8_exec(&bytes, 0),
            w2: pack8_exec(&bytes, 8),
            w1: pack8_exec(&bytes, 16),
            w0: pack8_exec(&bytes, 24),
        }
    }
}

impl vstd::std_specs::convert::FromSpecImpl<[u8; 32]> for U256 {
    open spec fn obeys_from_spec() -> bool {
        true
    }

    open spec fn from_spec(bytes: [u8; 32]) -> U256 {
        u256_from_be_spec(bytes@)
    }
}

} // verus!
