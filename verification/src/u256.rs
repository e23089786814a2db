//! Unsigned 256-bit token quantities.
//!
//! Token ids and transfer amounts are 256-bit words on the wire and are
//! persisted as decimal strings. The type stores four 64-bit limbs, least
//! significant first; every operation is specified against the mathematical
//! value `as_nat`.

use vstd::prelude::*;

verus! {

pub open spec fn p64() -> nat {
    0x10000000000000000nat
}

pub open spec fn p128() -> nat {
    0x100000000000000000000000000000000nat
}

pub open spec fn p192() -> nat {
    0x1000000000000000000000000000000000000000000000000nat
}

pub open spec fn p256() -> nat {
    0x10000000000000000000000000000000000000000000000000000000000000000nat
}

/// The value of a big-endian byte string.
pub open spec fn be_val(s: Seq<u8>) -> nat
    decreases s.len(),
{
    if s.len() == 0 {
        0
    } else {
        be_val(s.drop_last()) * 256 + s.last() as nat
    }
}

pub open spec fn pow256(k: nat) -> nat
    decreases k,
{
    if k == 0 {
        1
    } else {
        256 * pow256((k - 1) as nat)
    }
}

/// Splitting a big-endian string: the prefix is shifted past the suffix.
pub proof fn lemma_be_val_split(a: Seq<u8>, b: Seq<u8>)
    ensures
        be_val(a + b) == be_val(a) * pow256(b.len()) + be_val(b),
    decreases b.len(),
{
    if b.len() == 0 {
        assert(a + b =~= a);
        assert(pow256(0) == 1);
        assert(be_val(b) == 0);
        assert(be_val(a) * 1 == be_val(a)) by (nonlinear_arith);
        assert(be_val(a + b) == be_val(a) * pow256(b.len()) + be_val(b));
    } else {
        assert((a + b).drop_last() =~= a + b.drop_last());
        assert((a + b).last() == b.last());
        lemma_be_val_split(a, b.drop_last());
        let p = pow256((b.len() - 1) as nat);
        assert(be_val(a + b) == (be_val(a) * p + be_val(b.drop_last())) * 256 + b.last());
        assert((be_val(a) * p) * 256 == be_val(a) * (p * 256)) by (nonlinear_arith);
        assert(pow256(b.len()) == 256 * p);
        assert(be_val(b) == be_val(b.drop_last()) * 256 + b.last() as nat);
        assert((be_val(a) * p + be_val(b.drop_last())) * 256 == (be_val(a) * p) * 256 + be_val(
            b.drop_last(),
        ) * 256) by (nonlinear_arith);
        assert(be_val(a + b) == be_val(a) * (p * 256) + be_val(b));
    }
}

pub proof fn lemma_be_val_bound(s: Seq<u8>)
    ensures
        be_val(s) < pow256(s.len()),
    decreases s.len(),
{
    if s.len() > 0 {
        lemma_be_val_bound(s.drop_last());
        let p = pow256((s.len() - 1) as nat);
        assert(be_val(s.drop_last()) * 256 <= (p - 1) * 256) by (nonlinear_arith)
            requires
                be_val(s.drop_last()) <= p - 1,
        ;
    }
}

pub proof fn lemma_pow256_le(a: nat, b: nat)
    requires
        a <= b,
    ensures
        pow256(a) <= pow256(b),
    decreases b,
{
    if a < b {
        lemma_pow256_le(a, (b - 1) as nat);
    }
}

proof fn lemma_pow256_words()
    ensures
        pow256(7) == 0x100000000000000,
        pow256(8) == p64(),
        pow256(16) == p128(),
        pow256(24) == p192(),
        pow256(32) == p256(),
{
    assert(pow256(0) == 1);
    assert(pow256(1) == 256);
    assert(pow256(2) == 0x10000nat);
    assert(pow256(3) == 0x1000000nat);
    assert(pow256(4) == 0x100000000nat);
    assert(pow256(5) == 0x10000000000nat);
    assert(pow256(6) == 0x1000000000000nat);
    assert(pow256(7) == 0x100000000000000nat);
    assert(pow256(8) == 0x10000000000000000nat);
    assert(pow256(9) == 0x1000000000000000000nat);
    assert(pow256(10) == 0x100000000000000000000nat);
    assert(pow256(11) == 0x10000000000000000000000nat);
    assert(pow256(12) == 0x1000000000000000000000000nat);
    assert(pow256(13) == 0x100000000000000000000000000nat);
    assert(pow256(14) == 0x10000000000000000000000000000nat);
    assert(pow256(15) == 0x1000000000000000000000000000000nat);
    assert(pow256(16) == 0x100000000000000000000000000000000nat);
    assert(pow256(17) == 0x10000000000000000000000000000000000nat);
    assert(pow256(18) == 0x1000000000000000000000000000000000000nat);
    assert(pow256(19) == 0x100000000000000000000000000000000000000nat);
    assert(pow256(20) == 0x10000000000000000000000000000000000000000nat);
    assert(pow256(21) == 0x1000000000000000000000000000000000000000000nat);
    assert(pow256(22) == 0x100000000000000000000000000000000000000000000nat);
    assert(pow256(23) == 0x10000000000000000000000000000000000000000000000nat);
    assert(pow256(24) == 0x1000000000000000000000000000000000000000000000000nat);
    assert(pow256(25) == 0x100000000000000000000000000000000000000000000000000nat);
    assert(pow256(26) == 0x10000000000000000000000000000000000000000000000000000nat);
    assert(pow256(27) == 0x1000000000000000000000000000000000000000000000000000000nat);
    assert(pow256(28) == 0x100000000000000000000000000000000000000000000000000000000nat);
    assert(pow256(29) == 0x10000000000000000000000000000000000000000000000000000000000nat);
    assert(pow256(30) == 0x1000000000000000000000000000000000000000000000000000000000000nat);
    assert(pow256(31) == 0x100000000000000000000000000000000000000000000000000000000000000nat);
    assert(pow256(32) == 0x10000000000000000000000000000000000000000000000000000000000000000nat);
}

/// A 256-bit unsigned quantity, limbs least significant first.
#[derive(Clone, Copy, PartialEq, Eq, Structural, Debug)]
pub struct U256 {
    pub w0: u64,
    pub w1: u64,
    pub w2: u64,
    pub w3: u64,
}

impl U256 {
    pub open spec fn as_nat(self) -> nat {
        self.w0 as nat + self.w1 as nat * p64() + self.w2 as nat * p128() + self.w3 as nat * p192()
    }

    pub fn from_u64(v: u64) -> (r: U256)
        ensures
            r.as_nat() == v,
    {
        U256 { w0: v, w1: 0, w2: 0, w3: 0 }
    }

    pub fn is_zero(&self) -> (r: bool)
        ensures
            r == (self.as_nat() == 0),
    {
        self.w0 == 0 && self.w1 == 0 && self.w2 == 0 && self.w3 == 0
    }

    /// The value as a `u64` where it fits; `None` above `u64::MAX`.
    pub fn try_to_u64(&self) -> (r: Option<u64>)
        ensures
            match r {
                Some(v) => self.as_nat() == v,
                None => self.as_nat() >= p64(),
            },
    {
        if self.w1 == 0 && self.w2 == 0 && self.w3 == 0 {
            Some(self.w0)
        } else {
            proof {
                if self.w1 >= 1 {
                    assert(self.w1 * p64() >= p64()) by (nonlinear_arith)
                        requires
                            self.w1 >= 1,
                    ;
                }
                if self.w2 >= 1 {
                    assert(self.w2 * p128() >= p128()) by (nonlinear_arith)
                        requires
                            self.w2 >= 1,
                    ;
                }
                if self.w3 >= 1 {
                    assert(self.w3 * p192() >= p192()) by (nonlinear_arith)
                        requires
                            self.w3 >= 1,
                    ;
                }
            }
            None
        }
    }
}

/// One 64-bit limb read big-endian from `data` at `pos`.
fn u64_from_be(data: &Vec<u8>, pos: usize) -> (r: u64)
    requires
        pos + 8 <= data@.len(),
    ensures
        r == be_val(data@.subrange(pos as int, pos as int + 8)),
{
    let n: usize = data.len();
    let mut w: u64 = 0;
    let mut j: usize = 0;
    while j < 8
        invariant
            j <= 8,
            pos + 8 <= n,
            n == data@.len(),
            w == be_val(data@.subrange(pos as int, pos as int + j)),
            w < pow256(j as nat),
        decreases 8 - j,
    {
        proof {
            lemma_pow256_words();
            lemma_pow256_le(j as nat, 7);
            assert(data@.subrange(pos as int, pos as int + j + 1).drop_last() =~= data@.subrange(
                pos as int,
                pos as int + j,
            ));
            lemma_be_val_bound(data@.subrange(pos as int, pos as int + j + 1));
        }
        w = w * 256 + (data[pos + j] as u64);
        j += 1;
    }
    w
}

impl U256 {
    /// The 256-bit word stored big-endian in `data[pos..pos + 32]`.
    pub fn from_be_slice(data: &Vec<u8>, pos: usize) -> (r: U256)
        requires
            pos + 32 <= data@.len(),
        ensures
            r.as_nat() == be_val(data@.subrange(pos as int, pos as int + 32)),
    {
        let n: usize = data.len();
        let w3 = u64_from_be(data, pos);
        let w2 = u64_from_be(data, pos + 8);
        let w1 = u64_from_be(data, pos + 16);
        let w0 = u64_from_be(data, pos + 24);
        let r = U256 { w0, w1, w2, w3 };
        proof {
            lemma_pow256_words();
            let s = data@.subrange(pos as int, pos as int + 32);
            let a = data@.subrange(pos as int, pos as int + 8);
            let b = data@.subrange(pos as int + 8, pos as int + 16);
            let c = data@.subrange(pos as int + 16, pos as int + 24);
            let d = data@.subrange(pos as int + 24, pos as int + 32);
            assert(s =~= ((a + b) + c) + d);
            lemma_be_val_split(a, b);
            lemma_be_val_split(a + b, c);
            lemma_be_val_split((a + b) + c, d);
            let vb = be_val(b);
            let vc = be_val(c);
            let vd = be_val(d);
            assert(be_val(s) == ((w3 * p64() + vb) * p64() + vc) * p64() + vd);
            assert((w3 * p64() + vb) * p64() == w3 * p128() + vb * p64()) by (nonlinear_arith);
            assert((w3 * p128() + vb * p64() + vc) * p64() == w3 * p192() + vb * p128() + vc
                * p64()) by (nonlinear_arith);
        }
        r
    }

    /// The quotient and remainder of division by ten.
    pub fn divmod10(&self) -> (r: (U256, u64))
        ensures
            self.as_nat() == r.0.as_nat() * 10 + r.1,
            r.1 < 10,
            self.as_nat() > 0 ==> r.0.as_nat() < self.as_nat(),
    {
        let c3: u128 = self.w3 as u128;
        let q3: u64 = (c3 / 10) as u64;
        let r3: u128 = c3 % 10;
        let c2: u128 = r3 * 0x10000000000000000u128 + self.w2 as u128;
        let q2: u64 = (c2 / 10) as u64;
        let r2: u128 = c2 % 10;
        let c1: u128 = r2 * 0x10000000000000000u128 + self.w1 as u128;
        let q1: u64 = (c1 / 10) as u64;
        let r1: u128 = c1 % 10;
        let c0: u128 = r1 * 0x10000000000000000u128 + self.w0 as u128;
        let q0: u64 = (c0 / 10) as u64;
        let r0: u128 = c0 % 10;
        let q = U256 { w0: q0, w1: q1, w2: q2, w3: q3 };
        proof {
            assert(self.as_nat() == q.as_nat() * 10 + r0) by (nonlinear_arith)
                requires
                    c3 == self.w3,
                    q3 == c3 as nat / 10 && r3 == c3 as nat % 10,
                    c2 == r3 as nat * p64() + self.w2,
                    q2 == c2 as nat / 10 && r2 == c2 as nat % 10,
                    c1 == r2 as nat * p64() + self.w1,
                    q1 == c1 as nat / 10 && r1 == c1 as nat % 10,
                    c0 == r1 as nat * p64() + self.w0,
                    q0 == c0 as nat / 10 && r0 == c0 as nat % 10,
                    self.as_nat() == self.w0 + self.w1 * p64() + self.w2 * p128() + self.w3
                        * p192(),
                    q.as_nat() == q0 + q1 * p64() + q2 * p128() + q3 * p192(),
                    p128() == p64() * p64(),
                    p192() == p128() * p64(),
            ;
            if self.as_nat() > 0 {
                assert(q.as_nat() < self.as_nat()) by (nonlinear_arith)
                    requires
                        self.as_nat() == q.as_nat() * 10 + r0,
                        self.as_nat() > 0,
                        r0 < 10,
                ;
            }
        }
        (q, r0 as u64)
    }
}

/// The decimal digit string of a number, without leading zeroes.
pub open spec fn dec_digits(n: nat) -> Seq<u8>
    decreases n,
{
    if n < 10 {
        seq![(48 + n) as u8]
    } else {
        dec_digits(n / 10).push((48 + n % 10) as u8)
    }
}

impl U256 {
    /// The decimal rendering of the value, as ASCII digits.
    pub fn to_decimal(&self) -> (r: Vec<u8>)
        ensures
            r@ == dec_digits(self.as_nat()),
    {
        let mut rev: Vec<u8> = Vec::new();
        let mut v: U256 = *self;
        loop
            invariant_except_break
                rev@.len() == 0 ==> v == *self,
                rev@.len() == 0 ==> dec_digits(self.as_nat()) == dec_digits(v.as_nat()),
                rev@.len() > 0 ==> v.as_nat() > 0 && dec_digits(self.as_nat()) == dec_digits(
                    v.as_nat(),
                ) + rev@.reverse(),
            ensures
                dec_digits(self.as_nat()) == rev@.reverse(),
            decreases v.as_nat(),
        {
            let (q, d) = v.divmod10();
            let digit = 48 + (d as u8);
            proof {
                let vn = v.as_nat();
                if vn < 10 {
                    assert(q.as_nat() == 0) by (nonlinear_arith)
                        requires
                            vn == q.as_nat() * 10 + d,
                            vn < 10,
                    ;
                    assert(dec_digits(vn) == seq![digit]);
                } else {
                    assert(q.as_nat() == vn / 10 && d == vn % 10) by (nonlinear_arith)
                        requires
                            vn == q.as_nat() * 10 + d,
                            d < 10,
                            vn >= 10,
                    ;
                    assert(dec_digits(vn) == dec_digits(q.as_nat()).push(digit));
                    assert(q.as_nat() > 0) by (nonlinear_arith)
                        requires
                            vn == q.as_nat() * 10 + d,
                            d < 10,
                            vn >= 10,
                    ;
                }
                assert(rev@.push(digit).reverse() =~= seq![digit] + rev@.reverse());
            }
            rev.push(digit);
            if q.is_zero() {
                proof {
                    let vn = v.as_nat();
                    assert(dec_digits(vn) =~= seq![digit]);
                    if rev@.drop_last().len() == 0 {
                        assert(rev@.reverse() =~= seq![digit]);
                        assert(dec_digits(self.as_nat()) =~= rev@.reverse());
                    } else {
                        assert(dec_digits(self.as_nat()) =~= dec_digits(vn)
                            + rev@.drop_last().reverse());
                        assert(rev@ =~= rev@.drop_last().push(digit));
                        assert(dec_digits(self.as_nat()) =~= rev@.reverse());
                    }
                }
                break;
            }
            proof {
                let vn = v.as_nat();
                if rev@.drop_last().len() == 0 {
                    assert(dec_digits(self.as_nat()) =~= dec_digits(q.as_nat()) + rev@.reverse());
                } else {
                    assert(rev@ =~= rev@.drop_last().push(digit));
                    assert(dec_digits(vn) + rev@.drop_last().reverse() =~= dec_digits(q.as_nat())
                        + rev@.reverse());
                }
            }
            v = q;
        }
        let mut out: Vec<u8> = Vec::new();
        let mut i: usize = rev.len();
        while i > 0
            invariant
                i <= rev@.len(),
                out@ == rev@.reverse().take(rev@.len() - i),
            decreases i,
        {
            i -= 1;
            out.push(rev[i]);
            proof {
                assert(out@ =~= rev@.reverse().take(rev@.len() - i));
            }
        }
        proof {
            assert(rev@.reverse().take(rev@.len() as int) =~= rev@.reverse());
        }
        out
    }

    /// `self * 10 + d`, or `None` where that passes 2^256.
    pub fn mul10_add(&self, d: u64) -> (r: Option<U256>)
        requires
            d < 10,
        ensures
            match r {
                Some(u) => u.as_nat() == self.as_nat() * 10 + d,
                None => self.as_nat() * 10 + d >= p256(),
            },
    {
        let c0: u128 = self.w0 as u128 * 10 + d as u128;
        let n0: u64 = (c0 % 0x10000000000000000u128) as u64;
        let k0: u128 = c0 / 0x10000000000000000u128;
        let c1: u128 = self.w1 as u128 * 10 + k0;
        let n1: u64 = (c1 % 0x10000000000000000u128) as u64;
        let k1: u128 = c1 / 0x10000000000000000u128;
        let c2: u128 = self.w2 as u128 * 10 + k1;
        let n2: u64 = (c2 % 0x10000000000000000u128) as u64;
        let k2: u128 = c2 / 0x10000000000000000u128;
        let c3: u128 = self.w3 as u128 * 10 + k2;
        if c3 >= 0x10000000000000000u128 {
            proof {
                assert(self.as_nat() * 10 + d >= p256()) by (nonlinear_arith)
                    requires
                        c0 == self.w0 * 10 + d,
                        k0 == c0 as nat / p64(),
                        c1 == self.w1 * 10 + k0,
                        k1 == c1 as nat / p64(),
                        c2 == self.w2 * 10 + k1,
                        k2 == c2 as nat / p64(),
                        c3 == self.w3 * 10 + k2,
                        c3 >= p64(),
                        self.as_nat() == self.w0 + self.w1 * p64() + self.w2 * p128() + self.w3
                            * p192(),
                        p128() == p64() * p64(),
                        p192() == p128() * p64(),
                        p256() == p192() * p64(),
                ;
            }
            return None;
        }
        let n3: u64 = c3 as u64;
        let u = U256 { w0: n0, w1: n1, w2: n2, w3: n3 };
        proof {
            assert(u.as_nat() == self.as_nat() * 10 + d) by (nonlinear_arith)
                requires
                    c0 == self.w0 * 10 + d,
                    n0 == c0 as nat % p64() && k0 == c0 as nat / p64(),
                    c1 == self.w1 * 10 + k0,
                    n1 == c1 as nat % p64() && k1 == c1 as nat / p64(),
                    c2 == self.w2 * 10 + k1,
                    n2 == c2 as nat % p64() && k2 == c2 as nat / p64(),
                    c3 == self.w3 * 10 + k2,
                    c3 < p64(),
                    n3 == c3,
                    self.as_nat() == self.w0 + self.w1 * p64() + self.w2 * p128() + self.w3
                        * p192(),
                    u.as_nat() == n0 + n1 * p64() + n2 * p128() + n3 * p192(),
                    p128() == p64() * p64(),
                    p192() == p128() * p64(),
            ;
        }
        Some(u)
    }
}


/// The 32-byte big-endian rendering of a value below 2^256.
pub open spec fn be_bytes32(n: nat) -> Seq<u8> {
    Seq::new(32, |i: int| ((n / pow256((31 - i) as nat)) % 256) as u8)
}

/// Reading back the base-256 digits of `n` gives `n`.
pub proof fn lemma_be_val_digits(n: nat, k: nat)
    requires
        n < pow256(k),
    ensures
        be_val(Seq::new(k, |i: int| ((n / pow256((k - 1 - i) as nat)) % 256) as u8)) == n,
    decreases k,
{
    let s = Seq::new(k, |i: int| ((n / pow256((k - 1 - i) as nat)) % 256) as u8);
    if k == 0 {
        assert(s.len() == 0);
    } else {
        let m = (n / 256) as nat;
        let t = Seq::new(
            (k - 1) as nat,
            |i: int| ((m / pow256((k - 2 - i) as nat)) % 256) as u8,
        );
        assert(m < pow256((k - 1) as nat)) by (nonlinear_arith)
            requires
                n < pow256(k),
                pow256(k) == 256 * pow256((k - 1) as nat),
                m == n / 256,
        ;
        lemma_be_val_digits(m, (k - 1) as nat);
        assert forall|i: int| 0 <= i < k - 1 implies s[i] == t[i] by {
            let e = pow256((k - 2 - i) as nat);
            assert(e > 0) by {
                lemma_pow256_le(0, (k - 2 - i) as nat);
            }
            vstd::arithmetic::div_mod::lemma_div_denominator(n as int, 256, e as int);
            assert(pow256((k - 1 - i) as nat) == 256 * e);
            assert(n as int / (256 * e as int) == n as int / pow256((k - 1 - i) as nat) as int);
            assert(m / e == n / pow256((k - 1 - i) as nat));
        }
        assert(s.drop_last() =~= t);
        assert(s.last() == ((n / pow256(0)) % 256) as u8);
        assert(pow256(0) == 1);
        assert(n as int / 1 == n as int);
        assert(be_val(s) == m * 256 + n % 256);
        assert(m * 256 + n % 256 == n) by (nonlinear_arith)
            requires
                m == n / 256,
        ;
    }
}

/// `be_val` inverts `be_bytes32` below 2^256.
pub proof fn lemma_be_val_be_bytes32(n: nat)
    requires
        n < p256(),
    ensures
        be_val(be_bytes32(n)) == n,
{
    lemma_pow256_words();
    lemma_be_val_digits(n, 32);
    assert(be_bytes32(n) =~= Seq::new(
        32,
        |i: int| ((n / pow256((32 - 1 - i) as nat)) % 256) as u8,
    ));
}

impl U256 {
    /// The quotient and remainder of division by 256.
    fn divmod256(&self) -> (r: (U256, u64))
        ensures
            self.as_nat() == r.0.as_nat() * 256 + r.1,
            r.1 < 256,
    {
        let c3: u128 = self.w3 as u128;
        let q3: u64 = (c3 / 256) as u64;
        let r3: u128 = c3 % 256;
        let c2: u128 = r3 * 0x10000000000000000u128 + self.w2 as u128;
        let q2: u64 = (c2 / 256) as u64;
        let r2: u128 = c2 % 256;
        let c1: u128 = r2 * 0x10000000000000000u128 + self.w1 as u128;
        let q1: u64 = (c1 / 256) as u64;
        let r1: u128 = c1 % 256;
        let c0: u128 = r1 * 0x10000000000000000u128 + self.w0 as u128;
        let q0: u64 = (c0 / 256) as u64;
        let r0: u128 = c0 % 256;
        let q = U256 { w0: q0, w1: q1, w2: q2, w3: q3 };
        proof {
            assert(self.as_nat() == q.as_nat() * 256 + r0) by (nonlinear_arith)
                requires
                    c3 == self.w3,
                    q3 == c3 as nat / 256 && r3 == c3 as nat % 256,
                    c2 == r3 as nat * p64() + self.w2,
                    q2 == c2 as nat / 256 && r2 == c2 as nat % 256,
                    c1 == r2 as nat * p64() + self.w1,
                    q1 == c1 as nat / 256 && r1 == c1 as nat % 256,
                    c0 == r1 as nat * p64() + self.w0,
                    q0 == c0 as nat / 256 && r0 == c0 as nat % 256,
                    self.as_nat() == self.w0 as nat + self.w1 as nat * p64() + self.w2 as nat
                        * p128() + self.w3 as nat * p192(),
                    q.as_nat() == q0 as nat + q1 as nat * p64() + q2 as nat * p128() + q3 as nat
                        * p192(),
                    p128() == p64() * p64(),
                    p192() == p128() * p64(),
            ;
        }
        (q, r0 as u64)
    }

    /// The value as 32 big-endian bytes.
    pub fn to_be_bytes(&self) -> (r: Vec<u8>)
        ensures
            r@ == be_bytes32(self.as_nat()),
    {
        let mut le: Vec<u8> = Vec::new();
        let mut x: U256 = *self;
        let mut j: usize = 0;
        proof {
            assert(pow256(0) == 1);
            assert(self.as_nat() as int / 1int == self.as_nat() as int);
        }
        while j < 32
            invariant
                j <= 32,
                le@.len() == j,
                x.as_nat() == self.as_nat() / pow256(j as nat),
                forall|t: int| 0 <= t < j ==> le@[t] == ((self.as_nat() / pow256(t as nat))
                    % 256) as u8,
            decreases 32 - j,
        {
            let (q, d) = x.divmod256();
            proof {
                vstd::arithmetic::div_mod::lemma_fundamental_div_mod_converse(
                    x.as_nat() as int,
                    256,
                    q.as_nat() as int,
                    d as int,
                );
                assert(q.as_nat() == x.as_nat() / 256 && d == x.as_nat() % 256);
                let e = pow256(j as nat);
                assert(e > 0) by {
                    lemma_pow256_le(0, j as nat);
                }
                vstd::arithmetic::div_mod::lemma_div_denominator(
                    self.as_nat() as int,
                    e as int,
                    256,
                );
                assert(pow256((j + 1) as nat) == 256 * e);
                assert(e * 256 == 256 * e) by (nonlinear_arith);
                assert(q.as_nat() == self.as_nat() / pow256((j + 1) as nat));
            }
            le.push(d as u8);
            x = q;
            j += 1;
        }
        let mut out: Vec<u8> = Vec::new();
        let mut i: usize = 0;
        while i < 32
            invariant
                i <= 32,
                le@.len() == 32,
                forall|t: int| 0 <= t < 32 ==> le@[t] == ((self.as_nat() / pow256(t as nat))
                    % 256) as u8,
                out@.len() == i,
                forall|t: int| 0 <= t < i ==> out@[t] == ((self.as_nat() / pow256(
                    (31 - t) as nat,
                )) % 256) as u8,
            decreases 32 - i,
        {
            out.push(le[31 - i]);
            i += 1;
        }
        proof {
            assert(out@ =~= be_bytes32(self.as_nat()));
        }
        out
    }
}

} // verus!
