//! Fixed-size 256-bit unsigned integer used for intermediate Stableswap products.
use vstd::prelude::*;
use vstd::arithmetic::div_mod::{lemma_fundamental_div_mod_converse, lemma_fundamental_div_mod};
use vstd::arithmetic::mul::lemma_mul_inequality;
use vstd::arithmetic::power2::{pow2, lemma_pow2_adds, lemma_pow2_pos, lemma2_to64};

verus! {

/// 2^128, the radix of one limb.
pub open spec fn limb() -> nat {
    0x1_0000_0000_0000_0000_0000_0000_0000_0000nat
}

/// 2^256, the modulus of all `U256` arithmetic.
pub open spec fn modulus() -> nat {
    limb() * limb()
}

/// Stack-allocated 256-bit unsigned integer made of two 128-bit limbs.
#[derive(Copy, Clone, Debug, Default, PartialEq, Eq, Structural, PartialOrd, Ord)]
pub struct U256 {
    pub hi: u128,
    pub lo: u128,
}

impl U256 {
    /// The number this value stands for.
    pub open spec fn value(self) -> nat {
        self.hi as nat * limb() + self.lo as nat
    }

    pub proof fn lemma_value_bound(self)
        ensures
            self.value() < modulus(),
    {
        assert(self.hi as nat * limb() + (self.lo as nat) < modulus()) by (nonlinear_arith)
            requires
                self.hi < limb(),
                self.lo < limb(),
                modulus() == limb() * limb(),
        ;
    }

    /// The value zero.
    pub fn zero() -> (r: Self)
        ensures
            r.value() == 0,
    {
        U256 { hi: 0, lo: 0 }
    }

    /// The value one.
    pub fn one() -> (r: Self)
        ensures
            r.value() == 1,
    {
        U256 { hi: 0, lo: 1 }
    }

    pub fn from_u128(v: u128) -> (r: Self)
        ensures
            r.value() == v,
            r.hi == 0,
            r.lo == v,
    {
        U256 { hi: 0, lo: v }
    }

    /// The low limb (the value itself when it fits in 128 bits).
    pub fn as_u128(&self) -> (r: u128)
        ensures
            r == self.lo,
            r as nat == self.value() % limb(),
    {
        proof {
            lemma_fundamental_div_mod_converse(
                self.value() as int,
                limb() as int,
                self.hi as int,
                self.lo as int,
            );
        }
        self.lo
    }

    pub fn is_zero(&self) -> (r: bool)
        ensures
            r == (self.value() == 0),
    {
        self.hi == 0 && self.lo == 0
    }

    /// `self < other` on the represented numbers.
    pub fn less_than(&self, other: &Self) -> (r: bool)
        ensures
            r == (self.value() < other.value()),
    {
        proof {
            lemma_limb_order(self.hi, self.lo, other.hi, other.lo);
        }
        self.hi < other.hi || (self.hi == other.hi && self.lo < other.lo)
    }

    /// Wrapping addition modulo 2^256.
    pub fn add(&self, other: Self) -> (r: Self)
        ensures
            r.value() == (self.value() + other.value()) % modulus(),
    {
        let lo = self.lo.wrapping_add(other.lo);
        let carry: u128 = if lo < self.lo { 1 } else { 0 };
        let hi = self.hi.wrapping_add(other.hi).wrapping_add(carry);
        proof {
            let s = self.lo as int + other.lo as int;
            assert(s == carry * limb() + lo);
            let h = self.hi as int + other.hi as int + carry;
            assert(hi as int == h % limb() as int) by {
                let h1 = self.hi as int + other.hi as int;
                let w = if h1 >= limb() { h1 - limb() } else { h1 };
                assert(w + carry == h - (if h1 >= limb() { limb() as int } else { 0 }));
                if w + carry >= limb() {
                    lemma_fundamental_div_mod_converse(h, limb() as int, 1, h - limb());
                } else if h1 >= limb() {
                    lemma_fundamental_div_mod_converse(h, limb() as int, 1, h - limb());
                } else {
                    lemma_fundamental_div_mod_converse(h, limb() as int, 0, h);
                }
            }
            lemma_fundamental_div_mod(h, limb() as int);
            let q = h / limb() as int;
            let total = self.value() as int + other.value() as int;
            assert(total == q * modulus() + (hi as int * limb() + lo)) by (nonlinear_arith)
                requires
                    total == (self.hi as int + other.hi as int) * limb() + s,
                    s == carry * limb() + lo,
                    h == self.hi as int + other.hi as int + carry,
                    h == limb() * q + hi,
                    modulus() == limb() * limb(),
            ;
            let r = U256 { hi, lo };
            r.lemma_value_bound();
            lemma_fundamental_div_mod_converse(total, modulus() as int, q, r.value() as int);
        }
        U256 { hi, lo }
    }

    /// Wrapping subtraction modulo 2^256.
    pub fn sub(&self, other: Self) -> (r: Self)
        ensures
            r.value() == (self.value() - other.value()) % (modulus() as int),
    {
        let lo = self.lo.wrapping_sub(other.lo);
        let borrow: u128 = if self.lo < other.lo { 1 } else { 0 };
        let hi = self.hi.wrapping_sub(other.hi).wrapping_sub(borrow);
        proof {
            let d = self.lo as int - other.lo as int;
            assert(d == lo - borrow * limb());
            let h = self.hi as int - other.hi as int - borrow;
            let h1 = self.hi as int - other.hi as int;
            let w = if h1 < 0 { h1 + limb() } else { h1 };
            let q: int = if h < 0 { -1 } else { 0 };
            assert(hi as int == h - q * limb());
            let total = self.value() as int - other.value() as int;
            assert(total == q * modulus() + (hi as int * limb() + lo)) by (nonlinear_arith)
                requires
                    total == (self.hi as int - other.hi as int) * limb() + d,
                    d == lo - borrow * limb(),
                    h == self.hi as int - other.hi as int - borrow,
                    hi == h - q * limb(),
                    modulus() == limb() * limb(),
            ;
            let r = U256 { hi, lo };
            r.lemma_value_bound();
            lemma_fundamental_div_mod_converse(total, modulus() as int, q, r.value() as int);
        }
        U256 { hi, lo }
    }

    /// Doubling modulo 2^256, by a one-bit left shift.
    fn shift_left_1(&self) -> (r: Self)
        ensures
            r.value() == (2 * self.value()) % modulus(),
            r.lo % 2 == 0,
    {
        let hi = (self.hi << 1) | (self.lo >> 127);
        let lo = self.lo << 1;
        proof {
            let h = self.hi;
            let l = self.lo;
            let t: u128 = l >> 127;
            let u: u128 = h >> 127;
            assert(t <= 1 && (l << 1) as int == 2 * (l as int) - (t as int) * (u128::MAX as int + 1)
                && (l << 1) % 2 == 0) by (bit_vector)
                requires
                    t == l >> 127,
            ;
            assert(u <= 1 && ((h << 1) | (l >> 127)) as int == 2 * (h as int) + (l >> 127) as int
                - (u as int) * (u128::MAX as int + 1)) by (bit_vector)
                requires
                    u == h >> 127,
            ;
            let total = 2 * self.value() as int;
            assert(total == u * modulus() + (hi as int * limb() + lo)) by (nonlinear_arith)
                requires
                    total == 2 * (h as int * limb() + l as int),
                    lo == 2 * (l as int) - t * limb(),
                    hi == 2 * (h as int) + t - u * limb(),
                    modulus() == limb() * limb(),
            ;
            let r = U256 { hi, lo };
            r.lemma_value_bound();
            lemma_fundamental_div_mod_converse(total, modulus() as int, u as int, r.value() as int);
        }
        U256 { hi, lo }
    }
    /// Product with a 128-bit factor, modulo 2^256 (schoolbook on 64-bit halves).
    pub fn mul_u128(&self, other: u128) -> (r: Self)
        ensures
            r.value() == (self.value() * other) % (modulus() as int),
    {
        let lo_lo = (self.lo as u64) as u128;
        let lo_hi = self.lo >> 64;
        let o_lo = (other as u64) as u128;
        let o_hi = other >> 64;
        proof {
            lemma_split_u128(self.lo);
            lemma_split_u128(other);
            lemma_half_products(lo_lo, lo_hi, o_lo, o_hi);
        }
        let p0 = lo_lo * o_lo;
        let p1 = lo_lo * o_hi;
        let p2 = lo_hi * o_lo;
        let p3 = lo_hi * o_hi;

        let mid = p1.wrapping_add(p2);
        let c1 = mid < p1;
        let mid_lo = (mid as u64) as u128;
        proof {
            lemma_split_u128(mid);
            assert((1u128 << 64) == 0x1_0000_0000_0000_0000u128) by (bit_vector);
        }
        let mid_hi = (mid >> 64) + if c1 { 1u128 << 64 } else { 0 };

        let lo = p0.wrapping_add(mid_lo << 64);
        let c2 = lo < p0;
        proof {
            assert((mid_lo << 64) as int == mid_lo as int * 0x1_0000_0000_0000_0000int) by (bit_vector)
                requires
                    mid_lo < 0x1_0000_0000_0000_0000u128,
            ;
            let rr = 0x1_0000_0000_0000_0000int;
            let c1i: int = if c1 { 1 } else { 0 };
            let c2i: int = if c2 { 1 } else { 0 };
            assert(p1 as int + p2 as int == mid as int + c1i * limb());
            assert(p0 as int + (mid_lo as int) * rr == lo as int + c2i * limb());
            lemma_low_product(self.lo as int, other as int, lo_lo as int, lo_hi as int, o_lo as int,
                o_hi as int, p0 as int, p1 as int, p2 as int, p3 as int, mid as int, c1i,
                mid_lo as int, (mid >> 64) as int, lo as int, c2i);
        }
        let top = p3 + mid_hi + if c2 { 1u128 } else { 0 };
        let hi = top.wrapping_add(self.hi.wrapping_mul(other));
        proof {
            lemma_wrap_top(self.hi as int, other as int, self.lo as int, top as int, lo as int, hi as int);
        }
        U256 { hi, lo }
    }

    /// Product modulo 2^256.
    pub fn mul(&self, other: Self) -> (r: Self)
        ensures
            r.value() == (self.value() * other.value()) % modulus(),
    {
        let mut res = self.mul_u128(other.lo);
        let cross = self.lo.wrapping_mul(other.hi);
        let hi = res.hi.wrapping_add(cross);
        proof {
            lemma_mul_combine(self.value() as int, self.lo as int, other.hi as int, other.lo as int,
                res.value() as int, res.hi as int, res.lo as int, cross as int, hi as int,
                self.hi as int);
        }
        res.hi = hi;
        res
    }

    /// Floor division; the divisor must be non-zero.
    pub fn div(&self, other: Self) -> (r: Self)
        requires
            other.value() != 0,
        ensures
            r.value() == self.value() / other.value(),
    {
        if self.less_than(&other) {
            proof {
                vstd::arithmetic::div_mod::lemma_basic_div(self.value() as int, other.value() as int);
            }
            return Self::zero();
        }
        if other.hi == 0 && other.lo == 1 {
            return *self;
        }
        let mut quotient = Self::zero();
        let mut remainder = Self::zero();
        // The dividend's bits not yet consumed, kept aligned at the top.
        let mut rest = *self;
        let mut i: usize = 0;
        proof {
            lemma_pow2_facts();
            self.lemma_value_bound();
            vstd::arithmetic::div_mod::lemma_small_mod(self.value(), modulus());
            assert(self.value() * pow2(0) == self.value());
            vstd::arithmetic::div_mod::lemma_basic_div(self.value() as int, modulus() as int);
        }
        while i < 256
            invariant
                i <= 256,
                other.value() != 0,
                self.value() < modulus(),
                pow2(256) == modulus(),
                pow2(255) == limb() * 0x8000_0000_0000_0000_0000_0000_0000_0000nat,
                rest.value() == (self.value() * pow2(i as nat)) as int % (modulus() as int),
                quotient.value() * other.value() + remainder.value() == self.value() / pow2(
                    (256 - i) as nat,
                ),
                remainder.value() < other.value(),
            decreases 256 - i,
        {
            let ghost k = i as nat;
            let ghost p = self.value() / pow2((256 - k) as nat);
            let top = rest.hi >> 127;
            proof {
                lemma_div_step(self.value(), k);
                lemma_top_bit(rest);
                assert(quotient.value() <= p && remainder.value() <= p) by (nonlinear_arith)
                    requires
                        quotient.value() * other.value() + remainder.value() == p,
                        other.value() >= 1,
                ;
                lemma_pow2_le_255(k);
            }
            rest = rest.shift_left_1();
            let ghost r0 = remainder.value();
            let ghost q0 = quotient.value();
            remainder = remainder.shift_left_1();
            proof {
                vstd::arithmetic::div_mod::lemma_small_mod(2 * r0, modulus());
                let l = remainder.lo;
                assert(l | top == l + top) by (bit_vector)
                    requires
                        l % 2 == 0,
                        top <= 1,
                ;
            }
            remainder.lo = remainder.lo | top;
            quotient = quotient.shift_left_1();
            proof {
                vstd::arithmetic::div_mod::lemma_small_mod(2 * q0, modulus());
                assert(remainder.value() == 2 * r0 + top);
                assert(quotient.value() == 2 * q0);
                let o = other.value() as int;
                assert((2 * q0) * o == 2 * (q0 * o)) by (nonlinear_arith);
                assert((2 * q0 + 1) * o == 2 * (q0 * o) + o) by (nonlinear_arith);
            }
            if !remainder.less_than(&other) {
                let ghost r1 = remainder.value();
                remainder = remainder.sub(other);
                let l = quotient.lo;
                proof {
                    vstd::arithmetic::div_mod::lemma_small_mod(
                        (r1 - other.value()) as nat,
                        modulus(),
                    );
                    assert(l | 1 == l + 1) by (bit_vector)
                        requires
                            l % 2 == 0,
                    ;
                }
                quotient.lo = l | 1;
            }
            proof {
                assert((256 - (k + 1)) as nat == (255 - k) as nat);
                assert(quotient.value() * other.value() + remainder.value() == 2 * p + top);
            }
            i += 1;
        }
        proof {
            assert(pow2(0) == 1) by {
                lemma2_to64();
            }
            assert(self.value() / 1 == self.value());
            self.lemma_value_bound();
            lemma_fundamental_div_mod_converse(
                self.value() as int,
                other.value() as int,
                quotient.value() as int,
                remainder.value() as int,
            );
        }
        quotient
    }
}

proof fn lemma_limb_order(h1: u128, l1: u128, h2: u128, l2: u128)
    ensures
        (h1 as nat * limb() + (l1 as nat) < h2 as nat * limb() + l2 as nat) == (h1 < h2 || (h1 == h2
            && l1 < l2)),
{
    if h1 < h2 {
        assert(h1 as nat * limb() + (l1 as nat) < h2 as nat * limb() + l2 as nat) by (nonlinear_arith)
            requires
                h1 < h2,
                l1 < limb(),
        ;
    } else if h1 > h2 {
        assert(h1 as nat * limb() + (l1 as nat) > h2 as nat * limb() + l2 as nat) by (nonlinear_arith)
            requires
                h1 > h2,
                l2 < limb(),
        ;
    }
}


proof fn lemma_split_u128(x: u128)
    ensures
        ((x as u64) as u128) as int == x as int % 0x1_0000_0000_0000_0000int,
        (x >> 64) as int == x as int / 0x1_0000_0000_0000_0000int,
        (x >> 64) < 0x1_0000_0000_0000_0000u128,
        ((x as u64) as u128) < 0x1_0000_0000_0000_0000u128,
        x as int == (x >> 64) as int * 0x1_0000_0000_0000_0000int + ((x as u64) as u128) as int,
{
    assert(((x as u64) as u128) == x % 0x1_0000_0000_0000_0000u128) by (bit_vector);
    assert((x >> 64) == x / 0x1_0000_0000_0000_0000u128) by (bit_vector);
    assert((x >> 64) < 0x1_0000_0000_0000_0000u128) by (bit_vector);
    assert(x == (x >> 64) * 0x1_0000_0000_0000_0000u128 + ((x as u64) as u128)) by (bit_vector);
}

proof fn lemma_half_products(a: u128, b: u128, c: u128, d: u128)
    requires
        a < 0x1_0000_0000_0000_0000u128,
        b < 0x1_0000_0000_0000_0000u128,
        c < 0x1_0000_0000_0000_0000u128,
        d < 0x1_0000_0000_0000_0000u128,
    ensures
        a * c <= u128::MAX,
        a * d <= u128::MAX,
        b * c <= u128::MAX,
        b * d <= u128::MAX,
{
    assert(a * c <= 0xffff_ffff_ffff_ffff * 0xffff_ffff_ffff_ffff) by (nonlinear_arith)
        requires a <= 0xffff_ffff_ffff_ffff, c <= 0xffff_ffff_ffff_ffff;
    assert(a * d <= 0xffff_ffff_ffff_ffff * 0xffff_ffff_ffff_ffff) by (nonlinear_arith)
        requires a <= 0xffff_ffff_ffff_ffff, d <= 0xffff_ffff_ffff_ffff;
    assert(b * c <= 0xffff_ffff_ffff_ffff * 0xffff_ffff_ffff_ffff) by (nonlinear_arith)
        requires b <= 0xffff_ffff_ffff_ffff, c <= 0xffff_ffff_ffff_ffff;
    assert(b * d <= 0xffff_ffff_ffff_ffff * 0xffff_ffff_ffff_ffff) by (nonlinear_arith)
        requires b <= 0xffff_ffff_ffff_ffff, d <= 0xffff_ffff_ffff_ffff;
}

/// The low-limb product `x * y` equals `lo + (p3 + mid_hi + c2) * 2^128`.
proof fn lemma_low_product(
    x: int,
    y: int,
    xl: int,
    xh: int,
    yl: int,
    yh: int,
    p0: int,
    p1: int,
    p2: int,
    p3: int,
    mid: int,
    c1: int,
    ml: int,
    mh: int,
    lo: int,
    c2: int,
)
    requires
        x == xh * 0x1_0000_0000_0000_0000int + xl,
        y == yh * 0x1_0000_0000_0000_0000int + yl,
        p0 == xl * yl,
        p1 == xl * yh,
        p2 == xh * yl,
        p3 == xh * yh,
        p1 + p2 == mid + c1 * limb(),
        mid == mh * 0x1_0000_0000_0000_0000int + ml,
        p0 + ml * 0x1_0000_0000_0000_0000int == lo + c2 * limb(),
        0 <= lo,
        0 <= x < limb(),
        0 <= y < limb(),
    ensures
        x * y == lo + (p3 + (mh + c1 * 0x1_0000_0000_0000_0000int) + c2) * limb(),
        p3 + (mh + c1 * 0x1_0000_0000_0000_0000int) + c2 < limb(),
{
    let r = 0x1_0000_0000_0000_0000int;
    assert(limb() == r * r);
    assert(x * y == (xh * r) * y + xl * y) by (nonlinear_arith)
        requires x == xh * r + xl;
    assert((xh * r) * y == (xh * r) * (yh * r) + (xh * r) * yl) by (nonlinear_arith)
        requires y == yh * r + yl;
    assert(xl * y == xl * (yh * r) + xl * yl) by (nonlinear_arith)
        requires y == yh * r + yl;
    assert((xh * r) * (yh * r) == p3 * (r * r)) by (nonlinear_arith)
        requires p3 == xh * yh;
    assert((xh * r) * yl == p2 * r) by (nonlinear_arith)
        requires p2 == xh * yl;
    assert(xl * (yh * r) == p1 * r) by (nonlinear_arith)
        requires p1 == xl * yh;
    assert(x * y == p0 + (p1 + p2) * r + p3 * (r * r)) by (nonlinear_arith)
        requires
            x * y == (xh * r) * y + xl * y,
            (xh * r) * y == (xh * r) * (yh * r) + (xh * r) * yl,
            xl * y == xl * (yh * r) + xl * yl,
            (xh * r) * (yh * r) == p3 * (r * r),
            (xh * r) * yl == p2 * r,
            xl * (yh * r) == p1 * r,
            p0 == xl * yl,
    ;
    assert(x * y == lo + (p3 + (mh + c1 * r) + c2) * limb()) by (nonlinear_arith)
        requires
            x * y == p0 + (p1 + p2) * r + p3 * (r * r),
            p1 + p2 == mid + c1 * limb(),
            mid == mh * r + ml,
            p0 + ml * r == lo + c2 * limb(),
            limb() == r * r,
    ;
    assert(x * y < limb() * limb()) by (nonlinear_arith)
        requires
            0 <= x < limb(),
            0 <= y < limb(),
    ;
    assert(p3 + (mh + c1 * r) + c2 < limb()) by (nonlinear_arith)
        requires
            x * y == lo + (p3 + (mh + c1 * r) + c2) * limb(),
            x * y < limb() * limb(),
            0 <= lo,
            limb() > 0,
    ;
}

/// Folding the high limb's product into the top limb, modulo 2^256.
proof fn lemma_wrap_top(h: int, y: int, l: int, top: int, lo: int, hi: int)
    requires
        0 <= h < limb(),
        0 <= y < limb(),
        0 <= top < limb(),
        0 <= lo < limb(),
        l * y == lo + top * limb(),
        hi == (top + (h * y) % (limb() as int)) % (limb() as int),
    ensures
        hi * limb() + lo == ((h * limb() + l) * y) % (modulus() as int),
{
    let b = limb() as int;
    vstd::arithmetic::div_mod::lemma_add_mod_noop_right(top, h * y, b);
    let t = top + h * y;
    lemma_fundamental_div_mod(t, b);
    let q = t / b;
    assert(0 <= hi < b);
    assert(t == b * q + hi);
    assert((h * b + l) * y == q * (b * b) + (hi * b + lo)) by (nonlinear_arith)
        requires
            l * y == lo + top * b,
            t == top + h * y,
            t == b * q + hi,
    ;
    assert(0 <= hi * b + lo < b * b) by (nonlinear_arith)
        requires
            0 <= hi < b,
            0 <= lo < b,
    ;
    lemma_fundamental_div_mod_converse((h * b + l) * y, b * b, q, hi * b + lo);
}

proof fn lemma_mul_combine(
    x: int,
    xl: int,
    yh: int,
    yl: int,
    rv: int,
    rh: int,
    rl: int,
    cross: int,
    hi: int,
    xh: int,
)
    requires
        x == xh * limb() + xl,
        0 <= xl < limb(),
        0 <= xh < limb(),
        0 <= yh < limb(),
        0 <= yl < limb(),
        rv == (x * yl) % (modulus() as int),
        rv == rh * limb() + rl,
        0 <= rh < limb(),
        0 <= rl < limb(),
        cross == (xl * yh) % (limb() as int),
        hi == (rh + cross) % (limb() as int),
    ensures
        hi * limb() + rl == (x * (yh * limb() + yl)) % (modulus() as int),
{
    let b = limb() as int;
    let m = modulus() as int;
    assert(m == b * b);
    lemma_fundamental_div_mod(x * yl, m);
    let q1 = (x * yl) / m;
    vstd::arithmetic::div_mod::lemma_add_mod_noop_right(rh, xl * yh, b);
    let t = rh + xl * yh;
    lemma_fundamental_div_mod(t, b);
    let q2 = t / b;
    assert(x * (yh * b + yl) == (q1 + q2 + xh * yh) * m + (hi * b + rl)) by (nonlinear_arith)
        requires
            x == xh * b + xl,
            x * yl == m * q1 + rv,
            rv == rh * b + rl,
            t == rh + xl * yh,
            t == b * q2 + hi,
            m == b * b,
    ;
    assert(0 <= hi < b);
    assert(0 <= hi * b + rl < m) by (nonlinear_arith)
        requires
            0 <= hi < b,
            0 <= rl < b,
            m == b * b,
    ;
    lemma_fundamental_div_mod_converse(x * (yh * b + yl), m, q1 + q2 + xh * yh, hi * b + rl);
}

proof fn lemma_pow2_facts()
    ensures
        pow2(0) == 1,
        pow2(128) == limb(),
        pow2(256) == modulus(),
        pow2(255) == limb() * 0x8000_0000_0000_0000_0000_0000_0000_0000nat,
        pow2(1) == 2,
{
    lemma2_to64();
    lemma_pow2_adds(32, 31);
    assert(pow2(63) == 0x8000_0000_0000_0000nat);
    lemma_pow2_adds(64, 64);
    assert(pow2(128) == limb());
    lemma_pow2_adds(63, 64);
    assert(pow2(127) == 0x8000_0000_0000_0000_0000_0000_0000_0000nat);
    lemma_pow2_adds(128, 128);
    lemma_pow2_adds(127, 128);
}

proof fn lemma_pow2_le_255(k: nat)
    requires
        k < 256,
    ensures
        pow2(k) <= pow2(255),
{
    if k < 255 {
        vstd::arithmetic::power2::lemma_pow2_strictly_increases(k, 255);
    }
}

/// The top bit of a 256-bit value is the top bit of its high limb.
proof fn lemma_top_bit(v: U256)
    ensures
        (v.hi >> 127) as nat == v.value() / (limb() * 0x8000_0000_0000_0000_0000_0000_0000_0000nat),
        (v.hi >> 127) <= 1,
{
    let h = v.hi;
    assert((h >> 127) == h / 0x8000_0000_0000_0000_0000_0000_0000_0000u128) by (bit_vector);
    let c = 0x8000_0000_0000_0000_0000_0000_0000_0000int;
    lemma_fundamental_div_mod(h as int, c);
    let t = h as int / c;
    let s = h as int % c;
    assert(v.value() == t * (limb() * c) + (s * limb() + v.lo)) by (nonlinear_arith)
        requires
            v.value() == h as int * limb() + v.lo,
            h as int == c * t + s,
    ;
    assert(0 <= s * limb() + v.lo < limb() * c) by (nonlinear_arith)
        requires
            0 <= s < c,
            0 <= v.lo < limb(),
    ;
    lemma_fundamental_div_mod_converse(v.value() as int, limb() * c, t, s * limb() + v.lo);
}

/// One step of top-down long division: consuming the next bit of `x`.
proof fn lemma_div_step(x: nat, k: nat)
    requires
        k < 256,
        x < modulus(),
    ensures
        x as int / pow2((255 - k) as nat) as int == 2 * (x as int / pow2((256 - k) as nat) as int) + ((x * pow2(k)) as int % (
        modulus() as int)) / (limb() * 0x8000_0000_0000_0000_0000_0000_0000_0000nat) as int,
        (2 * ((x * pow2(k)) as int % (modulus() as int))) % (modulus() as int) == (x * pow2(k + 1)) as int % (
        modulus() as int),
        x / pow2((256 - k) as nat) < pow2(k),
{
    lemma_pow2_facts();
    let e = (255 - k) as nat;
    let pe = pow2(e) as int;
    let pk = pow2(k) as int;
    lemma_pow2_pos(e);
    lemma_pow2_pos(k);
    lemma_pow2_adds(1, e);
    assert((1 + e) as nat == (256 - k) as nat);
    let d = 2 * pe;
    assert(pow2((256 - k) as nat) == d);
    lemma_pow2_adds(e, k);
    assert(e + k == 255);
    let h = (limb() * 0x8000_0000_0000_0000_0000_0000_0000_0000nat) as int;
    assert(pe * pk == h);
    let m = modulus() as int;
    assert(m == 2 * h);
    lemma_pow2_adds(k, 1);
    assert(pow2(k + 1) == 2 * pk);
    let xi = x as int;
    lemma_fundamental_div_mod(xi, d);
    let p = xi / d;
    let r = xi % d;
    lemma_fundamental_div_mod(r, pe);
    let t = r / pe;
    let s = r % pe;
    assert(0 <= t <= 1) by (nonlinear_arith)
        requires
            r == pe * t + s,
            0 <= r < 2 * pe,
            0 <= s < pe,
    ;
    // x * 2^k = p * 2^256 + r * 2^k, with r * 2^k < 2^256
    assert(xi * pk == p * m + r * pk) by (nonlinear_arith)
        requires
            xi == d * p + r,
            d == 2 * pe,
            pe * pk == h,
            m == 2 * h,
    ;
    assert(0 <= r * pk < m) by (nonlinear_arith)
        requires
            0 <= r < d,
            d == 2 * pe,
            pe * pk == h,
            m == 2 * h,
            pk > 0,
    ;
    lemma_fundamental_div_mod_converse(xi * pk, m, p, r * pk);
    // (r * 2^k) / 2^255 == t
    assert(r * pk == t * h + s * pk) by (nonlinear_arith)
        requires
            r == pe * t + s,
            pe * pk == h,
    ;
    assert(0 <= s * pk < h) by (nonlinear_arith)
        requires
            0 <= s < pe,
            pe * pk == h,
            pk > 0,
    ;
    lemma_fundamental_div_mod_converse(r * pk, h, t, s * pk);
    // x / 2^e == 2p + t
    assert(xi == (2 * p + t) * pe + s) by (nonlinear_arith)
        requires
            xi == d * p + r,
            d == 2 * pe,
            r == pe * t + s,
    ;
    lemma_fundamental_div_mod_converse(xi, pe, 2 * p + t, s);
    // doubling
    assert(xi * (2 * pk) == (2 * p) * m + 2 * (r * pk)) by (nonlinear_arith)
        requires
            xi * pk == p * m + r * pk,
    ;
    vstd::arithmetic::div_mod::lemma_mod_multiples_vanish(2 * p, 2 * (r * pk), m);
    assert((2 * p) * m + 2 * (r * pk) == m * (2 * p) + 2 * (r * pk)) by (nonlinear_arith);
    // bound on the consumed prefix
    assert(m == d * pk) by (nonlinear_arith)
        requires
            d == 2 * pe,
            pe * pk == h,
            m == 2 * h,
    ;
    assert(p < pk) by (nonlinear_arith)
        requires
            xi == d * p + r,
            0 <= r,
            xi < m,
            m == d * pk,
            d > 0,
    ;
}

/// A `U256` is determined by the number it stands for.
pub proof fn lemma_value_injective(x: U256, y: U256)
    requires
        x.value() == y.value(),
    ensures
        x == y,
{
    vstd::arithmetic::div_mod::lemma_fundamental_div_mod_converse(
        x.value() as int,
        limb() as int,
        x.hi as int,
        x.lo as int,
    );
    vstd::arithmetic::div_mod::lemma_fundamental_div_mod_converse(
        y.value() as int,
        limb() as int,
        y.hi as int,
        y.lo as int,
    );
}

/// `x mod 2^256` for `x` within the window `[q * 2^256, (q + 1) * 2^256)`.
proof fn lemma_mod_window(x: int, q: int)
    requires
        0 <= x - q * modulus() < modulus(),
    ensures
        x % (modulus() as int) == x - q * modulus(),
{
    vstd::arithmetic::div_mod::lemma_fundamental_div_mod_converse(x, modulus() as int, q, x - q * modulus());
}

/// Adding and then subtracting the same value gives the first value back, and
/// so does subtracting and then adding (arithmetic modulo 2^256, as `add` and
/// `sub` compute it); without a borrow the difference is the plain one.
pub proof fn lemma_add_sub_inverse(a: U256, b: U256)
    ensures
        (((a.value() + b.value()) % modulus()) - b.value()) % (modulus() as int) == a.value(),
        (((a.value() - b.value()) % (modulus() as int)) + b.value()) % (modulus() as int) == a.value(),
        a.value() >= b.value() ==> (a.value() - b.value()) % (modulus() as int) == a.value() - b.value(),
{
    a.lemma_value_bound();
    b.lemma_value_bound();
    let m = modulus() as int;
    let x = a.value() as int;
    let y = b.value() as int;
    if x + y < m {
        lemma_mod_window(x + y, 0);
        lemma_mod_window(x, 0);
    } else {
        lemma_mod_window(x + y, 1);
        lemma_mod_window(x - m, -1);
    }
    if x >= y {
        lemma_mod_window(x - y, 0);
        lemma_mod_window(x, 0);
    } else {
        lemma_mod_window(x - y, -1);
        lemma_mod_window(x - y + m + y, 1);
    }
}

} // verus!
