//! Curve Stableswap invariant engine: integer Newton-Raphson solvers for the
//! invariant `D` and the output balance `y`, on 256-bit intermediates.
use vstd::prelude::*;
use crate::u256::{U256, modulus, limb};
use crate::order_book::{
    pow10, pow10_u128, trunc_div, set_ask_level, BookView, ContiguousOrderBook, apply_bid,
    rung_computable, PRICE_LEVELS_COUNT, TICK_SIZE,
};

verus! {

/// Maximum supported coins in a single Curve pool.
pub const MAX_COINS: usize = 3;

/// `a * b` modulo 2^256.
pub open spec fn mulm(a: nat, b: nat) -> nat {
    (a * b) % modulus()
}

/// `a + b` modulo 2^256.
pub open spec fn addm(a: nat, b: nat) -> nat {
    (a + b) % modulus()
}

/// `a - b` modulo 2^256.
pub open spec fn subm(a: nat, b: nat) -> nat {
    ((a - b) % (modulus() as int)) as nat
}

/// `n^n` as the solver uses it: 4 for two coins, 27 otherwise.
pub open spec fn n_pow_n(n: nat) -> nat {
    if n == 2 {
        4
    } else {
        27
    }
}

/// Sum of the first `count` balances.
pub open spec fn sum_first(xs: Seq<u128>, count: nat) -> nat
    decreases count,
{
    if count == 0 {
        0
    } else {
        sum_first(xs, (count - 1) as nat) + xs[count - 1] as nat
    }
}

/// Successive rescaling `d_p = d_p * d / (x_k * n)` over the first `count`
/// balances, starting from `d`; `None` when a denominator is zero.
pub open spec fn d_product(d: nat, xs: Seq<u128>, n: nat, count: nat) -> Option<nat>
    decreases count,
{
    if count == 0 {
        Some(d)
    } else {
        match d_product(d, xs, n, (count - 1) as nat) {
            None => None,
            Some(dp) => {
                let denom = mulm(xs[count - 1] as nat, n);
                if denom == 0 {
                    None
                } else {
                    Some(mulm(dp, d) / denom)
                }
            },
        }
    }
}

/// Two successive iterates differ by at most one.
pub open spec fn close_enough(a: nat, b: nat) -> bool {
    if a > b {
        a - b <= 1
    } else {
        b - a <= 1
    }
}

/// Newton iteration for `D` from the current iterate `d`, with `fuel` steps left:
/// `D' = (Ann*S + D_P*n) * D / ((Ann - 1) * D + (n + 1) * D_P)`.
pub open spec fn d_newton(ann: nat, s: nat, n: nat, xs: Seq<u128>, d: nat, fuel: nat) -> Option<nat>
    decreases fuel,
{
    if fuel == 0 {
        Some(d)
    } else {
        match d_product(d, xs, n, n) {
            None => None,
            Some(dp) => {
                let num = mulm(addm(mulm(ann, s), mulm(dp, n)), d);
                let den = addm(mulm(subm(ann, 1), d), mulm(addm(n, 1), dp));
                if den == 0 {
                    None
                } else {
                    let d2 = num / den;
                    if close_enough(d2, d) {
                        Some(d2)
                    } else {
                        d_newton(ann, s, n, xs, d2, (fuel - 1) as nat)
                    }
                }
            },
        }
    }
}

/// The Stableswap invariant `D` of `n` normalized balances with amplification `a`,
/// as the integer solver computes it (at most 255 Newton steps, low 128 bits kept).
pub open spec fn spec_get_d(n: nat, a: nat, xs: Seq<u128>) -> Option<u128> {
    let s = sum_first(xs, n);
    if s == 0 {
        Some(0)
    } else {
        match d_newton(a * n_pow_n(n), s, n, xs, s, 255) {
            None => None,
            Some(d) => Some((d % limb()) as u128),
        }
    }
}


/// The balance the `y` solver uses at coin `k`: `x` at coin `i`, the pool
/// balance elsewhere.
pub open spec fn y_balance(k: int, i: nat, x: nat, xs: Seq<u128>) -> nat {
    if k == i {
        x
    } else {
        xs[k] as nat
    }
}

/// Over the first `count` coins except `j`: `c = c * D / (x_k * n)` starting from
/// `D`, and the sum `S'` of the balances; `None` when a denominator is zero.
pub open spec fn y_c_loop(d: nat, x: nat, i: nat, j: nat, xs: Seq<u128>, n: nat, count: nat) -> Option<(nat, nat)>
    decreases count,
{
    if count == 0 {
        Some((d, 0))
    } else {
        match y_c_loop(d, x, i, j, xs, n, (count - 1) as nat) {
            None => None,
            Some((c, s)) => {
                if count - 1 == j {
                    Some((c, s))
                } else {
                    let xv = y_balance(count - 1, i, x, xs);
                    let denom = mulm(xv, n);
                    if denom == 0 {
                        None
                    } else {
                        Some((mulm(c, d) / denom, s + xv))
                    }
                }
            },
        }
    }
}

/// The partial sums of the balances the `y` solver accumulates over the first
/// `count` coins stay within `u128` until a zero denominator stops it.
pub open spec fn y_sum_fits(d: nat, x: nat, i: nat, j: nat, xs: Seq<u128>, n: nat, count: nat) -> bool
    decreases count,
{
    if count == 0 {
        true
    } else {
        &&& y_sum_fits(d, x, i, j, xs, n, (count - 1) as nat)
        &&& count - 1 != j ==> match y_c_loop(d, x, i, j, xs, n, (count - 1) as nat) {
            None => true,
            Some((c, s)) => s + y_balance(count - 1, i, x, xs) <= u128::MAX,
        }
    }
}

/// The `y` solver for coins `i` and `j` runs without overflow: the balances sum
/// within `u128` (for the invariant), so does the amplification `A * n^n`, and
/// so do the balances it accumulates.
pub open spec fn get_y_fits(n: nat, a: nat, i: nat, j: nat, x: nat, xs: Seq<u128>) -> bool {
    (i != j && i < n && j < n) ==> {
        &&& sum_first(xs, n) <= u128::MAX
        &&& a * n_pow_n(n) <= u128::MAX
        &&& (spec_get_d(n, a, xs) matches Some(dv) ==> y_sum_fits(dv as nat, x, i, j, xs, n, n))
    }
}

proof fn lemma_y_sum_fits_prefix(d: nat, x: nat, i: nat, j: nat, xs: Seq<u128>, n: nat, m: nat, count: nat)
    requires
        m <= count,
        y_sum_fits(d, x, i, j, xs, n, count),
    ensures
        y_sum_fits(d, x, i, j, xs, n, m),
    decreases count,
{
    if m < count {
        lemma_y_sum_fits_prefix(d, x, i, j, xs, n, m, (count - 1) as nat);
    }
}

/// Newton iteration for `y`: `y' = (y^2 + c) / (2y + b - D)`, `None` when
/// `2y + b <= D`.
pub open spec fn y_newton(c: nat, b: nat, d: nat, y: nat, fuel: nat) -> Option<nat>
    decreases fuel,
{
    if fuel == 0 {
        Some(y)
    } else {
        let num = addm(mulm(y, y), c);
        let ds = addm(mulm(2, y), b);
        if ds <= d {
            None
        } else {
            let y2 = num / subm(ds, d);
            if close_enough(y2, y) {
                Some(y2)
            } else {
                y_newton(c, b, d, y2, (fuel - 1) as nat)
            }
        }
    }
}

/// Output balance of coin `j` when coin `i`'s normalized balance becomes `x`,
/// as the integer solver computes it.
pub open spec fn spec_get_y(n: nat, a: nat, i: nat, j: nat, x: nat, xs: Seq<u128>) -> Option<u128> {
    if i == j || i >= n || j >= n {
        None
    } else {
        match spec_get_d(n, a, xs) {
            None => None,
            Some(dv) => {
                let d = dv as nat;
                match y_c_loop(d, x, i, j, xs, n, n) {
                    None => None,
                    Some((c, s)) => {
                        let ann = a * n_pow_n(n);
                        let ann_n = mulm(ann, n);
                        if ann_n == 0 {
                            None
                        } else {
                            let c2 = mulm(c, d) / ann_n;
                            let b = addm(s, d / ann);
                            low_limb(y_newton(c2, b, d, d, 255))
                        }
                    },
                }
            },
        }
    }
}

proof fn lemma_y_c_loop_none(d: nat, x: nat, i: nat, j: nat, xs: Seq<u128>, n: nat, a: nat, b: nat)
    requires
        a <= b,
        y_c_loop(d, x, i, j, xs, n, a) is None,
    ensures
        y_c_loop(d, x, i, j, xs, n, b) is None,
    decreases b,
{
    if a < b {
        lemma_y_c_loop_none(d, x, i, j, xs, n, a, (b - 1) as nat);
    }
}

/// Maps a solver result to the low 128 bits that the caller receives.
pub open spec fn low_limb(o: Option<nat>) -> Option<u128> {
    match o {
        None => None,
        Some(d) => Some((d % limb()) as u128),
    }
}

proof fn lemma_sum_first_mono(xs: Seq<u128>, a: nat, b: nat)
    requires
        a <= b,
    ensures
        sum_first(xs, a) <= sum_first(xs, b),
    decreases b,
{
    if a < b {
        lemma_sum_first_mono(xs, a, (b - 1) as nat);
    }
}

proof fn lemma_d_product_none(d: nat, xs: Seq<u128>, n: nat, a: nat, b: nat)
    requires
        a <= b,
        d_product(d, xs, n, a) is None,
    ensures
        d_product(d, xs, n, b) is None,
    decreases b,
{
    if a < b {
        lemma_d_product_none(d, xs, n, a, (b - 1) as nat);
    }
}

proof fn lemma_balanced_product(s: nat, x: nat, xs: Seq<u128>, n: nat, k: nat)
    requires
        k <= n,
        xs.len() >= n,
        forall|m: int| 0 <= m < n ==> xs[m] == x,
        s == n * x,
        0 < s < limb(),
    ensures
        d_product(s, xs, n, k) == Some(s),
    decreases k,
{
    if k > 0 {
        lemma_balanced_product(s, x, xs, n, (k - 1) as nat);
        assert(xs[k - 1] as nat == x);
        assert(s * s < modulus()) by (nonlinear_arith)
            requires
                s < limb(),
                modulus() == limb() * limb(),
        ;
        vstd::arithmetic::div_mod::lemma_small_mod((s * s) as nat, modulus());
        assert(x * n == s) by (nonlinear_arith)
            requires
                s == n * x,
        ;
        vstd::arithmetic::div_mod::lemma_small_mod((x * n) as nat, modulus());
        assert(mulm(x, n) == s);
        assert(mulm(s, s) == s * s);
        vstd::arithmetic::div_mod::lemma_div_by_multiple(s as int, s as int);
        assert((s * s) / s == s) by (nonlinear_arith)
            requires
                s > 0,
        ;
    }
}

/// A perfectly balanced pool (every one of the `n` normalized balances equal)
/// has invariant `D` equal to the sum of its balances, when no intermediate
/// product of the solver's first step wraps 256 bits.
pub proof fn lemma_balanced_pool_invariant(n: nat, a: nat, x: u128, xs: Seq<u128>)
    requires
        n == 2 || n == 3,
        xs.len() >= n,
        forall|m: int| 0 <= m < n ==> xs[m] == x,
        x > 0,
        a > 0,
        n * x <= u128::MAX,
        (a * n_pow_n(n) + n) * (n * x) * (n * x) < modulus(),
    ensures
        spec_get_d(n, a, xs) == Some((n * x) as u128),
{
    let s: nat = (n * x) as nat;
    assert(sum_first(xs, n) == s) by {
        lemma_sum_balanced(xs, x as nat, n, n);
    }
    assert(s < limb());
    assert(s > 0) by (nonlinear_arith)
        requires
            x > 0,
            n >= 2,
            s == n * x,
    ;
    let ann = a * n_pow_n(n);
    lemma_balanced_product(s, x as nat, xs, n, n);
    assert(modulus() == limb() * limb());
    assert(ann * s <= (ann + n) * s * s) by (nonlinear_arith)
        requires
            s > 0,
    ;
    assert(s * n <= (ann + n) * s * s) by (nonlinear_arith)
        requires
            s > 0,
    ;
    vstd::arithmetic::div_mod::lemma_small_mod((ann * s) as nat, modulus());
    vstd::arithmetic::div_mod::lemma_small_mod((s * n) as nat, modulus());
    assert(ann * s + s * n == (ann + n) * s) by (nonlinear_arith);
    assert((ann + n) * s <= (ann + n) * s * s) by (nonlinear_arith)
        requires
            s > 0,
    ;
    vstd::arithmetic::div_mod::lemma_small_mod((ann * s + s * n) as nat, modulus());
    assert(addm(mulm(ann, s), mulm(s, n)) == (ann + n) * s);
    vstd::arithmetic::div_mod::lemma_small_mod(((ann + n) * s * s) as nat, modulus());
    let num = mulm(addm(mulm(ann, s), mulm(s, n)), s);
    assert(num == (ann + n) * s * s);
    assert(ann >= 1) by (nonlinear_arith)
        requires
            a > 0,
            n_pow_n(n) >= 4,
            ann == a * n_pow_n(n),
    ;
    assert(ann <= (ann + n) * s * s) by (nonlinear_arith)
        requires
            s > 0,
    ;
    vstd::arithmetic::div_mod::lemma_small_mod((ann - 1) as nat, modulus());
    assert(subm(ann, 1) == ann - 1);
    assert((ann - 1) * s <= (ann + n) * s * s) by (nonlinear_arith)
        requires
            s > 0,
            ann >= 1,
    ;
    assert((n + 1) * s <= (ann + n) * s * s) by (nonlinear_arith)
        requires
            s > 0,
            ann >= 1,
    ;
    vstd::arithmetic::div_mod::lemma_small_mod(((ann - 1) * s) as nat, modulus());
    vstd::arithmetic::div_mod::lemma_small_mod(n + 1, modulus());
    vstd::arithmetic::div_mod::lemma_small_mod(((n + 1) * s) as nat, modulus());
    assert((ann - 1) * s + (n + 1) * s == (ann + n) * s) by (nonlinear_arith);
    vstd::arithmetic::div_mod::lemma_small_mod(((ann + n) * s) as nat, modulus());
    let den = addm(mulm(subm(ann, 1), s), mulm(addm(n, 1), s));
    assert(den == (ann + n) * s);
    assert(den > 0) by (nonlinear_arith)
        requires
            den == (ann + n) * s,
            s > 0,
            ann >= 1,
    ;
    assert(num / den == s) by (nonlinear_arith)
        requires
            num == (ann + n) * s * s,
            den == (ann + n) * s,
            den > 0,
    ;
    assert(close_enough(s, s));
    assert(d_newton(ann, s, n, xs, s, 255) == Some(s));
    vstd::arithmetic::div_mod::lemma_small_mod(s, limb());
}

proof fn lemma_sum_balanced(xs: Seq<u128>, x: nat, n: nat, k: nat)
    requires
        k <= n,
        xs.len() >= n,
        forall|m: int| 0 <= m < n ==> xs[m] == x,
    ensures
        sum_first(xs, k) == k * x,
    decreases k,
{
    if k > 0 {
        lemma_sum_balanced(xs, x, n, (k - 1) as nat);
        assert(xs[k - 1] as nat == x);
        assert(((k - 1) as nat) * x + x == k * x) by (nonlinear_arith)
            requires
                k > 0,
        ;
    } else {
        assert(0 * x == 0);
    }
}

/// One Newton step for `D` from iterate `d` and rescaled product `d_p`.
fn d_newton_step(ann_u: &U256, s_u: &U256, n_u: &U256, d: &U256, d_p: &U256) -> (r: Option<U256>)
    ensures
        ({
            let num = mulm(addm(mulm(ann_u.value(), s_u.value()), mulm(d_p.value(), n_u.value())), d.value());
            let den = addm(mulm(subm(ann_u.value(), 1), d.value()), mulm(addm(n_u.value(), 1), d_p.value()));
            if den == 0 {
                r is None
            } else {
                r matches Some(v) && v.value() == num / den
            }
        }),
{
    let numerator = ann_u.mul(*s_u).add(d_p.mul(*n_u)).mul(*d);
    let denominator = ann_u.sub(U256::one()).mul(*d).add(n_u.add(U256::one()).mul(*d_p));
    if denominator.is_zero() {
        return None;
    }
    Some(numerator.div(denominator))
}

/// Whether two iterates differ by at most one.
fn is_close(a: &U256, b: &U256) -> (r: bool)
    ensures
        r == close_enough(a.value(), b.value()),
{
    proof {
        a.lemma_value_bound();
        b.lemma_value_bound();
    }
    if b.less_than(a) {
        let diff = a.sub(*b);
        proof {
            vstd::arithmetic::div_mod::lemma_small_mod((a.value() - b.value()) as nat, modulus());
        }
        !U256::one().less_than(&diff)
    } else {
        let diff = b.sub(*a);
        proof {
            vstd::arithmetic::div_mod::lemma_small_mod((b.value() - a.value()) as nat, modulus());
        }
        !U256::one().less_than(&diff)
    }
}


/// One Newton step for `y`.
fn y_newton_step(y: &U256, c: &U256, b: &U256, d: &U256) -> (r: Option<U256>)
    ensures
        ({
            let num = addm(mulm(y.value(), y.value()), c.value());
            let ds = addm(mulm(2, y.value()), b.value());
            if ds <= d.value() {
                r is None
            } else {
                r matches Some(v) && v.value() == num / subm(ds, d.value())
            }
        }),
{
    let numerator = y.mul(*y).add(*c);
    let denom_sum = U256::from_u128(2).mul(*y).add(*b);
    if !d.less_than(&denom_sum) {
        return None;
    }
    let denominator = denom_sum.sub(*d);
    proof {
        vstd::arithmetic::div_mod::lemma_small_mod((denom_sum.value() - d.value()) as nat, modulus());
        denom_sum.lemma_value_bound();
    }
    Some(numerator.div(denominator))
}


/// Runs the `c` / `S'` accumulation of the `y` solver over all coins but `j`.
fn y_c_loop_exec(d: U256, x: u128, i: usize, j: usize, xp: &[u128], n_coins: usize, n_u: U256) -> (r: Option<(U256, u128)>)
    requires
        xp@.len() >= n_u.value(),
        n_u.value() == n_coins,
        i < n_u.value(),
        j < n_u.value(),
        i != j,
        y_sum_fits(d.value(), x as nat, i as nat, j as nat, xp@, n_u.value(), n_u.value()),
    ensures
        match y_c_loop(d.value(), x as nat, i as nat, j as nat, xp@, n_u.value(), n_u.value()) {
            None => r is None,
            Some((cv, sv)) => r matches Some((c, s)) && c.value() == cv && s == sv,
        },
{
    let ghost xs = xp@;
    let ghost n = n_u.value();
    let mut c = d;
    let mut s: u128 = 0;
    let mut k: usize = 0;
    while k < n_coins
        invariant
            k <= n_coins,
            n_coins == n,
            n == n_u.value(),
            xs == xp@,
            xp@.len() >= n_coins,
            i < n_coins,
            j < n_coins,
            i != j,
            y_sum_fits(d.value(), x as nat, i as nat, j as nat, xs, n, n),
            y_c_loop(d.value(), x as nat, i as nat, j as nat, xs, n, k as nat) == Some((c.value(), s as nat)),
        decreases n_coins - k,
    {
        proof {
            lemma_y_sum_fits_prefix(d.value(), x as nat, i as nat, j as nat, xs, n, (k + 1) as nat, n);
        }
        if k != j {
            let x_val = if k == i { x } else { xp[k] };
            s += x_val;
            let denom = U256::from_u128(x_val).mul(n_u);
            if denom.is_zero() {
                proof {
                    lemma_y_c_loop_none(d.value(), x as nat, i as nat, j as nat, xs, n, (k + 1) as nat, n);
                }
                return None;
            }
            c = c.mul(d).div(denom);
        }
        k += 1;
    }
    Some((c, s))
}

/// Runs up to 255 Newton steps for `y` from `y = D`.
fn y_iterate(c: &U256, b: &U256, d: &U256) -> (r: Option<u128>)
    ensures
        r == low_limb(y_newton(c.value(), b.value(), d.value(), d.value(), 255)),
{
    let mut y = *d;
    let ghost target = low_limb(y_newton(c.value(), b.value(), d.value(), d.value(), 255));
    let mut iter: u32 = 0;
    while iter < 255
        invariant
            iter <= 255,
            target == low_limb(y_newton(c.value(), b.value(), d.value(), y.value(), (255 - iter) as nat)),
            target == low_limb(y_newton(c.value(), b.value(), d.value(), d.value(), 255)),
        decreases 255 - iter,
    {
        let y_prev = y;
        match y_newton_step(&y_prev, c, b, d) {
            None => {
                return None;
            },
            Some(y2) => {
                y = y2;
            },
        }
        if is_close(&y, &y_prev) {
            return Some(y.as_u128());
        }
        iter += 1;
    }
    Some(y.as_u128())
}

/// Curve Stableswap pool of two or three tokens.
#[derive(Clone, Debug)]
pub struct CurvePool {
    /// Number of tokens in the pool (2 or 3).
    pub n_coins: usize,
    /// Raw token reserves as reported on-chain.
    pub raw_reserves: [u128; MAX_COINS],
    /// Precision multipliers normalizing each balance to 18 decimals.
    pub multipliers: [u128; MAX_COINS],
    /// Amplification coefficient A.
    pub a: u128,
    /// Swap fee in basis points.
    pub fee_bps: u16,
}

impl CurvePool {
    /// The 18-decimal normalized balances `raw_k * multiplier_k` of the pool's
    /// coins, zero past `n_coins`.
    pub open spec fn normalized(&self) -> Seq<u128> {
        Seq::new(
            MAX_COINS as nat,
            |k: int|
                if k < self.n_coins {
                    (self.raw_reserves@[k] * self.multipliers@[k]) as u128
                } else {
                    0u128
                },
        )
    }

    /// Every normalized balance fits in a `u128`.
    pub open spec fn normalization_fits(&self) -> bool {
        &&& self.n_coins <= MAX_COINS
        &&& forall|k: int| 0 <= k < self.n_coins ==> self.raw_reserves@[k] * self.multipliers@[k] <= u128::MAX
    }

    /// Output of swapping `dx` raw units of coin `i` for coin `j`, net of the fee
    /// and denormalized to coin `j`'s decimals; `None` when the solver fails or
    /// the pool would not pay out.
    pub open spec fn swap_output(&self, i: nat, j: nat, dx: nat) -> Option<u128> {
        let xp = self.normalized();
        let new_x = (xp[i as int] + dx * self.multipliers@[i as int]) as nat;
        match spec_get_y(self.n_coins as nat, self.a as nat, i, j, new_x, xp) {
            None => None,
            Some(y) => {
                if xp[j as int] > y {
                    let dy = (xp[j as int] - y) as nat;
                    let fee = dy * (self.fee_bps as nat) / 10_000;
                    let net = if dy >= fee { (dy - fee) as nat } else { 0 };
                    Some((net / (self.multipliers@[j as int] as nat)) as u128)
                } else {
                    None
                }
            },
        }
    }

    /// The swap of `dx` units of coin `i` into coin `j` runs without an
    /// arithmetic overflow, an out-of-range index or a division by zero.
    pub open spec fn swap_computable(&self, i: nat, j: nat, dx: nat) -> bool {
        let xp = self.normalized();
        let dx_norm = dx * self.multipliers@[i as int];
        let new_x = (xp[i as int] + dx_norm) as nat;
        &&& self.normalization_fits()
        &&& i < MAX_COINS
        &&& dx_norm <= u128::MAX
        &&& new_x <= u128::MAX
        &&& get_y_fits(self.n_coins as nat, self.a as nat, i, j, new_x, xp)
        &&& match spec_get_y(self.n_coins as nat, self.a as nat, i, j, new_x, xp) {
            None => true,
            Some(y) => xp[j as int] > y ==> {
                &&& (xp[j as int] - y) * (self.fee_bps as nat) <= u128::MAX
                &&& self.multipliers@[j as int] > 0
            },
        }
    }

    /// One native unit of coin `i`: `10^18 / multiplier_i`.
    pub open spec fn unit_of(&self, i: nat) -> nat {
        pow10(18) / (self.multipliers@[i as int] as nat)
    }

    /// The spot price routine runs without a panic.
    pub open spec fn spot_computable(&self, i: nat, j: nat) -> bool {
        &&& i < MAX_COINS
        &&& self.multipliers@[i as int] > 0
        &&& self.swap_computable(i, j, self.unit_of(i))
        &&& match self.swap_output(i, j, self.unit_of(i)) {
            None => true,
            Some(dy) => dy * self.multipliers@[j as int] * 100_000_000 <= u128::MAX,
        }
    }

    /// Marginal rate of coin `i` in coin `j` scaled 10^8: the output of one
    /// native unit, or 10^8 (parity) when the swap fails.
    pub open spec fn spot_price(&self, i: nat, j: nat) -> i64 {
        match self.swap_output(i, j, self.unit_of(i)) {
            None => 100_000_000,
            Some(dy) => ((dy * self.multipliers@[j as int] * 100_000_000) / (pow10(18) as int)) as i64,
        }
    }

    /// The depth quoted for a band: the 10^8-scaled output of swapping `bps`
    /// basis points of coin `i`'s reserve.
    pub open spec fn band_chunk(&self, i: nat, bps: u16) -> nat {
        (self.raw_reserves@[i as int] * (bps as nat) / 10_000) as nat
    }

    /// One band written into the book: an ask at `spot * (1 + bps)` written in
    /// place, and a bid at `spot * (1 - bps)` through the ladder update.
    pub open spec fn band_step(&self, v: BookView, i: nat, j: nat, spot: i64, bps: u16, ts: u64) -> BookView {
        let off = spot * (bps as int) / 10_000;
        let target_ask = (spot + off) as i64;
        let target_bid = (spot - off) as i64;
        match self.swap_output(i, j, self.band_chunk(i, bps)) {
            None => v,
            Some(dy) => {
                let qty = ((dy * self.multipliers@[j as int] * 100_000_000) / (pow10(18) as int)) as u64;
                let diff_ask = trunc_div(target_ask - v.base_price, TICK_SIZE as int);
                let v1 = if 0 <= diff_ask < PRICE_LEVELS_COUNT {
                    set_ask_level(v, diff_ask, target_ask, qty, ts)
                } else {
                    v
                };
                if target_bid > 0 {
                    apply_bid(v1, target_bid, qty, 1, ts)
                } else {
                    v1
                }
            },
        }
    }

    /// The bands applied in order.
    pub open spec fn bands_applied(&self, v: BookView, i: nat, j: nat, spot: i64, bands: Seq<u16>, ts: u64) -> BookView
        decreases bands.len(),
    {
        if bands.len() == 0 {
            v
        } else {
            self.band_step(
                self.bands_applied(v, i, j, spot, bands.drop_last(), ts),
                i,
                j,
                spot,
                bands.last(),
                ts,
            )
        }
    }

    /// Every band of the discretization runs without a panic on a book anchored
    /// at `base`.
    pub open spec fn band_computable(&self, i: nat, j: nat, spot: i64, bps: u16, base: i64) -> bool {
        let off = spot * (bps as int) / 10_000;
        &&& spot * (bps as int) <= i64::MAX
        &&& spot + off <= i64::MAX
        &&& self.raw_reserves@[i as int] * (bps as nat) <= u128::MAX
        &&& self.swap_computable(i, j, self.band_chunk(i, bps))
        &&& match self.swap_output(i, j, self.band_chunk(i, bps)) {
            None => true,
            Some(dy) => {
                &&& dy * self.multipliers@[j as int] * 100_000_000 <= u128::MAX
                &&& -(i64::MAX as int) <= spot + off - base <= i64::MAX
                &&& spot - off > 0 ==> rung_computable((spot - off) as i64, base)
            },
        }
    }
}

impl CurvePool {
    /// Solves for the invariant `D` by integer Newton-Raphson on 256-bit
    /// intermediates; `None` when a denominator vanishes.
    #[verifier::rlimit(40)]
    pub fn get_d(&self, xp: &[u128]) -> (r: Option<u128>)
        requires
            xp@.len() >= self.n_coins,
            sum_first(xp@, self.n_coins as nat) <= u128::MAX,
            sum_first(xp@, self.n_coins as nat) > 0 ==> self.a * n_pow_n(self.n_coins as nat) <= u128::MAX,
        ensures
            r == spec_get_d(self.n_coins as nat, self.a as nat, xp@),
    {
        let n_coins = self.n_coins;
        let n = n_coins as u128;
        let mut s: u128 = 0;
        let mut i: usize = 0;
        while i < n_coins
            invariant
                i <= n_coins,
                n_coins == self.n_coins,
                xp@.len() >= n_coins,
                s as nat == sum_first(xp@, i as nat),
                sum_first(xp@, n_coins as nat) <= u128::MAX,
            decreases n_coins - i,
        {
            proof {
                lemma_sum_first_mono(xp@, (i + 1) as nat, n_coins as nat);
            }
            s += xp[i];
            i += 1;
        }
        if s == 0 {
            return Some(0);
        }

        let pow_n: u128 = if n_coins == 2 { 4 } else { 27 };
        let ann = self.a * pow_n;
        let mut d = U256::from_u128(s);
        let s_u = U256::from_u128(s);
        let ann_u = U256::from_u128(ann);
        let n_u = U256::from_u128(n);
        let ghost xs = xp@;
        let ghost target = spec_get_d(n_coins as nat, self.a as nat, xs);
        proof {
            assert(ann as nat == self.a * n_pow_n(n_coins as nat));
            assert(target == low_limb(d_newton(ann as nat, s as nat, n as nat, xs, s as nat, 255)));
        }

        let mut iter: u32 = 0;
        while iter < 255
            invariant
                iter <= 255,
                n_coins == self.n_coins,
                n as nat == n_coins,
                xs == xp@,
                xp@.len() >= n_coins,
                s_u.value() == s,
                ann_u.value() == ann,
                n_u.value() == n,
                target == low_limb(d_newton(ann as nat, s as nat, n as nat, xs, d.value(), (255 - iter) as nat)),
                target == spec_get_d(self.n_coins as nat, self.a as nat, xp@),
            decreases 255 - iter,
        {
            let mut d_p = d;
            let mut k: usize = 0;
            while k < n_coins
                invariant
                    k <= n_coins,
                    n_coins == self.n_coins,
                    n as nat == n_coins,
                    xs == xp@,
                    xp@.len() >= n_coins,
                    n_u.value() == n,
                    iter < 255,
                    target == low_limb(d_newton(ann as nat, s as nat, n as nat, xs, d.value(), (255 - iter) as nat)),
                    d_product(d.value(), xs, n as nat, k as nat) == Some(d_p.value()),
                    target == spec_get_d(self.n_coins as nat, self.a as nat, xp@),
                decreases n_coins - k,
            {
                let denom = U256::from_u128(xp[k]).mul(n_u);
                if denom.is_zero() {
                    proof {
                        lemma_d_product_none(d.value(), xs, n as nat, (k + 1) as nat, n as nat);
                        assert(d_newton(ann as nat, s as nat, n as nat, xs, d.value(), (255 - iter) as nat) is None);
                    }
                    return None;
                }
                d_p = d_p.mul(d).div(denom);
                k += 1;
            }

            let d_prev = d;
            let next = d_newton_step(&ann_u, &s_u, &n_u, &d_prev, &d_p);
            match next {
                None => {
                    return None;
                },
                Some(d2) => {
                    d = d2;
                },
            }
            if is_close(&d, &d_prev) {
                return Some(d.as_u128());
            }
            iter += 1;
        }
        Some(d.as_u128())
    }

    /// Creates a two-token pool; each multiplier is `10^(18 - decimals)`.
    pub fn new_2pool(reserves: [u128; 2], decimals: [u8; 2], a: u128, fee_bps: u16) -> (p: Self)
        requires
            decimals@[0] <= 18,
            decimals@[1] <= 18,
        ensures
            p.n_coins == 2,
            p.raw_reserves@ == seq![reserves@[0], reserves@[1], 0u128],
            p.multipliers@ == seq![
                pow10((18 - decimals@[0]) as nat) as u128,
                pow10((18 - decimals@[1]) as nat) as u128,
                1u128,
            ],
            p.a == a,
            p.fee_bps == fee_bps,
    {
        let mut raw = [0u128; MAX_COINS];
        let mut mults = [1u128; MAX_COINS];
        raw[0] = reserves[0];
        raw[1] = reserves[1];
        mults[0] = pow10_u128((18 - decimals[0]) as u32);
        mults[1] = pow10_u128((18 - decimals[1]) as u32);
        assert(raw@ =~= seq![reserves@[0], reserves@[1], 0u128]);
        assert(mults@ =~= seq![
            pow10((18 - decimals@[0]) as nat) as u128,
            pow10((18 - decimals@[1]) as nat) as u128,
            1u128,
        ]);
        CurvePool { n_coins: 2, raw_reserves: raw, multipliers: mults, a, fee_bps }
    }

    /// Creates a three-token pool; each multiplier is `10^(18 - decimals)`.
    pub fn new_3pool(reserves: [u128; 3], decimals: [u8; 3], a: u128, fee_bps: u16) -> (p: Self)
        requires
            forall|k: int| 0 <= k < 3 ==> decimals@[k] <= 18,
        ensures
            p.n_coins == 3,
            p.raw_reserves@ == reserves@,
            forall|k: int| 0 <= k < 3 ==> p.multipliers@[k] == pow10((18 - decimals@[k]) as nat),
            p.a == a,
            p.fee_bps == fee_bps,
    {
        let mut mults = [1u128; MAX_COINS];
        let mut k: usize = 0;
        while k < 3
            invariant
                k <= 3,
                forall|m: int| 0 <= m < 3 ==> decimals@[m] <= 18,
                forall|m: int| 0 <= m < k ==> mults@[m] == pow10((18 - decimals@[m]) as nat),
            decreases 3 - k,
        {
            mults[k] = pow10_u128((18 - decimals[k]) as u32);
            k += 1;
        }
        CurvePool { n_coins: 3, raw_reserves: reserves, multipliers: mults, a, fee_bps }
    }

    /// The 18-decimal normalized balances `raw_k * multiplier_k`.
    pub fn normalized_reserves(&self) -> (xp: [u128; MAX_COINS])
        requires
            self.normalization_fits(),
        ensures
            xp@ == self.normalized(),
    {
        let mut xp = [0u128; MAX_COINS];
        let mut k: usize = 0;
        while k < self.n_coins
            invariant
                k <= self.n_coins <= MAX_COINS,
                self.normalization_fits(),
                forall|m: int| 0 <= m < k ==> xp@[m] == self.normalized()[m],
                forall|m: int| k <= m < MAX_COINS ==> xp@[m] == 0,
            decreases self.n_coins - k,
        {
            xp[k] = self.raw_reserves[k] * self.multipliers[k];
            k += 1;
        }
        assert(xp@ =~= self.normalized());
        xp
    }

    /// Net output received when swapping `dx` raw units of coin `i` for coin
    /// `j`, fee deducted and denormalized to coin `j`'s decimals.
    pub fn calculate_swap_output(&self, i: usize, j: usize, dx: u128) -> (r: Option<u128>)
        requires
            self.swap_computable(i as nat, j as nat, dx as nat),
        ensures
            r == self.swap_output(i as nat, j as nat, dx as nat),
    {
        let xp = self.normalized_reserves();
        let dx_norm = dx * self.multipliers[i];
        let new_x = xp[i] + dx_norm;
        let new_y = match self.get_y(i, j, new_x, &xp) {
            None => {
                return None;
            },
            Some(y) => y,
        };
        if xp[j] > new_y {
            let dy_norm = xp[j] - new_y;
            let fee_norm = (dy_norm * self.fee_bps as u128) / 10_000;
            let dy_net_norm = dy_norm.saturating_sub(fee_norm);
            Some(dy_net_norm / self.multipliers[j])
        } else {
            None
        }
    }

    /// Marginal rate of coin `i` in coin `j` scaled 10^8, from the output of one
    /// native unit; 10^8 when the swap fails.
    pub fn spot_price_scaled(&self, i: usize, j: usize) -> (r: i64)
        requires
            self.spot_computable(i as nat, j as nat),
        ensures
            r == self.spot_price(i as nat, j as nat),
    {
        let e18 = pow10_u128(18);
        proof {
            crate::order_book::lemma_pow10_pos(18);
        }
        let unit_dx = e18 / self.multipliers[i];
        match self.calculate_swap_output(i, j, unit_dx) {
            Some(dy) => {
                let dy_norm = dy * self.multipliers[j];
                let price_1e8 = (dy_norm * 100_000_000) / e18;
                price_1e8 as i64
            },
            None => 100_000_000,
        }
    }

    /// Discretizes the Stableswap curve into virtual ladder levels: for each
    /// band, an ask at `spot * (1 + bps)` and a bid at `spot * (1 - bps)` sized by
    /// the output of swapping that share of coin `i`'s reserve.
    pub fn populate_virtual_order_book(
        &self,
        book: &mut ContiguousOrderBook,
        i: usize,
        j: usize,
        bands_bps: &[u16],
        ts_ns: u64,
    )
        requires
            old(book).wf(),
            self.spot_computable(i as nat, j as nat),
            self.spot_price(i as nat, j as nat) > 0 ==> forall|k: int|
                0 <= k < bands_bps@.len() ==> self.band_computable(
                    i as nat,
                    j as nat,
                    self.spot_price(i as nat, j as nat),
                    #[trigger] bands_bps@[k],
                    old(book).base_price,
                ),
        ensures
            final(book).wf(),
            final(book)@ == (if self.spot_price(i as nat, j as nat) > 0 {
                self.bands_applied(old(book)@, i as nat, j as nat, self.spot_price(i as nat, j as nat), bands_bps@, ts_ns)
            } else {
                old(book)@
            }),
    {
        let spot = self.spot_price_scaled(i, j);
        if spot <= 0 {
            return;
        }
        let e18 = pow10_u128(18);
        proof {
            crate::order_book::lemma_pow10_pos(18);
        }
        let base_raw = self.raw_reserves[i];
        let ghost start = book@;
        let mut k: usize = 0;
        while k < bands_bps.len()
            invariant
                k <= bands_bps@.len(),
                book.wf(),
                spot == self.spot_price(i as nat, j as nat),
                spot > 0,
                e18 as nat == pow10(18),
                e18 > 0,
                i < MAX_COINS,
                base_raw == self.raw_reserves@[i as int],
                book.base_price == start.base_price,
                book@ == self.bands_applied(start, i as nat, j as nat, spot, bands_bps@.take(k as int), ts_ns),
                forall|m: int|
                    0 <= m < bands_bps@.len() ==> self.band_computable(
                        i as nat,
                        j as nat,
                        spot,
                        #[trigger] bands_bps@[m],
                        start.base_price,
                    ),
            decreases bands_bps@.len() - k,
        {
            let bps = bands_bps[k];
            proof {
                assert(bands_bps@.take(k + 1).drop_last() =~= bands_bps@.take(k as int));
                assert(bands_bps@.take(k + 1).last() == bps);
                assert(self.band_computable(i as nat, j as nat, spot, bps, start.base_price));
            }
            let off = spot * bps as i64 / 10_000;
            let target_ask = spot + off;
            let target_bid = spot - off;
            let dx_chunk = (base_raw * bps as u128) / 10_000;
            match self.calculate_swap_output(i, j, dx_chunk) {
                Some(dy) => {
                    let qty_scaled = ((dy * self.multipliers[j] * 100_000_000) / e18) as u64;
                    let diff_ask = (target_ask - book.base_price) / TICK_SIZE;
                    if diff_ask >= 0 && diff_ask < PRICE_LEVELS_COUNT as i64 {
                        let idx = diff_ask as usize;
                        let mut lvl = book.asks[idx];
                        lvl.price = target_ask;
                        lvl.quantity = qty_scaled;
                        lvl.last_update_ts = ts_ns;
                        book.asks[idx] = lvl;
                    }
                    if target_bid > 0 {
                        book.update_bid(target_bid, qty_scaled, 1, ts_ns);
                    }
                },
                None => {},
            }
            k += 1;
        }
        proof {
            assert(bands_bps@.take(bands_bps@.len() as int) =~= bands_bps@);
        }
    }

    /// Solves for the output balance `y` of coin `j` when coin `i`'s normalized
    /// balance becomes `x`; `None` for equal or out-of-range coins, or when the
    /// solver meets a zero denominator.
    pub fn get_y(&self, i: usize, j: usize, x: u128, xp: &[u128]) -> (r: Option<u128>)
        requires
            (i != j && i < self.n_coins && j < self.n_coins) ==> xp@.len() >= self.n_coins,
            get_y_fits(self.n_coins as nat, self.a as nat, i as nat, j as nat, x as nat, xp@),
        ensures
            r == spec_get_y(self.n_coins as nat, self.a as nat, i as nat, j as nat, x as nat, xp@),
    {
        let n_coins = self.n_coins;
        if i == j || i >= n_coins || j >= n_coins {
            return None;
        }
        let d_val = match self.get_d(xp) {
            None => {
                return None;
            },
            Some(v) => v,
        };
        let d = U256::from_u128(d_val);
        let n = n_coins as u128;
        let pow_n: u128 = if n_coins == 2 { 4 } else { 27 };
        let ann = self.a * pow_n;
        let ann_u = U256::from_u128(ann);
        let n_u = U256::from_u128(n);

        let (c, s) = match y_c_loop_exec(d, x, i, j, xp, n_coins, n_u) {
            None => {
                return None;
            },
            Some(pair) => pair,
        };
        let ghost xs = xp@;
        let ann_n = ann_u.mul(n_u);
        if ann_n.is_zero() {
            return None;
        }
        proof {
            if ann == 0 {
                assert(0 * (n as nat) == 0);
                vstd::arithmetic::div_mod::lemma_small_mod(0, modulus());
                assert(mulm(0, n as nat) == 0);
            }
        }
        let c = c.mul(d).div(ann_n);
        let b = U256::from_u128(s).add(d.div(ann_u));
        proof {
            assert(c.value() < modulus()) by { c.lemma_value_bound(); }
        }
        y_iterate(&c, &b, &d)
    }
}

} // verus!
