//! Constant-product and concentrated-liquidity pools rendered as discrete
//! ladder depth.
use vstd::prelude::*;
use crate::order_book::{
    pow10, pow10_u128, trunc_div, set_ask_level, BookView, ContiguousOrderBook, apply_bid, apply_ask, ladder_index,
    rung_computable, lemma_pow10_pos, lemma_pow10_add, PRICE_LEVELS_COUNT, TICK_SIZE,
};

verus! {

/// `r` is the integer square root of `n`.
pub open spec fn is_isqrt(n: nat, r: nat) -> bool {
    r * r <= n < (r + 1) * (r + 1)
}

/// The integer square root of `n`: the largest `r` with `r * r <= n`.
pub open spec fn isqrt(n: nat) -> nat {
    choose|r: nat| is_isqrt(n, r)
}

/// The integer square root is unique.
pub proof fn lemma_isqrt_unique(n: nat, r1: nat, r2: nat)
    requires
        is_isqrt(n, r1),
        is_isqrt(n, r2),
    ensures
        r1 == r2,
{
    if r1 < r2 {
        assert((r1 + 1) * (r1 + 1) <= r2 * r2) by (nonlinear_arith)
            requires
                r1 + 1 <= r2,
        ;
    } else if r2 < r1 {
        assert((r2 + 1) * (r2 + 1) <= r1 * r1) by (nonlinear_arith)
            requires
                r2 + 1 <= r1,
        ;
    }
}

/// One Newton step from an over-estimate stays an over-estimate:
/// `(x1 + 1)^2 > n` for `x1 = (x0 + n / x0) / 2`.
proof fn lemma_newton_step_above(n: nat, x0: nat)
    requires
        x0 > 0,
    ensures
        n < ((x0 + n / x0) / 2 + 1) * ((x0 + n / x0) / 2 + 1),
{
    let q = n / x0;
    let x1 = (x0 + q) / 2;
    vstd::arithmetic::div_mod::lemma_fundamental_div_mod(n as int, x0 as int);
    vstd::arithmetic::div_mod::lemma_mod_pos_bound(n as int, x0 as int);
    let m = n % x0;
    assert(n == x0 * q + m);
    assert(m < x0);
    assert(n < x0 * (q + 1)) by (nonlinear_arith)
        requires
            n == x0 * q + m,
            m < x0,
    ;
    assert(2 * (x1 + 1) >= x0 + q + 1);
    assert(4 * x0 * (q + 1) <= (x0 + q + 1) * (x0 + q + 1)) by (nonlinear_arith);
    assert((x0 + q + 1) * (x0 + q + 1) <= (2 * (x1 + 1)) * (2 * (x1 + 1))) by (nonlinear_arith)
        requires
            2 * (x1 + 1) >= x0 + q + 1,
    ;
    assert(4 * n < 4 * ((x1 + 1) * (x1 + 1))) by (nonlinear_arith)
        requires
            n < x0 * (q + 1),
            4 * x0 * (q + 1) <= (2 * (x1 + 1)) * (2 * (x1 + 1)),
    ;
}

/// The witness of an integer square root is the chosen one.
pub proof fn lemma_isqrt_of(n: nat, r: nat)
    requires
        is_isqrt(n, r),
    ensures
        isqrt(n) == r,
{
    assert(exists|r2: nat| is_isqrt(n, r2));
    lemma_isqrt_unique(n, r, isqrt(n));
}

/// `(a + b) / 2` computed without overflow.
fn half_sum(a: u128, b: u128) -> (r: u128)
    ensures
        r as nat == (a + b) / 2,
{
    (a / 2 + b / 2) + (a % 2 + b % 2) / 2
}

/// Integer square root by Newton-Raphson from `n / 2`.
pub fn integer_sqrt(n: u128) -> (r: u128)
    ensures
        is_isqrt(n as nat, r as nat),
        r as nat == isqrt(n as nat),
{
    if n == 0 {
        proof {
            assert(is_isqrt(0, 0));
            lemma_isqrt_of(0, 0);
        }
        return 0;
    }
    let mut x0 = n / 2;
    if x0 == 0 {
        proof {
            assert(n == 1);
            assert(is_isqrt(1, 1)) by (nonlinear_arith);
            lemma_isqrt_of(1, 1);
        }
        return 1;
    }
    proof {
        // n / 2 over-estimates the root: (n/2 + 1)^2 > n.
        assert(n < (x0 + 1) * (x0 + 1)) by (nonlinear_arith)
            requires
                x0 == n / 2,
                x0 >= 1,
        ;
        lemma_newton_step_above(n as nat, x0 as nat);
    }
    let mut x1 = half_sum(x0, n / x0);
    while x1 < x0
        invariant
            x0 > 0,
            n >= 1,
            n < (x0 + 1) * (x0 + 1),
            n < (x1 + 1) * (x1 + 1),
            x1 as nat == (x0 + n / x0) / 2,
        decreases x0,
    {
        x0 = x1;
        proof {
            // x0 is still at least 1: if it were 0, (0 + 1)^2 > n would fail for n >= 1.
            assert(x0 > 0) by (nonlinear_arith)
                requires
                    n < (x0 + 1) * (x0 + 1),
                    n >= 1,
            ;
            lemma_newton_step_above(n as nat, x0 as nat);
        }
        x1 = half_sum(x0, n / x0);
    }
    proof {
        // The loop stopped: x0 <= (x0 + n / x0) / 2, so n / x0 >= x0 and x0^2 <= n.
        vstd::arithmetic::div_mod::lemma_fundamental_div_mod(n as int, x0 as int);
        assert(x0 * x0 <= n) by (nonlinear_arith)
            requires
                x0 <= (x0 + n / x0) / 2,
                n == x0 * (n / x0) + n % x0,
                n % x0 >= 0,
                x0 > 0,
        ;
        lemma_isqrt_of(n as nat, x0 as nat);
    }
    x0
}

/// Uniswap v2 constant-product (`x * y = k`) pool.
#[derive(Clone, Debug)]
pub struct UniswapV2Pool {
    /// Reserve of the base token (e.g. WETH in wei).
    pub reserve_base: u128,
    /// Reserve of the quote token.
    pub reserve_quote: u128,
    /// Fee numerator, e.g. 9970 for a 0.3% fee.
    pub fee_numerator: u128,
    /// Fee denominator, 10_000.
    pub fee_denominator: u128,
    pub base_decimals: u8,
    pub quote_decimals: u8,
}

impl UniswapV2Pool {
    /// Spot price scaled 10^8, decimals included:
    /// `(y * 10^base_decimals * 10^8) / (x * 10^quote_decimals)`, truncated to
    /// `i64`; zero for an empty base reserve.
    pub open spec fn spot_price(&self) -> i64 {
        if self.reserve_base == 0 {
            0
        } else {
            ((self.reserve_quote * pow10(self.base_decimals as nat) * 100_000_000) / (self.reserve_base * pow10(
                self.quote_decimals as nat,
            ))) as i64
        }
    }

    /// The spot price is computable in `u128`: the common power of ten of the
    /// two decimal counts cancels, the rest scales one side.
    pub open spec fn spot_fits(&self) -> bool {
        self.reserve_base != 0 ==> if self.base_decimals >= self.quote_decimals {
            &&& self.base_decimals - self.quote_decimals <= 38
            &&& self.reserve_quote * pow10((self.base_decimals - self.quote_decimals) as nat) * 100_000_000 <= u128::MAX
        } else {
            &&& self.quote_decimals - self.base_decimals <= 38
            &&& self.reserve_quote * 100_000_000 <= u128::MAX
            &&& self.reserve_base * pow10((self.quote_decimals - self.base_decimals) as nat) <= u128::MAX
        }
    }

    /// `sqrt(spot / target)` in 10^9 fixed point.
    pub open spec fn price_ratio(spot: i64, target: int) -> nat {
        isqrt(((spot * 1_000_000_000_000_000_000) / target) as nat)
    }

    /// Base reserve at which the pool's marginal price is `target`:
    /// `x * sqrt(spot / target)`.
    pub open spec fn base_at_price(&self, spot: i64, target: int) -> nat {
        ((self.reserve_base * Self::price_ratio(spot, target)) / 1_000_000_000) as nat
    }

    /// A base-token amount as a 10^8-scaled quantity.
    pub open spec fn scaled_qty(&self, delta: nat) -> u64 {
        ((delta * 100_000_000) / pow10(self.base_decimals as nat)) as u64
    }

    /// One band: an ask at `spot * (1 + bps)` sized by the base bought up to
    /// that price, and a bid at `spot * (1 - bps)` sized by the base sold down
    /// to that price, both through the ladder updates.
    pub open spec fn band_step(&self, v: BookView, spot: i64, bps: u16, ts: u64) -> BookView {
        let off = spot * (bps as int) / 10_000;
        let ta = spot + off;
        let tb = spot - off;
        let v1 = if ta > 0 {
            let qty = self.scaled_qty(sat_sub_u128(self.reserve_base, self.base_at_price(spot, ta) as u128) as nat);
            apply_ask(v, ta as i64, qty, 1, ts)
        } else {
            v
        };
        if tb > 0 && self.base_at_price(spot, tb) > self.reserve_base {
            let qty = self.scaled_qty((self.base_at_price(spot, tb) - self.reserve_base) as nat);
            apply_bid(v1, tb as i64, qty, 1, ts)
        } else {
            v1
        }
    }

    /// The bands applied in order.
    pub open spec fn bands_applied(&self, v: BookView, spot: i64, bands: Seq<u16>, ts: u64) -> BookView
        decreases bands.len(),
    {
        if bands.len() == 0 {
            v
        } else {
            self.band_step(self.bands_applied(v, spot, bands.drop_last(), ts), spot, bands.last(), ts)
        }
    }

    /// A band runs without overflow on a book anchored at `base`.
    pub open spec fn band_computable(&self, spot: i64, bps: u16, base: i64) -> bool {
        let off = spot * (bps as int) / 10_000;
        let ta = spot + off;
        let tb = spot - off;
        &&& spot * (bps as int) <= i64::MAX
        &&& ta <= i64::MAX
        &&& self.base_decimals <= 38
        &&& ta > 0 ==> {
            &&& self.reserve_base * Self::price_ratio(spot, ta) <= u128::MAX
            &&& self.reserve_base * 100_000_000 <= u128::MAX
            &&& rung_computable(ta as i64, base)
        }
        &&& tb > 0 ==> {
            &&& self.reserve_base * Self::price_ratio(spot, tb) <= u128::MAX
            &&& (self.base_at_price(spot, tb) > self.reserve_base ==> {
                &&& (self.base_at_price(spot, tb) - self.reserve_base) * 100_000_000 <= u128::MAX
                &&& rung_computable(tb as i64, base)
            })
        }
    }

    /// A pool with the given reserves and a fee of `fee_bps` basis points
    /// (fee numerator `10_000 - fee_bps` over 10_000), base 18 and quote 6 decimals.
    pub fn new(reserve_base: u128, reserve_quote: u128, fee_bps: u16) -> (p: Self)
        requires
            fee_bps <= 10_000,
        ensures
            p.reserve_base == reserve_base,
            p.reserve_quote == reserve_quote,
            p.fee_numerator == 10_000 - fee_bps,
            p.fee_denominator == 10_000,
            p.base_decimals == 18,
            p.quote_decimals == 6,
    {
        UniswapV2Pool {
            reserve_base,
            reserve_quote,
            fee_numerator: 10_000 - fee_bps as u128,
            fee_denominator: 10_000,
            base_decimals: 18,
            quote_decimals: 6,
        }
    }

    /// Spot price scaled 10^8, decimals included; zero for an empty base reserve.
    pub fn spot_price_scaled(&self) -> (r: i64)
        requires
            self.spot_fits(),
        ensures
            r == self.spot_price(),
    {
        if self.reserve_base == 0 {
            return 0;
        }
        let b = self.base_decimals;
        let q = self.quote_decimals;
        let (num, den) = if b >= q {
            let scale = pow10_u128((b - q) as u32);
            (self.reserve_quote * scale * 100_000_000, self.reserve_base)
        } else {
            let scale = pow10_u128((q - b) as u32);
            (self.reserve_quote * 100_000_000, self.reserve_base * scale)
        };
        proof {
            let pb = pow10(b as nat);
            let pq = pow10(q as nat);
            let y = self.reserve_quote as int;
            let x = self.reserve_base as int;
            lemma_pow10_pos(b as nat);
            lemma_pow10_pos(q as nat);
            if b >= q {
                let c = pow10((b - q) as nat);
                lemma_pow10_add((b - q) as nat, q as nat);
                assert(pb == c * pq);
                assert(y * pb * 100_000_000 == pq * (y * c * 100_000_000)) by (nonlinear_arith)
                    requires
                        pb == c * pq,
                ;
                assert(x * pq == pq * x) by (nonlinear_arith);
                vstd::arithmetic::div_mod::lemma_div_multiples_vanish_quotient(pq as int, y * c * 100_000_000, x);
            } else {
                let c = pow10((q - b) as nat);
                lemma_pow10_add((q - b) as nat, b as nat);
                assert(pq == c * pb);
                assert(y * pb * 100_000_000 == pb * (y * 100_000_000)) by (nonlinear_arith);
                assert(x * pq == pb * (x * c)) by (nonlinear_arith)
                    requires
                        pq == c * pb,
                ;
                assert(x * c > 0) by (nonlinear_arith)
                    requires
                        x > 0,
                        c >= 1,
                ;
                vstd::arithmetic::div_mod::lemma_div_multiples_vanish_quotient(pb as int, y * 100_000_000, x * c);
            }
        }
        let price = num / den;
        price as i64
    }

    /// Discretizes constant-product depth into virtual bid and ask levels around
    /// the spot price, one of each per band.
    pub fn populate_virtual_order_book(&self, book: &mut ContiguousOrderBook, bands_bps: &[u16], ts_ns: u64)
        requires
            old(book).wf(),
            self.spot_fits(),
            self.spot_price() > 0 ==> forall|k: int|
                0 <= k < bands_bps@.len() ==> self.band_computable(
                    self.spot_price(),
                    #[trigger] bands_bps@[k],
                    old(book).base_price,
                ),
        ensures
            final(book).wf(),
            final(book)@ == (if self.spot_price() > 0 {
                self.bands_applied(old(book)@, self.spot_price(), bands_bps@, ts_ns)
            } else {
                old(book)@
            }),
    {
        let spot = self.spot_price_scaled();
        if spot <= 0 {
            return;
        }
        let ghost start = book@;
        let mut k: usize = 0;
        while k < bands_bps.len()
            invariant
                k <= bands_bps@.len(),
                book.wf(),
                spot == self.spot_price(),
                spot > 0,
                book.base_price == start.base_price,
                book@ == self.bands_applied(start, spot, bands_bps@.take(k as int), ts_ns),
                forall|m: int|
                    0 <= m < bands_bps@.len() ==> self.band_computable(
                        spot,
                        #[trigger] bands_bps@[m],
                        start.base_price,
                    ),
            decreases bands_bps@.len() - k,
        {
            let bps = bands_bps[k];
            proof {
                assert(bands_bps@.take(k + 1).drop_last() =~= bands_bps@.take(k as int));
                assert(bands_bps@.take(k + 1).last() == bps);
                assert(self.band_computable(spot, bps, start.base_price));
            }
            let off = spot * bps as i64 / 10_000;
            let target_price = spot + off;
            if target_price > 0 {
                let ratio_sq = (spot as u128 * 1_000_000_000_000_000_000) / target_price as u128;
                let ratio = integer_sqrt(ratio_sq);
                let target_base = (self.reserve_base * ratio) / 1_000_000_000;
                let delta_base = self.reserve_base.saturating_sub(target_base);
                proof {
                    assert(delta_base <= self.reserve_base);
                }
                let qty_scaled = ((delta_base * 100_000_000) / pow10_u128(self.base_decimals as u32)) as u64;
                book.update_ask(target_price, qty_scaled, 1, ts_ns);
            }
            let target_bid_price = spot - off;
            if target_bid_price > 0 {
                let ratio_sq = (spot as u128 * 1_000_000_000_000_000_000) / target_bid_price as u128;
                let ratio = integer_sqrt(ratio_sq);
                let target_base = (self.reserve_base * ratio) / 1_000_000_000;
                if target_base > self.reserve_base {
                    let delta_base = target_base - self.reserve_base;
                    let qty_scaled = ((delta_base * 100_000_000) / pow10_u128(self.base_decimals as u32)) as u64;
                    book.update_bid(target_bid_price, qty_scaled, 1, ts_ns);
                }
            }
            k += 1;
        }
        proof {
            assert(bands_bps@.take(bands_bps@.len() as int) =~= bands_bps@);
        }
    }
}

/// `a + b`, capped at `u128::MAX`.
pub open spec fn sat_add_u128(a: u128, b: u128) -> u128 {
    if a + b > u128::MAX {
        u128::MAX
    } else {
        (a + b) as u128
    }
}

/// `a - b`, floored at zero.
pub open spec fn sat_sub_u128(a: u128, b: u128) -> u128 {
    if a >= b {
        (a - b) as u128
    } else {
        0
    }
}

/// Active concentrated-liquidity tick (Uniswap v3, Raydium CLMM).
#[derive(Clone, Copy, Debug, PartialEq, Eq, Structural)]
pub struct ConcentratedTick {
    pub tick_index: i32,
    pub liquidity_gross: u128,
    pub liquidity_net: i128,
}

/// Concentrated-liquidity pool (Uniswap v3 / v4, Raydium CLMM).
#[derive(Clone, Debug)]
pub struct ConcentratedLiquidityPool {
    pub current_tick: i32,
    pub sqrt_price_x96: u128,
    pub current_liquidity: u128,
    pub tick_spacing: i32,
}

/// Price `(sqrt_price / 2^96)^2` scaled 10^8 and rounded to nearest, computed as
/// `(((sqrt_price / 2^48)^2 / 2^32) * 10^8 + 2^63) / 2^64`; zero for a zero price.
pub open spec fn sqrt_x96_to_price(sqrt_price_x96: u128) -> i64 {
    if sqrt_price_x96 == 0 {
        0
    } else {
        let sp = sqrt_price_x96 as nat / 0x1_0000_0000_0000;
        (((sp * sp / 0x1_0000_0000) * 100_000_000 + 0x8000_0000_0000_0000) / 0x1_0000_0000_0000_0000) as i64
    }
}

/// Converts a Q64.96 square-root price to a 10^8-scaled price with a 48-bit
/// pre-shift, so the square fits 128 bits.
pub(crate) fn sqrt_x96_price(x: u128) -> (r: i64)
    requires
        x < 0x1_0000_0000_0000_0000_0000_0000_0000,
    ensures
        r == sqrt_x96_to_price(x),
{
    if x == 0 {
        return 0;
    }
    let sp = x >> 48u32;
    assert(sp == x / 0x1_0000_0000_0000) by (bit_vector)
        requires
            sp == x >> 48u32,
    ;
    assert(sp < 0x1_0000_0000_0000_0000) by (bit_vector)
        requires
            sp == x / 0x1_0000_0000_0000,
            x < 0x1_0000_0000_0000_0000_0000_0000_0000,
    ;
    assert(sp * sp < 0x1_0000_0000_0000_0000_0000_0000_0000_0000) by (nonlinear_arith)
        requires
            sp < 0x1_0000_0000_0000_0000,
    ;
    let p_num = sp * sp;
    let hi = p_num >> 32u32;
    assert(hi == p_num / 0x1_0000_0000) by (bit_vector)
        requires
            hi == p_num >> 32u32,
    ;
    assert(hi < 0x1_0000_0000_0000_0000_0000_0000) by (bit_vector)
        requires
            hi == p_num / 0x1_0000_0000,
    ;
    let scaled = hi * 100_000_000 + 0x8000_0000_0000_0000u128;
    let p_scaled = scaled >> 64u32;
    assert(p_scaled == scaled / 0x1_0000_0000_0000_0000) by (bit_vector)
        requires
            p_scaled == scaled >> 64u32,
    ;
    p_scaled as i64
}

impl ConcentratedLiquidityPool {
    /// Depth of `liq` liquidity on a ladder level.
    pub open spec fn depth_of(liq: u128) -> u64 {
        (liq / 1_000_000_000) as u64
    }

    /// An ask tick: a level at `spot + 100 * (tick - current)` quoting the running
    /// liquidity, written in place; the running liquidity then crosses the tick.
    pub open spec fn ask_step(&self, st: (BookView, u128), t: ConcentratedTick, spot: i64, ts: u64) -> (BookView, u128) {
        let (v, liq) = st;
        let price = spot + (t.tick_index - self.current_tick) * 100;
        let diff = trunc_div(price - v.base_price, TICK_SIZE as int);
        let v1 = if 0 <= diff < PRICE_LEVELS_COUNT {
            set_ask_level(v, diff, price as i64, Self::depth_of(liq), ts)
        } else {
            v
        };
        let liq1 = if t.liquidity_net >= 0 {
            sat_add_u128(liq, t.liquidity_net as u128)
        } else {
            sat_sub_u128(liq, (-t.liquidity_net) as u128)
        };
        (v1, liq1)
    }

    /// The ticks above the current tick, in order.
    pub open spec fn asks_applied(&self, st: (BookView, u128), ticks: Seq<ConcentratedTick>, spot: i64, ts: u64) -> (BookView, u128)
        decreases ticks.len(),
    {
        if ticks.len() == 0 {
            st
        } else {
            let prev = self.asks_applied(st, ticks.drop_last(), spot, ts);
            if ticks.last().tick_index > self.current_tick {
                self.ask_step(prev, ticks.last(), spot, ts)
            } else {
                prev
            }
        }
    }

    /// A bid tick: a bid at `spot - 100 * (current - tick)`, when positive, quoting
    /// the running liquidity through the ladder update; the running liquidity then
    /// crosses the tick downwards.
    pub open spec fn bid_step(&self, st: (BookView, u128), t: ConcentratedTick, spot: i64, ts: u64) -> (BookView, u128) {
        let (v, liq) = st;
        let price = spot - (self.current_tick - t.tick_index) * 100;
        let v1 = if price > 0 {
            apply_bid(v, price as i64, Self::depth_of(liq), 1, ts)
        } else {
            v
        };
        let liq1 = if t.liquidity_net >= 0 {
            sat_sub_u128(liq, t.liquidity_net as u128)
        } else {
            sat_add_u128(liq, (-t.liquidity_net) as u128)
        };
        (v1, liq1)
    }

    /// The ticks at or below the current tick, from the last one back to the first.
    pub open spec fn bids_applied(&self, st: (BookView, u128), ticks: Seq<ConcentratedTick>, spot: i64, ts: u64) -> (BookView, u128)
        decreases ticks.len(),
    {
        if ticks.len() == 0 {
            st
        } else {
            let t = ticks.last();
            let st1 = if t.tick_index <= self.current_tick {
                self.bid_step(st, t, spot, ts)
            } else {
                st
            };
            self.bids_applied(st1, ticks.drop_last(), spot, ts)
        }
    }

    /// A tick can be processed without overflow on a book anchored at `base`.
    pub open spec fn tick_computable(&self, t: ConcentratedTick, spot: i64, base: i64) -> bool {
        &&& t.liquidity_net != i128::MIN
        &&& t.tick_index > self.current_tick ==> {
            &&& t.tick_index - self.current_tick <= i32::MAX
            &&& spot + (t.tick_index - self.current_tick) * 100 <= i64::MAX
            &&& spot + (t.tick_index - self.current_tick) * 100 - base <= i64::MAX
        }
        &&& t.tick_index <= self.current_tick ==> {
            &&& self.current_tick - t.tick_index <= i32::MAX
            &&& spot - (self.current_tick - t.tick_index) * 100 > 0 ==> rung_computable(
                (spot - (self.current_tick - t.tick_index) * 100) as i64,
                base,
            )
        }
    }

    pub fn new(current_tick: i32, sqrt_price_x96: u128, current_liquidity: u128, tick_spacing: i32) -> (p: Self)
        ensures
            p.current_tick == current_tick,
            p.sqrt_price_x96 == sqrt_price_x96,
            p.current_liquidity == current_liquidity,
            p.tick_spacing == tick_spacing,
    {
        ConcentratedLiquidityPool { current_tick, sqrt_price_x96, current_liquidity, tick_spacing }
    }

    /// Converts `sqrt_price_x96` to a 10^8-scaled price, rounded to nearest.
    pub fn spot_price_scaled(&self) -> (r: i64)
        requires
            self.sqrt_price_x96 < 0x1_0000_0000_0000_0000_0000_0000_0000,
        ensures
            r == sqrt_x96_to_price(self.sqrt_price_x96),
    {
        sqrt_x96_price(self.sqrt_price_x96)
    }

    /// Synthesizes ladder depth from the current tick and the active ticks: asks
    /// for the ticks above it, in order, and bids for the ticks at or below it,
    /// from the nearest down, each quoting the liquidity active at that price.
    pub fn populate_order_book(&self, book: &mut ContiguousOrderBook, ticks: &[ConcentratedTick], ts_ns: u64)
        requires
            old(book).wf(),
            self.sqrt_price_x96 < 0x1_0000_0000_0000_0000_0000_0000_0000,
            sqrt_x96_to_price(self.sqrt_price_x96) > 0 ==> forall|k: int|
                0 <= k < ticks@.len() ==> self.tick_computable(
                    #[trigger] ticks@[k],
                    sqrt_x96_to_price(self.sqrt_price_x96),
                    old(book).base_price,
                ),
        ensures
            final(book).wf(),
            final(book)@ == ({
                let spot = sqrt_x96_to_price(self.sqrt_price_x96);
                if spot > 0 {
                    let after_asks = self.asks_applied((old(book)@, self.current_liquidity), ticks@, spot, ts_ns);
                    self.bids_applied((after_asks.0, self.current_liquidity), ticks@, spot, ts_ns).0
                } else {
                    old(book)@
                }
            }),
    {
        let spot = self.spot_price_scaled();
        if spot <= 0 {
            return;
        }
        let ghost start = book@;
        let mut active_liquidity = self.current_liquidity;
        let mut k: usize = 0;
        while k < ticks.len()
            invariant
                k <= ticks@.len(),
                book.wf(),
                spot == sqrt_x96_to_price(self.sqrt_price_x96),
                spot > 0,
                book.base_price == start.base_price,
                (book@, active_liquidity) == self.asks_applied(
                    (start, self.current_liquidity),
                    ticks@.take(k as int),
                    spot,
                    ts_ns,
                ),
                forall|m: int|
                    0 <= m < ticks@.len() ==> self.tick_computable(#[trigger] ticks@[m], spot, start.base_price),
            decreases ticks@.len() - k,
        {
            let tick = ticks[k];
            proof {
                assert(ticks@.take(k + 1).drop_last() =~= ticks@.take(k as int));
                assert(ticks@.take(k + 1).last() == tick);
                assert(self.tick_computable(tick, spot, start.base_price));
            }
            if tick.tick_index > self.current_tick {
                let price_step = spot + (tick.tick_index - self.current_tick) as i64 * 100;
                let available_qty = (active_liquidity / 1_000_000_000) as u64;
                let diff = (price_step - book.base_price) / TICK_SIZE;
                if diff >= 0 && diff < PRICE_LEVELS_COUNT as i64 {
                    let idx = diff as usize;
                    let mut lvl = book.asks[idx];
                    lvl.price = price_step;
                    lvl.quantity = available_qty;
                    lvl.last_update_ts = ts_ns;
                    book.asks[idx] = lvl;
                }
                if tick.liquidity_net >= 0 {
                    active_liquidity = active_liquidity.saturating_add(tick.liquidity_net as u128);
                } else {
                    active_liquidity = active_liquidity.saturating_sub((-tick.liquidity_net) as u128);
                }
            }
            k += 1;
        }
        proof {
            assert(ticks@.take(ticks@.len() as int) =~= ticks@);
        }
        let ghost mid = book@;
        let mut bid_liquidity = self.current_liquidity;
        let mut k: usize = ticks.len();
        while k > 0
            invariant
                k <= ticks@.len(),
                book.wf(),
                spot == sqrt_x96_to_price(self.sqrt_price_x96),
                spot > 0,
                book.base_price == start.base_price,
                self.bids_applied((mid, self.current_liquidity), ticks@, spot, ts_ns) == self.bids_applied(
                    (book@, bid_liquidity),
                    ticks@.take(k as int),
                    spot,
                    ts_ns,
                ),
                forall|m: int|
                    0 <= m < ticks@.len() ==> self.tick_computable(#[trigger] ticks@[m], spot, start.base_price),
            decreases k,
        {
            let tick = ticks[k - 1];
            proof {
                assert(ticks@.take(k as int).drop_last() =~= ticks@.take(k - 1));
                assert(ticks@.take(k as int).last() == tick);
                assert(self.tick_computable(tick, spot, start.base_price));
            }
            if tick.tick_index <= self.current_tick {
                let price_step = spot - (self.current_tick - tick.tick_index) as i64 * 100;
                if price_step > 0 {
                    let available_qty = (bid_liquidity / 1_000_000_000) as u64;
                    book.update_bid(price_step, available_qty, 1, ts_ns);
                }
                if tick.liquidity_net >= 0 {
                    bid_liquidity = bid_liquidity.saturating_sub(tick.liquidity_net as u128);
                } else {
                    bid_liquidity = bid_liquidity.saturating_add((-tick.liquidity_net) as u128);
                }
            }
            k -= 1;
        }
        proof {
            assert(ticks@.take(ticks@.len() as int) =~= ticks@);
        }
    }
}

/// Sum of the net liquidity of the ticks above `cur` (the ticks an upward walk
/// from `cur` crosses), in order.
pub open spec fn clmm_ask_net_sum(ticks: Seq<ConcentratedTick>, cur: i32) -> int
    decreases ticks.len(),
{
    if ticks.len() == 0 {
        0
    } else {
        clmm_ask_net_sum(ticks.drop_last(), cur) + if ticks.last().tick_index > cur {
            ticks.last().liquidity_net as int
        } else {
            0
        }
    }
}

/// Sum of the net liquidity of the ticks at or below `cur` (the ticks a
/// downward walk from `cur` crosses).
pub open spec fn clmm_bid_net_sum(ticks: Seq<ConcentratedTick>, cur: i32) -> int
    decreases ticks.len(),
{
    if ticks.len() == 0 {
        0
    } else {
        clmm_bid_net_sum(ticks.drop_last(), cur) + if ticks.last().tick_index <= cur {
            ticks.last().liquidity_net as int
        } else {
            0
        }
    }
}

impl ConcentratedLiquidityPool {
    /// The ask walk keeps the anchor price of the book.
    proof fn lemma_asks_keep_base(&self, st: (BookView, u128), ticks: Seq<ConcentratedTick>, spot: i64, ts: u64)
        requires
            st.0.asks.len() == PRICE_LEVELS_COUNT,
            st.0.bids.len() == PRICE_LEVELS_COUNT,
        ensures
            self.asks_applied(st, ticks, spot, ts).0.base_price == st.0.base_price,
            self.asks_applied(st, ticks, spot, ts).0.asks.len() == PRICE_LEVELS_COUNT,
            self.asks_applied(st, ticks, spot, ts).0.bids.len() == PRICE_LEVELS_COUNT,
        decreases ticks.len(),
    {
        if ticks.len() > 0 {
            self.lemma_asks_keep_base(st, ticks.drop_last(), spot, ts);
        }
    }

    /// The bid walk keeps the anchor price of the book.
    proof fn lemma_bids_keep_base(&self, st: (BookView, u128), ticks: Seq<ConcentratedTick>, spot: i64, ts: u64)
        requires
            st.0.asks.len() == PRICE_LEVELS_COUNT,
            st.0.bids.len() == PRICE_LEVELS_COUNT,
        ensures
            self.bids_applied(st, ticks, spot, ts).0.base_price == st.0.base_price,
            self.bids_applied(st, ticks, spot, ts).0.asks.len() == PRICE_LEVELS_COUNT,
            self.bids_applied(st, ticks, spot, ts).0.bids.len() == PRICE_LEVELS_COUNT,
        decreases ticks.len(),
    {
        if ticks.len() > 0 {
            let t = ticks.last();
            let st1 = if t.tick_index <= self.current_tick {
                self.bid_step(st, t, spot, ts)
            } else {
                st
            };
            self.lemma_bids_keep_base(st1, ticks.drop_last(), spot, ts);
        }
    }

    /// The bid walk takes the ticks from the last to the first: walking a list
    /// is walking all but its first tick, then the first.
    proof fn lemma_bids_first_last(&self, st: (BookView, u128), s: Seq<ConcentratedTick>, spot: i64, ts: u64)
        requires
            s.len() > 0,
        ensures
            self.bids_applied(st, s, spot, ts) == (if s[0].tick_index <= self.current_tick {
                self.bid_step(self.bids_applied(st, s.skip(1), spot, ts), s[0], spot, ts)
            } else {
                self.bids_applied(st, s.skip(1), spot, ts)
            }),
        decreases s.len(),
    {
        let t = s.last();
        let st1 = if t.tick_index <= self.current_tick {
            self.bid_step(st, t, spot, ts)
        } else {
            st
        };
        assert(self.bids_applied(st, s, spot, ts) == self.bids_applied(st1, s.drop_last(), spot, ts));
        if s.len() == 1 {
            assert(s.skip(1) =~= Seq::<ConcentratedTick>::empty());
            assert(s.drop_last() =~= Seq::<ConcentratedTick>::empty());
            assert(self.bids_applied(st1, Seq::<ConcentratedTick>::empty(), spot, ts) == st1);
            assert(self.bids_applied(st, Seq::<ConcentratedTick>::empty(), spot, ts) == st);
            assert(s.last() == s[0]);
        } else {
            self.lemma_bids_first_last(st1, s.drop_last(), spot, ts);
            assert(s.drop_last().skip(1) =~= s.skip(1).drop_last());
            assert(s.skip(1).last() == s.last());
            assert(s.drop_last()[0] == s[0]);
            assert(s.skip(1).len() > 0);
            assert(self.bids_applied(st, s.skip(1), spot, ts) == self.bids_applied(
                st1,
                s.skip(1).drop_last(),
                spot,
                ts,
            ));
        }
    }

    /// Walking the ask ticks upward from liquidity `liq`, the liquidity
    /// carried past them is `liq` plus the net liquidity of every tick crossed,
    /// as long as no running total leaves the `u128` range (where it would
    /// saturate).
    pub proof fn lemma_ask_walk_liquidity(&self, v: BookView, liq: u128, ticks: Seq<ConcentratedTick>, spot: i64, ts: u64)
        requires
            forall|k: int|
                0 <= k <= ticks.len() ==> 0 <= liq + clmm_ask_net_sum(#[trigger] ticks.take(k), self.current_tick)
                    <= u128::MAX,
        ensures
            self.asks_applied((v, liq), ticks, spot, ts).1 == liq + clmm_ask_net_sum(ticks, self.current_tick),
        decreases ticks.len(),
    {
        assert(ticks.take(ticks.len() as int) =~= ticks);
        if ticks.len() > 0 {
            let d = ticks.drop_last();
            assert forall|k: int| 0 <= k <= d.len() implies 0 <= liq + clmm_ask_net_sum(
                #[trigger] d.take(k),
                self.current_tick,
            ) <= u128::MAX by {
                assert(d.take(k) =~= ticks.take(k));
            }
            self.lemma_ask_walk_liquidity(v, liq, d, spot, ts);
        }
    }

    /// Each ask tick is quoted at its rung with the liquidity accumulated over
    /// the ask ticks before it: `liq` plus their net liquidity, in units of
    /// 10^9, as long as no running total saturates.
    pub proof fn lemma_ask_walk_quotes(
        &self,
        v: BookView,
        liq: u128,
        ticks: Seq<ConcentratedTick>,
        spot: i64,
        ts: u64,
        j: int,
    )
        requires
            0 <= j < ticks.len(),
            v.asks.len() == PRICE_LEVELS_COUNT,
            v.bids.len() == PRICE_LEVELS_COUNT,
            ticks[j].tick_index > self.current_tick,
            0 <= trunc_div(spot + (ticks[j].tick_index - self.current_tick) * 100 - v.base_price, TICK_SIZE as int)
                < PRICE_LEVELS_COUNT,
            forall|k: int|
                0 <= k <= j ==> 0 <= liq + clmm_ask_net_sum(#[trigger] ticks.take(k), self.current_tick)
                    <= u128::MAX,
        ensures
            ({
                let price = spot + (ticks[j].tick_index - self.current_tick) * 100;
                let rung = trunc_div(price - v.base_price, TICK_SIZE as int);
                let lvl = self.asks_applied((v, liq), ticks.take(j + 1), spot, ts).0.asks[rung];
                &&& lvl.quantity == ((liq + clmm_ask_net_sum(ticks.take(j), self.current_tick)) / 1_000_000_000) as u64
                &&& lvl.price == price as i64
            }),
    {
        let t = ticks.take(j + 1);
        assert(t.drop_last() =~= ticks.take(j));
        assert(t.last() == ticks[j]);
        let prev = self.asks_applied((v, liq), ticks.take(j), spot, ts);
        assert(self.asks_applied((v, liq), t, spot, ts) == self.ask_step(prev, ticks[j], spot, ts));
        assert forall|k: int| 0 <= k <= ticks.take(j).len() implies 0 <= liq + clmm_ask_net_sum(
            #[trigger] ticks.take(j).take(k),
            self.current_tick,
        ) <= u128::MAX by {
            assert(ticks.take(j).take(k) =~= ticks.take(k));
        }
        self.lemma_ask_walk_liquidity(v, liq, ticks.take(j), spot, ts);
        self.lemma_asks_keep_base((v, liq), ticks.take(j), spot, ts);
        let price = spot + (ticks[j].tick_index - self.current_tick) * 100;
        let rung = trunc_div(price - v.base_price, TICK_SIZE as int);
        assert(prev.1 == liq + clmm_ask_net_sum(ticks.take(j), self.current_tick));
        assert(prev.0.base_price == v.base_price);
        let after = self.ask_step(prev, ticks[j], spot, ts).0;
        assert(after == set_ask_level(prev.0, rung, price as i64, Self::depth_of(prev.1), ts));
        assert(after.asks[rung].quantity == Self::depth_of(prev.1));
    }

    /// Walking the bid ticks downward from liquidity `liq`, the liquidity
    /// carried past them is `liq` minus the net liquidity of every tick crossed
    /// (a tick's net liquidity is what crossing it upward adds), as long as no
    /// running total leaves the `u128` range.
    pub proof fn lemma_bid_walk_liquidity(&self, v: BookView, liq: u128, ticks: Seq<ConcentratedTick>, spot: i64, ts: u64)
        requires
            forall|k: int|
                0 <= k <= ticks.len() ==> 0 <= liq - clmm_bid_net_sum(#[trigger] ticks.skip(k), self.current_tick)
                    <= u128::MAX,
        ensures
            self.bids_applied((v, liq), ticks, spot, ts).1 == liq - clmm_bid_net_sum(ticks, self.current_tick),
        decreases ticks.len(),
    {
        assert(ticks.skip(0) =~= ticks);
        if ticks.len() > 0 {
            let n = ticks.len() as int;
            let t = ticks.last();
            let d = ticks.drop_last();
            let c: int = if t.tick_index <= self.current_tick { t.liquidity_net as int } else { 0 };
            assert(ticks.skip(n - 1).drop_last() =~= Seq::<ConcentratedTick>::empty());
            assert(ticks.skip(n - 1).last() == t);
            assert(clmm_bid_net_sum(Seq::<ConcentratedTick>::empty(), self.current_tick) == 0);
            assert(clmm_bid_net_sum(ticks.skip(n - 1), self.current_tick) == c);
            let st1 = if t.tick_index <= self.current_tick {
                self.bid_step((v, liq), t, spot, ts)
            } else {
                (v, liq)
            };
            assert(st1.1 == liq - c);
            assert forall|k: int| 0 <= k <= d.len() implies 0 <= st1.1 - clmm_bid_net_sum(
                #[trigger] d.skip(k),
                self.current_tick,
            ) <= u128::MAX by {
                assert(ticks.skip(k).drop_last() =~= d.skip(k));
                assert(ticks.skip(k).last() == t);
            }
            self.lemma_bid_walk_liquidity(st1.0, st1.1, d, spot, ts);
        }
    }

    /// Each bid tick is quoted at its rung with the liquidity left after the
    /// bid ticks after it in the list (the ones the downward walk crosses
    /// first): `liq` minus their net liquidity, in units of 10^9, as long as
    /// no running total saturates. `ticks.skip(j)` is the walk up to and
    /// including tick `j`.
    pub proof fn lemma_bid_walk_quotes(
        &self,
        v: BookView,
        liq: u128,
        ticks: Seq<ConcentratedTick>,
        spot: i64,
        ts: u64,
        j: int,
    )
        requires
            0 <= j < ticks.len(),
            v.asks.len() == PRICE_LEVELS_COUNT,
            v.bids.len() == PRICE_LEVELS_COUNT,
            ticks[j].tick_index <= self.current_tick,
            spot - (self.current_tick - ticks[j].tick_index) * 100 > 0,
            spot - (self.current_tick - ticks[j].tick_index) * 100 <= i64::MAX,
            ladder_index(spot - (self.current_tick - ticks[j].tick_index) * 100, v.base_price as int)
                < PRICE_LEVELS_COUNT,
            forall|k: int|
                j + 1 <= k <= ticks.len() ==> 0 <= liq - clmm_bid_net_sum(#[trigger] ticks.skip(k), self.current_tick)
                    <= u128::MAX,
        ensures
            ({
                let price = spot - (self.current_tick - ticks[j].tick_index) * 100;
                let lvl = self.bids_applied((v, liq), ticks.skip(j), spot, ts).0.bids[ladder_index(
                    price,
                    v.base_price as int,
                )];
                &&& lvl.quantity == ((liq - clmm_bid_net_sum(ticks.skip(j + 1), self.current_tick))
                    / 1_000_000_000) as u64
                &&& lvl.price == price as i64
            }),
    {
        let s = ticks.skip(j);
        assert(s[0] == ticks[j]);
        assert(s.skip(1) =~= ticks.skip(j + 1));
        self.lemma_bids_first_last((v, liq), s, spot, ts);
        let prev = self.bids_applied((v, liq), ticks.skip(j + 1), spot, ts);
        assert(self.bids_applied((v, liq), s, spot, ts) == self.bid_step(prev, ticks[j], spot, ts));
        let r = ticks.skip(j + 1);
        assert forall|k: int| 0 <= k <= r.len() implies 0 <= liq - clmm_bid_net_sum(
            #[trigger] r.skip(k),
            self.current_tick,
        ) <= u128::MAX by {
            assert(r.skip(k) =~= ticks.skip(j + 1 + k));
        }
        self.lemma_bid_walk_liquidity(v, liq, r, spot, ts);
        self.lemma_bids_keep_base((v, liq), r, spot, ts);
    }
}

} // verus!
