//! On-chain ingestion: speculative simulation of pending mempool swaps against
//! a constant-product pool, and decoding of Raydium CLMM account snapshots.
use vstd::prelude::*;
use crate::amm::UniswapV2Pool;
use crate::models::{ChainId, NormalizedBbo, TelemetryTimestamps, VenueId};
use crate::order_book::{trunc_div, pow10, lemma_pow10_pos};
use crate::wire::{get_le, le_value};

verus! {

/// A pending transaction seen in the mempool.
#[derive(Clone, Debug, PartialEq, Eq)]
pub struct PendingMempoolTx {
    pub tx_hash: [u8; 32],
    pub chain_id: u16,
    pub target_pool: [u8; 20],
    pub gas_priority_fee_gwei: u32,
    pub is_buy: bool,
    pub amount_in: u128,
    pub min_amount_out: u128,
    pub detected_ts_ns: u64,
}

/// Predicted move of a pool's price if a pending swap lands.
#[derive(Clone, Debug, PartialEq, Eq)]
pub struct SpeculativeShiftEvent {
    pub pool_address: [u8; 20],
    pub predicted_spot_price: i64,
    pub price_impact_bps: u16,
    pub tx_hash: [u8; 32],
    pub priority_fee_gwei: u32,
}

/// Fee-adjusted input of a swap.
pub open spec fn fee_input(pool: UniswapV2Pool, amount_in: u128) -> int {
    amount_in * pool.fee_numerator
}

/// Constant-product output for `amount_in` of a reserve `r_in` against the
/// reserve `r_out`, or `None` when the denominator vanishes.
pub open spec fn swap_output(pool: UniswapV2Pool, amount_in: u128, r_in: u128, r_out: u128) -> Option<int> {
    let den = r_in * pool.fee_denominator + fee_input(pool, amount_in);
    if den > 0 {
        Some((fee_input(pool, amount_in) * r_out) / den)
    } else {
        None
    }
}

/// The pool after a swap of `amount_in`: a buy pays quote for base, a sell pays
/// base for quote; the reserves move only when the output is below the output
/// reserve.
pub open spec fn pool_after_swap(pool: UniswapV2Pool, is_buy: bool, amount_in: u128) -> UniswapV2Pool {
    if is_buy {
        match swap_output(pool, amount_in, pool.reserve_quote, pool.reserve_base) {
            Some(out) => if pool.reserve_base > out {
                UniswapV2Pool {
                    reserve_base: (pool.reserve_base - out) as u128,
                    reserve_quote: (pool.reserve_quote + amount_in) as u128,
                    ..pool
                }
            } else {
                pool
            },
            None => pool,
        }
    } else {
        match swap_output(pool, amount_in, pool.reserve_base, pool.reserve_quote) {
            Some(out) => if pool.reserve_quote > out {
                UniswapV2Pool {
                    reserve_quote: (pool.reserve_quote - out) as u128,
                    reserve_base: (pool.reserve_base + amount_in) as u128,
                    ..pool
                }
            } else {
                pool
            },
            None => pool,
        }
    }
}

/// The swap arithmetic stays within `u128`.
pub open spec fn swap_fits(pool: UniswapV2Pool, is_buy: bool, amount_in: u128) -> bool {
    let (r_in, r_out) = if is_buy {
        (pool.reserve_quote, pool.reserve_base)
    } else {
        (pool.reserve_base, pool.reserve_quote)
    };
    &&& fee_input(pool, amount_in) <= u128::MAX
    &&& fee_input(pool, amount_in) * r_out <= u128::MAX
    &&& r_in * pool.fee_denominator + fee_input(pool, amount_in) <= u128::MAX
    &&& r_in + amount_in <= u128::MAX
}

/// The spot price of a pool is computable without overflow.
pub open spec fn spot_fits(pool: UniswapV2Pool) -> bool {
    pool.spot_fits()
}

/// Relative move from `before` to `after` in basis points of `before`,
/// truncated to 16 bits.
pub open spec fn impact_bps(before: i64, after: i64) -> u16 {
    if after > before {
        (((after - before) * 10000) / (before as int)) as u16
    } else if before > after {
        (((before - after) * 10000) / (before as int)) as u16
    } else {
        0
    }
}

/// The impact computation stays within `i64`.
pub open spec fn impact_fits(before: i64, after: i64) -> bool {
    &&& after > before ==> (after - before) * 10000 <= i64::MAX
    &&& before > after ==> (before - after) * 10000 <= i64::MAX
}

/// The predicted shift of `pool` if `tx` lands: `None` when the current spot
/// price is not positive.
pub open spec fn speculative_shift(tx: PendingMempoolTx, pool: UniswapV2Pool) -> Option<SpeculativeShiftEvent> {
    let before = pool.spot_price();
    if before <= 0 {
        None
    } else {
        let after = pool_after_swap(pool, tx.is_buy, tx.amount_in).spot_price();
        Some(
            SpeculativeShiftEvent {
                pool_address: tx.target_pool,
                predicted_spot_price: after,
                price_impact_bps: impact_bps(before, after),
                tx_hash: tx.tx_hash,
                priority_fee_gwei: tx.gas_priority_fee_gwei,
            },
        )
    }
}

/// The simulation of `tx` against `pool` does not overflow.
pub open spec fn simulation_fits(tx: PendingMempoolTx, pool: UniswapV2Pool) -> bool {
    &&& spot_fits(pool)
    &&& pool.spot_price() > 0 ==> {
        &&& swap_fits(pool, tx.is_buy, tx.amount_in)
        &&& spot_fits(pool_after_swap(pool, tx.is_buy, tx.amount_in))
        &&& impact_fits(pool.spot_price(), pool_after_swap(pool, tx.is_buy, tx.amount_in).spot_price())
    }
}

/// In-process speculative state sandbox.
pub struct SpeculativeStateSimulator;

impl SpeculativeStateSimulator {
    /// Simulates a pending swap against a copy of the pool's reserves and
    /// reports the predicted spot price and its move in basis points.
    pub fn simulate_pending_swap(tx: &PendingMempoolTx, pool: &UniswapV2Pool) -> (r: Option<SpeculativeShiftEvent>)
        requires
            simulation_fits(*tx, *pool),
        ensures
            r == speculative_shift(*tx, *pool),
            (r is Some) == (pool.spot_price() > 0),
            r matches Some(e) ==> {
                &&& e.predicted_spot_price == pool_after_swap(*pool, tx.is_buy, tx.amount_in).spot_price()
                &&& e.price_impact_bps == impact_bps(pool.spot_price(), e.predicted_spot_price)
            },
    {
        let spot_before = pool.spot_price_scaled();
        if spot_before <= 0 {
            return None;
        }
        let mut reserve_base = pool.reserve_base;
        let mut reserve_quote = pool.reserve_quote;
        let amount_in_with_fee = tx.amount_in * pool.fee_numerator;
        if tx.is_buy {
            let numerator = amount_in_with_fee * reserve_base;
            let denominator = (reserve_quote * pool.fee_denominator) + amount_in_with_fee;
            if denominator > 0 {
                let amount_out = numerator / denominator;
                if reserve_base > amount_out {
                    reserve_base -= amount_out;
                    reserve_quote += tx.amount_in;
                }
            }
        } else {
            let numerator = amount_in_with_fee * reserve_quote;
            let denominator = (reserve_base * pool.fee_denominator) + amount_in_with_fee;
            if denominator > 0 {
                let amount_out = numerator / denominator;
                if reserve_quote > amount_out {
                    reserve_quote -= amount_out;
                    reserve_base += tx.amount_in;
                }
            }
        }
        let simulated = UniswapV2Pool {
            reserve_base,
            reserve_quote,
            fee_numerator: pool.fee_numerator,
            fee_denominator: pool.fee_denominator,
            base_decimals: pool.base_decimals,
            quote_decimals: pool.quote_decimals,
        };
        proof {
            assert(simulated == pool_after_swap(*pool, tx.is_buy, tx.amount_in));
        }
        let spot_after = simulated.spot_price_scaled();
        let impact_bps: u16 = if spot_after > spot_before {
            (((spot_after - spot_before) * 10_000) / spot_before) as u16
        } else if spot_before > spot_after {
            (((spot_before - spot_after) * 10_000) / spot_before) as u16
        } else {
            0
        };
        Some(
            SpeculativeShiftEvent {
                pool_address: tx.target_pool,
                predicted_spot_price: spot_after,
                price_impact_bps: impact_bps,
                tx_hash: tx.tx_hash,
                priority_fee_gwei: tx.gas_priority_fee_gwei,
            },
        )
    }
}

/// The spot price of a pool with a base reserve before its truncation to `i64`.
pub open spec fn raw_spot(pool: UniswapV2Pool) -> int {
    (pool.reserve_quote * pow10(pool.base_decimals as nat) * 100_000_000) / (pool.reserve_base * pow10(
        pool.quote_decimals as nat,
    ))
}

/// More quote over less base never lowers the raw spot price.
proof fn lemma_raw_spot_mono(lo: UniswapV2Pool, hi: UniswapV2Pool)
    requires
        hi.reserve_base > 0,
        hi.reserve_base <= lo.reserve_base,
        lo.reserve_quote <= hi.reserve_quote,
        lo.base_decimals == hi.base_decimals,
        lo.quote_decimals == hi.quote_decimals,
    ensures
        0 <= raw_spot(lo) <= raw_spot(hi),
{
    let pb = pow10(lo.base_decimals as nat);
    let pq = pow10(lo.quote_decimals as nat);
    lemma_pow10_pos(lo.base_decimals as nat);
    lemma_pow10_pos(lo.quote_decimals as nat);
    let n0 = lo.reserve_quote * pb * 100_000_000;
    let n1 = hi.reserve_quote * pb * 100_000_000;
    let d0 = lo.reserve_base * pq;
    let d1 = hi.reserve_base * pq;
    assert(0 <= n0 <= n1) by (nonlinear_arith)
        requires
            lo.reserve_quote <= hi.reserve_quote,
            pb >= 1,
            n0 == lo.reserve_quote * pb * 100_000_000,
            n1 == hi.reserve_quote * pb * 100_000_000,
    ;
    assert(1 <= d1 <= d0) by (nonlinear_arith)
        requires
            0 < hi.reserve_base <= lo.reserve_base,
            pq >= 1,
            d0 == lo.reserve_base * pq,
            d1 == hi.reserve_base * pq,
    ;
    vstd::arithmetic::div_mod::lemma_div_is_ordered(n0, n1, d0);
    vstd::arithmetic::div_mod::lemma_div_is_ordered_by_denominator(n1, d1, d0);
    vstd::arithmetic::div_mod::lemma_div_pos_is_pos(n0, d0);
}

/// `(b - out) * (r + a) >= b * r` when `out` is at most the fee-reduced
/// constant-product output `a * f * b / (r * d + a * f)` with `f <= d`.
proof fn lemma_product_kept(a: int, f: int, d: int, r: int, b: int, out: int)
    requires
        0 <= a,
        0 <= f <= d,
        0 <= r,
        0 <= b,
        0 <= out,
        r * d + a * f > 0,
        out == (a * f * b) / (r * d + a * f),
    ensures
        (b - out) * (r + a) >= b * r,
{
    let den = r * d + a * f;
    vstd::arithmetic::div_mod::lemma_fundamental_div_mod(a * f * b, den);
    vstd::arithmetic::div_mod::lemma_mod_bound(a * f * b, den);
    assert(out * den <= a * f * b) by (nonlinear_arith)
        requires
            a * f * b == den * ((a * f * b) / den) + (a * f * b) % den,
            (a * f * b) % den >= 0,
            out == (a * f * b) / den,
    ;
    assert(den >= f * (r + a)) by (nonlinear_arith)
        requires
            0 <= f <= d,
            0 <= r,
            0 <= a,
            den == r * d + a * f,
    ;
    if f == 0 {
        assert(a * f * b == 0) by (nonlinear_arith)
            requires
                f == 0,
        ;
        assert(out == 0);
        assert((b - out) * (r + a) >= b * r) by (nonlinear_arith)
            requires
                out == 0,
                0 <= a,
                0 <= b,
        ;
    } else {
        assert(out * (r + a) <= a * b) by (nonlinear_arith)
            requires
                out * den <= a * f * b,
                den >= f * (r + a),
                f > 0,
                out >= 0,
                r + a >= 0,
        ;
        assert((b - out) * (r + a) >= b * r) by (nonlinear_arith)
            requires
                out * (r + a) <= a * b,
        ;
    }
}

/// A simulated buy either leaves the pool as it was (no fill is possible) or
/// fills: the quote paid in is credited in full, the base reserve shrinks but
/// is not drained, and the constant product `reserve_base * reserve_quote`
/// does not decrease (the fee stays in the pool). The fee settings and
/// decimals never change.
pub proof fn lemma_buy_keeps_product(pool: UniswapV2Pool, amount_in: u128)
    requires
        pool.fee_numerator <= pool.fee_denominator,
        pool.reserve_quote + amount_in <= u128::MAX,
    ensures
        ({
            let after = pool_after_swap(pool, true, amount_in);
            &&& after == (UniswapV2Pool {
                reserve_base: after.reserve_base,
                reserve_quote: after.reserve_quote,
                ..pool
            })
            &&& after == pool || {
                &&& after.reserve_quote == pool.reserve_quote + amount_in
                &&& 0 < after.reserve_base <= pool.reserve_base
                &&& after.reserve_base * after.reserve_quote >= pool.reserve_base * pool.reserve_quote
            }
        }),
{
    let den = pool.reserve_quote * pool.fee_denominator + fee_input(pool, amount_in);
    if den > 0 {
        let out = (fee_input(pool, amount_in) * pool.reserve_base) / den;
        assert(out >= 0) by (nonlinear_arith)
            requires
                den > 0,
                fee_input(pool, amount_in) >= 0,
                pool.reserve_base >= 0,
                out == (fee_input(pool, amount_in) * pool.reserve_base) / den,
        ;
        if pool.reserve_base > out {
            lemma_product_kept(
                amount_in as int,
                pool.fee_numerator as int,
                pool.fee_denominator as int,
                pool.reserve_quote as int,
                pool.reserve_base as int,
                out,
            );
        }
    }
}

/// A simulated sell either leaves the pool as it was or fills: the base paid in
/// is credited in full, the quote reserve shrinks but is not drained, and the
/// constant product does not decrease. The fee settings and decimals never
/// change.
pub proof fn lemma_sell_keeps_product(pool: UniswapV2Pool, amount_in: u128)
    requires
        pool.fee_numerator <= pool.fee_denominator,
        pool.reserve_base + amount_in <= u128::MAX,
    ensures
        ({
            let after = pool_after_swap(pool, false, amount_in);
            &&& after == (UniswapV2Pool {
                reserve_base: after.reserve_base,
                reserve_quote: after.reserve_quote,
                ..pool
            })
            &&& after == pool || {
                &&& after.reserve_base == pool.reserve_base + amount_in
                &&& 0 < after.reserve_quote <= pool.reserve_quote
                &&& after.reserve_base * after.reserve_quote >= pool.reserve_base * pool.reserve_quote
            }
        }),
{
    let den = pool.reserve_base * pool.fee_denominator + fee_input(pool, amount_in);
    if den > 0 {
        let out = (fee_input(pool, amount_in) * pool.reserve_quote) / den;
        assert(out >= 0) by (nonlinear_arith)
            requires
                den > 0,
                fee_input(pool, amount_in) >= 0,
                pool.reserve_quote >= 0,
                out == (fee_input(pool, amount_in) * pool.reserve_quote) / den,
        ;
        if pool.reserve_quote > out {
            lemma_product_kept(
                amount_in as int,
                pool.fee_numerator as int,
                pool.fee_denominator as int,
                pool.reserve_base as int,
                pool.reserve_quote as int,
                out,
            );
            assert((pool.reserve_base + amount_in) * (pool.reserve_quote - out) == (pool.reserve_quote - out) * (
            pool.reserve_base + amount_in)) by (nonlinear_arith);
            assert(pool.reserve_quote * pool.reserve_base == pool.reserve_base * pool.reserve_quote) by (nonlinear_arith);
        }
    }
}

/// A pending buy (quote paid in for base) never lowers the predicted spot
/// price, as long as the price stays within `i64`.
pub proof fn lemma_buy_never_lowers_price(pool: UniswapV2Pool, amount_in: u128)
    requires
        pool.reserve_base > 0,
        swap_fits(pool, true, amount_in),
        raw_spot(pool_after_swap(pool, true, amount_in)) <= i64::MAX,
    ensures
        pool_after_swap(pool, true, amount_in).spot_price() >= pool.spot_price(),
{
    let after = pool_after_swap(pool, true, amount_in);
    assert(after.reserve_base > 0);
    lemma_raw_spot_mono(pool, after);
}

/// A pending sell (base paid in for quote) never raises the predicted spot
/// price, as long as the price before the swap is within `i64`.
pub proof fn lemma_sell_never_raises_price(pool: UniswapV2Pool, amount_in: u128)
    requires
        pool.reserve_base > 0,
        swap_fits(pool, false, amount_in),
        raw_spot(pool) <= i64::MAX,
    ensures
        pool_after_swap(pool, false, amount_in).spot_price() <= pool.spot_price(),
{
    let after = pool_after_swap(pool, false, amount_in);
    lemma_raw_spot_mono(after, pool);
}

/// `v` clamped to the `i64` range.
pub open spec fn clamp_i64(v: int) -> i64 {
    if v > i64::MAX {
        i64::MAX
    } else if v < i64::MIN {
        i64::MIN
    } else {
        v as i64
    }
}

/// `a * 100`, saturating at the `i64` bounds.
fn saturating_mul_100(a: i64) -> (r: i64)
    ensures
        r == clamp_i64(a * 100),
{
    if a > 92_233_720_368_547_758 {
        i64::MAX
    } else if a < -92_233_720_368_547_758 {
        i64::MIN
    } else {
        a * 100
    }
}

/// The raw price indicator of a Raydium CLMM account: the little-endian
/// 64-bit word at bytes 16..24.
pub open spec fn raydium_raw_price(data: Seq<u8>) -> u64 {
    le_value(data.subrange(16, 24)) as u64
}

/// The synthetic bid: the raw word read as signed, times 100, saturated.
pub open spec fn raydium_bid(data: Seq<u8>) -> i64 {
    clamp_i64((raydium_raw_price(data) as i64) * 100)
}

/// The synthetic ask: the bid plus 5 basis points (division truncated).
pub open spec fn raydium_ask(data: Seq<u8>) -> int {
    raydium_bid(data) + trunc_div(raydium_bid(data) * 5, 10000)
}

/// The quote decoded from a Raydium CLMM account at `slot`, or `None` for an
/// account shorter than 64 bytes.
pub open spec fn raydium_quote(market_id: u32, data: Seq<u8>, slot: u64, t1: u64) -> Option<NormalizedBbo> {
    if data.len() < 64 {
        None
    } else {
        Some(
            NormalizedBbo {
                telemetry: TelemetryTimestamps {
                    t0_exchange_ns: (slot * 400_000_000) as u64,
                    t1_ingest_nic_ns: t1,
                    t2_engine_proc_ns: 0,
                    t3_egress_ns: 0,
                },
                market_id,
                venue: VenueId::Raydium.code(),
                chain: ChainId::Solana.code(),
                sequence: slot,
                bid_price: raydium_bid(data),
                bid_qty: 10_000_000_000,
                ask_price: raydium_ask(data) as i64,
                ask_qty: 10_000_000_000,
                spread_bps: 5,
                flags: 0x01,
            },
        )
    }
}

/// Decoding does not overflow.
pub open spec fn raydium_fits(data: Seq<u8>, slot: u64) -> bool {
    data.len() >= 64 ==> {
        &&& i64::MIN <= raydium_bid(data) * 5 <= i64::MAX
        &&& slot * 400_000_000 <= u64::MAX
    }
}

/// Solana Geyser account parser.
pub struct SolanaGeyserParser;

impl SolanaGeyserParser {
    /// Decodes a Raydium CLMM pool account into a synthetic quote (5 bps wide,
    /// 100 units a side, flagged synthetic).
    pub fn parse_raydium_clmm_account(
        market_id: u32,
        _account_pubkey: &[u8; 32],
        data: &[u8],
        slot: u64,
        t1_ingest_ns: u64,
    ) -> (r: Result<NormalizedBbo, &'static str>)
        requires
            raydium_fits(data@, slot),
        ensures
            match raydium_quote(market_id, data@, slot, t1_ingest_ns) {
                Some(q) => r == Ok::<NormalizedBbo, &'static str>(q),
                None => r == Err::<NormalizedBbo, &'static str>("Payload too short for Raydium CLMM state"),
            },
    {
        if data.len() < 64 {
            return Err("Payload too short for Raydium CLMM state");
        }
        let raw_price = get_le(data, 16, 8);
        let bid_price = saturating_mul_100(raw_price as i64);
        let ask_price = bid_price + (bid_price * 5 / 10_000);
        Ok(
            NormalizedBbo {
                telemetry: TelemetryTimestamps {
                    t0_exchange_ns: slot * 400_000_000,
                    t1_ingest_nic_ns: t1_ingest_ns,
                    t2_engine_proc_ns: 0,
                    t3_egress_ns: 0,
                },
                market_id,
                venue: VenueId::Raydium.as_u16(),
                chain: ChainId::Solana.as_u16(),
                sequence: slot,
                bid_price,
                bid_qty: 10_000_000_000,
                ask_price,
                ask_qty: 10_000_000_000,
                spread_bps: 5,
                flags: 0x01,
            },
        )
    }
}

} // verus!
