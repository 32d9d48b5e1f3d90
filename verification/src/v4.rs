//! Uniswap v4 singleton pools with dynamic hooks, discretized into ladder depth.
use vstd::prelude::*;
use crate::amm::{ConcentratedTick, sat_add_u128, sat_sub_u128, sqrt_x96_to_price, sqrt_x96_price};
use crate::order_book::{
    trunc_div, set_ask_level, BookView, ContiguousOrderBook, apply_bid, rung_computable, ladder_index,
    PRICE_LEVELS_COUNT, TICK_SIZE,
};

verus! {

/// Dynamic fee flag: bit 23 of the 24-bit fee.
pub const DYNAMIC_FEE_FLAG: u32 = 0x80_0000;

/// Hook permission flags encoded in the top bytes of a hook contract address.
pub struct HookFlags;

impl HookFlags {
    pub const BEFORE_INITIALIZE: u16 = 1 << 13;
    pub const AFTER_INITIALIZE: u16 = 1 << 12;
    pub const BEFORE_ADD_LIQUIDITY: u16 = 1 << 11;
    pub const AFTER_ADD_LIQUIDITY: u16 = 1 << 10;
    pub const BEFORE_REMOVE_LIQUIDITY: u16 = 1 << 9;
    pub const AFTER_REMOVE_LIQUIDITY: u16 = 1 << 8;
    pub const BEFORE_SWAP: u16 = 1 << 7;
    pub const AFTER_SWAP: u16 = 1 << 6;
    pub const BEFORE_DONATE: u16 = 1 << 5;
    pub const AFTER_DONATE: u16 = 1 << 4;
    pub const BEFORE_SWAP_RETURNS_DELTA: u16 = 1 << 3;
    pub const AFTER_SWAP_RETURNS_DELTA: u16 = 1 << 2;
    pub const AFTER_ADD_LIQUIDITY_RETURNS_DELTA: u16 = 1 << 1;
    pub const AFTER_REMOVE_LIQUIDITY_RETURNS_DELTA: u16 = 1 << 0;

    /// The permission bitmask: the first two address bytes, big-endian.
    pub fn parse_flags_from_address(address: &[u8; 20]) -> (r: u16)
        ensures
            r == address@[0] * 256 + address@[1],
    {
        let hi = address[0] as u16;
        let lo = address[1] as u16;
        assert(((hi << 8u16) | lo) == hi * 256 + lo) by (bit_vector)
            requires
                hi < 256,
                lo < 256,
        ;
        (hi << 8u16) | lo
    }
}

/// Canonical key of a pool in the singleton contract.
#[derive(Clone, Copy, Debug, PartialEq, Eq)]
pub struct PoolKey {
    pub currency0: [u8; 20],
    pub currency1: [u8; 20],
    pub fee: u32,
    pub tick_spacing: i32,
    pub hooks: [u8; 20],
}

impl PoolKey {
    /// The hook permission bitmask of the key's hook address.
    pub open spec fn flags(&self) -> u16 {
        (self.hooks@[0] * 256 + self.hooks@[1]) as u16
    }

    /// Whether the fee carries the dynamic fee flag.
    pub fn has_dynamic_fee(&self) -> (r: bool)
        ensures
            r == (self.fee & DYNAMIC_FEE_FLAG != 0),
    {
        (self.fee & DYNAMIC_FEE_FLAG) != 0
    }

    pub fn hook_flags(&self) -> (r: u16)
        ensures
            r == self.flags(),
    {
        HookFlags::parse_flags_from_address(&self.hooks)
    }

    /// Whether the hook address grants any permission of `flag`.
    pub fn has_hook(&self, flag: u16) -> (r: bool)
        ensures
            r == (self.flags() & flag != 0),
    {
        (self.hook_flags() & flag) != 0
    }
}

/// Dynamic hook simulation parameters.
#[derive(Clone, Copy, Debug, PartialEq, Eq)]
pub struct HookSimulationConfig {
    /// Dynamic swap fee override in basis points.
    pub dynamic_fee_override_bps: Option<u16>,
    /// Transient delta adjustment of delta-returning hooks.
    pub hook_delta_specified: i128,
    /// Hook fee surcharge, or rebate when negative, in basis points.
    pub hook_fee_delta_bps: i16,
}

impl Default for HookSimulationConfig {
    fn default() -> (r: Self)
        ensures
            r.dynamic_fee_override_bps is None,
            r.hook_delta_specified == 0,
            r.hook_fee_delta_bps == 0,
    {
        HookSimulationConfig { dynamic_fee_override_bps: None, hook_delta_specified: 0, hook_fee_delta_bps: 0 }
    }
}

/// Uniswap v4 singleton concentrated-liquidity pool with dynamic hooks.
#[derive(Clone, Debug)]
pub struct UniswapV4Pool {
    pub key: PoolKey,
    pub sqrt_price_x96: u128,
    pub current_tick: i32,
    pub current_liquidity: u128,
    pub hook_config: HookSimulationConfig,
}

/// `v` clamped to `[lo, hi]`.
pub open spec fn clamp(v: int, lo: int, hi: int) -> int {
    if v < lo {
        lo
    } else if v > hi {
        hi
    } else {
        v
    }
}

impl UniswapV4Pool {
    /// The swap fee in basis points: the dynamic override (30 by default) for a
    /// dynamic-fee pool, else the static fee / 100; a before-swap hook then adds
    /// its fee delta, clamped to `[0, 10_000]`.
    pub open spec fn fee_bps(&self) -> u16 {
        let base: u16 = if self.key.fee & DYNAMIC_FEE_FLAG != 0 {
            match self.hook_config.dynamic_fee_override_bps {
                Some(f) => f,
                None => 30,
            }
        } else {
            (self.key.fee / 100) as u16
        };
        if self.key.flags() & HookFlags::BEFORE_SWAP != 0 {
            clamp(base + self.hook_config.hook_fee_delta_bps, 0, 10_000) as u16
        } else {
            base
        }
    }

    /// Running liquidity of the depth of a level.
    pub open spec fn depth_of(liq: u128) -> u64 {
        (liq / 1_000_000_000) as u64
    }

    /// Ask price of a tick at or above the current tick, with half the fee added.
    pub open spec fn ask_price(&self, t: ConcentratedTick, spot: i64) -> int {
        let ps = spot + (t.tick_index - self.current_tick) * 100;
        ps + ps * self.fee_bps() / 20_000
    }

    /// Bid price of a tick at or below the current tick, with half the fee taken.
    pub open spec fn bid_price(&self, t: ConcentratedTick, spot: i64) -> int {
        let ps = spot - (self.current_tick - t.tick_index) * 100;
        ps - trunc_div(ps * self.fee_bps(), 20_000)
    }

    pub open spec fn ask_step(&self, st: (BookView, u128), t: ConcentratedTick, spot: i64, ts: u64) -> (BookView, u128) {
        let (v, liq) = st;
        let price = self.ask_price(t, spot);
        let diff = trunc_div(price - v.base_price, TICK_SIZE as int);
        let v1 = if 0 <= diff < PRICE_LEVELS_COUNT {
            set_ask_level(v, diff, price as i64, Self::depth_of(liq), ts)
        } else {
            v
        };
        let liq1 = if t.liquidity_net >= 0 {
            sat_add_u128(liq, t.liquidity_net as u128)
        } else {
            sat_sub_u128(liq, (-t.liquidity_net) as u128)
        };
        (v1, liq1)
    }

    /// The ticks at or above the current tick, in order.
    pub open spec fn asks_applied(&self, st: (BookView, u128), ticks: Seq<ConcentratedTick>, spot: i64, ts: u64) -> (BookView, u128)
        decreases ticks.len(),
    {
        if ticks.len() == 0 {
            st
        } else {
            let prev = self.asks_applied(st, ticks.drop_last(), spot, ts);
            if ticks.last().tick_index >= self.current_tick {
                self.ask_step(prev, ticks.last(), spot, ts)
            } else {
                prev
            }
        }
    }

    pub open spec fn bid_step(&self, st: (BookView, u128), t: ConcentratedTick, spot: i64, ts: u64) -> (BookView, u128) {
        let (v, liq) = st;
        let price = self.bid_price(t, spot);
        let v1 = if price > 0 {
            apply_bid(v, price as i64, Self::depth_of(liq), 1, ts)
        } else {
            v
        };
        let liq1 = if t.liquidity_net >= 0 {
            sat_sub_u128(liq, t.liquidity_net as u128)
        } else {
            sat_add_u128(liq, (-t.liquidity_net) as u128)
        };
        (v1, liq1)
    }

    /// The ticks at or below the current tick, from the last one back to the first.
    pub open spec fn bids_applied(&self, st: (BookView, u128), ticks: Seq<ConcentratedTick>, spot: i64, ts: u64) -> (BookView, u128)
        decreases ticks.len(),
    {
        if ticks.len() == 0 {
            st
        } else {
            let t = ticks.last();
            let st1 = if t.tick_index <= self.current_tick {
                self.bid_step(st, t, spot, ts)
            } else {
                st
            };
            self.bids_applied(st1, ticks.drop_last(), spot, ts)
        }
    }

    /// A tick can be processed without overflow on a book anchored at `base`.
    pub open spec fn tick_computable(&self, t: ConcentratedTick, spot: i64, base: i64) -> bool {
        &&& t.liquidity_net != i128::MIN
        &&& t.tick_index >= self.current_tick ==> {
            let ps = spot + (t.tick_index - self.current_tick) * 100;
            &&& t.tick_index - self.current_tick <= i32::MAX
            &&& ps <= i64::MAX
            &&& ps * self.fee_bps() <= i64::MAX
            &&& self.ask_price(t, spot) <= i64::MAX
            &&& self.ask_price(t, spot) - base <= i64::MAX
        }
        &&& t.tick_index <= self.current_tick ==> {
            let ps = spot - (self.current_tick - t.tick_index) * 100;
            &&& self.current_tick - t.tick_index <= i32::MAX
            &&& ps * self.fee_bps() <= i64::MAX
            &&& self.bid_price(t, spot) > 0 ==> rung_computable(self.bid_price(t, spot) as i64, base)
        }
    }

    pub fn new(key: PoolKey, sqrt_price_x96: u128, current_tick: i32, current_liquidity: u128) -> (p: Self)
        ensures
            p.key == key,
            p.sqrt_price_x96 == sqrt_price_x96,
            p.current_tick == current_tick,
            p.current_liquidity == current_liquidity,
            p.hook_config.dynamic_fee_override_bps is None,
            p.hook_config.hook_delta_specified == 0,
            p.hook_config.hook_fee_delta_bps == 0,
    {
        UniswapV4Pool {
            key,
            sqrt_price_x96,
            current_tick,
            current_liquidity,
            hook_config: HookSimulationConfig::default(),
        }
    }

    /// The same pool with `config` as its hook configuration.
    pub fn with_hook_config(self, config: HookSimulationConfig) -> (p: Self)
        ensures
            p == (UniswapV4Pool { hook_config: config, ..self }),
    {
        let mut p = self;
        p.hook_config = config;
        p
    }

    /// The effective swap fee in basis points, hooks included.
    pub fn effective_fee_bps(&self) -> (r: u16)
        ensures
            r == self.fee_bps(),
    {
        let base_fee_bps: u16 = if self.key.has_dynamic_fee() {
            match self.hook_config.dynamic_fee_override_bps {
                Some(f) => f,
                None => 30,
            }
        } else {
            (self.key.fee / 100) as u16
        };
        if self.key.has_hook(HookFlags::BEFORE_SWAP) {
            let adjusted = base_fee_bps as i32 + self.hook_config.hook_fee_delta_bps as i32;
            let clamped = if adjusted < 0 {
                0
            } else if adjusted > 10_000 {
                10_000
            } else {
                adjusted
            };
            clamped as u16
        } else {
            base_fee_bps
        }
    }

    /// Converts `sqrt_price_x96` to a 10^8-scaled price, rounded to nearest.
    pub fn spot_price_scaled(&self) -> (r: i64)
        requires
            self.sqrt_price_x96 < 0x1_0000_0000_0000_0000_0000_0000_0000,
        ensures
            r == sqrt_x96_to_price(self.sqrt_price_x96),
    {
        sqrt_x96_price(self.sqrt_price_x96)
    }

    /// Discretizes the ticks into ladder depth with the fee spread: asks for the
    /// ticks at or above the current tick, in order, and bids for those at or
    /// below it, from the nearest down.
    pub fn populate_virtual_order_book(&self, book: &mut ContiguousOrderBook, ticks: &[ConcentratedTick], ts_ns: u64)
        requires
            old(book).wf(),
            self.sqrt_price_x96 < 0x1_0000_0000_0000_0000_0000_0000_0000,
            sqrt_x96_to_price(self.sqrt_price_x96) > 0 ==> forall|k: int|
                0 <= k < ticks@.len() ==> self.tick_computable(
                    #[trigger] ticks@[k],
                    sqrt_x96_to_price(self.sqrt_price_x96),
                    old(book).base_price,
                ),
        ensures
            final(book).wf(),
            final(book)@ == ({
                let spot = sqrt_x96_to_price(self.sqrt_price_x96);
                if spot > 0 {
                    let after_asks = self.asks_applied((old(book)@, self.current_liquidity), ticks@, spot, ts_ns);
                    self.bids_applied((after_asks.0, self.current_liquidity), ticks@, spot, ts_ns).0
                } else {
                    old(book)@
                }
            }),
    {
        let spot = self.spot_price_scaled();
        if spot <= 0 {
            return;
        }
        let fee_bps = self.effective_fee_bps();
        let ghost start = book@;
        let mut ask_liquidity = self.current_liquidity;
        let mut k: usize = 0;
        while k < ticks.len()
            invariant
                k <= ticks@.len(),
                book.wf(),
                spot == sqrt_x96_to_price(self.sqrt_price_x96),
                spot > 0,
                fee_bps == self.fee_bps(),
                book.base_price == start.base_price,
                (book@, ask_liquidity) == self.asks_applied(
                    (start, self.current_liquidity),
                    ticks@.take(k as int),
                    spot,
                    ts_ns,
                ),
                forall|m: int|
                    0 <= m < ticks@.len() ==> self.tick_computable(#[trigger] ticks@[m], spot, start.base_price),
            decreases ticks@.len() - k,
        {
            let tick = ticks[k];
            proof {
                assert(ticks@.take(k + 1).drop_last() =~= ticks@.take(k as int));
                assert(ticks@.take(k + 1).last() == tick);
                assert(self.tick_computable(tick, spot, start.base_price));
            }
            if tick.tick_index >= self.current_tick {
                let tick_distance = (tick.tick_index - self.current_tick) as i64;
                let price_step = spot + tick_distance * 100;
                let price_with_fee = price_step + price_step * fee_bps as i64 / 20_000;
                let diff_idx = (price_with_fee - book.base_price) / TICK_SIZE;
                if diff_idx >= 0 && diff_idx < PRICE_LEVELS_COUNT as i64 {
                    let idx = diff_idx as usize;
                    let available_qty = (ask_liquidity / 1_000_000_000) as u64;
                    let mut lvl = book.asks[idx];
                    lvl.price = price_with_fee;
                    lvl.quantity = available_qty;
                    lvl.last_update_ts = ts_ns;
                    book.asks[idx] = lvl;
                }
                if tick.liquidity_net >= 0 {
                    ask_liquidity = ask_liquidity.saturating_add(tick.liquidity_net as u128);
                } else {
                    ask_liquidity = ask_liquidity.saturating_sub((-tick.liquidity_net) as u128);
                }
            }
            k += 1;
        }
        proof {
            assert(ticks@.take(ticks@.len() as int) =~= ticks@);
        }
        let ghost mid = book@;
        let mut bid_liquidity = self.current_liquidity;
        let mut k: usize = ticks.len();
        while k > 0
            invariant
                k <= ticks@.len(),
                book.wf(),
                spot == sqrt_x96_to_price(self.sqrt_price_x96),
                spot > 0,
                fee_bps == self.fee_bps(),
                book.base_price == start.base_price,
                self.bids_applied((mid, self.current_liquidity), ticks@, spot, ts_ns) == self.bids_applied(
                    (book@, bid_liquidity),
                    ticks@.take(k as int),
                    spot,
                    ts_ns,
                ),
                forall|m: int|
                    0 <= m < ticks@.len() ==> self.tick_computable(#[trigger] ticks@[m], spot, start.base_price),
            decreases k,
        {
            let tick = ticks[k - 1];
            proof {
                assert(ticks@.take(k as int).drop_last() =~= ticks@.take(k - 1));
                assert(ticks@.take(k as int).last() == tick);
                assert(self.tick_computable(tick, spot, start.base_price));
            }
            if tick.tick_index <= self.current_tick {
                let tick_distance = (self.current_tick - tick.tick_index) as i64;
                let price_step = spot - tick_distance * 100;
                assert(price_step * (fee_bps as int) >= i64::MIN) by (nonlinear_arith)
                    requires
                        price_step >= -0x100_0000_0000,
                        0 <= fee_bps <= 0xffff,
                ;
                let price_with_fee = price_step - price_step * fee_bps as i64 / 20_000;
                if price_with_fee > 0 {
                    let available_qty = (bid_liquidity / 1_000_000_000) as u64;
                    book.update_bid(price_with_fee, available_qty, 1, ts_ns);
                }
                if tick.liquidity_net >= 0 {
                    bid_liquidity = bid_liquidity.saturating_sub(tick.liquidity_net as u128);
                } else {
                    bid_liquidity = bid_liquidity.saturating_add((-tick.liquidity_net) as u128);
                }
            }
            k -= 1;
        }
        proof {
            assert(ticks@.take(ticks@.len() as int) =~= ticks@);
        }
    }
}

/// Sum of the net liquidity of the ticks at or above `cur` (the ticks an
/// upward walk from `cur` crosses), in order.
pub open spec fn v4_ask_net_sum(ticks: Seq<ConcentratedTick>, cur: i32) -> int
    decreases ticks.len(),
{
    if ticks.len() == 0 {
        0
    } else {
        v4_ask_net_sum(ticks.drop_last(), cur) + if ticks.last().tick_index >= cur {
            ticks.last().liquidity_net as int
        } else {
            0
        }
    }
}

/// Sum of the net liquidity of the ticks at or below `cur` (the ticks a
/// downward walk from `cur` crosses).
pub open spec fn v4_bid_net_sum(ticks: Seq<ConcentratedTick>, cur: i32) -> int
    decreases ticks.len(),
{
    if ticks.len() == 0 {
        0
    } else {
        v4_bid_net_sum(ticks.drop_last(), cur) + if ticks.last().tick_index <= cur {
            ticks.last().liquidity_net as int
        } else {
            0
        }
    }
}

impl UniswapV4Pool {
    /// The ask walk keeps the anchor price of the book.
    proof fn lemma_asks_keep_base(&self, st: (BookView, u128), ticks: Seq<ConcentratedTick>, spot: i64, ts: u64)
        requires
            st.0.asks.len() == PRICE_LEVELS_COUNT,
            st.0.bids.len() == PRICE_LEVELS_COUNT,
        ensures
            self.asks_applied(st, ticks, spot, ts).0.base_price == st.0.base_price,
            self.asks_applied(st, ticks, spot, ts).0.asks.len() == PRICE_LEVELS_COUNT,
            self.asks_applied(st, ticks, spot, ts).0.bids.len() == PRICE_LEVELS_COUNT,
        decreases ticks.len(),
    {
        if ticks.len() > 0 {
            self.lemma_asks_keep_base(st, ticks.drop_last(), spot, ts);
        }
    }

    /// The bid walk keeps the anchor price of the book.
    proof fn lemma_bids_keep_base(&self, st: (BookView, u128), ticks: Seq<ConcentratedTick>, spot: i64, ts: u64)
        requires
            st.0.asks.len() == PRICE_LEVELS_COUNT,
            st.0.bids.len() == PRICE_LEVELS_COUNT,
        ensures
            self.bids_applied(st, ticks, spot, ts).0.base_price == st.0.base_price,
            self.bids_applied(st, ticks, spot, ts).0.asks.len() == PRICE_LEVELS_COUNT,
            self.bids_applied(st, ticks, spot, ts).0.bids.len() == PRICE_LEVELS_COUNT,
        decreases ticks.len(),
    {
        if ticks.len() > 0 {
            let t = ticks.last();
            let st1 = if t.tick_index <= self.current_tick {
                self.bid_step(st, t, spot, ts)
            } else {
                st
            };
            self.lemma_bids_keep_base(st1, ticks.drop_last(), spot, ts);
        }
    }

    /// The bid walk takes the ticks from the last to the first: walking a list
    /// is walking all but its first tick, then the first.
    proof fn lemma_bids_first_last(&self, st: (BookView, u128), s: Seq<ConcentratedTick>, spot: i64, ts: u64)
        requires
            s.len() > 0,
        ensures
            self.bids_applied(st, s, spot, ts) == (if s[0].tick_index <= self.current_tick {
                self.bid_step(self.bids_applied(st, s.skip(1), spot, ts), s[0], spot, ts)
            } else {
                self.bids_applied(st, s.skip(1), spot, ts)
            }),
        decreases s.len(),
    {
        let t = s.last();
        let st1 = if t.tick_index <= self.current_tick {
            self.bid_step(st, t, spot, ts)
        } else {
            st
        };
        assert(self.bids_applied(st, s, spot, ts) == self.bids_applied(st1, s.drop_last(), spot, ts));
        if s.len() == 1 {
            assert(s.skip(1) =~= Seq::<ConcentratedTick>::empty());
            assert(s.drop_last() =~= Seq::<ConcentratedTick>::empty());
            assert(self.bids_applied(st1, Seq::<ConcentratedTick>::empty(), spot, ts) == st1);
            assert(self.bids_applied(st, Seq::<ConcentratedTick>::empty(), spot, ts) == st);
            assert(s.last() == s[0]);
        } else {
            self.lemma_bids_first_last(st1, s.drop_last(), spot, ts);
            assert(s.drop_last().skip(1) =~= s.skip(1).drop_last());
            assert(s.skip(1).last() == s.last());
            assert(s.drop_last()[0] == s[0]);
            assert(s.skip(1).len() > 0);
            assert(self.bids_applied(st, s.skip(1), spot, ts) == self.bids_applied(
                st1,
                s.skip(1).drop_last(),
                spot,
                ts,
            ));
        }
    }

    /// Walking the ask ticks upward from liquidity `liq`, the liquidity
    /// carried past them is `liq` plus the net liquidity of every tick crossed,
    /// as long as no running total leaves the `u128` range (where it would
    /// saturate).
    pub proof fn lemma_ask_walk_liquidity(&self, v: BookView, liq: u128, ticks: Seq<ConcentratedTick>, spot: i64, ts: u64)
        requires
            forall|k: int|
                0 <= k <= ticks.len() ==> 0 <= liq + v4_ask_net_sum(#[trigger] ticks.take(k), self.current_tick)
                    <= u128::MAX,
        ensures
            self.asks_applied((v, liq), ticks, spot, ts).1 == liq + v4_ask_net_sum(ticks, self.current_tick),
        decreases ticks.len(),
    {
        assert(ticks.take(ticks.len() as int) =~= ticks);
        if ticks.len() > 0 {
            let d = ticks.drop_last();
            assert forall|k: int| 0 <= k <= d.len() implies 0 <= liq + v4_ask_net_sum(
                #[trigger] d.take(k),
                self.current_tick,
            ) <= u128::MAX by {
                assert(d.take(k) =~= ticks.take(k));
            }
            self.lemma_ask_walk_liquidity(v, liq, d, spot, ts);
        }
    }

    /// Each ask tick is quoted at its rung with the liquidity accumulated over
    /// the ask ticks before it: `liq` plus their net liquidity, in units of
    /// 10^9, as long as no running total saturates.
    pub proof fn lemma_ask_walk_quotes(
        &self,
        v: BookView,
        liq: u128,
        ticks: Seq<ConcentratedTick>,
        spot: i64,
        ts: u64,
        j: int,
    )
        requires
            0 <= j < ticks.len(),
            v.asks.len() == PRICE_LEVELS_COUNT,
            v.bids.len() == PRICE_LEVELS_COUNT,
            ticks[j].tick_index >= self.current_tick,
            0 <= trunc_div(self.ask_price(ticks[j], spot) - v.base_price, TICK_SIZE as int) < PRICE_LEVELS_COUNT,
            forall|k: int|
                0 <= k <= j ==> 0 <= liq + v4_ask_net_sum(#[trigger] ticks.take(k), self.current_tick)
                    <= u128::MAX,
        ensures
            ({
                let price = self.ask_price(ticks[j], spot);
                let rung = trunc_div(price - v.base_price, TICK_SIZE as int);
                let lvl = self.asks_applied((v, liq), ticks.take(j + 1), spot, ts).0.asks[rung];
                &&& lvl.quantity == ((liq + v4_ask_net_sum(ticks.take(j), self.current_tick)) / 1_000_000_000) as u64
                &&& lvl.price == price as i64
            }),
    {
        let t = ticks.take(j + 1);
        assert(t.drop_last() =~= ticks.take(j));
        assert(t.last() == ticks[j]);
        let prev = self.asks_applied((v, liq), ticks.take(j), spot, ts);
        assert(self.asks_applied((v, liq), t, spot, ts) == self.ask_step(prev, ticks[j], spot, ts));
        assert forall|k: int| 0 <= k <= ticks.take(j).len() implies 0 <= liq + v4_ask_net_sum(
            #[trigger] ticks.take(j).take(k),
            self.current_tick,
        ) <= u128::MAX by {
            assert(ticks.take(j).take(k) =~= ticks.take(k));
        }
        self.lemma_ask_walk_liquidity(v, liq, ticks.take(j), spot, ts);
        self.lemma_asks_keep_base((v, liq), ticks.take(j), spot, ts);
        let price = self.ask_price(ticks[j], spot);
        let rung = trunc_div(price - v.base_price, TICK_SIZE as int);
        assert(prev.1 == liq + v4_ask_net_sum(ticks.take(j), self.current_tick));
        assert(prev.0.base_price == v.base_price);
        let after = self.ask_step(prev, ticks[j], spot, ts).0;
        assert(after == set_ask_level(prev.0, rung, price as i64, Self::depth_of(prev.1), ts));
        assert(after.asks[rung].quantity == Self::depth_of(prev.1));
    }

    /// Walking the bid ticks downward from liquidity `liq`, the liquidity
    /// carried past them is `liq` minus the net liquidity of every tick crossed
    /// (a tick's net liquidity is what crossing it upward adds), as long as no
    /// running total leaves the `u128` range.
    pub proof fn lemma_bid_walk_liquidity(&self, v: BookView, liq: u128, ticks: Seq<ConcentratedTick>, spot: i64, ts: u64)
        requires
            forall|k: int|
                0 <= k <= ticks.len() ==> 0 <= liq - v4_bid_net_sum(#[trigger] ticks.skip(k), self.current_tick)
                    <= u128::MAX,
        ensures
            self.bids_applied((v, liq), ticks, spot, ts).1 == liq - v4_bid_net_sum(ticks, self.current_tick),
        decreases ticks.len(),
    {
        assert(ticks.skip(0) =~= ticks);
        if ticks.len() > 0 {
            let n = ticks.len() as int;
            let t = ticks.last();
            let d = ticks.drop_last();
            let c: int = if t.tick_index <= self.current_tick { t.liquidity_net as int } else { 0 };
            assert(ticks.skip(n - 1).drop_last() =~= Seq::<ConcentratedTick>::empty());
            assert(ticks.skip(n - 1).last() == t);
            assert(v4_bid_net_sum(Seq::<ConcentratedTick>::empty(), self.current_tick) == 0);
            assert(v4_bid_net_sum(ticks.skip(n - 1), self.current_tick) == c);
            let st1 = if t.tick_index <= self.current_tick {
                self.bid_step((v, liq), t, spot, ts)
            } else {
                (v, liq)
            };
            assert(st1.1 == liq - c);
            assert forall|k: int| 0 <= k <= d.len() implies 0 <= st1.1 - v4_bid_net_sum(
                #[trigger] d.skip(k),
                self.current_tick,
            ) <= u128::MAX by {
                assert(ticks.skip(k).drop_last() =~= d.skip(k));
                assert(ticks.skip(k).last() == t);
            }
            self.lemma_bid_walk_liquidity(st1.0, st1.1, d, spot, ts);
        }
    }

    /// Each bid tick is quoted at its rung with the liquidity left after the
    /// bid ticks after it in the list (the ones the downward walk crosses
    /// first): `liq` minus their net liquidity, in units of 10^9, as long as
    /// no running total saturates. `ticks.skip(j)` is the walk up to and
    /// including tick `j`.
    pub proof fn lemma_bid_walk_quotes(
        &self,
        v: BookView,
        liq: u128,
        ticks: Seq<ConcentratedTick>,
        spot: i64,
        ts: u64,
        j: int,
    )
        requires
            0 <= j < ticks.len(),
            v.asks.len() == PRICE_LEVELS_COUNT,
            v.bids.len() == PRICE_LEVELS_COUNT,
            ticks[j].tick_index <= self.current_tick,
            self.bid_price(ticks[j], spot) > 0,
            self.bid_price(ticks[j], spot) <= i64::MAX,
            ladder_index(self.bid_price(ticks[j], spot), v.base_price as int) < PRICE_LEVELS_COUNT,
            forall|k: int|
                j + 1 <= k <= ticks.len() ==> 0 <= liq - v4_bid_net_sum(#[trigger] ticks.skip(k), self.current_tick)
                    <= u128::MAX,
        ensures
            ({
                let price = self.bid_price(ticks[j], spot);
                let lvl = self.bids_applied((v, liq), ticks.skip(j), spot, ts).0.bids[ladder_index(
                    price,
                    v.base_price as int,
                )];
                &&& lvl.quantity == ((liq - v4_bid_net_sum(ticks.skip(j + 1), self.current_tick))
                    / 1_000_000_000) as u64
                &&& lvl.price == price as i64
            }),
    {
        let s = ticks.skip(j);
        assert(s[0] == ticks[j]);
        assert(s.skip(1) =~= ticks.skip(j + 1));
        self.lemma_bids_first_last((v, liq), s, spot, ts);
        let prev = self.bids_applied((v, liq), ticks.skip(j + 1), spot, ts);
        assert(self.bids_applied((v, liq), s, spot, ts) == self.bid_step(prev, ticks[j], spot, ts));
        let r = ticks.skip(j + 1);
        assert forall|k: int| 0 <= k <= r.len() implies 0 <= liq - v4_bid_net_sum(
            #[trigger] r.skip(k),
            self.current_tick,
        ) <= u128::MAX by {
            assert(r.skip(k) =~= ticks.skip(j + 1 + k));
        }
        self.lemma_bid_walk_liquidity(v, liq, r, spot, ts);
        self.lemma_bids_keep_base((v, liq), r, spot, ts);
    }
}

} // verus!
