//! Mock exchange feed simulator: a seeded xorshift generator, micro-burst event
//! synthesis and isolated consumer queues with saturation drop policies.
use vstd::prelude::*;
use crate::models::{
    ChainId, NormalizedBbo, TelemetryTimestamps, UnifiedTrade, VenueId, zero_bbo, zero_trade,
};
use crate::ring::{is_power_of_two, slot_of, lemma_distinct_slots, lemma_power_of_two_pos};

verus! {

/// Seed used in place of a zero seed, which xorshift cannot leave.
pub const PRNG_ZERO_SEED: u64 = 0xdead_beef_cafe_babe;

/// Output multiplier of xorshift64*.
pub const PRNG_MULTIPLIER: u64 = 0x2545_f491_4f6c_dd1d;

/// One xorshift64 state transition.
pub open spec fn xorshift(x: u64) -> u64 {
    let a = x ^ (x >> 12u64);
    let b = a ^ (a << 25u64);
    b ^ (b >> 27u64)
}

/// The xorshift64* output for a state: the state times the multiplier, mod 2^64.
pub open spec fn scramble(x: u64) -> u64 {
    ((x as nat * PRNG_MULTIPLIER as nat) % 0x1_0000_0000_0000_0000) as u64
}

/// A draw from state `s`: its output and the next state.
pub open spec fn draw(s: u64) -> (u64, u64) {
    (scramble(xorshift(s)), xorshift(s))
}

/// The state of a generator made with `seed`.
pub open spec fn seeded_state(seed: u64) -> u64 {
    if seed == 0 { PRNG_ZERO_SEED } else { seed }
}

/// The state after `k` draws from `s`.
pub open spec fn state_after(s: u64, k: nat) -> u64
    decreases k,
{
    if k == 0 {
        s
    } else {
        draw(state_after(s, (k - 1) as nat)).1
    }
}

/// The first `k` values drawn from `s`, in order.
pub open spec fn draws(s: u64, k: nat) -> Seq<u64>
    decreases k,
{
    if k == 0 {
        Seq::empty()
    } else {
        draws(s, (k - 1) as nat).push(draw(state_after(s, (k - 1) as nat)).0)
    }
}

/// The first `k` values a generator made with `seed` gives, in order, are the
/// seed's values `0 .. k`: the same for every generator made with that seed,
/// and drawing more never changes the earlier ones.
pub proof fn lemma_seed_values(seed: u64, k: nat)
    ensures
        draws(seeded_state(seed), k) == Seq::new(k, |j: int| seed_value(seed, j as nat)),
    decreases k,
{
    lemma_draws_len(seeded_state(seed), k);
    if k > 0 {
        lemma_seed_values(seed, (k - 1) as nat);
        assert(draws(seeded_state(seed), k) =~= Seq::new(k, |j: int| seed_value(seed, j as nat)));
    } else {
        assert(draws(seeded_state(seed), 0) =~= Seq::new(0, |j: int| seed_value(seed, j as nat)));
    }
}

proof fn lemma_draws_len(s: u64, k: nat)
    ensures
        draws(s, k).len() == k,
    decreases k,
{
    if k > 0 {
        lemma_draws_len(s, (k - 1) as nat);
    }
}

/// The delta `gen_price_delta(m)` gives from state `s`: the draw modulo
/// `(2m + 1)` read as 64 unsigned bits, read back as a signed value, minus `m`.
pub open spec fn price_delta(s: u64, m: i64) -> int {
    ((draw(s).0 % (((m * 2 + 1) as i64) as u64)) as i64) - m
}

/// The value `gen_range(min, max)` derives from a draw output `out`.
pub open spec fn range_value(out: u64, min: u64, max: u64) -> u64 {
    if min >= max {
        min
    } else {
        (min + (out as nat) % ((max - min + 1) as nat)) as u64
    }
}

/// The state after `gen_range(min, max)`: a draw is taken only for a proper range.
pub open spec fn range_state(s: u64, min: u64, max: u64) -> u64 {
    if min >= max {
        s
    } else {
        draw(s).1
    }
}

/// `gen_range(min, max)` from state `s`: the value and the next state.
pub open spec fn gen_range_spec(s: u64, min: u64, max: u64) -> (u64, u64) {
    (range_value(draw(s).0, min, max), range_state(s, min, max))
}

/// A range `gen_range` can take without overflow.
pub open spec fn range_ok(min: u64, max: u64) -> bool {
    min >= max || max - min < u64::MAX
}

/// Fast pseudo-random number generator (xorshift64*).
pub struct FastPrng {
    state: u64,
    seed: Ghost<u64>,
    drawn: Ghost<nat>,
}

/// The `k`-th value (counting from zero) a generator made with `seed` gives.
pub open spec fn seed_value(seed: u64, k: nat) -> u64 {
    draw(state_after(seeded_state(seed), k)).0
}

impl FastPrng {
    /// The state is the one reached from the seed after the values drawn so far.
    #[verifier::type_invariant]
    spec fn replays_seed(&self) -> bool {
        self.state == state_after(seeded_state(self.seed@), self.drawn@)
    }

    /// The generator's state.
    pub closed spec fn state(&self) -> u64 {
        self.state
    }

    /// The seed the generator was made with.
    pub closed spec fn seed(&self) -> u64 {
        self.seed@
    }

    /// How many values the generator has given.
    pub closed spec fn drawn(&self) -> nat {
        self.drawn@
    }

    /// A generator seeded with `seed` (a fixed constant for a zero seed).
    pub fn new(seed: u64) -> (r: Self)
        ensures
            r.state() == seeded_state(seed),
            r.seed() == seed,
            r.drawn() == 0,
    {
        let s = if seed == 0 { PRNG_ZERO_SEED } else { seed };
        FastPrng { state: s, seed: Ghost(seed), drawn: Ghost(0) }
    }

    /// Advances the state by one xorshift step and returns its scrambled output.
    /// The value depends only on the seed and on how many values came before:
    /// two generators made with one seed give the same `k`-th value.
    pub fn next_u64(&mut self) -> (r: u64)
        ensures
            (r, final(self).state()) == draw(old(self).state()),
            r == seed_value(old(self).seed(), old(self).drawn()),
            final(self).seed() == old(self).seed(),
            final(self).drawn() == old(self).drawn() + 1,
    {
        proof {
            use_type_invariant(&*self);
        }
        let mut x = self.state;
        x ^= x >> 12u64;
        x ^= x << 25u64;
        x ^= x >> 27u64;
        *self = FastPrng { state: x, seed: self.seed, drawn: Ghost(self.drawn@ + 1) };
        x.wrapping_mul(PRNG_MULTIPLIER)
    }

    /// Uniform integer in `[min, max]` (`min` itself, with no draw, when
    /// `min >= max`).
    pub fn gen_range(&mut self, min: u64, max: u64) -> (r: u64)
        requires
            range_ok(min, max),
        ensures
            (r, final(self).state()) == gen_range_spec(old(self).state(), min, max),
            min < max ==> min <= r <= max,
            final(self).seed() == old(self).seed(),
            final(self).drawn() == old(self).drawn() + (if min < max { 1nat } else { 0nat }),
    {
        if min >= max {
            return min;
        }
        let out = self.next_u64();
        min + out % (max - min + 1)
    }

    /// Symmetric price delta in `[-max_tick_jump, max_tick_jump]` (for a
    /// non-negative bound): the next draw modulo `2 * max_tick_jump + 1`, taken
    /// as 64 unsigned bits, shifted down by `max_tick_jump`.
    pub fn gen_price_delta(&mut self, max_tick_jump: i64) -> (r: i64)
        requires
            i64::MIN <= max_tick_jump * 2 + 1 <= i64::MAX,
            i64::MIN <= price_delta(old(self).state(), max_tick_jump) <= i64::MAX,
        ensures
            final(self).state() == draw(old(self).state()).1,
            final(self).seed() == old(self).seed(),
            final(self).drawn() == old(self).drawn() + 1,
            r == price_delta(old(self).state(), max_tick_jump),
            max_tick_jump >= 0 ==> r == (draw(old(self).state()).0 as nat % ((max_tick_jump * 2 + 1) as nat))
                - max_tick_jump,
            max_tick_jump >= 0 ==> -max_tick_jump <= r <= max_tick_jump,
    {
        let odd: i64 = max_tick_jump * 2 + 1;
        assert(odd as u64 != 0) by (bit_vector)
            requires
                odd == max_tick_jump * 2 + 1,
        ;
        let span = odd as u64;
        let raw = (self.next_u64() % span) as i64;
        raw - max_tick_jump
    }
}

/// Simulated market venues.
#[derive(Clone, Copy, Debug, PartialEq, Eq, Structural)]
pub enum SimulatedVenue {
    BinanceCeFi,
    OkxCeFi,
    UniswapV3DeFi,
}

/// Tag of a simulated feed event.
#[derive(Clone, Copy, Debug, PartialEq, Eq, Structural)]
pub enum FeedEventKind {
    Bbo,
    Trade,
}

impl FeedEventKind {
    /// The tag's wire code.
    pub fn as_u8(self) -> (r: u8)
        ensures
            r == (match self {
                FeedEventKind::Bbo => 1u8,
                FeedEventKind::Trade => 2u8,
            }),
    {
        match self {
            FeedEventKind::Bbo => 1,
            FeedEventKind::Trade => 2,
        }
    }
}

impl Default for FeedEventKind {
    fn default() -> (r: Self)
        ensures
            r == FeedEventKind::Bbo,
    {
        FeedEventKind::Bbo
    }
}

/// Normalized feed event carrying either a quote or a trade.
#[derive(Clone, Copy, Debug, PartialEq, Eq, Structural)]
pub struct SimulatedFeedEvent {
    pub kind: FeedEventKind,
    pub venue_id: u16,
    pub market_id: u32,
    pub bbo: NormalizedBbo,
    pub trade: UnifiedTrade,
}

/// The event of a quote.
pub open spec fn bbo_event(bbo: NormalizedBbo) -> SimulatedFeedEvent {
    SimulatedFeedEvent { kind: FeedEventKind::Bbo, venue_id: bbo.venue, market_id: bbo.market_id, bbo, trade: zero_trade() }
}

/// The event of a trade.
pub open spec fn trade_event(trade: UnifiedTrade) -> SimulatedFeedEvent {
    SimulatedFeedEvent {
        kind: FeedEventKind::Trade,
        venue_id: trade.venue,
        market_id: trade.market_id,
        bbo: zero_bbo(),
        trade,
    }
}

impl Default for SimulatedFeedEvent {
    fn default() -> (r: Self)
        ensures
            r == (SimulatedFeedEvent {
                kind: FeedEventKind::Bbo,
                venue_id: 0,
                market_id: 0,
                bbo: zero_bbo(),
                trade: zero_trade(),
            }),
    {
        SimulatedFeedEvent {
            kind: FeedEventKind::Bbo,
            venue_id: 0,
            market_id: 0,
            bbo: NormalizedBbo::default(),
            trade: UnifiedTrade::default(),
        }
    }
}

impl SimulatedFeedEvent {
    pub fn from_bbo(bbo: NormalizedBbo) -> (r: Self)
        ensures
            r == bbo_event(bbo),
    {
        SimulatedFeedEvent {
            kind: FeedEventKind::Bbo,
            venue_id: bbo.venue,
            market_id: bbo.market_id,
            bbo,
            trade: UnifiedTrade::default(),
        }
    }

    pub fn from_trade(trade: UnifiedTrade) -> (r: Self)
        ensures
            r == trade_event(trade),
    {
        SimulatedFeedEvent {
            kind: FeedEventKind::Trade,
            venue_id: trade.venue,
            market_id: trade.market_id,
            bbo: NormalizedBbo::default(),
            trade,
        }
    }
}

/// Queue saturation drop policy isolating a slow consumer.
#[derive(Clone, Copy, Debug, PartialEq, Eq, Structural)]
pub enum SaturationDropPolicy {
    /// Drop the incoming item when the ring is saturated.
    DropNewest,
    /// Evict the oldest unconsumed item and write the incoming one.
    DropOldest,
}

/// Outcome of a push into an isolated consumer queue.
#[derive(Clone, Copy, Debug, PartialEq, Eq, Structural)]
pub enum PushResult {
    Enqueued,
    DroppedNewest,
    EvictedOldest,
}

/// Saturation and backpressure counters of a queue (each wraps at 2^64).
#[derive(Clone, Copy, Debug, PartialEq, Eq, Structural)]
pub struct QueueMetrics {
    pub total_enqueued: u64,
    pub total_dropped: u64,
    pub total_evicted: u64,
    pub total_consumed: u64,
    pub saturation_events: u64,
}

/// `x + 1`, wrapping at 2^64.
pub open spec fn inc(x: u64) -> u64 {
    vstd::wrapping::u64_specs::wrapping_add(x, 1)
}

/// All counters at zero.
pub open spec fn zero_metrics() -> QueueMetrics {
    QueueMetrics { total_enqueued: 0, total_dropped: 0, total_evicted: 0, total_consumed: 0, saturation_events: 0 }
}

impl QueueMetrics {
    /// All counters at zero.
    pub fn new() -> (r: Self)
        ensures
            r == zero_metrics(),
    {
        QueueMetrics { total_enqueued: 0, total_dropped: 0, total_evicted: 0, total_consumed: 0, saturation_events: 0 }
    }
}

impl Default for QueueMetrics {
    fn default() -> (r: Self)
        ensures
            r == zero_metrics(),
    {
        QueueMetrics::new()
    }
}

/// Single-producer single-consumer queue with a saturation drop policy, so a
/// slow consumer never blocks the producer.
pub struct IsolatedConsumerQueue<T, const N: usize> {
    producer_cursor: u64,
    cached_consumer_cursor: u64,
    consumer_cursor: u64,
    cached_producer_cursor: u64,
    buffer: Vec<T>,
    pub metrics: QueueMetrics,
}

impl<T: Copy + Default, const N: usize> IsolatedConsumerQueue<T, N> {
    /// The items queued, oldest first.
    pub closed spec fn view(&self) -> Seq<T> {
        Seq::new(
            (self.producer_cursor - self.consumer_cursor) as nat,
            |k: int| self.buffer@[((self.consumer_cursor + k) % (N as int))],
        )
    }

    /// Number of items ever written into the ring.
    pub closed spec fn pushed(&self) -> nat {
        self.producer_cursor as nat
    }

    /// The queue's counters.
    pub closed spec fn counters(&self) -> QueueMetrics {
        self.metrics
    }

    pub closed spec fn wf(&self) -> bool {
        &&& is_power_of_two(N as nat)
        &&& self.buffer@.len() == N
        &&& self.consumer_cursor <= self.producer_cursor <= self.consumer_cursor + N
        &&& self.cached_consumer_cursor <= self.consumer_cursor
        &&& self.cached_producer_cursor <= self.producer_cursor
    }

    /// An empty queue of capacity `N`, a power of two.
    pub fn new() -> (r: Self)
        requires
            is_power_of_two(N as nat),
        ensures
            r.wf(),
            r.view() == Seq::<T>::empty(),
            r.pushed() == 0,
            r.counters() == zero_metrics(),
    {
        let mut buffer: Vec<T> = Vec::new();
        let mut i: usize = 0;
        while i < N
            invariant
                i <= N,
                buffer@.len() == i,
            decreases N - i,
        {
            buffer.push(T::default());
            i += 1;
        }
        let r = IsolatedConsumerQueue {
            producer_cursor: 0,
            cached_consumer_cursor: 0,
            consumer_cursor: 0,
            cached_producer_cursor: 0,
            buffer,
            metrics: QueueMetrics::new(),
        };
        proof {
            assert(r.view() =~= Seq::<T>::empty());
        }
        r
    }

    fn write_head(&mut self, item: T)
        requires
            old(self).wf(),
            old(self).view().len() < N,
            old(self).pushed() + N < u64::MAX,
        ensures
            final(self).wf(),
            final(self).view() == old(self).view().push(item),
            final(self).pushed() == old(self).pushed() + 1,
            final(self).consumer_cursor == old(self).consumer_cursor,
            final(self).counters() == old(self).counters(),
    {
        let current_head = self.producer_cursor;
        let slot = slot_of(current_head, N);
        let ghost old_view = self.view();
        self.buffer.set(slot, item);
        self.producer_cursor = current_head + 1;
        proof {
            assert forall|k: int| 0 <= k < old_view.len() implies #[trigger] self.view()[k]
                == old_view[k] by {
                lemma_distinct_slots(self.consumer_cursor as int, k, current_head as int, N as int);
            }
            assert(self.view() =~= old_view.push(item));
        }
    }

    /// Pushes `item` under `policy`; never blocks. With room, the item is
    /// enqueued; on a saturated ring `DropNewest` discards it and `DropOldest`
    /// evicts the oldest item to make room for it.
    pub fn push_with_policy(&mut self, item: T, policy: SaturationDropPolicy) -> (r: PushResult)
        requires
            old(self).wf(),
            old(self).pushed() + N < u64::MAX,
        ensures
            final(self).wf(),
            old(self).view().len() < N ==> {
                &&& r == PushResult::Enqueued
                &&& final(self).view() == old(self).view().push(item)
                &&& final(self).pushed() == old(self).pushed() + 1
                &&& final(self).counters() == (QueueMetrics {
                    total_enqueued: inc(old(self).counters().total_enqueued),
                    ..old(self).counters()
                })
            },
            old(self).view().len() >= N && policy == SaturationDropPolicy::DropNewest ==> {
                &&& r == PushResult::DroppedNewest
                &&& final(self).view() == old(self).view()
                &&& final(self).pushed() == old(self).pushed()
                &&& final(self).counters() == (QueueMetrics {
                    total_dropped: inc(old(self).counters().total_dropped),
                    saturation_events: inc(old(self).counters().saturation_events),
                    ..old(self).counters()
                })
            },
            old(self).view().len() >= N && policy == SaturationDropPolicy::DropOldest ==> {
                &&& r == PushResult::EvictedOldest
                &&& final(self).view() == old(self).view().drop_first().push(item)
                &&& final(self).pushed() == old(self).pushed() + 1
                &&& final(self).counters() == (QueueMetrics {
                    total_evicted: inc(old(self).counters().total_evicted),
                    saturation_events: inc(old(self).counters().saturation_events),
                    ..old(self).counters()
                })
            },
    {
        let current_head = self.producer_cursor;
        let cached_tail = self.cached_consumer_cursor;
        if current_head < cached_tail + N as u64 {
            self.write_head(item);
            self.metrics.total_enqueued = self.metrics.total_enqueued.wrapping_add(1);
            return PushResult::Enqueued;
        }
        let actual_tail = self.consumer_cursor;
        self.cached_consumer_cursor = actual_tail;
        if current_head < actual_tail + N as u64 {
            self.write_head(item);
            self.metrics.total_enqueued = self.metrics.total_enqueued.wrapping_add(1);
            return PushResult::Enqueued;
        }
        self.metrics.saturation_events = self.metrics.saturation_events.wrapping_add(1);
        match policy {
            SaturationDropPolicy::DropNewest => {
                self.metrics.total_dropped = self.metrics.total_dropped.wrapping_add(1);
                PushResult::DroppedNewest
            },
            SaturationDropPolicy::DropOldest => {
                let ghost old_view = self.view();
                proof {
                    lemma_power_of_two_pos(N as nat);
                }
                let new_tail = actual_tail + 1;
                self.consumer_cursor = new_tail;
                self.cached_consumer_cursor = new_tail;
                proof {
                    assert forall|k: int| 0 <= k < self.view().len() implies #[trigger] self.view()[k]
                        == old_view[k + 1] by {
                        assert((actual_tail + 1) + k == actual_tail + (k + 1));
                    }
                    assert(self.view() =~= old_view.drop_first());
                }
                self.write_head(item);
                self.metrics.total_evicted = self.metrics.total_evicted.wrapping_add(1);
                PushResult::EvictedOldest
            },
        }
    }

    /// Non-blocking dequeue of the oldest item.
    pub fn try_pop(&mut self) -> (r: Option<T>)
        requires
            old(self).wf(),
        ensures
            final(self).wf(),
            final(self).pushed() == old(self).pushed(),
            old(self).view().len() == 0 ==> r is None && final(self).view() == old(self).view()
                && final(self).counters() == old(self).counters(),
            old(self).view().len() > 0 ==> {
                &&& r == Some(old(self).view()[0])
                &&& final(self).view() == old(self).view().drop_first()
                &&& final(self).counters() == (QueueMetrics {
                    total_consumed: inc(old(self).counters().total_consumed),
                    ..old(self).counters()
                })
            },
    {
        let current_tail = self.consumer_cursor;
        let cached_head = self.cached_producer_cursor;
        if current_tail >= cached_head {
            let actual_head = self.producer_cursor;
            self.cached_producer_cursor = actual_head;
            if current_tail >= actual_head {
                return None;
            }
        }
        let slot = slot_of(current_tail, N);
        let item = self.buffer[slot];
        let ghost old_view = self.view();
        self.consumer_cursor = current_tail + 1;
        proof {
            assert forall|k: int| 0 <= k < self.view().len() implies #[trigger] self.view()[k]
                == old_view[k + 1] by {
                assert((current_tail + 1) + k == current_tail + (k + 1));
            }
            assert(self.view() =~= old_view.drop_first());
        }
        self.metrics.total_consumed = self.metrics.total_consumed.wrapping_add(1);
        Some(item)
    }

    /// Whether no item is queued.
    pub fn is_empty(&self) -> (r: bool)
        requires
            self.wf(),
        ensures
            r == (self.view().len() == 0),
    {
        self.consumer_cursor >= self.producer_cursor
    }

    /// Number of items queued.
    pub fn len(&self) -> (r: usize)
        requires
            self.wf(),
        ensures
            r == self.view().len(),
    {
        (self.producer_cursor - self.consumer_cursor) as usize
    }
}

/// Micro-burst generation parameters.
#[derive(Clone, Copy, Debug)]
pub struct FeedBurstConfig {
    /// Nominal rate in messages per second.
    pub target_msg_rate_per_sec: u64,
    /// Market updates per micro-burst.
    pub burst_size: usize,
    /// Microseconds between bursts.
    pub burst_interval_micros: u64,
    /// Minimum injected jitter in nanoseconds.
    pub jitter_min_ns: u64,
    /// Maximum injected jitter in nanoseconds.
    pub jitter_max_ns: u64,
    /// Reference BTC/USDT price, scaled 10^8.
    pub base_btc_price: i64,
    /// Reference ETH/USDT price, scaled 10^8.
    pub base_eth_price: i64,
    /// Reference SOL/USDT price, scaled 10^8.
    pub base_sol_price: i64,
}

impl Default for FeedBurstConfig {
    fn default() -> (r: Self)
        ensures
            r.target_msg_rate_per_sec == 250_000,
            r.burst_size == 1_000,
            r.burst_interval_micros == 4_000,
            r.jitter_min_ns == 200,
            r.jitter_max_ns == 3_500,
            r.base_btc_price == 65_000_00000000,
            r.base_eth_price == 3_500_00000000,
            r.base_sol_price == 150_00000000,
    {
        FeedBurstConfig {
            target_msg_rate_per_sec: 250_000,
            burst_size: 1_000,
            burst_interval_micros: 4_000,
            jitter_min_ns: 200,
            jitter_max_ns: 3_500,
            base_btc_price: 65_000_00000000,
            base_eth_price: 3_500_00000000,
            base_sol_price: 150_00000000,
        }
    }
}

/// Abstract state of the simulator: generator state, the three price walks and
/// the sequence counters.
pub struct SimState {
    pub prng: u64,
    pub btc: i64,
    pub eth: i64,
    pub sol: i64,
    pub binance_seq: u64,
    pub okx_seq: u64,
    pub uniswap_seq: u64,
    pub trade_id: u64,
}

/// Largest price the spread arithmetic accepts: a price times the widest
/// spread (15 bps) stays within 64 bits.
pub open spec fn price_ceiling() -> int {
    i64::MAX / 15
}

/// Largest price jump of one event.
pub open spec fn max_jump() -> int {
    500_000
}

/// The walk of one asset: the market, its current price and its tick jump,
/// chosen by `asset_choice` (50% BTC, 35% ETH, 15% SOL).
pub open spec fn asset_of(st: SimState, asset_choice: u64) -> (u32, i64, i64) {
    if asset_choice < 50 {
        (1001u32, st.btc, 50_0000i64)
    } else if asset_choice < 85 {
        (1002u32, st.eth, 10_0000i64)
    } else {
        (1003u32, st.sol, 1_0000i64)
    }
}

/// A quote event at `price` with half of `spread_bps` on each side.
pub open spec fn quote_at(
    tel: TelemetryTimestamps,
    market_id: u32,
    venue: u16,
    chain: u16,
    seq: u64,
    price: i64,
    spread_bps: u16,
    bid_qty: u64,
    ask_qty: u64,
    flags: u16,
) -> SimulatedFeedEvent {
    let half = price * spread_bps / 20_000;
    bbo_event(
        NormalizedBbo {
            telemetry: tel,
            market_id,
            venue,
            chain,
            sequence: seq,
            bid_price: (price - half) as i64,
            bid_qty,
            ask_price: (price + half) as i64,
            ask_qty,
            spread_bps,
            flags,
        },
    )
}

/// A trade event at `price`.
pub open spec fn trade_at(tel: TelemetryTimestamps, market_id: u32, venue: u16, seq: u64, trade_id: u64, price: i64, size: u64, side: u8) -> SimulatedFeedEvent {
    trade_event(
        UnifiedTrade {
            telemetry: tel,
            market_id,
            venue,
            chain: 0,
            sequence: seq,
            trade_id,
            price,
            size,
            side,
            is_liquidation: false,
        },
    )
}

/// The CeFi event of venue `venue`: a trade (random side and size) or a quote
/// (random spread and sizes), drawn from generator state `s`.
pub open spec fn cefi_event(
    s: u64,
    is_trade: bool,
    tel: TelemetryTimestamps,
    market_id: u32,
    venue: u16,
    seq: u64,
    trade_id: u64,
    price: i64,
    size_range: (u64, u64),
    spread_range: (u64, u64),
    qty_range: (u64, u64),
) -> (SimulatedFeedEvent, u64) {
    if is_trade {
        let (side_out, s1) = draw(s);
        let side: u8 = if side_out & 1 == 0 { 1 } else { 2 };
        let (size, s2) = gen_range_spec(s1, size_range.0, size_range.1);
        (trade_at(tel, market_id, venue, seq, trade_id, price, size, side), s2)
    } else {
        let (spread, s1) = gen_range_spec(s, spread_range.0, spread_range.1);
        let (bid_qty, s2) = gen_range_spec(s1, qty_range.0, qty_range.1);
        let (ask_qty, s3) = gen_range_spec(s2, qty_range.0, qty_range.1);
        (quote_at(tel, market_id, venue, 0, seq, price, spread as u16, bid_qty, ask_qty, 0), s3)
    }
}

/// The price walk of the asset picked by `asset_choice`: a step of
/// `delta_out % (2 * jump + 1) - jump`, floored at 10^8; the market, its new
/// price and the state with that walk moved.
pub open spec fn walk(st: SimState, asset_choice: u64, delta_out: u64) -> (u32, i64, SimState) {
    let (market_id, p0, jump) = asset_of(st, asset_choice);
    let delta = (delta_out as nat % ((jump * 2 + 1) as nat)) - jump;
    let price: i64 = if p0 + delta >= 1_00000000 { (p0 + delta) as i64 } else { 1_00000000 };
    let st_p = if market_id == 1001 {
        SimState { btc: price, ..st }
    } else if market_id == 1002 {
        SimState { eth: price, ..st }
    } else {
        SimState { sol: price, ..st }
    };
    (market_id, price, st_p)
}

/// Timestamps of event `i`: exchange time `base + 10 i`, then a random NIC
/// jitter, engine time (0.5-1.5 us) and egress time (0.2-0.8 us).
pub open spec fn stamps(s: u64, cfg: FeedBurstConfig, i: nat, base_ts: u64) -> (TelemetryTimestamps, u64) {
    let (jitter, s5) = gen_range_spec(s, cfg.jitter_min_ns, cfg.jitter_max_ns);
    let t0 = (base_ts + i * 10) as u64;
    let t1 = (t0 + jitter) as u64;
    let (engine, s6) = gen_range_spec(s5, 500, 1_500);
    let t2 = (t1 + engine) as u64;
    let (egress, s7) = gen_range_spec(s6, 200, 800);
    let t3 = (t2 + egress) as u64;
    (TelemetryTimestamps { t0_exchange_ns: t0, t1_ingest_nic_ns: t1, t2_engine_proc_ns: t2, t3_egress_ns: t3 }, s7)
}

/// The event of the venue picked by `venue_choice` (Binance below 5, OKX below
/// 8, else Uniswap v3), with its sequence counters advanced.
pub open spec fn venue_event(st: SimState, venue_choice: u64, is_trade: bool, tel: TelemetryTimestamps, market_id: u32, price: i64) -> (SimulatedFeedEvent, SimState) {
    if venue_choice < 5 {
        let seq = (st.binance_seq + 1) as u64;
        let tid = if is_trade { (st.trade_id + 1) as u64 } else { st.trade_id };
        let (e, s8) = cefi_event(st.prng, is_trade, tel, market_id, 1, seq, tid, price,
            (1_00000000, 25_00000000), (1, 3), (5_00000000, 50_00000000));
        (e, SimState { prng: s8, binance_seq: seq, trade_id: tid, ..st })
    } else if venue_choice < 8 {
        let seq = (st.okx_seq + 1) as u64;
        let tid = if is_trade { (st.trade_id + 1) as u64 } else { st.trade_id };
        let (e, s8) = cefi_event(st.prng, is_trade, tel, market_id, 4, seq, tid, price,
            (50000000, 15_00000000), (2, 5), (2_00000000, 30_00000000));
        (e, SimState { prng: s8, okx_seq: seq, trade_id: tid, ..st })
    } else {
        let seq = (st.uniswap_seq + 1) as u64;
        let (spread, s8) = gen_range_spec(st.prng, 5, 15);
        let (liq, s9) = gen_range_spec(s8, 50_00000000, 200_00000000);
        (quote_at(tel, market_id, 102, 1, seq, price, spread as u16, liq, liq, 0x01),
            SimState { prng: s9, uniswap_seq: seq, ..st })
    }
}

/// Largest jitter `gen_range` can return for the configured bounds.
pub open spec fn jitter_cap(cfg: FeedBurstConfig) -> u64 {
    if cfg.jitter_min_ns >= cfg.jitter_max_ns {
        cfg.jitter_min_ns
    } else {
        cfg.jitter_max_ns
    }
}

/// Event `i` of a burst from state `st`: venue (50% Binance, 30% OKX, 20% Uniswap
/// v3), asset (50% BTC, 35% ETH, 15% SOL) and kind (15% trades on CeFi venues)
/// drawn first, then the price walk, the timestamps and the venue's event.
#[verifier::opaque]
pub open spec fn burst_step(st: SimState, cfg: FeedBurstConfig, i: nat, base_ts: u64) -> (SimulatedFeedEvent, SimState) {
    let (venue_out, s1) = draw(st.prng);
    let (asset_out, s2) = draw(s1);
    let (trade_out, s3) = draw(s2);
    let (delta_out, s4) = draw(s3);
    let (market_id, price, st_p) = walk(st, asset_out % 100, delta_out);
    let (tel, s7) = stamps(s4, cfg, i, base_ts);
    venue_event(SimState { prng: s7, ..st_p }, venue_out % 10, trade_out % 100 < 15, tel, market_id, price)
}

/// The first `n` events of a burst and the state after them.
pub open spec fn burst(st: SimState, cfg: FeedBurstConfig, n: nat, base_ts: u64) -> (Seq<SimulatedFeedEvent>, SimState)
    decreases n,
{
    if n == 0 {
        (Seq::empty(), st)
    } else {
        let (evs, st1) = burst(st, cfg, (n - 1) as nat, base_ts);
        let (e, st2) = burst_step(st1, cfg, (n - 1) as nat, base_ts);
        (evs.push(e), st2)
    }
}

/// One event uses up one step of room.
proof fn lemma_step_room(st: SimState, cfg: FeedBurstConfig, n: nat, from: nat, base_ts: u64)
    requires
        burst_room(st, cfg, n + 1, from, base_ts),
    ensures
        burst_room(burst_step(st, cfg, from, base_ts).1, cfg, n, from + 1, base_ts),
{
    reveal(burst_step);
    let (venue_out, s1) = draw(st.prng);
    let (asset_out, s2) = draw(s1);
    let (trade_out, s3) = draw(s2);
    let (delta_out, s4) = draw(s3);
    let (market_id, price, st_p) = walk(st, asset_out % 100, delta_out);
    let (m, p0, jump) = asset_of(st, (asset_out % 100) as u64);
    assert(0 <= delta_out as nat % ((jump * 2 + 1) as nat) < jump * 2 + 1);
    assert(price <= p0 + max_jump() || price == 1_00000000);
    assert(n * max_jump() + max_jump() == (n + 1) * max_jump()) by (nonlinear_arith);
}

/// A price walk with room for `n` more steps.
pub open spec fn price_room(p: i64, n: nat) -> bool {
    i64::MIN + max_jump() <= p <= price_ceiling() - n * max_jump()
}

/// State from which `n` more events can be generated without overflow.
pub open spec fn burst_room(st: SimState, cfg: FeedBurstConfig, n: nat, from: nat, base_ts: u64) -> bool {
    &&& price_room(st.btc, n)
    &&& price_room(st.eth, n)
    &&& price_room(st.sol, n)
    &&& 1_00000000 + n * max_jump() <= price_ceiling()
    &&& st.binance_seq + n <= u64::MAX
    &&& st.okx_seq + n <= u64::MAX
    &&& st.uniswap_seq + n <= u64::MAX
    &&& st.trade_id + n <= u64::MAX
    &&& base_ts + (from + n) * 10 + jitter_cap(cfg) + 2_300 <= u64::MAX
    &&& range_ok(cfg.jitter_min_ns, cfg.jitter_max_ns)
}

/// High-throughput realistic exchange feed simulator.
pub struct MockExchangeFeedSimulator {
    prng: FastPrng,
    btc_cur_price: i64,
    eth_cur_price: i64,
    sol_cur_price: i64,
    binance_seq: u64,
    okx_seq: u64,
    uniswap_seq: u64,
    trade_id_counter: u64,
}

impl MockExchangeFeedSimulator {
    /// The simulator's abstract state.
    pub closed spec fn sim_state(&self) -> SimState {
        SimState {
            prng: self.prng.state(),
            btc: self.btc_cur_price,
            eth: self.eth_cur_price,
            sol: self.sol_cur_price,
            binance_seq: self.binance_seq,
            okx_seq: self.okx_seq,
            uniswap_seq: self.uniswap_seq,
            trade_id: self.trade_id_counter,
        }
    }

    /// A simulator seeded with `seed`, its walks at the configured reference
    /// prices.
    pub fn new(seed: u64, config: &FeedBurstConfig) -> (r: Self)
        ensures
            r.sim_state() == (SimState {
                prng: if seed == 0 { PRNG_ZERO_SEED } else { seed },
                btc: config.base_btc_price,
                eth: config.base_eth_price,
                sol: config.base_sol_price,
                binance_seq: 100_000_000,
                okx_seq: 200_000_000,
                uniswap_seq: 1_000_000,
                trade_id: 50_000_000,
            }),
    {
        MockExchangeFeedSimulator {
            prng: FastPrng::new(seed),
            btc_cur_price: config.base_btc_price,
            eth_cur_price: config.base_eth_price,
            sol_cur_price: config.base_sol_price,
            binance_seq: 100_000_000,
            okx_seq: 200_000_000,
            uniswap_seq: 1_000_000,
            trade_id_counter: 50_000_000,
        }
    }

    fn cefi_event_exec(
        &mut self,
        is_trade: bool,
        tel: TelemetryTimestamps,
        market_id: u32,
        venue: u16,
        seq: u64,
        trade_id: u64,
        price: i64,
        size_range: (u64, u64),
        spread_range: (u64, u64),
        qty_range: (u64, u64),
    ) -> (e: SimulatedFeedEvent)
        requires
            1 <= spread_range.0 < spread_range.1 <= 15,
            size_range.0 < size_range.1 < u64::MAX,
            qty_range.0 < qty_range.1 < u64::MAX,
            1_00000000 <= price <= price_ceiling(),
        ensures
            (e, final(self).prng.state()) == cefi_event(old(self).prng.state(), is_trade, tel, market_id,
                venue, seq, trade_id, price, size_range, spread_range, qty_range),
            final(self).btc_cur_price == old(self).btc_cur_price,
            final(self).eth_cur_price == old(self).eth_cur_price,
            final(self).sol_cur_price == old(self).sol_cur_price,
            final(self).binance_seq == old(self).binance_seq,
            final(self).okx_seq == old(self).okx_seq,
            final(self).uniswap_seq == old(self).uniswap_seq,
            final(self).trade_id_counter == old(self).trade_id_counter,
    {
        if is_trade {
            let side: u8 = if (self.prng.next_u64() & 1) == 0 { 1 } else { 2 };
            let size = self.prng.gen_range(size_range.0, size_range.1);
            SimulatedFeedEvent::from_trade(
                UnifiedTrade {
                    telemetry: tel,
                    market_id,
                    venue,
                    chain: 0,
                    sequence: seq,
                    trade_id,
                    price,
                    size,
                    side,
                    is_liquidation: false,
                },
            )
        } else {
            let spread_bps = self.prng.gen_range(spread_range.0, spread_range.1) as u16;
            assert(price * spread_bps <= price_ceiling() * 15) by (nonlinear_arith)
                requires
                    0 <= price <= price_ceiling(),
                    spread_bps <= 15,
            ;
            let half_spread = (price * spread_bps as i64) / 20_000;
            let bid_price = price - half_spread;
            let ask_price = price + half_spread;
            let bid_qty = self.prng.gen_range(qty_range.0, qty_range.1);
            let ask_qty = self.prng.gen_range(qty_range.0, qty_range.1);
            SimulatedFeedEvent::from_bbo(
                NormalizedBbo {
                    telemetry: tel,
                    market_id,
                    venue,
                    chain: 0,
                    sequence: seq,
                    bid_price,
                    bid_qty,
                    ask_price,
                    ask_qty,
                    spread_bps,
                    flags: 0,
                },
            )
        }
    }

    fn walk_exec(&mut self, asset_choice: u64) -> (r: (u32, i64))
        requires
            asset_choice < 100,
            price_room(old(self).btc_cur_price, 1),
            price_room(old(self).eth_cur_price, 1),
            price_room(old(self).sol_cur_price, 1),
        ensures
            ({
                let (m, p, st_p) = walk(old(self).sim_state(), asset_choice, draw(old(self).prng.state()).0);
                &&& r == (m, p)
                &&& final(self).sim_state() == (SimState { prng: draw(old(self).prng.state()).1, ..st_p })
            }),
    {
        let (market_id, p0, tick_jump) = if asset_choice < 50 {
            (1001u32, self.btc_cur_price, 50_0000i64)
        } else if asset_choice < 85 {
            (1002u32, self.eth_cur_price, 10_0000i64)
        } else {
            (1003u32, self.sol_cur_price, 1_0000i64)
        };
        let delta = self.prng.gen_price_delta(tick_jump);
        let stepped = p0 + delta;
        let base_price: i64 = if stepped >= 1_00000000 { stepped } else { 1_00000000 };
        if market_id == 1001 {
            self.btc_cur_price = base_price;
        } else if market_id == 1002 {
            self.eth_cur_price = base_price;
        } else {
            self.sol_cur_price = base_price;
        }
        (market_id, base_price)
    }

    fn stamps_exec(&mut self, config: &FeedBurstConfig, i: usize, base_timestamp_ns: u64) -> (tel: TelemetryTimestamps)
        requires
            base_timestamp_ns + (i + 1) * 10 + jitter_cap(*config) + 2_300 <= u64::MAX,
            range_ok(config.jitter_min_ns, config.jitter_max_ns),
        ensures
            (tel, final(self).prng.state()) == stamps(old(self).prng.state(), *config, i as nat, base_timestamp_ns),
            final(self).sim_state() == (SimState { prng: final(self).prng.state(), ..old(self).sim_state() }),
    {
        let jitter_ns = self.prng.gen_range(config.jitter_min_ns, config.jitter_max_ns);
        let t0_exchange = base_timestamp_ns + (i as u64 * 10);
        let t1_nic = t0_exchange + jitter_ns;
        let t2_engine = t1_nic + self.prng.gen_range(500, 1_500);
        let t3_egress = t2_engine + self.prng.gen_range(200, 800);
        TelemetryTimestamps {
            t0_exchange_ns: t0_exchange,
            t1_ingest_nic_ns: t1_nic,
            t2_engine_proc_ns: t2_engine,
            t3_egress_ns: t3_egress,
        }
    }

    fn venue_event_exec(&mut self, venue_choice: u64, is_trade: bool, telemetry: TelemetryTimestamps, market_id: u32, base_price: i64) -> (e: SimulatedFeedEvent)
        requires
            1_00000000 <= base_price <= price_ceiling(),
            old(self).binance_seq < u64::MAX,
            old(self).okx_seq < u64::MAX,
            old(self).uniswap_seq < u64::MAX,
            old(self).trade_id_counter < u64::MAX,
        ensures
            (e, final(self).sim_state()) == venue_event(old(self).sim_state(), venue_choice, is_trade, telemetry, market_id, base_price),
    {
        if venue_choice < 5 {
            self.binance_seq = self.binance_seq + 1;
            if is_trade {
                self.trade_id_counter = self.trade_id_counter + 1;
            }
            let seq = self.binance_seq;
            let tid = self.trade_id_counter;
            self.cefi_event_exec(is_trade, telemetry, market_id, VenueId::Binance.as_u16(), seq, tid,
                base_price, (1_00000000, 25_00000000), (1, 3), (5_00000000, 50_00000000))
        } else if venue_choice < 8 {
            self.okx_seq = self.okx_seq + 1;
            if is_trade {
                self.trade_id_counter = self.trade_id_counter + 1;
            }
            let seq = self.okx_seq;
            let tid = self.trade_id_counter;
            self.cefi_event_exec(is_trade, telemetry, market_id, VenueId::Okx.as_u16(), seq, tid,
                base_price, (50000000, 15_00000000), (2, 5), (2_00000000, 30_00000000))
        } else {
            self.uniswap_seq = self.uniswap_seq + 1;
            let spread_bps = self.prng.gen_range(5, 15) as u16;
            assert(base_price * spread_bps <= price_ceiling() * 15) by (nonlinear_arith)
                requires
                    0 <= base_price <= price_ceiling(),
                    spread_bps <= 15,
            ;
            let half_spread = (base_price * spread_bps as i64) / 20_000;
            let bid_price = base_price - half_spread;
            let ask_price = base_price + half_spread;
            let pool_liquidity = self.prng.gen_range(50_00000000, 200_00000000);
            SimulatedFeedEvent::from_bbo(
                NormalizedBbo {
                    telemetry,
                    market_id,
                    venue: VenueId::UniswapV3.as_u16(),
                    chain: ChainId::Ethereum.as_u16(),
                    sequence: self.uniswap_seq,
                    bid_price,
                    bid_qty: pool_liquidity,
                    ask_price,
                    ask_qty: pool_liquidity,
                    spread_bps,
                    flags: 0x01,
                },
            )
        }
    }

    fn next_event(&mut self, config: &FeedBurstConfig, i: usize, base_timestamp_ns: u64) -> (e: SimulatedFeedEvent)
        requires
            burst_room(old(self).sim_state(), *config, 1, i as nat, base_timestamp_ns),
        ensures
            (e, final(self).sim_state()) == burst_step(old(self).sim_state(), *config, i as nat, base_timestamp_ns),
    {
        let venue_choice = self.prng.next_u64() % 10;
        let asset_choice = self.prng.next_u64() % 100;
        let is_trade = (self.prng.next_u64() % 100) < 15;
        proof {
            reveal(burst_step);
        }
        let (market_id, base_price) = self.walk_exec(asset_choice);
        let telemetry = self.stamps_exec(config, i, base_timestamp_ns);
        self.venue_event_exec(venue_choice, is_trade, telemetry, market_id, base_price)
    }

    /// Generates up to `config.burst_size` events into `out_buffer` (as many as
    /// fit) and returns how many were written; the rest of the buffer is kept.
    pub fn generate_burst(&mut self, config: &FeedBurstConfig, out_buffer: &mut [SimulatedFeedEvent], base_timestamp_ns: u64) -> (count: usize)
        requires
            burst_room(
                old(self).sim_state(),
                *config,
                (if config.burst_size < old(out_buffer)@.len() { config.burst_size as nat } else { old(out_buffer)@.len() }),
                0,
                base_timestamp_ns,
            ),
        ensures
            count == (if config.burst_size < old(out_buffer)@.len() { config.burst_size as nat } else { old(out_buffer)@.len() }),
            final(out_buffer)@.len() == old(out_buffer)@.len(),
            final(out_buffer)@.take(count as int) == burst(old(self).sim_state(), *config, count as nat, base_timestamp_ns).0,
            final(out_buffer)@.skip(count as int) == old(out_buffer)@.skip(count as int),
            final(self).sim_state() == burst(old(self).sim_state(), *config, count as nat, base_timestamp_ns).1,
    {
        let count = if config.burst_size < out_buffer.len() { config.burst_size } else { out_buffer.len() };
        let ghost st0 = self.sim_state();
        let ghost buf0 = out_buffer@;
        let mut i: usize = 0;
        while i < count
            invariant
                i <= count <= out_buffer@.len(),
                out_buffer@.len() == buf0.len(),
                out_buffer@.take(i as int) == burst(st0, *config, i as nat, base_timestamp_ns).0,
                out_buffer@.skip(i as int) == buf0.skip(i as int),
                self.sim_state() == burst(st0, *config, i as nat, base_timestamp_ns).1,
                burst_room(self.sim_state(), *config, (count - i) as nat, i as nat, base_timestamp_ns),
            decreases count - i,
        {
            let ghost before = out_buffer@;
            proof {
                assert((count - i - 1) as nat + 1 == (count - i) as nat);
            }
            let event = self.next_event(config, i, base_timestamp_ns);
            out_buffer[i] = event;
            proof {
                lemma_step_room(
                    burst(st0, *config, i as nat, base_timestamp_ns).1,
                    *config,
                    (count - i - 1) as nat,
                    i as nat,
                    base_timestamp_ns,
                );
                assert(out_buffer@.take(i + 1) =~= before.take(i as int).push(event));
                assert forall|k: int| 0 <= k < out_buffer@.len() - (i + 1) implies #[trigger] out_buffer@.skip(
                    i + 1,
                )[k] == buf0.skip(i + 1)[k] by {
                    assert(before.skip(i as int)[k + 1] == buf0.skip(i as int)[k + 1]);
                }
                assert(out_buffer@.skip(i + 1) =~= buf0.skip(i + 1));
            }
            i += 1;
        }
        count
    }
}

} // verus!
