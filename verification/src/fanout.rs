//! Fan-out primitives: packed 64-bit topic keys, client filter predicates and
//! the packed-word token bucket rate limiter.
use vstd::prelude::*;

verus! {

/// The packed key of venue, market, stream type and flags: venue in bits 63..56,
/// the low 24 bits of the market in 55..32, stream type in 31..24 and the low
/// 24 bits of the flags in 23..0.
pub open spec fn pack_topic(venue_id: u8, market_id: u32, stream_type: u8, flags: u32) -> u64 {
    (venue_id as nat * 0x100_0000_0000_0000 + (market_id as nat % 0x100_0000) * 0x1_0000_0000
        + stream_type as nat * 0x100_0000 + flags as nat % 0x100_0000) as u64
}

/// Compact 64-bit topic key.
#[derive(Clone, Copy, Debug, PartialEq, Eq, Hash, Structural)]
pub struct TopicKey(pub u64);

impl TopicKey {
    /// Venue field of the key.
    pub open spec fn venue_of(&self) -> u8 {
        (self.0 as nat / 0x100_0000_0000_0000) as u8
    }

    /// Market field of the key.
    pub open spec fn market_of(&self) -> u32 {
        ((self.0 as nat / 0x1_0000_0000) % 0x100_0000) as u32
    }

    /// Stream type field of the key.
    pub open spec fn stream_of(&self) -> u8 {
        ((self.0 as nat / 0x100_0000) % 0x100) as u8
    }

    pub fn new(venue_id: u8, market_id: u32, stream_type: u8, flags: u32) -> (r: Self)
        ensures
            r.0 == pack_topic(venue_id, market_id, stream_type, flags),
    {
        let v = venue_id as u64;
        let m = market_id as u64 & 0x00FF_FFFF;
        let s = stream_type as u64;
        let f = flags as u64 & 0x00FF_FFFF;
        proof {
            lemma_low24(market_id as u64);
            lemma_low24(flags as u64);
        }
        let key = (v << 56u64) | (m << 32u64) | (s << 24u64) | f;
        assert(key == v * 0x100_0000_0000_0000 + m * 0x1_0000_0000 + s * 0x100_0000 + f) by (bit_vector)
            requires
                v < 0x100,
                m < 0x100_0000,
                s < 0x100,
                f < 0x100_0000,
                key == (v << 56u64) | (m << 32u64) | (s << 24u64) | f,
        ;
        TopicKey(key)
    }

    pub fn venue_id(&self) -> (r: u8)
        ensures
            r == self.venue_of(),
    {
        let k = self.0;
        assert(k >> 56u64 == k / 0x100_0000_0000_0000) by (bit_vector);
        (k >> 56u64) as u8
    }

    pub fn market_id(&self) -> (r: u32)
        ensures
            r == self.market_of(),
    {
        let k = self.0;
        assert((k >> 32u64) & 0x00FF_FFFF == (k / 0x1_0000_0000) % 0x100_0000) by (bit_vector);
        ((k >> 32u64) & 0x00FF_FFFF) as u32
    }

    pub fn stream_type(&self) -> (r: u8)
        ensures
            r == self.stream_of(),
    {
        let k = self.0;
        assert((k >> 24u64) & 0xFF == (k / 0x100_0000) % 0x100) by (bit_vector);
        ((k >> 24u64) & 0xFF) as u8
    }
}

/// Packing a topic key and reading it back gives the venue, the low 24 bits of
/// the market and the stream type.
pub proof fn lemma_topic_roundtrip(venue_id: u8, market_id: u32, stream_type: u8, flags: u32)
    ensures
        TopicKey(pack_topic(venue_id, market_id, stream_type, flags)).venue_of() == venue_id,
        TopicKey(pack_topic(venue_id, market_id, stream_type, flags)).market_of() == market_id as nat % 0x100_0000,
        TopicKey(pack_topic(venue_id, market_id, stream_type, flags)).stream_of() == stream_type,
{
    let m = market_id as nat % 0x100_0000;
    let f = flags as nat % 0x100_0000;
    let k = venue_id as nat * 0x100_0000_0000_0000 + m * 0x1_0000_0000 + stream_type as nat * 0x100_0000 + f;
    assert(k < 0x1_0000_0000_0000_0000);
    assert(pack_topic(venue_id, market_id, stream_type, flags) == k);
    assert(k / 0x100_0000_0000_0000 == venue_id as nat);
    assert(k / 0x1_0000_0000 == venue_id as nat * 0x100_0000 + m);
    assert((venue_id as nat * 0x100_0000 + m) % 0x100_0000 == m);
    assert(k / 0x100_0000 == (venue_id as nat * 0x100_0000 + m) * 0x100 + stream_type as nat);
    assert(((venue_id as nat * 0x100_0000 + m) * 0x100 + stream_type as nat) % 0x100 == stream_type as nat);
}

/// Sign bit of an IEEE-754 binary64 bit pattern.
pub open spec fn f64_sign(x: u64) -> bool {
    x >= 0x8000_0000_0000_0000
}

/// Magnitude bits (all but the sign) of a binary64 bit pattern.
pub open spec fn f64_magnitude(x: u64) -> nat {
    x as nat % 0x8000_0000_0000_0000
}

/// The bit pattern encodes a NaN: all exponent bits set and a non-zero fraction.
pub open spec fn f64_is_nan(x: u64) -> bool {
    f64_magnitude(x) > 0x7ff0_0000_0000_0000
}

/// Position of a non-NaN binary64 value on the number line: its magnitude bits,
/// negated for a set sign (the magnitude bits order the values of one sign, and
/// both zeros map to 0).
pub open spec fn f64_rank(x: u64) -> int {
    if f64_sign(x) {
        -(f64_magnitude(x) as int)
    } else {
        f64_magnitude(x) as int
    }
}

/// IEEE-754 `a >= b` on binary64 bit patterns: false when either is a NaN.
pub open spec fn f64_ge(a: u64, b: u64) -> bool {
    !f64_is_nan(a) && !f64_is_nan(b) && f64_rank(a) >= f64_rank(b)
}

/// The low 24 bits of `x` are `x` modulo 2^24.
proof fn lemma_low24(x: u64)
    by (bit_vector)
    ensures
        x & 0x00FF_FFFF == x % 0x100_0000,
        x & 0x00FF_FFFF < 0x100_0000,
{
}

/// The bits of `x` above the low 24 are `x / 2^24`.
proof fn lemma_high40(x: u64)
    by (bit_vector)
    ensures
        x >> 24u64 == x / 0x100_0000,
{
}

/// The low 32 bits of `x` are `x` modulo 2^32.
proof fn lemma_low32(x: u64)
    by (bit_vector)
    ensures
        (x as u32) == x % 0x1_0000_0000,
{
}

/// The low 63 bits of `x` are `x` modulo 2^63.
proof fn lemma_low63(x: u64)
    by (bit_vector)
    ensures
        x & 0x7fff_ffff_ffff_ffff == x % 0x8000_0000_0000_0000,
{
}

/// IEEE-754 `a >= b` on the bit patterns of two binary64 values.
pub fn f64_bits_ge(a: u64, b: u64) -> (r: bool)
    ensures
        r == f64_ge(a, b),
{
    let ma = a & 0x7fff_ffff_ffff_ffff;
    let mb = b & 0x7fff_ffff_ffff_ffff;
    proof {
        lemma_low63(a);
        lemma_low63(b);
    }
    if ma > 0x7ff0_0000_0000_0000 || mb > 0x7ff0_0000_0000_0000 {
        return false;
    }
    let neg_a = a >= 0x8000_0000_0000_0000;
    let neg_b = b >= 0x8000_0000_0000_0000;
    if !neg_a && !neg_b {
        ma >= mb
    } else if neg_a && neg_b {
        ma <= mb
    } else if !neg_a {
        true
    } else {
        ma == 0 && mb == 0
    }
}

/// Dynamic subscription filter of a client. The notional threshold is held as
/// the bit pattern of a binary64 value.
#[derive(Clone, Copy, Debug, PartialEq, Eq, Structural)]
pub struct ClientFilterPredicate {
    /// Bit pattern of the minimum trade notional in USD.
    pub min_notional_usd_bits: u64,
    pub max_spread_bps: u32,
    pub min_gas_priority_gwei: u32,
    /// First 8 bytes of a contract or token address.
    pub target_prefix: u64,
}

/// The pass-everything filter: a zero threshold (+0.0) and no limits.
pub open spec fn pass_all_filter() -> ClientFilterPredicate {
    ClientFilterPredicate { min_notional_usd_bits: 0, max_spread_bps: 0, min_gas_priority_gwei: 0, target_prefix: 0 }
}

impl Default for ClientFilterPredicate {
    /// The pass-everything filter.
    fn default() -> (r: Self)
        ensures
            r == pass_all_filter(),
    {
        ClientFilterPredicate { min_notional_usd_bits: 0, max_spread_bps: 0, min_gas_priority_gwei: 0, target_prefix: 0 }
    }
}

impl ClientFilterPredicate {
    /// Whether a trade of notional `notional_usd_bits` (a binary64 bit pattern)
    /// reaches the threshold: IEEE `notional >= min_notional`.
    pub fn matches_trade(&self, notional_usd_bits: u64) -> (r: bool)
        ensures
            r == f64_ge(notional_usd_bits, self.min_notional_usd_bits),
    {
        f64_bits_ge(notional_usd_bits, self.min_notional_usd_bits)
    }

    /// Whether a mempool transaction's priority fee reaches the threshold.
    pub fn matches_mempool(&self, priority_fee_gwei: u32) -> (r: bool)
        ensures
            r == (priority_fee_gwei >= self.min_gas_priority_gwei),
    {
        priority_fee_gwei >= self.min_gas_priority_gwei
    }
}

/// Last refill time (ms) of a bucket word: its upper 40 bits.
pub open spec fn bucket_time(state: u64) -> nat {
    state as nat / 0x100_0000
}

/// Token balance of a bucket word: its lower 24 bits.
pub open spec fn bucket_tokens(state: u64) -> nat {
    state as nat % 0x100_0000
}

/// A bucket word of refill time `time_ms` (its low 40 bits kept) and `tokens`
/// (low 24 bits kept).
pub open spec fn bucket_word(time_ms: u64, tokens: nat) -> u64 {
    ((time_ms as nat % 0x100_0000_0000) * 0x100_0000 + tokens % 0x100_0000) as u64
}

/// Tokens available at `now_ms`: the balance plus `elapsed * rate / 1000`
/// refilled since the last refill, capped at the capacity.
pub open spec fn tokens_at(state: u64, rate: u32, capacity: u32, now_ms: u64) -> nat {
    let avail = bucket_tokens(state);
    if now_ms > bucket_time(state) {
        let refilled = (((now_ms - bucket_time(state)) * rate / 1000) as nat) % 0x1_0000_0000;
        if avail + refilled < capacity {
            avail + refilled
        } else {
            capacity as nat
        }
    } else {
        avail
    }
}

/// Token bucket rate limiter whose refill time (ms, upper 40 bits) and token
/// balance (lower 24 bits) share one 64-bit word.
#[derive(Clone, Copy)]
pub struct LockFreeTokenBucket {
    state: u64,
    refill_rate_per_sec: u32,
    burst_capacity: u32,
}

impl LockFreeTokenBucket {
    /// The packed state word.
    pub closed spec fn word(&self) -> u64 {
        self.state
    }

    pub closed spec fn rate(&self) -> u32 {
        self.refill_rate_per_sec
    }

    pub closed spec fn capacity(&self) -> u32 {
        self.burst_capacity
    }

    /// A full bucket refilled at `initial_time_ms`.
    pub fn new(rate_per_sec: u32, capacity: u32, initial_time_ms: u64) -> (r: Self)
        ensures
            r.word() == bucket_word(initial_time_ms, capacity as nat),
            r.rate() == rate_per_sec,
            r.capacity() == capacity,
    {
        let c = capacity as u64 & 0x00FF_FFFF;
        let state = (initial_time_ms << 24u64) | c;
        proof {
            lemma_low24(capacity as u64);
            lemma_pack_bucket(initial_time_ms, c, state);
        }
        LockFreeTokenBucket { state, refill_rate_per_sec: rate_per_sec, burst_capacity: capacity }
    }

    /// Whether `tokens` can be taken at `now_ms`.
    pub open spec fn can_take(&self, tokens: u32, now_ms: u64) -> bool {
        tokens_at(self.word(), self.rate(), self.capacity(), now_ms) >= tokens
    }

    /// The bucket after taking `tokens` at `now_ms`: the word records `now_ms`
    /// and the remaining balance.
    pub closed spec fn taken(&self, tokens: u32, now_ms: u64) -> Self {
        LockFreeTokenBucket {
            state: bucket_word(now_ms, (tokens_at(self.word(), self.rate(), self.capacity(), now_ms) - tokens) as nat),
            ..*self
        }
    }

    /// Taking tokens keeps the rate and the capacity and records the word.
    pub proof fn lemma_taken(&self, tokens: u32, now_ms: u64)
        ensures
            self.taken(tokens, now_ms).rate() == self.rate(),
            self.taken(tokens, now_ms).capacity() == self.capacity(),
            self.taken(tokens, now_ms).word() == bucket_word(
                now_ms,
                (tokens_at(self.word(), self.rate(), self.capacity(), now_ms) - tokens) as nat,
            ),
    {
    }

    /// The refill arithmetic at `now_ms` stays in range.
    pub open spec fn refill_fits(&self, now_ms: u64) -> bool {
        now_ms > bucket_time(self.word()) ==> {
            let refilled = (((now_ms - bucket_time(self.word())) * self.rate() / 1000) as nat) % 0x1_0000_0000;
            &&& (now_ms - bucket_time(self.word())) * self.rate() <= u64::MAX
            &&& bucket_tokens(self.word()) + refilled <= u32::MAX
        }
    }

    /// Whether the refill arithmetic at `now_ms` stays in range.
    pub fn refill_fits_at(&self, now_ms: u64) -> (r: bool)
        ensures
            r == self.refill_fits(now_ms),
    {
        let curr = self.state;
        let last_refill_ms = curr >> 24u64;
        proof {
            lemma_high40(curr);
            lemma_low24(curr);
        }
        if now_ms <= last_refill_ms {
            return true;
        }
        let elapsed_ms = now_ms - last_refill_ms;
        match elapsed_ms.checked_mul(self.refill_rate_per_sec as u64) {
            None => false,
            Some(p) => {
                let q = p / 1000;
                proof {
                    lemma_low32(q);
                }
                let available_tokens = (curr & 0x00FF_FFFF) as u32;
                available_tokens.checked_add(q as u32).is_some()
            },
        }
    }

    /// Takes `tokens` if the refilled balance at `now_ms` holds them: the word
    /// then records `now_ms` and the remaining balance; otherwise nothing
    /// changes.
    pub fn try_consume(&mut self, tokens: u32, now_ms: u64) -> (r: bool)
        requires
            old(self).refill_fits(now_ms),
        ensures
            final(self).rate() == old(self).rate(),
            final(self).capacity() == old(self).capacity(),
            r == (tokens_at(old(self).word(), old(self).rate(), old(self).capacity(), now_ms) >= tokens),
            r ==> final(self).word() == bucket_word(
                now_ms,
                (tokens_at(old(self).word(), old(self).rate(), old(self).capacity(), now_ms) - tokens) as nat,
            ),
            !r ==> final(self).word() == old(self).word(),
            r == old(self).can_take(tokens, now_ms),
            r ==> *final(self) == old(self).taken(tokens, now_ms),
            !r ==> *final(self) == *old(self),
    {
        let curr = self.state;
        let last_refill_ms = curr >> 24u64;
        let mut available_tokens = (curr & 0x00FF_FFFF) as u32;
        proof {
            lemma_high40(curr);
            lemma_low24(curr);
        }
        if now_ms > last_refill_ms {
            let elapsed_ms = now_ms - last_refill_ms;
            let q = elapsed_ms * self.refill_rate_per_sec as u64 / 1000;
            let refilled = q as u32;
            proof {
                lemma_low32(q);
            }
            let sum = available_tokens + refilled;
            available_tokens = if sum < self.burst_capacity { sum } else { self.burst_capacity };
        }
        if available_tokens < tokens {
            return false;
        }
        let new_tokens = available_tokens - tokens;
        let t = new_tokens as u64 & 0x00FF_FFFF;
        let next = (now_ms << 24u64) | t;
        proof {
            lemma_low24(new_tokens as u64);
            lemma_pack_bucket(now_ms, t, next);
        }
        self.state = next;
        true
    }
}

/// A bucket never holds more than its capacity (below 2^24): a consumption from
/// a balance within capacity leaves a balance within capacity.
pub proof fn lemma_bucket_within_capacity(word: u64, rate: u32, capacity: u32, now_ms: u64, tokens: u32)
    requires
        capacity < 0x100_0000,
        bucket_tokens(word) <= capacity,
        tokens_at(word, rate, capacity, now_ms) >= tokens,
    ensures
        tokens_at(word, rate, capacity, now_ms) <= capacity,
        bucket_tokens(bucket_word(now_ms, (tokens_at(word, rate, capacity, now_ms) - tokens) as nat)) <= capacity,
{
    let left = (tokens_at(word, rate, capacity, now_ms) - tokens) as nat;
    let hi = now_ms as nat % 0x100_0000_0000;
    assert(hi * 0x100_0000 + left < 0x1_0000_0000_0000_0000) by (nonlinear_arith)
        requires
            hi < 0x100_0000_0000,
            left < 0x100_0000,
    ;
    vstd::arithmetic::div_mod::lemma_mod_multiples_vanish(hi as int, left as int, 0x100_0000);
    vstd::arithmetic::div_mod::lemma_small_mod(left, 0x100_0000);
}

proof fn lemma_pack_bucket(time_ms: u64, t: u64, word: u64)
    requires
        t < 0x100_0000,
        word == (time_ms << 24u64) | t,
    ensures
        word == bucket_word(time_ms, t as nat),
{
    assert(word == (time_ms % 0x100_0000_0000) * 0x100_0000 + t) by (bit_vector)
        requires
            t < 0x100_0000,
            word == (time_ms << 24u64) | t,
    ;
}

} // verus!
