//! Per-client session state: wire protocol, lifecycle, filter, rate limiter,
//! heartbeat and delivery accounting.
use vstd::prelude::*;
use crate::fanout::{ClientFilterPredicate, LockFreeTokenBucket, tokens_at};

verus! {

/// Negotiated wire encoding of a client.
#[derive(Clone, Copy, Debug, PartialEq, Eq, Structural)]
pub enum WireProtocol {
    /// Simple Binary Encoding.
    Sbe,
    /// JSON text.
    Json,
}

/// Connection lifecycle state.
#[derive(Clone, Copy, Debug, PartialEq, Eq, Structural)]
pub enum SessionState {
    Disconnected,
    Connected,
    Subscribed,
    Closed,
}

/// The state stored under code `v` (unknown codes read as disconnected).
pub open spec fn state_of_code(v: u8) -> SessionState {
    if v == 1 {
        SessionState::Connected
    } else if v == 2 {
        SessionState::Subscribed
    } else if v == 3 {
        SessionState::Closed
    } else {
        SessionState::Disconnected
    }
}

impl SessionState {
    /// The state's code.
    pub open spec fn code(self) -> u8 {
        match self {
            SessionState::Disconnected => 0,
            SessionState::Connected => 1,
            SessionState::Subscribed => 2,
            SessionState::Closed => 3,
        }
    }

    pub fn as_u8(self) -> (r: u8)
        ensures
            r == self.code(),
    {
        match self {
            SessionState::Disconnected => 0,
            SessionState::Connected => 1,
            SessionState::Subscribed => 2,
            SessionState::Closed => 3,
        }
    }
}

impl From<u8> for SessionState {
    fn from(val: u8) -> (r: Self) {
        if val == 1 {
            SessionState::Connected
        } else if val == 2 {
            SessionState::Subscribed
        } else if val == 3 {
            SessionState::Closed
        } else {
            SessionState::Disconnected
        }
    }
}

impl vstd::std_specs::convert::FromSpecImpl<u8> for SessionState {
    open spec fn obeys_from_spec() -> bool {
        true
    }

    open spec fn from_spec(v: u8) -> SessionState {
        state_of_code(v)
    }
}

/// Per-client session metadata and state.
#[derive(Clone, Copy)]
pub struct ClientSession {
    pub id: u32,
    pub protocol: WireProtocol,
    /// Code of the lifecycle state (see [`SessionState::code`]).
    pub state: u8,
    pub rate_limiter: LockFreeTokenBucket,
    pub filter: ClientFilterPredicate,
    pub last_ping_ts_ns: u64,
    pub last_pong_ts_ns: u64,
    pub messages_sent: u64,
    pub bytes_sent: u64,
    pub dropped_rate_limit: u64,
}

/// A session just connected at `now_ms`: state Connected, a full bucket of
/// `burst_capacity` tokens refilled at `rate_per_sec`, the pass-all filter and
/// no pings, pongs or deliveries yet.
pub open spec fn fresh_session(
    s: ClientSession,
    id: u32,
    protocol: WireProtocol,
    rate_per_sec: u32,
    burst_capacity: u32,
    now_ms: u64,
) -> bool {
    &&& s.id == id
    &&& s.protocol == protocol
    &&& s.state == SessionState::Connected.code()
    &&& s.current_state() == SessionState::Connected
    &&& s.rate_limiter.word() == crate::fanout::bucket_word(now_ms, burst_capacity as nat)
    &&& s.rate_limiter.rate() == rate_per_sec
    &&& s.rate_limiter.capacity() == burst_capacity
    &&& s.filter == crate::fanout::pass_all_filter()
    &&& s.last_ping_ts_ns == 0
    &&& s.last_pong_ts_ns == 0
    &&& s.messages_sent == 0
    &&& s.bytes_sent == 0
    &&& s.dropped_rate_limit == 0
}

/// `t - s`, or zero when `s > t`.
pub open spec fn since(t: u64, s: u64) -> nat {
    if t >= s {
        (t - s) as nat
    } else {
        0
    }
}

/// `x + 1`, wrapping at 2^64.
pub open spec fn wrap_inc(x: u64) -> u64 {
    vstd::wrapping::u64_specs::wrapping_add(x, 1)
}

impl ClientSession {
    /// The session's lifecycle state.
    pub open spec fn current_state(&self) -> SessionState {
        state_of_code(self.state)
    }

    /// Connected or subscribed.
    pub open spec fn is_active_spec(&self) -> bool {
        self.current_state() == SessionState::Connected || self.current_state() == SessionState::Subscribed
    }

    /// A connected session with a full rate limiter and the pass-all filter.
    pub fn new(id: u32, protocol: WireProtocol, rate_per_sec: u32, burst_capacity: u32, now_ms: u64) -> (r: Self)
        ensures
            fresh_session(r, id, protocol, rate_per_sec, burst_capacity, now_ms),
    {
        ClientSession {
            id,
            protocol,
            state: SessionState::Connected.as_u8(),
            rate_limiter: LockFreeTokenBucket::new(rate_per_sec, burst_capacity, now_ms),
            filter: ClientFilterPredicate::default(),
            last_ping_ts_ns: 0,
            last_pong_ts_ns: 0,
            messages_sent: 0,
            bytes_sent: 0,
            dropped_rate_limit: 0,
        }
    }

    /// The same session with `filter` as its filter.
    pub fn with_filter(self, filter: ClientFilterPredicate) -> (r: Self)
        ensures
            r.filter == filter,
            r.id == self.id,
            r.protocol == self.protocol,
            r.state == self.state,
            r.rate_limiter == self.rate_limiter,
            r.last_ping_ts_ns == self.last_ping_ts_ns,
            r.last_pong_ts_ns == self.last_pong_ts_ns,
            r.messages_sent == self.messages_sent,
            r.bytes_sent == self.bytes_sent,
            r.dropped_rate_limit == self.dropped_rate_limit,
    {
        let mut s = self;
        s.filter = filter;
        s
    }

    pub fn state(&self) -> (r: SessionState)
        ensures
            r == self.current_state(),
    {
        SessionState::from(self.state)
    }

    pub fn set_state(&mut self, new_state: SessionState)
        ensures
            final(self).current_state() == new_state,
            final(self).state == new_state.code(),
            *final(self) == (ClientSession { state: new_state.code(), ..*old(self) }),
            final(self).id == old(self).id,
            final(self).protocol == old(self).protocol,
            final(self).rate_limiter == old(self).rate_limiter,
            final(self).filter == old(self).filter,
            final(self).last_ping_ts_ns == old(self).last_ping_ts_ns,
            final(self).last_pong_ts_ns == old(self).last_pong_ts_ns,
            final(self).messages_sent == old(self).messages_sent,
            final(self).bytes_sent == old(self).bytes_sent,
            final(self).dropped_rate_limit == old(self).dropped_rate_limit,
    {
        self.state = new_state.as_u8();
    }

    /// Connected or subscribed.
    pub fn is_active(&self) -> (r: bool)
        ensures
            r == (self.current_state() == SessionState::Connected || self.current_state()
                == SessionState::Subscribed),
    {
        let s = self.state();
        match s {
            SessionState::Connected => true,
            SessionState::Subscribed => true,
            _ => false,
        }
    }

    pub fn record_ping(&mut self, ts_ns: u64)
        ensures
            final(self).last_ping_ts_ns == ts_ns,
            final(self).state == old(self).state,
            final(self).last_pong_ts_ns == old(self).last_pong_ts_ns,
    {
        self.last_ping_ts_ns = ts_ns;
    }

    pub fn record_pong(&mut self, ts_ns: u64)
        ensures
            final(self).last_pong_ts_ns == ts_ns,
            final(self).state == old(self).state,
            final(self).last_ping_ts_ns == old(self).last_ping_ts_ns,
    {
        self.last_pong_ts_ns = ts_ns;
    }

    /// Healthy when the last pong (or, before any pong, the last ping, if any)
    /// is at most `timeout_ns` old.
    pub fn is_heartbeat_healthy(&self, now_ns: u64, timeout_ns: u64) -> (r: bool)
        ensures
            r == (if self.last_pong_ts_ns == 0 {
                self.last_ping_ts_ns == 0 || since(now_ns, self.last_ping_ts_ns) <= timeout_ns
            } else {
                since(now_ns, self.last_pong_ts_ns) <= timeout_ns
            }),
    {
        let last_pong = self.last_pong_ts_ns;
        if last_pong == 0 {
            let last_ping = self.last_ping_ts_ns;
            last_ping == 0 || now_ns.saturating_sub(last_ping) <= timeout_ns
        } else {
            now_ns.saturating_sub(last_pong) <= timeout_ns
        }
    }

    /// Takes `tokens` from the rate limiter; a refusal is counted.
    pub fn try_consume_token(&mut self, tokens: u32, now_ms: u64) -> (r: bool)
        requires
            old(self).rate_limiter.refill_fits(now_ms),
        ensures
            r == (tokens_at(
                old(self).rate_limiter.word(),
                old(self).rate_limiter.rate(),
                old(self).rate_limiter.capacity(),
                now_ms,
            ) >= tokens),
            r ==> final(self).rate_limiter.word() == crate::fanout::bucket_word(
                now_ms,
                (tokens_at(
                    old(self).rate_limiter.word(),
                    old(self).rate_limiter.rate(),
                    old(self).rate_limiter.capacity(),
                    now_ms,
                ) - tokens) as nat,
            ),
            !r ==> final(self).rate_limiter.word() == old(self).rate_limiter.word(),
            r == old(self).rate_limiter.can_take(tokens, now_ms),
            r ==> final(self).rate_limiter == old(self).rate_limiter.taken(tokens, now_ms),
            !r ==> final(self).rate_limiter == old(self).rate_limiter,
            final(self).rate_limiter.rate() == old(self).rate_limiter.rate(),
            final(self).rate_limiter.capacity() == old(self).rate_limiter.capacity(),
            *final(self) == (if r {
                ClientSession { rate_limiter: old(self).rate_limiter.taken(tokens, now_ms), ..*old(self) }
            } else {
                ClientSession { dropped_rate_limit: wrap_inc(old(self).dropped_rate_limit), ..*old(self) }
            }),
            final(self).dropped_rate_limit == (if r {
                old(self).dropped_rate_limit
            } else {
                wrap_inc(old(self).dropped_rate_limit)
            }),
            final(self).id == old(self).id,
            final(self).protocol == old(self).protocol,
            final(self).state == old(self).state,
            final(self).filter == old(self).filter,
            final(self).messages_sent == old(self).messages_sent,
            final(self).bytes_sent == old(self).bytes_sent,
    {
        let allowed = self.rate_limiter.try_consume(tokens, now_ms);
        if !allowed {
            self.dropped_rate_limit = self.dropped_rate_limit.wrapping_add(1);
        }
        allowed
    }

    /// Counts one delivered message of `bytes` bytes (both counters wrap).
    pub fn record_delivery(&mut self, bytes: usize)
        ensures
            final(self).messages_sent == wrap_inc(old(self).messages_sent),
            final(self).bytes_sent == vstd::wrapping::u64_specs::wrapping_add(old(self).bytes_sent, bytes as u64),
            *final(self) == (ClientSession {
                messages_sent: wrap_inc(old(self).messages_sent),
                bytes_sent: vstd::wrapping::u64_specs::wrapping_add(old(self).bytes_sent, bytes as u64),
                ..*old(self)
            }),
            final(self).id == old(self).id,
            final(self).protocol == old(self).protocol,
            final(self).state == old(self).state,
            final(self).rate_limiter == old(self).rate_limiter,
            final(self).filter == old(self).filter,
            final(self).dropped_rate_limit == old(self).dropped_rate_limit,
    {
        self.messages_sent = self.messages_sent.wrapping_add(1);
        self.bytes_sent = self.bytes_sent.wrapping_add(bytes as u64);
    }
}

} // verus!
