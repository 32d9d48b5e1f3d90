//! Inverted topic router: topic keys map to client bitmaps, and a quote or a
//! trade fans out to the subscribed clients that pass their filters and rate
//! limits, in the wire encoding each negotiated.
use vstd::prelude::*;
use crate::bitmap::{
    ClientBitmap, MAX_CLIENT_CAPACITY, DEFAULT_BITMAP_WORDS, ids_below, lemma_ids_are_members, lemma_ids_below,
    lemma_ids_below_len,
};
use crate::fanout::{TopicKey, ClientFilterPredicate, f64_ge, pack_topic};
use crate::session::{ClientSession, SessionState, WireProtocol, wrap_inc};
use crate::sbe::{encode_bbo_sbe, encode_trade_sbe, bbo_wire, trade_wire, TOTAL_SBE_BBO_LEN, TOTAL_SBE_TRADE_LEN};
use crate::fast_json::{serialize_bbo_json, serialize_trade_json, bbo_json, trade_json};
use crate::models::{NormalizedBbo, UnifiedTrade};

verus! {

pub const STREAM_TYPE_BBO: u8 = 1;
pub const STREAM_TYPE_DEPTH: u8 = 2;
pub const STREAM_TYPE_TRADE: u8 = 3;
pub const STREAM_TYPE_MEMPOOL: u8 = 4;

/// Size of the JSON scratch buffer a dispatch encodes into.
pub const JSON_SCRATCH_LEN: usize = 512;

#[derive(Debug, Clone, Copy, PartialEq, Eq, Structural)]
pub enum RouterError {
    ClientAlreadyExists(u32),
    ClientNotFound(u32),
    CapacityExceeded,
    LockPoisoned,
}

/// Outcome counters of one dispatch.
#[derive(Clone, Copy, Debug, PartialEq, Eq, Structural)]
pub struct DispatchMetrics {
    pub matched_clients: usize,
    pub delivered_clients: usize,
    pub filtered_clients: usize,
    pub rate_limited_clients: usize,
    pub sbe_bytes_dispatched: usize,
    pub json_bytes_dispatched: usize,
}

/// All counters at zero.
pub open spec fn zero_dispatch() -> DispatchMetrics {
    DispatchMetrics {
        matched_clients: 0,
        delivered_clients: 0,
        filtered_clients: 0,
        rate_limited_clients: 0,
        sbe_bytes_dispatched: 0,
        json_bytes_dispatched: 0,
    }
}

impl Default for DispatchMetrics {
    fn default() -> (r: Self)
        ensures
            r == zero_dispatch(),
    {
        DispatchMetrics {
            matched_clients: 0,
            delivered_clients: 0,
            filtered_clients: 0,
            rate_limited_clients: 0,
            sbe_bytes_dispatched: 0,
            json_bytes_dispatched: 0,
        }
    }
}

/// A message handed to a client's sink: the client, its encoding and the bytes.
pub struct Delivery {
    pub client_id: u32,
    pub protocol: WireProtocol,
    pub payload: Vec<u8>,
}

/// The delivery as plain values.
pub open spec fn delivery_view(d: Delivery) -> (u32, WireProtocol, Seq<u8>) {
    (d.client_id, d.protocol, d.payload@)
}

/// Index of the client with `id` in `cs`, or -1.
pub open spec fn client_index(cs: Seq<ClientSession>, id: u32) -> int {
    if exists|i: int| 0 <= i < cs.len() && cs[i].id == id {
        choose|i: int| 0 <= i < cs.len() && cs[i].id == id
    } else {
        -1
    }
}

/// Index of the entry of topic `key` in `ts`, or -1.
pub open spec fn topic_index(ts: Seq<(TopicKey, ClientBitmap)>, key: u64) -> int {
    if exists|i: int| 0 <= i < ts.len() && ts[i].0.0 == key {
        choose|i: int| 0 <= i < ts.len() && ts[i].0.0 == key
    } else {
        -1
    }
}

/// The subscribers of topic `key` (none for an unknown topic).
pub open spec fn subscribers(ts: Seq<(TopicKey, ClientBitmap)>, key: u64) -> Set<u32> {
    if topic_index(ts, key) >= 0 {
        ts[topic_index(ts, key)].1@
    } else {
        Set::empty()
    }
}

/// The topic entries as keys and subscriber sets.
pub open spec fn topic_sets(ts: Seq<(TopicKey, ClientBitmap)>) -> Seq<(u64, Set<u32>)> {
    ts.map_values(|e: (TopicKey, ClientBitmap)| (e.0.0, e.1@))
}

/// Each id, and each topic key, occurs once.
pub open spec fn distinct_entries(cs: Seq<ClientSession>, ts: Seq<(TopicKey, ClientBitmap)>) -> bool {
    &&& forall|i: int, j: int| 0 <= i < j < cs.len() ==> cs[i].id != cs[j].id
    &&& forall|i: int, j: int| 0 <= i < j < ts.len() ==> ts[i].0.0 != ts[j].0.0
}

/// What a dispatch has done so far: the sessions, the counters and the
/// deliveries.
pub struct DispatchState {
    pub clients: Seq<ClientSession>,
    pub metrics: DispatchMetrics,
    pub deliveries: Seq<(u32, WireProtocol, Seq<u8>)>,
}

/// One candidate client: counted as matched; skipped when unknown or inactive;
/// counted as filtered when its filter blocks the message; counted as rate
/// limited when its bucket refuses a token; otherwise, when its encoding of the
/// message exists, delivered and its bytes counted.
pub open spec fn dispatch_step(
    st: DispatchState,
    id: u32,
    now_ms: u64,
    blocks: spec_fn(ClientFilterPredicate) -> bool,
    sbe: Seq<u8>,
    json: Option<Seq<u8>>,
) -> DispatchState {
    let m = DispatchMetrics { matched_clients: (st.metrics.matched_clients + 1) as usize, ..st.metrics };
    let i = client_index(st.clients, id);
    if i < 0 {
        DispatchState { metrics: m, ..st }
    } else {
        let s = st.clients[i];
        if !s.is_active_spec() {
            DispatchState { metrics: m, ..st }
        } else if blocks(s.filter) {
            DispatchState {
                metrics: DispatchMetrics { filtered_clients: (m.filtered_clients + 1) as usize, ..m },
                ..st
            }
        } else if !s.rate_limiter.can_take(1, now_ms) {
            let s2 = ClientSession { dropped_rate_limit: wrap_inc(s.dropped_rate_limit), ..s };
            DispatchState {
                clients: st.clients.update(i, s2),
                metrics: DispatchMetrics { rate_limited_clients: (m.rate_limited_clients + 1) as usize, ..m },
                ..st
            }
        } else {
            let s2 = ClientSession { rate_limiter: s.rate_limiter.taken(1, now_ms), ..s };
            let payload: Option<Seq<u8>> = match s.protocol {
                WireProtocol::Sbe => Some(sbe),
                WireProtocol::Json => json,
            };
            match payload {
                None => DispatchState { clients: st.clients.update(i, s2), metrics: m, ..st },
                Some(p) => {
                    let s3 = ClientSession {
                        messages_sent: wrap_inc(s2.messages_sent),
                        bytes_sent: vstd::wrapping::u64_specs::wrapping_add(s2.bytes_sent, p.len() as u64),
                        ..s2
                    };
                    let m2 = DispatchMetrics { delivered_clients: (m.delivered_clients + 1) as usize, ..m };
                    let m3 = match s.protocol {
                        WireProtocol::Sbe => DispatchMetrics {
                            sbe_bytes_dispatched: (m2.sbe_bytes_dispatched + p.len()) as usize,
                            ..m2
                        },
                        WireProtocol::Json => DispatchMetrics {
                            json_bytes_dispatched: (m2.json_bytes_dispatched + p.len()) as usize,
                            ..m2
                        },
                    };
                    DispatchState {
                        clients: st.clients.update(i, s3),
                        metrics: m3,
                        deliveries: st.deliveries.push((id, s.protocol, p)),
                    }
                },
            }
        }
    }
}

/// The candidates processed in order.
pub open spec fn dispatch_all(
    st: DispatchState,
    ids: Seq<u32>,
    now_ms: u64,
    blocks: spec_fn(ClientFilterPredicate) -> bool,
    sbe: Seq<u8>,
    json: Option<Seq<u8>>,
) -> DispatchState
    decreases ids.len(),
{
    if ids.len() == 0 {
        st
    } else {
        dispatch_step(dispatch_all(st, ids.drop_last(), now_ms, blocks, sbe, json), ids.last(), now_ms, blocks, sbe, json)
    }
}

/// A quote is blocked by a positive spread limit below its spread.
pub open spec fn bbo_blocks(spread_bps: u16) -> spec_fn(ClientFilterPredicate) -> bool {
    |f: ClientFilterPredicate| f.max_spread_bps > 0 && spread_bps as u32 > f.max_spread_bps
}

/// A trade is blocked when its notional does not reach the threshold.
pub open spec fn trade_blocks(notional_usd_bits: u64) -> spec_fn(ClientFilterPredicate) -> bool {
    |f: ClientFilterPredicate| !f64_ge(notional_usd_bits, f.min_notional_usd_bits)
}

/// The JSON payload if it fits the scratch buffer.
pub open spec fn json_payload(doc: Seq<u8>) -> Option<Seq<u8>> {
    if doc.len() <= JSON_SCRATCH_LEN {
        Some(doc)
    } else {
        None
    }
}

/// Topic key to client bitmap index with the registered client sessions.
pub struct InvertedTopicRouter {
    topics: Vec<(TopicKey, ClientBitmap)>,
    clients: Vec<ClientSession>,
}

impl InvertedTopicRouter {
    /// The topic entries.
    pub closed spec fn topic_entries(&self) -> Seq<(TopicKey, ClientBitmap)> {
        self.topics@
    }

    /// The registered sessions, in registration order.
    pub closed spec fn sessions(&self) -> Seq<ClientSession> {
        self.clients@
    }

    pub open spec fn wf(&self) -> bool {
        distinct_entries(self.sessions(), self.topic_entries())
    }

    /// An empty router.
    pub fn new() -> (r: Self)
        ensures
            r.wf(),
            r.sessions() == Seq::<ClientSession>::empty(),
            r.topic_entries() == Seq::<(TopicKey, ClientBitmap)>::empty(),
    {
        InvertedTopicRouter { topics: Vec::new(), clients: Vec::new() }
    }

    fn find_client(&self, id: u32) -> (r: Option<usize>)
        requires
            self.wf(),
        ensures
            match r {
                Some(i) => i < self.sessions().len() && self.sessions()[i as int].id == id && client_index(
                    self.sessions(),
                    id,
                ) == i,
                None => client_index(self.sessions(), id) == -1,
            },
    {
        let mut i: usize = 0;
        while i < self.clients.len()
            invariant
                i <= self.clients@.len(),
                forall|k: int| 0 <= k < i ==> self.clients@[k].id != id,
                self.wf(),
            decreases self.clients@.len() - i,
        {
            if self.clients[i].id == id {
                proof {
                    let cs = self.clients@;
                    assert(cs[i as int].id == id);
                    let j = choose|j: int| 0 <= j < cs.len() && cs[j].id == id;
                    if j < i {
                        assert(cs[j].id != cs[i as int].id);
                    } else if j > i {
                        assert(cs[i as int].id != cs[j].id);
                    }
                }
                return Some(i);
            }
            i += 1;
        }
        None
    }

    fn find_topic(&self, key: u64) -> (r: Option<usize>)
        requires
            self.wf(),
        ensures
            match r {
                Some(i) => i < self.topic_entries().len() && self.topic_entries()[i as int].0.0 == key
                    && topic_index(self.topic_entries(), key) == i,
                None => topic_index(self.topic_entries(), key) == -1,
            },
    {
        let mut i: usize = 0;
        while i < self.topics.len()
            invariant
                i <= self.topics@.len(),
                forall|k: int| 0 <= k < i ==> self.topics@[k].0.0 != key,
                self.wf(),
            decreases self.topics@.len() - i,
        {
            if self.topics[i].0.0 == key {
                proof {
                    let ts = self.topics@;
                    assert(ts[i as int].0.0 == key);
                    let j = choose|j: int| 0 <= j < ts.len() && ts[j].0.0 == key;
                    if j < i {
                        assert(ts[j].0.0 != ts[i as int].0.0);
                    } else if j > i {
                        assert(ts[i as int].0.0 != ts[j].0.0);
                    }
                }
                return Some(i);
            }
            i += 1;
        }
        None
    }

    /// Registers `session`; refused when its id is taken.
    pub fn register_client(&mut self, session: ClientSession) -> (r: Result<u32, RouterError>)
        requires
            old(self).wf(),
        ensures
            final(self).wf(),
            final(self).topic_entries() == old(self).topic_entries(),
            client_index(old(self).sessions(), session.id) >= 0 ==> r == Err::<u32, RouterError>(
                RouterError::ClientAlreadyExists(session.id),
            ) && final(self).sessions() == old(self).sessions(),
            client_index(old(self).sessions(), session.id) < 0 ==> r == Ok::<u32, RouterError>(session.id)
                && final(self).sessions() == old(self).sessions().push(session),
    {
        let id = session.id;
        if self.find_client(id).is_some() {
            return Err(RouterError::ClientAlreadyExists(id));
        }
        self.clients.push(session);
        Ok(id)
    }

    /// Unregisters a client and removes it from every topic, dropping topics
    /// left without subscribers.
    pub fn unregister_client(&mut self, client_id: u32) -> (r: Result<(), RouterError>)
        requires
            old(self).wf(),
        ensures
            final(self).wf(),
            client_index(old(self).sessions(), client_id) < 0 ==> r == Err::<(), RouterError>(
                RouterError::ClientNotFound(client_id),
            ) && final(self).sessions() == old(self).sessions() && final(self).topic_entries() == old(
                self,
            ).topic_entries(),
            client_index(old(self).sessions(), client_id) >= 0 ==> {
                &&& r is Ok
                &&& final(self).sessions() == old(self).sessions().remove(
                    client_index(old(self).sessions(), client_id),
                )
                &&& topic_sets(final(self).topic_entries()) == strip_client(topic_sets(old(self).topic_entries()), client_id)
            },
    {
        let idx = match self.find_client(client_id) {
            None => {
                return Err(RouterError::ClientNotFound(client_id));
            },
            Some(i) => i,
        };
        let ghost cs = self.clients@;
        let mut session = self.clients.remove(idx);
        session.set_state(SessionState::Closed);
        proof {
            assert forall|i: int, j: int| 0 <= i < j < self.clients@.len() implies self.clients@[i].id
                != self.clients@[j].id by {
                let i0 = if i < idx { i } else { i + 1 };
                let j0 = if j < idx { j } else { j + 1 };
                assert(self.clients@[i] == cs[i0]);
                assert(self.clients@[j] == cs[j0]);
            }
        }
        let ghost ts = self.topics@;
        let mut kept: Vec<(TopicKey, ClientBitmap)> = Vec::new();
        let mut k: usize = 0;
        while k < self.topics.len()
            invariant
                k <= self.topics@.len(),
                self.topics@ == ts,
                forall|i: int, j: int| 0 <= i < j < ts.len() ==> ts[i].0.0 != ts[j].0.0,
                topic_sets(kept@) == strip_client(topic_sets(ts.take(k as int)), client_id),
                forall|i: int| 0 <= i < kept@.len() ==> exists|j: int| 0 <= j < k && #[trigger] kept@[i].0.0 == ts[j].0.0,
                forall|i: int, j: int| 0 <= i < j < kept@.len() ==> kept@[i].0.0 != kept@[j].0.0,
            decreases self.topics@.len() - k,
        {
            let (key, bitmap) = self.topics[k];
            let mut b = bitmap;
            b.remove(client_id);
            proof {
                lemma_ids_are_members(b);
                assert(ts.take(k + 1).drop_last() =~= ts.take(k as int));
                assert(topic_sets(ts.take(k + 1)) =~= topic_sets(ts.take(k as int)).push((key.0, bitmap@)));
                assert(topic_sets(ts.take(k as int)).push((key.0, bitmap@)).drop_last() =~= topic_sets(
                    ts.take(k as int),
                ));
                assert(strip_client(topic_sets(ts.take(k + 1)), client_id) == (if b@ == Set::<u32>::empty() {
                    strip_client(topic_sets(ts.take(k as int)), client_id)
                } else {
                    strip_client(topic_sets(ts.take(k as int)), client_id).push((key.0, b@))
                }));
            }
            if !b.is_empty() {
                let ghost before = kept@;
                kept.push((key, b));
                proof {
                    assert(topic_sets(kept@) =~= topic_sets(before).push((key.0, b@)));
                    assert forall|i: int| 0 <= i < kept@.len() implies exists|j: int|
                        0 <= j < k + 1 && #[trigger] kept@[i].0.0 == ts[j].0.0 by {
                        if i == before.len() {
                            assert(kept@[i].0.0 == ts[k as int].0.0);
                        } else {
                            assert(kept@[i] == before[i]);
                        }
                    }
                    assert forall|i: int, j: int| 0 <= i < j < kept@.len() implies kept@[i].0.0
                        != kept@[j].0.0 by {
                        if j == before.len() {
                            assert(kept@[i] == before[i]);
                            let j0 = choose|j0: int| 0 <= j0 < k && #[trigger] before[i].0.0 == ts[j0].0.0;
                            assert(ts[j0].0.0 != ts[k as int].0.0);
                        } else {
                            assert(kept@[i] == before[i]);
                            assert(kept@[j] == before[j]);
                        }
                    }
                }
            } else {
                proof {
                    assert forall|i: int| 0 <= i < kept@.len() implies exists|j: int|
                        0 <= j < k + 1 && #[trigger] kept@[i].0.0 == ts[j].0.0 by {
                        let j0 = choose|j0: int| 0 <= j0 < k && #[trigger] kept@[i].0.0 == ts[j0].0.0;
                    }
                }
            }
            k += 1;
        }
        proof {
            assert(ts.take(ts.len() as int) =~= ts);
        }
        self.topics = kept;
        Ok(())
    }

    /// Subscribes a known client to `topic` (its state becomes subscribed).
    pub fn subscribe(&mut self, client_id: u32, topic: TopicKey) -> (r: Result<(), RouterError>)
        requires
            old(self).wf(),
        ensures
            final(self).wf(),
            client_index(old(self).sessions(), client_id) < 0 ==> r == Err::<(), RouterError>(
                RouterError::ClientNotFound(client_id),
            ) && final(self).sessions() == old(self).sessions() && final(self).topic_entries() == old(
                self,
            ).topic_entries(),
            client_index(old(self).sessions(), client_id) >= 0 ==> {
                let i = client_index(old(self).sessions(), client_id);
                let s = old(self).sessions()[i];
                &&& r is Ok
                &&& final(self).sessions() == old(self).sessions().update(i, ClientSession { state: 2, ..s })
                &&& topic_sets(final(self).topic_entries()) == subscribe_sets(
                    topic_sets(old(self).topic_entries()),
                    topic.0,
                    client_id,
                )
            },
    {
        let idx = match self.find_client(client_id) {
            None => {
                return Err(RouterError::ClientNotFound(client_id));
            },
            Some(i) => i,
        };
        let mut session = self.clients[idx];
        session.set_state(SessionState::Subscribed);
        self.clients.set(idx, session);
        let ghost ts = self.topics@;
        match self.find_topic(topic.0) {
            Some(t) => {
                let (key, bitmap) = self.topics[t];
                let mut b = bitmap;
                b.insert(client_id);
                self.topics.set(t, (key, b));
                proof {
                    lemma_subscribe_existing(ts, t as int, topic.0, client_id, b);
                }
            },
            None => {
                let mut b = ClientBitmap::new();
                b.insert(client_id);
                self.topics.push((topic, b));
                proof {
                    lemma_subscribe_new(ts, topic, client_id, b);
                }
            },
        }
        Ok(())
    }

    /// Removes a client from a topic, if the topic exists.
    pub fn unsubscribe(&mut self, client_id: u32, topic: TopicKey) -> (r: Result<(), RouterError>)
        requires
            old(self).wf(),
        ensures
            final(self).wf(),
            r is Ok,
            final(self).sessions() == old(self).sessions(),
            topic_sets(final(self).topic_entries()) == unsubscribe_sets(
                topic_sets(old(self).topic_entries()),
                topic.0,
                client_id,
            ),
    {
        let ghost ts = self.topics@;
        match self.find_topic(topic.0) {
            Some(t) => {
                let (key, bitmap) = self.topics[t];
                let mut b = bitmap;
                b.remove(client_id);
                self.topics.set(t, (key, b));
                proof {
                    lemma_unsubscribe_existing(ts, t as int, topic.0, client_id, b);
                }
            },
            None => {
                proof {
                    lemma_unsubscribe_absent(ts, topic.0, client_id);
                }
            },
        }
        Ok(())
    }

    /// Replaces the filter of a known client.
    pub fn update_filter(&mut self, client_id: u32, filter: ClientFilterPredicate) -> (r: Result<(), RouterError>)
        requires
            old(self).wf(),
        ensures
            final(self).wf(),
            final(self).topic_entries() == old(self).topic_entries(),
            client_index(old(self).sessions(), client_id) < 0 ==> r == Err::<(), RouterError>(
                RouterError::ClientNotFound(client_id),
            ) && final(self).sessions() == old(self).sessions(),
            client_index(old(self).sessions(), client_id) >= 0 ==> r is Ok && final(self).sessions() == old(
                self,
            ).sessions().update(
                client_index(old(self).sessions(), client_id),
                ClientSession { filter, ..old(self).sessions()[client_index(old(self).sessions(), client_id)] },
            ),
    {
        let idx = match self.find_client(client_id) {
            None => {
                return Err(RouterError::ClientNotFound(client_id));
            },
            Some(i) => i,
        };
        let mut session = self.clients[idx];
        session.filter = filter;
        self.clients.set(idx, session);
        Ok(())
    }

    /// Number of registered clients.
    pub fn client_count(&self) -> (r: usize)
        ensures
            r == self.sessions().len(),
    {
        self.clients.len()
    }

    /// Number of topic entries.
    pub fn topic_count(&self) -> (r: usize)
        ensures
            r == self.topic_entries().len(),
    {
        self.topics.len()
    }

    /// Whether every session's token bucket can refill at `now_ms` without
    /// overflow, as a dispatch at `now_ms` needs.
    pub fn buckets_ready_at(&self, now_ms: u64) -> (r: bool)
        ensures
            r == buckets_ready(self.sessions(), now_ms),
    {
        let mut i: usize = 0;
        while i < self.clients.len()
            invariant
                i <= self.clients@.len(),
                forall|j: int| 0 <= j < i ==> #[trigger] self.clients@[j].rate_limiter.refill_fits(now_ms),
            decreases self.clients@.len() - i,
        {
            if !self.clients[i].rate_limiter.refill_fits_at(now_ms) {
                return false;
            }
            i += 1;
        }
        true
    }

    /// The subscriber bitmap of `key`, or the empty bitmap.
    fn topic_bitmap(&self, key: u64) -> (r: ClientBitmap)
        requires
            self.wf(),
        ensures
            r@ == subscribers(self.topic_entries(), key),
            r.words@ == topic_words(self.topic_entries(), key),
    {
        match self.find_topic(key) {
            Some(t) => self.topics[t].1,
            None => {
                let b = ClientBitmap::new();
                proof {
                    assert(b.words@ =~= Seq::new(DEFAULT_BITMAP_WORDS as nat, |k: int| 0u64));
                }
                b
            },
        }
    }
}

/// A message to fan out: a quote, or a trade with the bit pattern of its USD
/// notional.
#[derive(Clone, Copy)]
pub enum FanoutMessage<'m> {
    Quote(&'m NormalizedBbo),
    Fill(&'m UnifiedTrade, u64),
}

impl<'m> FanoutMessage<'m> {
    /// The message's SBE frame.
    pub open spec fn sbe_frame(self) -> Seq<u8> {
        match self {
            FanoutMessage::Quote(b) => bbo_wire(*b),
            FanoutMessage::Fill(t, _) => trade_wire(*t),
        }
    }

    /// The message's JSON document, when it fits the scratch buffer.
    pub open spec fn json_frame(self) -> Option<Seq<u8>> {
        match self {
            FanoutMessage::Quote(b) => json_payload(bbo_json(*b)),
            FanoutMessage::Fill(t, _) => json_payload(trade_json(*t)),
        }
    }

    /// The filter rule of the message.
    pub open spec fn blocks(self) -> spec_fn(ClientFilterPredicate) -> bool {
        match self {
            FanoutMessage::Quote(b) => bbo_blocks(b.spread_bps),
            FanoutMessage::Fill(_, n) => trade_blocks(n),
        }
    }

    /// Whether `filter` blocks the message.
    fn blocked_by(&self, filter: &ClientFilterPredicate) -> (r: bool)
        ensures
            r == (self.blocks())(*filter),
    {
        match self {
            FanoutMessage::Quote(b) => filter.max_spread_bps > 0 && (b.spread_bps as u32) > filter.max_spread_bps,
            FanoutMessage::Fill(_, n) => !filter.matches_trade(*n),
        }
    }

    fn encode_sbe(&self) -> (r: Vec<u8>)
        ensures
            r@ == self.sbe_frame(),
    {
        match self {
            FanoutMessage::Quote(b) => {
                let mut buf = [0u8; TOTAL_SBE_BBO_LEN];
                let _ = encode_bbo_sbe(b, &mut buf);
                prefix_vec(&buf, TOTAL_SBE_BBO_LEN)
            },
            FanoutMessage::Fill(t, _) => {
                let mut buf = [0u8; TOTAL_SBE_TRADE_LEN];
                let _ = encode_trade_sbe(t, &mut buf);
                prefix_vec(&buf, TOTAL_SBE_TRADE_LEN)
            },
        }
    }

    fn encode_json(&self) -> (r: Option<Vec<u8>>)
        ensures
            match self.json_frame() {
                Some(f) => r matches Some(v) && v@ == f,
                None => r is None,
            },
    {
        let mut buf = [0u8; JSON_SCRATCH_LEN];
        let res = match self {
            FanoutMessage::Quote(b) => serialize_bbo_json(b, &mut buf),
            FanoutMessage::Fill(t, _) => serialize_trade_json(t, &mut buf),
        };
        match res {
            Ok(n) => Some(prefix_vec(&buf, n)),
            Err(_) => None,
        }
    }
}

/// The first `n` bytes of `buf` in a vector.
fn prefix_vec(buf: &[u8], n: usize) -> (r: Vec<u8>)
    requires
        n <= buf@.len(),
    ensures
        r@ == buf@.subrange(0, n as int),
{
    let mut v: Vec<u8> = Vec::new();
    let mut i: usize = 0;
    while i < n
        invariant
            i <= n <= buf@.len(),
            v@ == buf@.subrange(0, i as int),
        decreases n - i,
    {
        v.push(buf[i]);
        proof {
            assert(v@ =~= buf@.subrange(0, i + 1));
        }
        i += 1;
    }
    v
}

/// The words of topic `key`'s bitmap (all zero for an unknown topic).
pub open spec fn topic_words(ts: Seq<(TopicKey, ClientBitmap)>, key: u64) -> Seq<u64> {
    if topic_index(ts, key) >= 0 {
        ts[topic_index(ts, key)].1.words@
    } else {
        Seq::new(DEFAULT_BITMAP_WORDS as nat, |k: int| 0u64)
    }
}

/// Word-wise union.
pub open spec fn union_words(a: Seq<u64>, b: Seq<u64>) -> Seq<u64> {
    Seq::new(DEFAULT_BITMAP_WORDS as nat, |k: int| a[k] | b[k])
}

/// Candidate ids of a quote, ascending: subscribers of its exact topic (flags
/// included) and, when that differs, of its flag-less topic.
pub open spec fn bbo_candidate_ids(ts: Seq<(TopicKey, ClientBitmap)>, bbo: NormalizedBbo) -> Seq<u32> {
    let exact = pack_topic(bbo.venue as u8, bbo.market_id, STREAM_TYPE_BBO, bbo.flags as u32);
    let default = pack_topic(bbo.venue as u8, bbo.market_id, STREAM_TYPE_BBO, 0);
    if exact != default {
        ids_below(union_words(topic_words(ts, exact), topic_words(ts, default)), MAX_CLIENT_CAPACITY as nat)
    } else {
        ids_below(topic_words(ts, exact), MAX_CLIENT_CAPACITY as nat)
    }
}

/// Candidate ids of a trade, ascending: subscribers of its trade topic.
pub open spec fn trade_candidate_ids(ts: Seq<(TopicKey, ClientBitmap)>, trade: UnifiedTrade) -> Seq<u32> {
    ids_below(
        topic_words(ts, pack_topic(trade.venue as u8, trade.market_id, STREAM_TYPE_TRADE, 0)),
        MAX_CLIENT_CAPACITY as nat,
    )
}

/// The state a dispatch starts from.
pub open spec fn dispatch_start(cs: Seq<ClientSession>) -> DispatchState {
    DispatchState { clients: cs, metrics: zero_dispatch(), deliveries: Seq::empty() }
}

/// A delivery carries the message in its client's protocol: the SBE encoding
/// for an SBE client, the JSON document for a JSON client.
pub open spec fn delivery_fits(d: (u32, WireProtocol, Seq<u8>), sbe: Seq<u8>, json: Option<Seq<u8>>) -> bool {
    match d.1 {
        WireProtocol::Sbe => d.2 == sbe,
        WireProtocol::Json => json == Some(d.2),
    }
}

/// Whatever a dispatch delivers is the message in the receiving client's
/// protocol: the SBE encoding for SBE clients, the JSON document for JSON clients.
pub proof fn lemma_dispatch_payloads(
    st: DispatchState,
    ids: Seq<u32>,
    now_ms: u64,
    blocks: spec_fn(ClientFilterPredicate) -> bool,
    sbe: Seq<u8>,
    json: Option<Seq<u8>>,
)
    requires
        forall|i: int| 0 <= i < st.deliveries.len() ==> delivery_fits(#[trigger] st.deliveries[i], sbe, json),
    ensures
        forall|i: int|
            0 <= i < dispatch_all(st, ids, now_ms, blocks, sbe, json).deliveries.len() ==> delivery_fits(
                #[trigger] dispatch_all(st, ids, now_ms, blocks, sbe, json).deliveries[i],
                sbe,
                json,
            ),
    decreases ids.len(),
{
    if ids.len() > 0 {
        lemma_dispatch_payloads(st, ids.drop_last(), now_ms, blocks, sbe, json);
        let prev = dispatch_all(st, ids.drop_last(), now_ms, blocks, sbe, json);
        let next = dispatch_step(prev, ids.last(), now_ms, blocks, sbe, json);
        assert forall|i: int| 0 <= i < next.deliveries.len() implies delivery_fits(#[trigger] next.deliveries[i], sbe, json) by {
            if i < prev.deliveries.len() {
                assert(next.deliveries[i] == prev.deliveries[i]);
            }
        }
    }
}

/// Every session's bucket can refill at `now_ms` without overflow.
pub open spec fn buckets_ready(cs: Seq<ClientSession>, now_ms: u64) -> bool {
    forall|j: int| 0 <= j < cs.len() ==> #[trigger] cs[j].rate_limiter.refill_fits(now_ms)
}

impl InvertedTopicRouter {
    fn fan_out(&mut self, ids: &Vec<u32>, msg: FanoutMessage, now_ms: u64, out: &mut Vec<Delivery>) -> (m: DispatchMetrics)
        requires
            old(self).wf(),
            ids@.len() <= MAX_CLIENT_CAPACITY,
            forall|i: int, j: int| 0 <= i < j < ids@.len() ==> #[trigger] ids@[i] < #[trigger] ids@[j],
            buckets_ready(old(self).sessions(), now_ms),
        ensures
            final(self).wf(),
            final(self).topic_entries() == old(self).topic_entries(),
            ({
                let st = dispatch_all(dispatch_start(old(self).sessions()), ids@, now_ms, msg.blocks(), msg.sbe_frame(), msg.json_frame());
                &&& final(self).sessions() == st.clients
                &&& m == st.metrics
                &&& final(out)@.map_values(|d: Delivery| delivery_view(d)) == old(out)@.map_values(|d: Delivery| delivery_view(d)) + st.deliveries
            }),
    {
        let ghost start = self.clients@;
        let ghost out0 = out@.map_values(|d: Delivery| delivery_view(d));
        let ghost blocks = msg.blocks();
        let ghost sbe_f = msg.sbe_frame();
        let ghost json_f = msg.json_frame();
        let mut metrics = DispatchMetrics::default();
        let mut sbe_done = false;
        let mut sbe_frame: Vec<u8> = Vec::new();
        let mut json_done = false;
        let mut json_frame: Vec<u8> = Vec::new();
        let mut k: usize = 0;
        proof {
            match msg {
                FanoutMessage::Quote(b) => crate::sbe::lemma_frame_lengths(*b, crate::models::zero_trade()),
                FanoutMessage::Fill(t, _) => crate::sbe::lemma_frame_lengths(crate::models::zero_bbo(), *t),
            }
            assert(ids@.take(0) =~= Seq::<u32>::empty());
            assert(out0 + Seq::<(u32, WireProtocol, Seq<u8>)>::empty() =~= out0);
        }
        while k < ids.len()
            invariant
                k <= ids@.len() <= MAX_CLIENT_CAPACITY,
                forall|i: int, j: int| 0 <= i < j < ids@.len() ==> #[trigger] ids@[i] < #[trigger] ids@[j],
                self.topics@ == old(self).topics@,
                self.clients@.len() == start.len(),
                start == old(self).sessions(),
                buckets_ready(start, now_ms),
                distinct_entries(start, self.topics@),
                forall|j: int| 0 <= j < start.len() ==> #[trigger] self.clients@[j].id == start[j].id,
                forall|j: int|
                    0 <= j < start.len() ==> #[trigger] self.clients@[j] == start[j] || ids@.take(k as int).contains(
                        self.clients@[j].id,
                    ),
                blocks == msg.blocks(),
                sbe_f == msg.sbe_frame(),
                json_f == msg.json_frame(),
                ({
                    let st = dispatch_all(dispatch_start(start), ids@.take(k as int), now_ms, blocks, sbe_f, json_f);
                    &&& self.clients@ == st.clients
                    &&& metrics == st.metrics
                    &&& out@.map_values(|d: Delivery| delivery_view(d)) == out0 + st.deliveries
                }),
                metrics.matched_clients == k,
                metrics.delivered_clients <= k,
                metrics.filtered_clients <= k,
                metrics.rate_limited_clients <= k,
                metrics.sbe_bytes_dispatched <= k * 95,
                metrics.json_bytes_dispatched <= k * 512,
                sbe_done ==> sbe_frame@ == sbe_f,
                json_done ==> json_f == Some(json_frame@),
                sbe_f.len() <= 95,
                json_f matches Some(f) ==> f.len() <= 512,
            decreases ids@.len() - k,
        {
            let id = ids[k];
            let ghost st = dispatch_all(dispatch_start(start), ids@.take(k as int), now_ms, blocks, sbe_f, json_f);
            proof {
                assert(ids@.take(k + 1).drop_last() =~= ids@.take(k as int));
                assert(ids@.take(k + 1).last() == id);
                assert(!ids@.take(k as int).contains(id)) by {
                    if ids@.take(k as int).contains(id) {
                        let m = choose|m: int| 0 <= m < k && ids@.take(k as int)[m] == id;
                        assert(ids@[m] < ids@[k as int]);
                    }
                }
                assert forall|j: int| 0 <= j < start.len() implies #[trigger] self.clients@[j].id == start[j].id by {}
            }
            metrics.matched_clients = metrics.matched_clients + 1;
            let ghost m1 = metrics;
            let ghost out1 = out@;
            match self.find_client(id) {
                None => {},
                Some(i) => {
                    let s = self.clients[i];
                    proof {
                        assert(self.clients@[i as int] == start[i as int]);
                        assert(buckets_ready(start, now_ms));
                        assert(start[i as int].rate_limiter.refill_fits(now_ms));
                    }
                    if s.is_active() {
                        if msg.blocked_by(&s.filter) {
                            metrics.filtered_clients = metrics.filtered_clients + 1;
                        } else {
                            let mut s2 = s;
                            if !s2.try_consume_token(1, now_ms) {
                                metrics.rate_limited_clients = metrics.rate_limited_clients + 1;
                                self.clients.set(i, s2);
                                proof {
                                    assert(s2 == (ClientSession { dropped_rate_limit: wrap_inc(s.dropped_rate_limit), ..s }));
                                }
                            } else {
                                proof {
                                    assert(s2 == (ClientSession { rate_limiter: s.rate_limiter.taken(1, now_ms), ..s }));
                                }
                                let payload: Option<&Vec<u8>> = match s.protocol {
                                    WireProtocol::Sbe => {
                                        if !sbe_done {
                                            sbe_frame = msg.encode_sbe();
                                            sbe_done = true;
                                        }
                                        Some(&sbe_frame)
                                    },
                                    WireProtocol::Json => {
                                        if !json_done {
                                            match msg.encode_json() {
                                                Some(v) => {
                                                    json_frame = v;
                                                    json_done = true;
                                                },
                                                None => {},
                                            }
                                        }
                                        if json_done {
                                            Some(&json_frame)
                                        } else {
                                            None
                                        }
                                    },
                                };
                                match payload {
                                    None => {
                                        self.clients.set(i, s2);
                                    },
                                    Some(p) => {
                                        let len = p.len();
                                        s2.record_delivery(len);
                                        self.clients.set(i, s2);
                                        out.push(Delivery { client_id: id, protocol: s.protocol, payload: prefix_vec(p.as_slice(), len) });
                                        metrics.delivered_clients = metrics.delivered_clients + 1;
                                        match s.protocol {
                                            WireProtocol::Sbe => {
                                                metrics.sbe_bytes_dispatched = metrics.sbe_bytes_dispatched + len;
                                            },
                                            WireProtocol::Json => {
                                                metrics.json_bytes_dispatched = metrics.json_bytes_dispatched + len;
                                            },
                                        }
                                        proof {
                                            assert(p@.subrange(0, len as int) =~= p@);
                                            assert(out@.map_values(|d: Delivery| delivery_view(d)) =~= out1.map_values(
                                                |d: Delivery| delivery_view(d),
                                            ).push((id, s.protocol, p@)));
                                        }
                                    },
                                }
                            }
                        }
                    }
                },
            }
            proof {
                let st2 = dispatch_step(st, id, now_ms, blocks, sbe_f, json_f);
                assert(dispatch_all(dispatch_start(start), ids@.take(k + 1), now_ms, blocks, sbe_f, json_f) == st2);
                assert(self.clients@ =~= st2.clients);
                assert(out@.map_values(|d: Delivery| delivery_view(d)) =~= out0 + st2.deliveries);
                assert forall|j: int|
                    0 <= j < start.len() implies #[trigger] self.clients@[j] == start[j] || ids@.take(k + 1).contains(
                    self.clients@[j].id,
                ) by {
                    if self.clients@[j] != start[j] {
                        if ids@.take(k as int).contains(self.clients@[j].id) {
                            let m = choose|m: int| 0 <= m < k && ids@.take(k as int)[m] == self.clients@[j].id;
                            assert(ids@.take(k + 1)[m] == self.clients@[j].id);
                        } else {
                            assert(self.clients@[j].id == id);
                            assert(ids@.take(k + 1)[k as int] == id);
                        }
                    }
                }
            }
            k += 1;
        }
        proof {
            assert(ids@.take(ids@.len() as int) =~= ids@);
        }
        metrics
    }
}

impl InvertedTopicRouter {
    /// Fans a quote out to the clients subscribed to its exact topic or to its
    /// flag-less topic, in ascending id order; each delivery is appended to
    /// `out` for the caller's sink.
    pub fn dispatch_bbo(&mut self, bbo: &NormalizedBbo, now_ms: u64, out: &mut Vec<Delivery>) -> (m: DispatchMetrics)
        requires
            old(self).wf(),
            buckets_ready(old(self).sessions(), now_ms),
        ensures
            final(self).wf(),
            final(self).topic_entries() == old(self).topic_entries(),
            ({
                let st = dispatch_all(
                    dispatch_start(old(self).sessions()),
                    bbo_candidate_ids(old(self).topic_entries(), *bbo),
                    now_ms,
                    bbo_blocks(bbo.spread_bps),
                    bbo_wire(*bbo),
                    json_payload(bbo_json(*bbo)),
                );
                &&& final(self).sessions() == st.clients
                &&& m == st.metrics
                &&& final(out)@.map_values(|d: Delivery| delivery_view(d)) == old(out)@.map_values(|d: Delivery| delivery_view(d)) + st.deliveries
            }),
    {
        let exact_topic = TopicKey::new(bbo.venue as u8, bbo.market_id, STREAM_TYPE_BBO, bbo.flags as u32);
        let default_topic = TopicKey::new(bbo.venue as u8, bbo.market_id, STREAM_TYPE_BBO, 0);
        let exact = self.topic_bitmap(exact_topic.0);
        let candidate = if exact_topic != default_topic {
            let default_match = self.topic_bitmap(default_topic.0);
            let u = exact.union(&default_match);
            proof {
                assert(u.words@ =~= union_words(exact.words@, default_match.words@));
            }
            u
        } else {
            exact
        };
        let msg = FanoutMessage::Quote(bbo);
        proof {
            lemma_ids_below(candidate.words@, MAX_CLIENT_CAPACITY as nat);
            lemma_ids_below_len(candidate.words@, MAX_CLIENT_CAPACITY as nat);
            assert(candidate.ids() == bbo_candidate_ids(self.topic_entries(), *bbo));
        }
        if candidate.is_empty() {
            proof {
                assert(out@.map_values(|d: Delivery| delivery_view(d)) + Seq::<(u32, WireProtocol, Seq<u8>)>::empty()
                    =~= out@.map_values(|d: Delivery| delivery_view(d)));
            }
            return DispatchMetrics::default();
        }
        let ids = candidate.client_ids();
        self.fan_out(&ids, msg, now_ms, out)
    }

    /// Fans a trade out to the clients subscribed to its trade topic whose
    /// notional threshold it reaches, in ascending id order; `notional_usd_bits`
    /// is the bit pattern of the trade's USD notional.
    pub fn dispatch_trade(&mut self, trade: &UnifiedTrade, notional_usd_bits: u64, now_ms: u64, out: &mut Vec<Delivery>) -> (m: DispatchMetrics)
        requires
            old(self).wf(),
            buckets_ready(old(self).sessions(), now_ms),
        ensures
            final(self).wf(),
            final(self).topic_entries() == old(self).topic_entries(),
            ({
                let st = dispatch_all(
                    dispatch_start(old(self).sessions()),
                    trade_candidate_ids(old(self).topic_entries(), *trade),
                    now_ms,
                    trade_blocks(notional_usd_bits),
                    trade_wire(*trade),
                    json_payload(trade_json(*trade)),
                );
                &&& final(self).sessions() == st.clients
                &&& m == st.metrics
                &&& final(out)@.map_values(|d: Delivery| delivery_view(d)) == old(out)@.map_values(|d: Delivery| delivery_view(d)) + st.deliveries
            }),
    {
        let topic = TopicKey::new(trade.venue as u8, trade.market_id, STREAM_TYPE_TRADE, 0);
        let candidate = self.topic_bitmap(topic.0);
        let msg = FanoutMessage::Fill(trade, notional_usd_bits);
        proof {
            lemma_ids_below(candidate.words@, MAX_CLIENT_CAPACITY as nat);
            lemma_ids_below_len(candidate.words@, MAX_CLIENT_CAPACITY as nat);
        }
        if candidate.is_empty() {
            proof {
                assert(out@.map_values(|d: Delivery| delivery_view(d)) + Seq::<(u32, WireProtocol, Seq<u8>)>::empty()
                    =~= out@.map_values(|d: Delivery| delivery_view(d)));
            }
            return DispatchMetrics::default();
        }
        let ids = candidate.client_ids();
        self.fan_out(&ids, msg, now_ms, out)
    }
}

impl Default for InvertedTopicRouter {
    fn default() -> (r: Self)
        ensures
            r.wf(),
            r.sessions() == Seq::<ClientSession>::empty(),
            r.topic_entries() == Seq::<(TopicKey, ClientBitmap)>::empty(),
    {
        InvertedTopicRouter::new()
    }
}

/// What unregistering `id` does to a router.
pub open spec fn unregister_effect(o: InvertedTopicRouter, n: InvertedTopicRouter, id: u32) -> bool {
    if client_index(o.sessions(), id) < 0 {
        n.sessions() == o.sessions() && n.topic_entries() == o.topic_entries()
    } else {
        &&& n.sessions() == o.sessions().remove(client_index(o.sessions(), id))
        &&& topic_sets(n.topic_entries()) == strip_client(topic_sets(o.topic_entries()), id)
    }
}

/// What a successful subscription of a known client does to a router.
pub open spec fn subscribe_effect(o: InvertedTopicRouter, n: InvertedTopicRouter, id: u32, topic: TopicKey) -> bool {
    let i = client_index(o.sessions(), id);
    &&& n.sessions() == o.sessions().update(i, ClientSession { state: 2, ..o.sessions()[i] })
    &&& topic_sets(n.topic_entries()) == subscribe_sets(topic_sets(o.topic_entries()), topic.0, id)
}

/// What unsubscribing does to a router.
pub open spec fn unsubscribe_effect(o: InvertedTopicRouter, n: InvertedTopicRouter, id: u32, topic: TopicKey) -> bool {
    &&& n.sessions() == o.sessions()
    &&& topic_sets(n.topic_entries()) == unsubscribe_sets(topic_sets(o.topic_entries()), topic.0, id)
}

/// Removing a client from every subscriber set and dropping emptied topics.
pub open spec fn strip_client(ts: Seq<(u64, Set<u32>)>, id: u32) -> Seq<(u64, Set<u32>)>
    decreases ts.len(),
{
    if ts.len() == 0 {
        Seq::empty()
    } else {
        let prev = strip_client(ts.drop_last(), id);
        let s = ts.last().1.remove(id);
        if s == Set::<u32>::empty() {
            prev
        } else {
            prev.push((ts.last().0, s))
        }
    }
}

/// Adding a client (below the bitmap capacity) to topic `key`, creating the
/// topic at the end when it is new.
pub open spec fn subscribe_sets(ts: Seq<(u64, Set<u32>)>, key: u64, id: u32) -> Seq<(u64, Set<u32>)> {
    let with_id = |s: Set<u32>| if id < MAX_CLIENT_CAPACITY { s.insert(id) } else { s };
    if exists|i: int| 0 <= i < ts.len() && ts[i].0 == key {
        let i = choose|i: int| 0 <= i < ts.len() && ts[i].0 == key;
        ts.update(i, (key, with_id(ts[i].1)))
    } else {
        ts.push((key, with_id(Set::empty())))
    }
}

/// Removing a client from topic `key`, when the topic exists.
pub open spec fn unsubscribe_sets(ts: Seq<(u64, Set<u32>)>, key: u64, id: u32) -> Seq<(u64, Set<u32>)> {
    if exists|i: int| 0 <= i < ts.len() && ts[i].0 == key {
        let i = choose|i: int| 0 <= i < ts.len() && ts[i].0 == key;
        ts.update(i, (key, ts[i].1.remove(id)))
    } else {
        ts
    }
}

proof fn lemma_subscribe_existing(ts: Seq<(TopicKey, ClientBitmap)>, t: int, key: u64, id: u32, b: ClientBitmap)
    requires
        0 <= t < ts.len(),
        ts[t].0.0 == key,
        forall|i: int, j: int| 0 <= i < j < ts.len() ==> ts[i].0.0 != ts[j].0.0,
        b@ == (if id < MAX_CLIENT_CAPACITY { ts[t].1@.insert(id) } else { ts[t].1@ }),
    ensures
        topic_sets(ts.update(t, (ts[t].0, b))) == subscribe_sets(topic_sets(ts), key, id),
        forall|i: int, j: int|
            0 <= i < j < ts.update(t, (ts[t].0, b)).len() ==> ts.update(t, (ts[t].0, b))[i].0.0 != ts.update(
                t,
                (ts[t].0, b),
            )[j].0.0,
{
    let sets = topic_sets(ts);
    assert(sets[t].0 == key);
    let i = choose|i: int| 0 <= i < sets.len() && sets[i].0 == key;
    assert(i == t) by {
        if i != t {
            assert(sets[i].0 == ts[i].0.0);
            if i < t {
                assert(ts[i].0.0 != ts[t].0.0);
            } else {
                assert(ts[t].0.0 != ts[i].0.0);
            }
        }
    }
    assert(topic_sets(ts.update(t, (ts[t].0, b))) =~= subscribe_sets(sets, key, id));
}

proof fn lemma_subscribe_new(ts: Seq<(TopicKey, ClientBitmap)>, topic: TopicKey, id: u32, b: ClientBitmap)
    requires
        topic_index(ts, topic.0) == -1,
        forall|i: int, j: int| 0 <= i < j < ts.len() ==> ts[i].0.0 != ts[j].0.0,
        b@ == (if id < MAX_CLIENT_CAPACITY { Set::<u32>::empty().insert(id) } else { Set::<u32>::empty() }),
    ensures
        topic_sets(ts.push((topic, b))) == subscribe_sets(topic_sets(ts), topic.0, id),
        forall|i: int, j: int| 0 <= i < j < ts.push((topic, b)).len() ==> ts.push((topic, b))[i].0.0 != ts.push(
            (topic, b),
        )[j].0.0,
{
    let sets = topic_sets(ts);
    assert(!(exists|i: int| 0 <= i < sets.len() && sets[i].0 == topic.0)) by {
        if exists|i: int| 0 <= i < sets.len() && sets[i].0 == topic.0 {
            let i = choose|i: int| 0 <= i < sets.len() && sets[i].0 == topic.0;
            assert(ts[i].0.0 == topic.0);
        }
    }
    assert(topic_sets(ts.push((topic, b))) =~= subscribe_sets(sets, topic.0, id));
    assert forall|i: int, j: int| 0 <= i < j < ts.push((topic, b)).len() implies ts.push((topic, b))[i].0.0
        != ts.push((topic, b))[j].0.0 by {
        if j == ts.len() {
            assert(ts[i].0.0 != topic.0);
        }
    }
}

proof fn lemma_unsubscribe_existing(ts: Seq<(TopicKey, ClientBitmap)>, t: int, key: u64, id: u32, b: ClientBitmap)
    requires
        0 <= t < ts.len(),
        ts[t].0.0 == key,
        forall|i: int, j: int| 0 <= i < j < ts.len() ==> ts[i].0.0 != ts[j].0.0,
        b@ == ts[t].1@.remove(id),
    ensures
        topic_sets(ts.update(t, (ts[t].0, b))) == unsubscribe_sets(topic_sets(ts), key, id),
        forall|i: int, j: int|
            0 <= i < j < ts.update(t, (ts[t].0, b)).len() ==> ts.update(t, (ts[t].0, b))[i].0.0 != ts.update(
                t,
                (ts[t].0, b),
            )[j].0.0,
{
    let sets = topic_sets(ts);
    assert(sets[t].0 == key);
    let i = choose|i: int| 0 <= i < sets.len() && sets[i].0 == key;
    assert(i == t) by {
        if i != t {
            assert(sets[i].0 == ts[i].0.0);
            if i < t {
                assert(ts[i].0.0 != ts[t].0.0);
            } else {
                assert(ts[t].0.0 != ts[i].0.0);
            }
        }
    }
    assert(topic_sets(ts.update(t, (ts[t].0, b))) =~= unsubscribe_sets(sets, key, id));
}

proof fn lemma_unsubscribe_absent(ts: Seq<(TopicKey, ClientBitmap)>, key: u64, id: u32)
    requires
        topic_index(ts, key) == -1,
    ensures
        topic_sets(ts) == unsubscribe_sets(topic_sets(ts), key, id),
{
    let sets = topic_sets(ts);
    if exists|i: int| 0 <= i < sets.len() && sets[i].0 == key {
        let i = choose|i: int| 0 <= i < sets.len() && sets[i].0 == key;
        assert(ts[i].0.0 == key);
    }
}

} // verus!
