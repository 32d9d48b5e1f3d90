//! Single-writer multi-reader shared-memory style message ring with overrun
//! detection.
use vstd::prelude::*;
use crate::models::{NormalizedBbo, TelemetryTimestamps, UnifiedTrade, zero_telemetry};
use crate::order_book::CachePadded;
use crate::ring::{is_power_of_two, slot_of, lemma_power_of_two_pos};

verus! {

/// Magic identifier of the segment: "CMP1" in ASCII.
pub const SHM_MAGIC: u32 = 0x434D_5031;
pub const SHM_VERSION: u32 = 1;
pub const DEFAULT_SHM_PATH: &'static str = "/dev/shm/cmp_market_data.shm";
/// Default slot count (a power of two).
pub const DEFAULT_SHM_SLOTS: usize = 16384;

/// Message type of a slot.
#[derive(Clone, Copy, Debug, PartialEq, Eq, Structural)]
pub enum ShmMsgKind {
    Bbo,
    Trade,
    Heartbeat,
}

impl ShmMsgKind {
    pub open spec fn code(self) -> u8 {
        match self {
            ShmMsgKind::Bbo => 1,
            ShmMsgKind::Trade => 2,
            ShmMsgKind::Heartbeat => 3,
        }
    }

    /// The kind's tag byte.
    pub fn as_u8(self) -> (r: u8)
        ensures
            r == self.code(),
    {
        match self {
            ShmMsgKind::Bbo => 1,
            ShmMsgKind::Trade => 2,
            ShmMsgKind::Heartbeat => 3,
        }
    }
}

impl Default for ShmMsgKind {
    fn default() -> (r: Self)
        ensures
            r == ShmMsgKind::Bbo,
    {
        ShmMsgKind::Bbo
    }
}

/// One 64-byte message slot: sequence (bytes 0..8), kind (8), flags (9),
/// venue (10..12), market (12..16), timestamps (16..48), price (48..56) and
/// quantity (56..64).
#[derive(Clone, Copy, Debug, PartialEq, Eq, Structural)]
pub struct ShmMessageSlot {
    /// Sequence number of the message held (written last).
    pub sequence: u64,
    /// Message type tag.
    pub kind: u8,
    /// Synthetic (0x01), mempool-inferred (0x02) or liquidation flags.
    pub flags: u8,
    pub venue_id: u16,
    pub market_id: u32,
    pub telemetry: TelemetryTimestamps,
    /// Price scaled 10^8.
    pub price: i64,
    /// Quantity scaled 10^8.
    pub qty: u64,
}

impl Default for ShmMessageSlot {
    fn default() -> (r: Self)
        ensures
            r.sequence == 0,
            r.kind == 0,
            r.venue_id == 0,
            r.market_id == 0,
            r.telemetry == zero_telemetry(),
            r.price == 0,
            r.qty == 0,
            r.flags == 0,
    {
        let r = ShmMessageSlot {
            sequence: 0,
            kind: 0,
            venue_id: 0,
            market_id: 0,
            telemetry: TelemetryTimestamps::default(),
            price: 0,
            qty: 0,
            flags: 0,
        };
        r
    }
}

/// Header describing the ring layout.
pub struct ShmHeader {
    pub magic: u32,
    pub version: u32,
    pub slot_capacity: u32,
    pub slot_size_bytes: u32,
    pub writer_pid: u32,
    pub _pad0: u32,
    pub writer_heartbeat_ns: u64,
    pub head_sequence: CachePadded<u64>,
}

/// Outcome of a read.
#[derive(Clone, Copy, Debug, PartialEq, Eq, Structural)]
pub enum ShmReadStatus {
    /// The next message was read.
    Read,
    /// No new message.
    Empty,
    /// The writer lapped the reader, which skips to the oldest message kept.
    Overrun { missed_messages: u64 },
}

/// The message fields a publish writes into a slot (other bytes are kept).
pub open spec fn stamped(old_slot: ShmMessageSlot, seq: u64, kind: u8, venue: u16, market: u32, tel: TelemetryTimestamps, price: i64, qty: u64, flags: u8) -> ShmMessageSlot {
    ShmMessageSlot {
        sequence: seq,
        kind,
        venue_id: venue,
        market_id: market,
        telemetry: tel,
        price,
        qty,
        flags,
        ..old_slot
    }
}

/// Ring of `N` slots; message `s` lives in slot `s % N`.
pub struct ShmRingBuffer<const N: usize> {
    pub header: ShmHeader,
    pub slots: Vec<CachePadded<ShmMessageSlot>>,
}

impl<const N: usize> ShmRingBuffer<N> {
    /// The slots.
    pub open spec fn slot_seq(&self) -> Seq<ShmMessageSlot> {
        self.slots@.map_values(|p: CachePadded<ShmMessageSlot>| p.0)
    }

    /// Sequence number of the last message published.
    pub open spec fn head(&self) -> u64 {
        self.header.head_sequence.0
    }

    /// `N` slots, a power of two, and each of the last `N` messages still in its
    /// slot.
    pub open spec fn wf(&self) -> bool {
        &&& is_power_of_two(N as nat)
        &&& self.slots@.len() == N
        &&& forall|s: int|
            1 <= s <= self.head() && s > self.head() - N ==> (#[trigger] self.slot_seq()[s % (N as int)]).sequence == s
    }

    /// An empty ring with `N` zeroed slots.
    pub fn new(writer_pid: u32) -> (r: Self)
        requires
            is_power_of_two(N as nat),
        ensures
            r.wf(),
            r.head() == 0,
            r.header.magic == SHM_MAGIC,
            r.header.version == SHM_VERSION,
            r.header.slot_capacity == N as u32,
            r.header.slot_size_bytes == 64,
            r.header.writer_pid == writer_pid,
            r.header.writer_heartbeat_ns == 0,
            forall|k: int| 0 <= k < N ==> #[trigger] r.slot_seq()[k].sequence == 0,
    {
        let mut slots: Vec<CachePadded<ShmMessageSlot>> = Vec::new();
        let mut i: usize = 0;
        while i < N
            invariant
                i <= N,
                slots@.len() == i,
                forall|k: int| 0 <= k < i ==> #[trigger] slots@[k].0.sequence == 0,
            decreases N - i,
        {
            slots.push(CachePadded(ShmMessageSlot::default()));
            i += 1;
        }
        ShmRingBuffer {
            header: ShmHeader {
                magic: SHM_MAGIC,
                version: SHM_VERSION,
                slot_capacity: N as u32,
                slot_size_bytes: 64,
                writer_pid,
                _pad0: 0,
                writer_heartbeat_ns: 0,
                head_sequence: CachePadded(0),
            },
            slots,
        }
    }

    fn publish(&mut self, kind: u8, venue: u16, market: u32, tel: TelemetryTimestamps, price: i64, qty: u64, flags: u8, now_ns: u64) -> (r: u64)
        requires
            old(self).wf(),
            old(self).head() < u64::MAX,
        ensures
            final(self).wf(),
            r == old(self).head() + 1,
            final(self).head() == r,
            final(self).header.writer_heartbeat_ns == now_ns,
            final(self).slot_seq() == old(self).slot_seq().update(
                r as int % (N as int),
                stamped(old(self).slot_seq()[r as int % (N as int)], r, kind, venue, market, tel, price, qty, flags),
            ),
    {
        let current_seq = self.header.head_sequence.0;
        let next_seq = current_seq + 1;
        let slot_idx = slot_of(next_seq, N);
        let mut slot = self.slots[slot_idx].0;
        slot.kind = kind;
        slot.venue_id = venue;
        slot.market_id = market;
        slot.telemetry = tel;
        slot.price = price;
        slot.qty = qty;
        slot.flags = flags;
        slot.sequence = next_seq;
        let ghost old_slots = self.slot_seq();
        self.slots.set(slot_idx, CachePadded(slot));
        self.header.writer_heartbeat_ns = now_ns;
        self.header.head_sequence = CachePadded(next_seq);
        proof {
            lemma_power_of_two_pos(N as nat);
            assert(self.slot_seq() =~= old_slots.update(slot_idx as int, slot));
            assert forall|s: int| 1 <= s <= self.head() && s > self.head() - N implies (
            #[trigger] self.slot_seq()[s % (N as int)]).sequence == s by {
                if s != next_seq {
                    lemma_distinct_mod(s, next_seq as int, N as int);
                }
            }
        }
        next_seq
    }

    /// Publishes a quote (its bid side) as the next message.
    pub fn publish_bbo(&mut self, bbo: &NormalizedBbo, now_ns: u64) -> (r: u64)
        requires
            old(self).wf(),
            old(self).head() < u64::MAX,
        ensures
            final(self).wf(),
            r == old(self).head() + 1,
            final(self).head() == r,
            final(self).header.writer_heartbeat_ns == now_ns,
            final(self).slot_seq() == old(self).slot_seq().update(
                r as int % (N as int),
                stamped(
                    old(self).slot_seq()[r as int % (N as int)],
                    r,
                    ShmMsgKind::Bbo.code(),
                    bbo.venue,
                    bbo.market_id,
                    bbo.telemetry,
                    bbo.bid_price,
                    bbo.bid_qty,
                    bbo.flags as u8,
                ),
            ),
    {
        self.publish(ShmMsgKind::Bbo.as_u8(), bbo.venue, bbo.market_id, bbo.telemetry, bbo.bid_price, bbo.bid_qty, bbo.flags as u8, now_ns)
    }

    /// Publishes a trade as the next message (flag 0x01 for a liquidation).
    pub fn publish_trade(&mut self, trade: &UnifiedTrade, now_ns: u64) -> (r: u64)
        requires
            old(self).wf(),
            old(self).head() < u64::MAX,
        ensures
            final(self).wf(),
            r == old(self).head() + 1,
            final(self).head() == r,
            final(self).header.writer_heartbeat_ns == now_ns,
            final(self).slot_seq() == old(self).slot_seq().update(
                r as int % (N as int),
                stamped(
                    old(self).slot_seq()[r as int % (N as int)],
                    r,
                    ShmMsgKind::Trade.code(),
                    trade.venue,
                    trade.market_id,
                    trade.telemetry,
                    trade.price,
                    trade.size,
                    if trade.is_liquidation { 0x01u8 } else { 0x00u8 },
                ),
            ),
    {
        let flags: u8 = if trade.is_liquidation { 0x01 } else { 0x00 };
        self.publish(ShmMsgKind::Trade.as_u8(), trade.venue, trade.market_id, trade.telemetry, trade.price, trade.size, flags, now_ns)
    }

    /// Reads the message after `reader_cursor`: `Empty` when caught up;
    /// `Overrun` (moving the cursor to the oldest message kept) when the writer
    /// is more than `N` ahead; otherwise the message, copied into `out`.
    pub fn try_read(&self, reader_cursor: &mut u64, out: &mut ShmMessageSlot) -> (r: ShmReadStatus)
        requires
            self.wf(),
            *old(reader_cursor) < self.head() ==> *old(reader_cursor) + N <= u64::MAX,
        ensures
            *old(reader_cursor) >= self.head() ==> r == ShmReadStatus::Empty && *final(reader_cursor) == *old(
                reader_cursor,
            ) && *final(out) == *old(out),
            *old(reader_cursor) < self.head() && self.head() > *old(reader_cursor) + N ==> {
                &&& r == (ShmReadStatus::Overrun { missed_messages: (self.head() - (*old(reader_cursor) + N)) as u64 })
                &&& *final(reader_cursor) == self.head() - N
                &&& *final(out) == *old(out)
            },
            *old(reader_cursor) < self.head() <= *old(reader_cursor) + N ==> {
                &&& r == ShmReadStatus::Read
                &&& *final(reader_cursor) == *old(reader_cursor) + 1
                &&& *final(out) == self.slot_seq()[(*old(reader_cursor) + 1) % (N as int)]
            },
    {
        let head = self.header.head_sequence.0;
        if *reader_cursor >= head {
            return ShmReadStatus::Empty;
        }
        if head > *reader_cursor + N as u64 {
            let missed = head - (*reader_cursor + N as u64);
            *reader_cursor = head - N as u64;
            return ShmReadStatus::Overrun { missed_messages: missed };
        }
        let next_cursor = *reader_cursor + 1;
        let slot_idx = slot_of(next_cursor, N);
        *out = self.slots[slot_idx].0;
        proof {
            assert(self.slot_seq()[next_cursor as int % (N as int)].sequence == next_cursor);
        }
        if out.sequence == next_cursor {
            *reader_cursor = next_cursor;
            ShmReadStatus::Read
        } else {
            *reader_cursor = head;
            ShmReadStatus::Empty
        }
    }
}

/// A reader caught up with the writer reads back, after one publish of a quote,
/// exactly the published fields under the new sequence number: the slot that
/// `try_read` copies from a cursor at the old head is the stamped one.
pub proof fn lemma_read_after_publish<const N: usize>(
    before: ShmRingBuffer<N>,
    after: ShmRingBuffer<N>,
    bbo: NormalizedBbo,
)
    requires
        before.wf(),
        after.wf(),
        before.head() < u64::MAX,
        after.head() == before.head() + 1,
        after.slot_seq() == before.slot_seq().update(
            after.head() as int % (N as int),
            stamped(
                before.slot_seq()[after.head() as int % (N as int)],
                after.head(),
                ShmMsgKind::Bbo.code(),
                bbo.venue,
                bbo.market_id,
                bbo.telemetry,
                bbo.bid_price,
                bbo.bid_qty,
                bbo.flags as u8,
            ),
        ),
    ensures
        before.head() < after.head() <= before.head() + N,
        ({
            let slot = after.slot_seq()[(before.head() + 1) % (N as int)];
            &&& slot.sequence == after.head()
            &&& slot.kind == 1
            &&& slot.venue_id == bbo.venue
            &&& slot.market_id == bbo.market_id
            &&& slot.telemetry == bbo.telemetry
            &&& slot.price == bbo.bid_price
            &&& slot.qty == bbo.bid_qty
            &&& slot.flags == bbo.flags as u8
        }),
{
    lemma_power_of_two_pos(N as nat);
    vstd::arithmetic::div_mod::lemma_mod_bound(after.head() as int, N as int);
}

/// Two values less than `n` apart and different have different residues.
proof fn lemma_distinct_mod(a: int, b: int, n: int)
    requires
        n > 0,
        a != b,
        b - n < a <= b,
    ensures
        a % n != b % n,
{
    vstd::arithmetic::div_mod::lemma_fundamental_div_mod(a, n);
    vstd::arithmetic::div_mod::lemma_fundamental_div_mod(b, n);
    if a % n == b % n {
        assert(b - a == n * (b / n - a / n)) by (nonlinear_arith)
            requires
                a == n * (a / n) + a % n,
                b == n * (b / n) + b % n,
                a % n == b % n,
        ;
        assert(false) by (nonlinear_arith)
            requires
                b - a == n * (b / n - a / n),
                0 < b - a < n,
        ;
    }
}

} // verus!
