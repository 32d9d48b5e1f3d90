//! Simple Binary Encoding framing of quotes (template 101, 92 bytes) and trades
//! (template 104, 95 bytes), little-endian, behind an 8-byte header.
use vstd::prelude::*;
use crate::models::{NormalizedBbo, TelemetryTimestamps, UnifiedTrade};
use crate::wire::{le_bytes, le_value, put_le, get_le, pow256, lemma_le_bytes_len, lemma_le_roundtrip, lemma_pow256_facts};

verus! {

pub const SBE_HEADER_LEN: usize = 8;
pub const SBE_SCHEMA_ID: u16 = 1;
pub const SBE_SCHEMA_VERSION: u16 = 1;

pub const TEMPLATE_ID_BBO: u16 = 101;
pub const BLOCK_LENGTH_BBO: u16 = 84;
/// Header plus quote block: 92 bytes.
pub const TOTAL_SBE_BBO_LEN: usize = 92;

pub const TEMPLATE_ID_TRADE: u16 = 104;
pub const BLOCK_LENGTH_TRADE: u16 = 85;
/// Header plus trade block plus an empty var-data length: 95 bytes.
pub const TOTAL_SBE_TRADE_LEN: usize = 95;

#[derive(Debug, Clone, Copy, PartialEq, Eq, Structural)]
pub enum SbeError {
    BufferTooSmall { required: usize, provided: usize },
    InvalidHeader,
    UnsupportedTemplateId(u16),
    InvalidSchemaId(u16),
    InvalidSchemaVersion(u16),
}

/// Standard 8-byte SBE framing header.
#[derive(Clone, Copy, Debug, PartialEq, Eq, Structural)]
pub struct SbeMessageHeader {
    pub block_length: u16,
    pub template_id: u16,
    pub schema_id: u16,
    pub version: u16,
}

/// Wire bytes of a header: its four fields, 2 bytes each.
pub open spec fn header_wire(h: SbeMessageHeader) -> Seq<u8> {
    le_bytes(h.block_length as nat, 2) + le_bytes(h.template_id as nat, 2) + le_bytes(h.schema_id as nat, 2)
        + le_bytes(h.version as nat, 2)
}

/// The header of this schema for a block length and template.
pub open spec fn schema_header(block_length: u16, template_id: u16) -> SbeMessageHeader {
    SbeMessageHeader { block_length, template_id, schema_id: SBE_SCHEMA_ID, version: SBE_SCHEMA_VERSION }
}

/// Little-endian value of the `n` bytes of `buf` at `off`.
pub open spec fn field(buf: Seq<u8>, off: int, n: int) -> nat {
    le_value(buf.subrange(off, off + n))
}

/// The header in the first 8 bytes of `buf`.
pub open spec fn header_of(buf: Seq<u8>) -> SbeMessageHeader {
    SbeMessageHeader {
        block_length: field(buf, 0, 2) as u16,
        template_id: field(buf, 2, 2) as u16,
        schema_id: field(buf, 4, 2) as u16,
        version: field(buf, 6, 2) as u16,
    }
}

/// Reading a header: too short a buffer and a foreign schema are errors.
pub open spec fn read_header(buf: Seq<u8>) -> Result<SbeMessageHeader, SbeError> {
    if buf.len() < SBE_HEADER_LEN {
        Err(SbeError::BufferTooSmall { required: SBE_HEADER_LEN, provided: buf.len() as usize })
    } else if header_of(buf).schema_id != SBE_SCHEMA_ID {
        Err(SbeError::InvalidSchemaId(header_of(buf).schema_id))
    } else {
        Ok(header_of(buf))
    }
}

/// Bit pattern of a signed value, as stored on the wire.
pub open spec fn i64_bits(v: i64) -> nat {
    (v as u64) as nat
}

/// The 92 wire bytes of a quote.
pub open spec fn bbo_wire(b: NormalizedBbo) -> Seq<u8> {
    header_wire(schema_header(BLOCK_LENGTH_BBO, TEMPLATE_ID_BBO)) + le_bytes(b.telemetry.t0_exchange_ns as nat, 8)
        + le_bytes(b.telemetry.t1_ingest_nic_ns as nat, 8) + le_bytes(b.telemetry.t2_engine_proc_ns as nat, 8)
        + le_bytes(b.telemetry.t3_egress_ns as nat, 8) + le_bytes(b.market_id as nat, 4) + le_bytes(b.sequence as nat, 8)
        + le_bytes(i64_bits(b.bid_price), 8) + le_bytes(b.bid_qty as nat, 8) + le_bytes(i64_bits(b.ask_price), 8)
        + le_bytes(b.ask_qty as nat, 8) + le_bytes(b.spread_bps as nat, 2) + le_bytes(b.venue as nat, 2) + le_bytes(
        b.chain as nat,
        2,
    ) + le_bytes(b.flags as nat, 2)
}

/// Timestamps read from bytes 8..40.
pub open spec fn telemetry_of(buf: Seq<u8>) -> TelemetryTimestamps {
    TelemetryTimestamps {
        t0_exchange_ns: field(buf, 8, 8) as u64,
        t1_ingest_nic_ns: field(buf, 16, 8) as u64,
        t2_engine_proc_ns: field(buf, 24, 8) as u64,
        t3_egress_ns: field(buf, 32, 8) as u64,
    }
}

/// The quote whose fields sit at the quote layout's offsets.
pub open spec fn bbo_of(buf: Seq<u8>) -> NormalizedBbo {
    NormalizedBbo {
        telemetry: telemetry_of(buf),
        market_id: field(buf, 40, 4) as u32,
        sequence: field(buf, 44, 8) as u64,
        bid_price: (field(buf, 52, 8) as u64) as i64,
        bid_qty: field(buf, 60, 8) as u64,
        ask_price: (field(buf, 68, 8) as u64) as i64,
        ask_qty: field(buf, 76, 8) as u64,
        spread_bps: field(buf, 84, 2) as u16,
        venue: field(buf, 86, 2) as u16,
        chain: field(buf, 88, 2) as u16,
        flags: field(buf, 90, 2) as u16,
    }
}

/// Decoding a quote frame.
pub open spec fn decode_bbo(buf: Seq<u8>) -> Result<NormalizedBbo, SbeError> {
    if buf.len() < TOTAL_SBE_BBO_LEN {
        Err(SbeError::BufferTooSmall { required: TOTAL_SBE_BBO_LEN, provided: buf.len() as usize })
    } else {
        match read_header(buf) {
            Err(e) => Err(e),
            Ok(h) => if h.template_id != TEMPLATE_ID_BBO {
                Err(SbeError::UnsupportedTemplateId(h.template_id))
            } else {
                Ok(bbo_of(buf))
            },
        }
    }
}

/// Quote quantity of a trade: `price * size / 10^8` for a positive price, else 0.
pub open spec fn quote_qty(t: UnifiedTrade) -> u64 {
    if t.price > 0 {
        ((t.price * t.size) / 100_000_000) as u64
    } else {
        0
    }
}

/// The 95 wire bytes of a trade.
pub open spec fn trade_wire(t: UnifiedTrade) -> Seq<u8> {
    header_wire(schema_header(BLOCK_LENGTH_TRADE, TEMPLATE_ID_TRADE)) + le_bytes(t.telemetry.t0_exchange_ns as nat, 8)
        + le_bytes(t.telemetry.t1_ingest_nic_ns as nat, 8) + le_bytes(t.telemetry.t2_engine_proc_ns as nat, 8)
        + le_bytes(t.telemetry.t3_egress_ns as nat, 8) + le_bytes(t.venue as nat, 2) + le_bytes(t.chain as nat, 2)
        + le_bytes(t.market_id as nat, 4) + le_bytes(t.sequence as nat, 8) + le_bytes(t.trade_id as nat, 8)
        + le_bytes(t.side as nat, 1) + le_bytes(i64_bits(t.price), 8) + le_bytes(t.size as nat, 8) + le_bytes(
        quote_qty(t) as nat,
        8,
    ) + le_bytes(0, 2) + le_bytes(if t.is_liquidation { 1 } else { 0 }, 1) + le_bytes(1, 1) + le_bytes(0, 2)
}

/// The trade whose fields sit at the trade layout's offsets.
pub open spec fn trade_of(buf: Seq<u8>) -> UnifiedTrade {
    UnifiedTrade {
        telemetry: telemetry_of(buf),
        venue: field(buf, 40, 2) as u16,
        chain: field(buf, 42, 2) as u16,
        market_id: field(buf, 44, 4) as u32,
        sequence: field(buf, 48, 8) as u64,
        trade_id: field(buf, 56, 8) as u64,
        side: buf[64],
        price: (field(buf, 65, 8) as u64) as i64,
        size: field(buf, 73, 8) as u64,
        is_liquidation: buf[91] != 0,
    }
}

/// Decoding a trade frame.
pub open spec fn decode_trade(buf: Seq<u8>) -> Result<UnifiedTrade, SbeError> {
    if buf.len() < TOTAL_SBE_TRADE_LEN {
        Err(SbeError::BufferTooSmall { required: TOTAL_SBE_TRADE_LEN, provided: buf.len() as usize })
    } else {
        match read_header(buf) {
            Err(e) => Err(e),
            Ok(h) => if h.template_id != TEMPLATE_ID_TRADE {
                Err(SbeError::UnsupportedTemplateId(h.template_id))
            } else {
                Ok(trade_of(buf))
            },
        }
    }
}

/// Writes `v` as the `n` little-endian bytes at `off`, extending the written
/// prefix.
fn put_field(out: &mut [u8], off: usize, v: u64, n: usize)
    requires
        off + n <= old(out)@.len(),
        n <= 8,
    ensures
        final(out)@.len() == old(out)@.len(),
        final(out)@.subrange(0, off + n) == old(out)@.subrange(0, off as int) + le_bytes(v as nat, n as nat),
        forall|k: int| off + n <= k < old(out)@.len() ==> final(out)@[k] == old(out)@[k],
{
    let ghost start = out@;
    put_le(out, off, v, n);
    proof {
        assert(out@.subrange(0, off + n) =~= start.subrange(0, off as int) + out@.subrange(off as int, off + n));
    }
}

impl SbeMessageHeader {
    /// A header of this schema and version.
    pub fn new(block_length: u16, template_id: u16) -> (r: Self)
        ensures
            r == schema_header(block_length, template_id),
    {
        SbeMessageHeader { block_length, template_id, schema_id: SBE_SCHEMA_ID, version: SBE_SCHEMA_VERSION }
    }

    /// Writes the header into the first 8 bytes of `buf`.
    pub fn write_to(&self, buf: &mut [u8])
        requires
            old(buf)@.len() >= SBE_HEADER_LEN,
        ensures
            final(buf)@.len() == old(buf)@.len(),
            final(buf)@.subrange(0, 8) == header_wire(*self),
            forall|k: int| 8 <= k < old(buf)@.len() ==> final(buf)@[k] == old(buf)@[k],
    {
        let ghost start = buf@;
        put_field(buf, 0, self.block_length as u64, 2);
        put_field(buf, 2, self.template_id as u64, 2);
        put_field(buf, 4, self.schema_id as u64, 2);
        put_field(buf, 6, self.version as u64, 2);
        proof {
            assert(start.subrange(0, 0) =~= Seq::<u8>::empty());
            assert(Seq::<u8>::empty() + le_bytes(self.block_length as nat, 2) =~= le_bytes(self.block_length as nat, 2));
        }
    }

    /// Reads the header in the first 8 bytes of `buf`.
    pub fn read_from(buf: &[u8]) -> (r: Result<Self, SbeError>)
        ensures
            r == read_header(buf@),
    {
        if buf.len() < SBE_HEADER_LEN {
            return Err(SbeError::BufferTooSmall { required: SBE_HEADER_LEN, provided: buf.len() });
        }
        proof {
            lemma_pow256_facts();
            crate::wire::lemma_le_value_bound(buf@.subrange(0, 2));
            crate::wire::lemma_le_value_bound(buf@.subrange(2, 4));
            crate::wire::lemma_le_value_bound(buf@.subrange(4, 6));
            crate::wire::lemma_le_value_bound(buf@.subrange(6, 8));
        }
        let block_length = get_le(buf, 0, 2) as u16;
        let template_id = get_le(buf, 2, 2) as u16;
        let schema_id = get_le(buf, 4, 2) as u16;
        let version = get_le(buf, 6, 2) as u16;
        if schema_id != SBE_SCHEMA_ID {
            return Err(SbeError::InvalidSchemaId(schema_id));
        }
        Ok(SbeMessageHeader { block_length, template_id, schema_id, version })
    }
}

/// Encodes a quote into the first 92 bytes of `out`.
pub fn encode_bbo_sbe(bbo: &NormalizedBbo, out: &mut [u8]) -> (r: Result<usize, SbeError>)
    ensures
        final(out)@.len() == old(out)@.len(),
        old(out)@.len() < TOTAL_SBE_BBO_LEN ==> r == Err::<usize, SbeError>(
            SbeError::BufferTooSmall { required: TOTAL_SBE_BBO_LEN, provided: old(out)@.len() as usize },
        ) && final(out)@ == old(out)@,
        old(out)@.len() >= TOTAL_SBE_BBO_LEN ==> {
            &&& r == Ok::<usize, SbeError>(TOTAL_SBE_BBO_LEN)
            &&& final(out)@.subrange(0, 92) == bbo_wire(*bbo)
            &&& forall|k: int| 92 <= k < old(out)@.len() ==> final(out)@[k] == old(out)@[k]
        },
{
    if out.len() < TOTAL_SBE_BBO_LEN {
        return Err(SbeError::BufferTooSmall { required: TOTAL_SBE_BBO_LEN, provided: out.len() });
    }
    let ghost start = out@;
    let header = SbeMessageHeader::new(BLOCK_LENGTH_BBO, TEMPLATE_ID_BBO);
    header.write_to(out);
    put_field(out, 8, bbo.telemetry.t0_exchange_ns, 8);
    put_field(out, 16, bbo.telemetry.t1_ingest_nic_ns, 8);
    put_field(out, 24, bbo.telemetry.t2_engine_proc_ns, 8);
    put_field(out, 32, bbo.telemetry.t3_egress_ns, 8);
    put_field(out, 40, bbo.market_id as u64, 4);
    put_field(out, 44, bbo.sequence, 8);
    put_field(out, 52, bbo.bid_price as u64, 8);
    put_field(out, 60, bbo.bid_qty, 8);
    put_field(out, 68, bbo.ask_price as u64, 8);
    put_field(out, 76, bbo.ask_qty, 8);
    put_field(out, 84, bbo.spread_bps as u64, 2);
    put_field(out, 86, bbo.venue as u64, 2);
    put_field(out, 88, bbo.chain as u64, 2);
    put_field(out, 90, bbo.flags as u64, 2);
    Ok(TOTAL_SBE_BBO_LEN)
}

/// Decodes a quote frame.
pub fn decode_bbo_sbe(buf: &[u8]) -> (r: Result<NormalizedBbo, SbeError>)
    ensures
        r == decode_bbo(buf@),
{
    if buf.len() < TOTAL_SBE_BBO_LEN {
        return Err(SbeError::BufferTooSmall { required: TOTAL_SBE_BBO_LEN, provided: buf.len() });
    }
    let header = match SbeMessageHeader::read_from(buf) {
        Err(e) => {
            return Err(e);
        },
        Ok(h) => h,
    };
    if header.template_id != TEMPLATE_ID_BBO {
        return Err(SbeError::UnsupportedTemplateId(header.template_id));
    }
    let telemetry = TelemetryTimestamps {
        t0_exchange_ns: get_le(buf, 8, 8),
        t1_ingest_nic_ns: get_le(buf, 16, 8),
        t2_engine_proc_ns: get_le(buf, 24, 8),
        t3_egress_ns: get_le(buf, 32, 8),
    };
    Ok(NormalizedBbo {
        telemetry,
        market_id: get_le(buf, 40, 4) as u32,
        sequence: get_le(buf, 44, 8),
        bid_price: get_le(buf, 52, 8) as i64,
        bid_qty: get_le(buf, 60, 8),
        ask_price: get_le(buf, 68, 8) as i64,
        ask_qty: get_le(buf, 76, 8),
        spread_bps: get_le(buf, 84, 2) as u16,
        venue: get_le(buf, 86, 2) as u16,
        chain: get_le(buf, 88, 2) as u16,
        flags: get_le(buf, 90, 2) as u16,
    })
}

/// Encodes a trade into the first 95 bytes of `out`.
pub fn encode_trade_sbe(trade: &UnifiedTrade, out: &mut [u8]) -> (r: Result<usize, SbeError>)
    ensures
        final(out)@.len() == old(out)@.len(),
        old(out)@.len() < TOTAL_SBE_TRADE_LEN ==> r == Err::<usize, SbeError>(
            SbeError::BufferTooSmall { required: TOTAL_SBE_TRADE_LEN, provided: old(out)@.len() as usize },
        ) && final(out)@ == old(out)@,
        old(out)@.len() >= TOTAL_SBE_TRADE_LEN ==> {
            &&& r == Ok::<usize, SbeError>(TOTAL_SBE_TRADE_LEN)
            &&& final(out)@.subrange(0, 95) == trade_wire(*trade)
            &&& forall|k: int| 95 <= k < old(out)@.len() ==> final(out)@[k] == old(out)@[k]
        },
{
    if out.len() < TOTAL_SBE_TRADE_LEN {
        return Err(SbeError::BufferTooSmall { required: TOTAL_SBE_TRADE_LEN, provided: out.len() });
    }
    let header = SbeMessageHeader::new(BLOCK_LENGTH_TRADE, TEMPLATE_ID_TRADE);
    header.write_to(out);
    put_field(out, 8, trade.telemetry.t0_exchange_ns, 8);
    put_field(out, 16, trade.telemetry.t1_ingest_nic_ns, 8);
    put_field(out, 24, trade.telemetry.t2_engine_proc_ns, 8);
    put_field(out, 32, trade.telemetry.t3_egress_ns, 8);
    put_field(out, 40, trade.venue as u64, 2);
    put_field(out, 42, trade.chain as u64, 2);
    put_field(out, 44, trade.market_id as u64, 4);
    put_field(out, 48, trade.sequence, 8);
    put_field(out, 56, trade.trade_id, 8);
    put_field(out, 64, trade.side as u64, 1);
    put_field(out, 65, trade.price as u64, 8);
    put_field(out, 73, trade.size, 8);
    let quote_qty: u64 = if trade.price > 0 {
        assert(trade.price * trade.size <= u128::MAX) by (nonlinear_arith)
            requires
                0 < trade.price <= i64::MAX,
                trade.size <= u64::MAX,
        ;
        ((trade.price as u128 * trade.size as u128) / 100_000_000) as u64
    } else {
        0
    };
    put_field(out, 81, quote_qty, 8);
    put_field(out, 89, 0, 2);
    put_field(out, 91, if trade.is_liquidation { 1 } else { 0 }, 1);
    put_field(out, 92, 1, 1);
    put_field(out, 93, 0, 2);
    Ok(TOTAL_SBE_TRADE_LEN)
}

/// Decodes a trade frame.
pub fn decode_trade_sbe(buf: &[u8]) -> (r: Result<UnifiedTrade, SbeError>)
    ensures
        r == decode_trade(buf@),
{
    if buf.len() < TOTAL_SBE_TRADE_LEN {
        return Err(SbeError::BufferTooSmall { required: TOTAL_SBE_TRADE_LEN, provided: buf.len() });
    }
    let header = match SbeMessageHeader::read_from(buf) {
        Err(e) => {
            return Err(e);
        },
        Ok(h) => h,
    };
    if header.template_id != TEMPLATE_ID_TRADE {
        return Err(SbeError::UnsupportedTemplateId(header.template_id));
    }
    let telemetry = TelemetryTimestamps {
        t0_exchange_ns: get_le(buf, 8, 8),
        t1_ingest_nic_ns: get_le(buf, 16, 8),
        t2_engine_proc_ns: get_le(buf, 24, 8),
        t3_egress_ns: get_le(buf, 32, 8),
    };
    Ok(UnifiedTrade {
        telemetry,
        venue: get_le(buf, 40, 2) as u16,
        chain: get_le(buf, 42, 2) as u16,
        market_id: get_le(buf, 44, 4) as u32,
        sequence: get_le(buf, 48, 8),
        trade_id: get_le(buf, 56, 8),
        side: buf[64],
        price: get_le(buf, 65, 8) as i64,
        size: get_le(buf, 73, 8),
        is_liquidation: buf[91] != 0,
    })
}

/// A quote frame is 92 bytes and a trade frame 95.
pub proof fn lemma_frame_lengths(b: NormalizedBbo, t: UnifiedTrade)
    ensures
        bbo_wire(b).len() == TOTAL_SBE_BBO_LEN,
        trade_wire(t).len() == TOTAL_SBE_TRADE_LEN,
{
    lemma_wire_lens(0);
    lemma_wire_lens(1);
    lemma_wire_lens(b.telemetry.t0_exchange_ns as nat);
    lemma_wire_lens(b.telemetry.t1_ingest_nic_ns as nat);
    lemma_wire_lens(b.telemetry.t2_engine_proc_ns as nat);
    lemma_wire_lens(b.telemetry.t3_egress_ns as nat);
    lemma_wire_lens(b.venue as nat);
    lemma_wire_lens(b.chain as nat);
    lemma_wire_lens(b.market_id as nat);
    lemma_wire_lens(b.sequence as nat);
    lemma_wire_lens(i64_bits(b.bid_price));
    lemma_wire_lens(b.bid_qty as nat);
    lemma_wire_lens(i64_bits(b.ask_price));
    lemma_wire_lens(b.ask_qty as nat);
    lemma_wire_lens(b.spread_bps as nat);
    lemma_wire_lens(b.flags as nat);
    lemma_wire_lens(t.telemetry.t0_exchange_ns as nat);
    lemma_wire_lens(t.telemetry.t1_ingest_nic_ns as nat);
    lemma_wire_lens(t.telemetry.t2_engine_proc_ns as nat);
    lemma_wire_lens(t.telemetry.t3_egress_ns as nat);
    lemma_wire_lens(t.venue as nat);
    lemma_wire_lens(t.chain as nat);
    lemma_wire_lens(t.market_id as nat);
    lemma_wire_lens(t.sequence as nat);
    lemma_wire_lens(t.trade_id as nat);
    lemma_wire_lens(t.side as nat);
    lemma_wire_lens(i64_bits(t.price));
    lemma_wire_lens(t.size as nat);
    lemma_wire_lens(quote_qty(t) as nat);
    lemma_wire_lens(if t.is_liquidation { 1 } else { 0 });
    let hb = schema_header(BLOCK_LENGTH_BBO, TEMPLATE_ID_BBO);
    let ht = schema_header(BLOCK_LENGTH_TRADE, TEMPLATE_ID_TRADE);
    lemma_wire_lens(hb.block_length as nat);
    lemma_wire_lens(hb.template_id as nat);
    lemma_wire_lens(ht.block_length as nat);
    lemma_wire_lens(ht.template_id as nat);
}

/// A stored field reads back as the value written.
proof fn lemma_field_back(w: Seq<u8>, off: int, v: nat, n: nat)
    requires
        0 <= off,
        off + n <= w.len(),
        w.subrange(off, off + n) == le_bytes(v, n),
        v < pow256(n),
    ensures
        field(w, off, n as int) == v,
{
    lemma_le_roundtrip(v, n);
}

proof fn lemma_wire_lens(v: nat)
    ensures
        le_bytes(v, 1).len() == 1,
        le_bytes(v, 2).len() == 2,
        le_bytes(v, 4).len() == 4,
        le_bytes(v, 8).len() == 8,
{
    lemma_le_bytes_len(v, 1);
    lemma_le_bytes_len(v, 2);
    lemma_le_bytes_len(v, 4);
    lemma_le_bytes_len(v, 8);
}

/// The header of a frame reads back.
proof fn lemma_header_back(h: SbeMessageHeader, w: Seq<u8>)
    requires
        w.len() >= 8,
        w.subrange(0, 8) == header_wire(h),
    ensures
        header_of(w) == h,
{
    lemma_pow256_facts();
    lemma_wire_lens(h.block_length as nat);
    lemma_wire_lens(h.template_id as nat);
    lemma_wire_lens(h.schema_id as nat);
    lemma_wire_lens(h.version as nat);
    let hw = header_wire(h);
    assert(w.subrange(0, 2) =~= hw.subrange(0, 2));
    assert(hw.subrange(0, 2) =~= le_bytes(h.block_length as nat, 2));
    assert(w.subrange(2, 4) =~= hw.subrange(2, 4));
    assert(hw.subrange(2, 4) =~= le_bytes(h.template_id as nat, 2));
    assert(w.subrange(4, 6) =~= hw.subrange(4, 6));
    assert(hw.subrange(4, 6) =~= le_bytes(h.schema_id as nat, 2));
    assert(w.subrange(6, 8) =~= hw.subrange(6, 8));
    assert(hw.subrange(6, 8) =~= le_bytes(h.version as nat, 2));
    lemma_field_back(w, 0, h.block_length as nat, 2);
    lemma_field_back(w, 2, h.template_id as nat, 2);
    lemma_field_back(w, 4, h.schema_id as nat, 2);
    lemma_field_back(w, 6, h.version as nat, 2);
}

/// Reading back a written header gives it back when it carries this schema,
/// and the schema error naming its schema id otherwise (whatever follows the
/// eight header bytes).
pub proof fn lemma_header_roundtrip(h: SbeMessageHeader, buf: Seq<u8>)
    requires
        buf.len() >= SBE_HEADER_LEN,
        buf.subrange(0, 8) == header_wire(h),
    ensures
        read_header(buf) == (if h.schema_id == SBE_SCHEMA_ID {
            Ok::<SbeMessageHeader, SbeError>(h)
        } else {
            Err::<SbeMessageHeader, SbeError>(SbeError::InvalidSchemaId(h.schema_id))
        }),
{
    lemma_header_back(h, buf);
}

/// Decoding an encoded quote frame (whatever follows it) gives the quote back.
#[verifier::rlimit(60)]
pub proof fn lemma_bbo_roundtrip(b: NormalizedBbo, tail: Seq<u8>)
    ensures
        decode_bbo(bbo_wire(b) + tail) == Ok::<NormalizedBbo, SbeError>(b),
{
    let w = bbo_wire(b) + tail;
    lemma_pow256_facts();
    lemma_wire_lens(0);
    lemma_wire_lens(b.telemetry.t0_exchange_ns as nat);
    lemma_wire_lens(b.telemetry.t1_ingest_nic_ns as nat);
    lemma_wire_lens(b.telemetry.t2_engine_proc_ns as nat);
    lemma_wire_lens(b.telemetry.t3_egress_ns as nat);
    lemma_wire_lens(b.venue as nat);
    lemma_wire_lens(b.chain as nat);
    lemma_wire_lens(b.market_id as nat);
    lemma_wire_lens(b.sequence as nat);
    lemma_wire_lens(i64_bits(b.bid_price));
    lemma_wire_lens(b.bid_qty as nat);
    lemma_wire_lens(i64_bits(b.ask_price));
    lemma_wire_lens(b.ask_qty as nat);
    lemma_wire_lens(b.spread_bps as nat);
    lemma_wire_lens(b.flags as nat);
    let h = schema_header(BLOCK_LENGTH_BBO, TEMPLATE_ID_BBO);
    lemma_wire_lens(h.block_length as nat);
    lemma_wire_lens(h.template_id as nat);
    lemma_wire_lens(h.schema_id as nat);
    lemma_wire_lens(h.version as nat);
    assert(header_wire(h).len() == 8);
    assert(w.subrange(0, 8) =~= header_wire(h));
    lemma_header_back(h, w);
    assert(w.subrange(8, 16) =~= le_bytes(b.telemetry.t0_exchange_ns as nat, 8));
    assert(w.subrange(16, 24) =~= le_bytes(b.telemetry.t1_ingest_nic_ns as nat, 8));
    assert(w.subrange(24, 32) =~= le_bytes(b.telemetry.t2_engine_proc_ns as nat, 8));
    assert(w.subrange(32, 40) =~= le_bytes(b.telemetry.t3_egress_ns as nat, 8));
    assert(w.subrange(40, 44) =~= le_bytes(b.market_id as nat, 4));
    assert(w.subrange(44, 52) =~= le_bytes(b.sequence as nat, 8));
    assert(w.subrange(52, 60) =~= le_bytes(i64_bits(b.bid_price), 8));
    assert(w.subrange(60, 68) =~= le_bytes(b.bid_qty as nat, 8));
    assert(w.subrange(68, 76) =~= le_bytes(i64_bits(b.ask_price), 8));
    assert(w.subrange(76, 84) =~= le_bytes(b.ask_qty as nat, 8));
    assert(w.subrange(84, 86) =~= le_bytes(b.spread_bps as nat, 2));
    assert(w.subrange(86, 88) =~= le_bytes(b.venue as nat, 2));
    assert(w.subrange(88, 90) =~= le_bytes(b.chain as nat, 2));
    assert(w.subrange(90, 92) =~= le_bytes(b.flags as nat, 2));
    lemma_field_back(w, 8, b.telemetry.t0_exchange_ns as nat, 8);
    lemma_field_back(w, 16, b.telemetry.t1_ingest_nic_ns as nat, 8);
    lemma_field_back(w, 24, b.telemetry.t2_engine_proc_ns as nat, 8);
    lemma_field_back(w, 32, b.telemetry.t3_egress_ns as nat, 8);
    lemma_field_back(w, 40, b.market_id as nat, 4);
    lemma_field_back(w, 44, b.sequence as nat, 8);
    lemma_field_back(w, 52, i64_bits(b.bid_price), 8);
    lemma_field_back(w, 60, b.bid_qty as nat, 8);
    lemma_field_back(w, 68, i64_bits(b.ask_price), 8);
    lemma_field_back(w, 76, b.ask_qty as nat, 8);
    lemma_field_back(w, 84, b.spread_bps as nat, 2);
    lemma_field_back(w, 86, b.venue as nat, 2);
    lemma_field_back(w, 88, b.chain as nat, 2);
    lemma_field_back(w, 90, b.flags as nat, 2);
    lemma_i64_bits_back(b.bid_price);
    lemma_i64_bits_back(b.ask_price);
    assert(bbo_of(w) == b);
}

proof fn lemma_i64_bits_back(v: i64)
    ensures
        ((i64_bits(v) as u64) as i64) == v,
{
    assert(((v as u64) as i64) == v) by (bit_vector);
}

/// Decoding an encoded trade frame (whatever follows it) gives the trade back.
#[verifier::rlimit(60)]
pub proof fn lemma_trade_roundtrip(t: UnifiedTrade, tail: Seq<u8>)
    ensures
        decode_trade(trade_wire(t) + tail) == Ok::<UnifiedTrade, SbeError>(t),
{
    let w = trade_wire(t) + tail;
    let liq: nat = if t.is_liquidation { 1 } else { 0 };
    lemma_pow256_facts();
    lemma_wire_lens(0);
    lemma_wire_lens(1);
    lemma_wire_lens(t.telemetry.t0_exchange_ns as nat);
    lemma_wire_lens(t.telemetry.t1_ingest_nic_ns as nat);
    lemma_wire_lens(t.telemetry.t2_engine_proc_ns as nat);
    lemma_wire_lens(t.telemetry.t3_egress_ns as nat);
    lemma_wire_lens(t.venue as nat);
    lemma_wire_lens(t.chain as nat);
    lemma_wire_lens(t.market_id as nat);
    lemma_wire_lens(t.sequence as nat);
    lemma_wire_lens(t.trade_id as nat);
    lemma_wire_lens(t.side as nat);
    lemma_wire_lens(i64_bits(t.price));
    lemma_wire_lens(t.size as nat);
    lemma_wire_lens(quote_qty(t) as nat);
    lemma_wire_lens(liq);
    let h = schema_header(BLOCK_LENGTH_TRADE, TEMPLATE_ID_TRADE);
    lemma_wire_lens(h.block_length as nat);
    lemma_wire_lens(h.template_id as nat);
    lemma_wire_lens(h.schema_id as nat);
    lemma_wire_lens(h.version as nat);
    assert(header_wire(h).len() == 8);
    assert(w.subrange(0, 8) =~= header_wire(h));
    lemma_header_back(h, w);
    assert(w.subrange(8, 16) =~= le_bytes(t.telemetry.t0_exchange_ns as nat, 8));
    assert(w.subrange(16, 24) =~= le_bytes(t.telemetry.t1_ingest_nic_ns as nat, 8));
    assert(w.subrange(24, 32) =~= le_bytes(t.telemetry.t2_engine_proc_ns as nat, 8));
    assert(w.subrange(32, 40) =~= le_bytes(t.telemetry.t3_egress_ns as nat, 8));
    assert(w.subrange(40, 42) =~= le_bytes(t.venue as nat, 2));
    assert(w.subrange(42, 44) =~= le_bytes(t.chain as nat, 2));
    assert(w.subrange(44, 48) =~= le_bytes(t.market_id as nat, 4));
    assert(w.subrange(48, 56) =~= le_bytes(t.sequence as nat, 8));
    assert(w.subrange(56, 64) =~= le_bytes(t.trade_id as nat, 8));
    assert(w.subrange(64, 65) =~= le_bytes(t.side as nat, 1));
    assert(w.subrange(65, 73) =~= le_bytes(i64_bits(t.price), 8));
    assert(w.subrange(73, 81) =~= le_bytes(t.size as nat, 8));
    assert(w.subrange(91, 92) =~= le_bytes(liq, 1));
    lemma_field_back(w, 8, t.telemetry.t0_exchange_ns as nat, 8);
    lemma_field_back(w, 16, t.telemetry.t1_ingest_nic_ns as nat, 8);
    lemma_field_back(w, 24, t.telemetry.t2_engine_proc_ns as nat, 8);
    lemma_field_back(w, 32, t.telemetry.t3_egress_ns as nat, 8);
    lemma_field_back(w, 40, t.venue as nat, 2);
    lemma_field_back(w, 42, t.chain as nat, 2);
    lemma_field_back(w, 44, t.market_id as nat, 4);
    lemma_field_back(w, 48, t.sequence as nat, 8);
    lemma_field_back(w, 56, t.trade_id as nat, 8);
    lemma_field_back(w, 64, t.side as nat, 1);
    lemma_field_back(w, 65, i64_bits(t.price), 8);
    lemma_field_back(w, 73, t.size as nat, 8);
    lemma_field_back(w, 91, liq, 1);
    assert(w[64] == w.subrange(64, 65)[0]);
    assert(field(w, 64, 1) == w[64] as nat) by {
        assert(w.subrange(64, 65).drop_first() =~= Seq::<u8>::empty());
    }
    assert(field(w, 91, 1) == w[91] as nat) by {
        assert(w.subrange(91, 92).drop_first() =~= Seq::<u8>::empty());
    }
    lemma_i64_bits_back(t.price);
    assert(trade_of(w) == t);
}

} // verus!
