//! Normalized CeFi / DeFi market data models.
use vstd::prelude::*;

verus! {

/// Four-point telemetry timestamps for nanosecond latency tracing.
#[derive(Clone, Copy, Debug, PartialEq, Eq, Structural)]
pub struct TelemetryTimestamps {
    /// T0: venue matching engine timestamp or on-chain arrival.
    pub t0_exchange_ns: u64,
    /// T1: NIC packet reception hardware timestamp.
    pub t1_ingest_nic_ns: u64,
    /// T2: normalization and book update completion timestamp.
    pub t2_engine_proc_ns: u64,
    /// T3: outbound wire dispatch timestamp.
    pub t3_egress_ns: u64,
}

/// `a - b`, or zero when `b > a`.
pub open spec fn sat_sub(a: u64, b: u64) -> u64 {
    if a >= b { (a - b) as u64 } else { 0 }
}

impl TelemetryTimestamps {
    /// Time spent between NIC ingest and engine processing.
    pub fn internal_processing_latency_ns(&self) -> (r: u64)
        ensures
            r == sat_sub(self.t2_engine_proc_ns, self.t1_ingest_nic_ns),
    {
        self.t2_engine_proc_ns.saturating_sub(self.t1_ingest_nic_ns)
    }

    /// Time spent between NIC ingest and wire egress.
    pub fn wire_to_egress_latency_ns(&self) -> (r: u64)
        ensures
            r == sat_sub(self.t3_egress_ns, self.t1_ingest_nic_ns),
    {
        self.t3_egress_ns.saturating_sub(self.t1_ingest_nic_ns)
    }
}

/// Trading venue identifier.
#[derive(Clone, Copy, Debug, PartialEq, Eq, Structural)]
pub enum VenueId {
    Binance,
    Coinbase,
    Bybit,
    Okx,
    UniswapV2,
    UniswapV3,
    UniswapV4,
    Curve,
    Raydium,
    Orca,
}

impl VenueId {
    /// The venue's wire code.
    pub open spec fn code(self) -> u16 {
        match self {
            VenueId::Binance => 1,
            VenueId::Coinbase => 2,
            VenueId::Bybit => 3,
            VenueId::Okx => 4,
            VenueId::UniswapV2 => 101,
            VenueId::UniswapV3 => 102,
            VenueId::UniswapV4 => 104,
            VenueId::Curve => 103,
            VenueId::Raydium => 201,
            VenueId::Orca => 202,
        }
    }

    /// The venue's wire code.
    pub fn as_u16(self) -> (r: u16)
        ensures
            r == self.code(),
    {
        match self {
            VenueId::Binance => 1,
            VenueId::Coinbase => 2,
            VenueId::Bybit => 3,
            VenueId::Okx => 4,
            VenueId::UniswapV2 => 101,
            VenueId::UniswapV3 => 102,
            VenueId::UniswapV4 => 104,
            VenueId::Curve => 103,
            VenueId::Raydium => 201,
            VenueId::Orca => 202,
        }
    }
}

/// Settlement chain identifier (`OffChain` for centralized venues).
#[derive(Clone, Copy, Debug, PartialEq, Eq, Structural)]
pub enum ChainId {
    OffChain,
    Ethereum,
    Optimism,
    Bsc,
    Solana,
    Base,
    Arbitrum,
}

impl ChainId {
    /// The chain's wire code.
    pub open spec fn code(self) -> u16 {
        match self {
            ChainId::OffChain => 0,
            ChainId::Ethereum => 1,
            ChainId::Optimism => 10,
            ChainId::Bsc => 56,
            ChainId::Solana => 501,
            ChainId::Base => 8453,
            ChainId::Arbitrum => 42161,
        }
    }

    /// The chain's wire code.
    pub fn as_u16(self) -> (r: u16)
        ensures
            r == self.code(),
    {
        match self {
            ChainId::OffChain => 0,
            ChainId::Ethereum => 1,
            ChainId::Optimism => 10,
            ChainId::Bsc => 56,
            ChainId::Solana => 501,
            ChainId::Base => 8453,
            ChainId::Arbitrum => 42161,
        }
    }
}

/// Aggressor side of a trade.
#[derive(Clone, Copy, Debug, PartialEq, Eq, Structural)]
pub enum Side {
    Buy,
    Sell,
    TwoSided,
}

impl Side {
    pub open spec fn code(self) -> u8 {
        match self {
            Side::Buy => 1,
            Side::Sell => 2,
            Side::TwoSided => 3,
        }
    }

    /// The side's wire code.
    pub fn as_u8(self) -> (r: u8)
        ensures
            r == self.code(),
    {
        match self {
            Side::Buy => 1,
            Side::Sell => 2,
            Side::TwoSided => 3,
        }
    }
}

/// Normalized best bid and offer (L1).
#[derive(Clone, Copy, Debug, PartialEq, Eq, Structural)]
pub struct NormalizedBbo {
    pub telemetry: TelemetryTimestamps,
    pub market_id: u32,
    pub venue: u16,
    pub chain: u16,
    pub sequence: u64,
    /// Scaled 10^8.
    pub bid_price: i64,
    /// Scaled 10^8.
    pub bid_qty: u64,
    /// Scaled 10^8.
    pub ask_price: i64,
    /// Scaled 10^8.
    pub ask_qty: u64,
    pub spread_bps: u16,
    /// 0x01 synthetic AMM, 0x02 mempool inferred.
    pub flags: u16,
}

/// Unified trade execution (CeFi match or AMM swap).
#[derive(Clone, Copy, Debug, PartialEq, Eq, Structural)]
pub struct UnifiedTrade {
    pub telemetry: TelemetryTimestamps,
    pub market_id: u32,
    pub venue: u16,
    pub chain: u16,
    pub sequence: u64,
    pub trade_id: u64,
    /// Scaled 10^8.
    pub price: i64,
    /// Scaled 10^8.
    pub size: u64,
    pub side: u8,
    pub is_liquidation: bool,
}

/// All-zero timestamps.
pub open spec fn zero_telemetry() -> TelemetryTimestamps {
    TelemetryTimestamps { t0_exchange_ns: 0, t1_ingest_nic_ns: 0, t2_engine_proc_ns: 0, t3_egress_ns: 0 }
}

/// The all-zero quote.
pub open spec fn zero_bbo() -> NormalizedBbo {
    NormalizedBbo {
        telemetry: zero_telemetry(),
        market_id: 0,
        venue: 0,
        chain: 0,
        sequence: 0,
        bid_price: 0,
        bid_qty: 0,
        ask_price: 0,
        ask_qty: 0,
        spread_bps: 0,
        flags: 0,
    }
}

/// The all-zero trade.
pub open spec fn zero_trade() -> UnifiedTrade {
    UnifiedTrade {
        telemetry: zero_telemetry(),
        market_id: 0,
        venue: 0,
        chain: 0,
        sequence: 0,
        trade_id: 0,
        price: 0,
        size: 0,
        side: 0,
        is_liquidation: false,
    }
}

impl Default for TelemetryTimestamps {
    fn default() -> (r: Self)
        ensures
            r == zero_telemetry(),
    {
        TelemetryTimestamps { t0_exchange_ns: 0, t1_ingest_nic_ns: 0, t2_engine_proc_ns: 0, t3_egress_ns: 0 }
    }
}

impl Default for NormalizedBbo {
    fn default() -> (r: Self)
        ensures
            r == zero_bbo(),
    {
        NormalizedBbo {
            telemetry: TelemetryTimestamps::default(),
            market_id: 0,
            venue: 0,
            chain: 0,
            sequence: 0,
            bid_price: 0,
            bid_qty: 0,
            ask_price: 0,
            ask_qty: 0,
            spread_bps: 0,
            flags: 0,
        }
    }
}

impl Default for UnifiedTrade {
    fn default() -> (r: Self)
        ensures
            r == zero_trade(),
    {
        UnifiedTrade {
            telemetry: TelemetryTimestamps::default(),
            market_id: 0,
            venue: 0,
            chain: 0,
            sequence: 0,
            trade_id: 0,
            price: 0,
            size: 0,
            side: 0,
            is_liquidation: false,
        }
    }
}

} // verus!
