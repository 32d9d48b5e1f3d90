use chain_market_price::amm::UniswapV2Pool;
use chain_market_price::cefi::{CefiParser, SequenceTracker, SyncStatus};
use chain_market_price::models::{ChainId, VenueId};
use chain_market_price::onchain::{PendingMempoolTx, SolanaGeyserParser, SpeculativeStateSimulator};

#[test]
fn test_sequence_tracker() {
    let mut tracker = SequenceTracker::new();
    tracker.on_snapshot(100);
    assert_eq!(tracker.status, SyncStatus::InSync);

    assert!(tracker.validate_sequence(101, 105));
    assert_eq!(tracker.last_sequence, 105);

    assert!(!tracker.validate_sequence(108, 110));
    assert!(matches!(tracker.status, SyncStatus::GapDetected { .. }));
}

#[test]
fn test_binance_bbo_parsing() {
    let raw = br#"{"u":400900217,"s":"BNBUSDT","b":"25.3519","B":"31.21","a":"25.3652","A":"40.66","E":1672531199000}"#;
    let bbo = CefiParser::parse_binance_bbo(1, raw, 123456789).unwrap();
    assert_eq!(bbo.venue, VenueId::Binance.as_u16());
    assert_eq!(bbo.bid_price, 2535190000);
    assert_eq!(bbo.ask_price, 2536520000);
    assert_eq!(bbo.sequence, 400900217);
}

#[test]
fn test_speculative_swap_simulation() {
    let pool = UniswapV2Pool::new(1000 * 10u128.pow(18), 2_000_000 * 10u128.pow(6), 30);
    let spot_initial = pool.spot_price_scaled();

    let pending = PendingMempoolTx {
        tx_hash: [0xaa; 32],
        chain_id: ChainId::Ethereum.as_u16(),
        target_pool: [0x11; 20],
        gas_priority_fee_gwei: 45,
        is_buy: true,
        amount_in: 100_000 * 10u128.pow(6),
        min_amount_out: 40 * 10u128.pow(18),
        detected_ts_ns: 12345678,
    };

    let shift = SpeculativeStateSimulator::simulate_pending_swap(&pending, &pool).unwrap();
    assert!(shift.predicted_spot_price > spot_initial);
    assert!(shift.price_impact_bps > 0);
}

#[test]
fn sequence_tracker_ignores_deltas_before_snapshot() {
    let mut tracker = SequenceTracker::new();
    assert!(!tracker.validate_sequence(1, 5));
    assert_eq!(tracker.status, SyncStatus::Synchronizing);
    assert_eq!(tracker.last_sequence, 0);
    assert_eq!(tracker.updates_processed, 0);
}

#[test]
fn sequence_tracker_drops_stale_and_records_gap() {
    let mut tracker = SequenceTracker::new();
    tracker.on_snapshot(100);
    assert!(!tracker.validate_sequence(90, 100));
    assert_eq!(tracker.last_sequence, 100);
    assert_eq!(tracker.status, SyncStatus::InSync);
    assert!(tracker.validate_sequence(95, 101));
    assert_eq!(tracker.last_sequence, 101);
    assert_eq!(tracker.updates_processed, 1);
    assert!(!tracker.validate_sequence(103, 104));
    assert_eq!(tracker.status, SyncStatus::GapDetected { expected: 102, received: 103 });
    assert_eq!(tracker.gaps_detected, 1);
    assert_eq!(tracker.last_sequence, 101);
}

#[test]
fn binance_bbo_fields_and_spread() {
    let raw = br#"{"E":5,"u":7,"b":"100.00","B":"2.5","a":"101.00","A":"3"}"#;
    let bbo = CefiParser::parse_binance_bbo(9, raw, 11).unwrap();
    assert_eq!(bbo.market_id, 9);
    assert_eq!(bbo.telemetry.t0_exchange_ns, 5_000_000);
    assert_eq!(bbo.telemetry.t1_ingest_nic_ns, 11);
    assert_eq!(bbo.sequence, 7);
    assert_eq!(bbo.bid_qty, 250_000_000);
    assert_eq!(bbo.ask_qty, 300_000_000);
    assert_eq!(bbo.spread_bps, 100);
    assert_eq!(bbo.chain, ChainId::OffChain.as_u16());
    assert_eq!(bbo.flags, 0);
}

#[test]
fn binance_bbo_missing_field_is_an_error() {
    let raw = br#"{"b":"1.0","B":"1.0","a":"2.0"}"#;
    assert!(CefiParser::parse_binance_bbo(1, raw, 0).is_err());
    let unterminated = br#"{"b":"1.0","B":"1.0","a":"2.0","A":"3"#;
    assert!(CefiParser::parse_binance_bbo(1, unterminated, 0).is_err());
}

#[test]
fn binance_trade_parsing() {
    let raw = br#"{"e":"trade","T":1700000000000,"t":12345,"p":"65000.50","q":"0.25","m":true}"#;
    let trade = CefiParser::parse_binance_trade(3, raw, 42).unwrap();
    assert_eq!(trade.telemetry.t0_exchange_ns, 1_700_000_000_000_000_000);
    assert_eq!(trade.trade_id, 12345);
    assert_eq!(trade.sequence, 12345);
    assert_eq!(trade.price, 6_500_050_000_000);
    assert_eq!(trade.size, 25_000_000);
    assert_eq!(trade.side, 2);
    assert!(!trade.is_liquidation);

    let buy = br#"{"p":"1","q":"2","m": false}"#;
    let t2 = CefiParser::parse_binance_trade(3, buy, 0).unwrap();
    assert_eq!(t2.side, 1);
    assert_eq!(t2.trade_id, 0);
    assert!(CefiParser::parse_binance_trade(3, br#"{"p":"1"}"#, 0).is_err());
}

#[test]
fn okx_bbo_parsing() {
    let raw = br#"{"bidPx":"3500.1","bidSz":"2","askPx":"3500.2","askSz":"1.5","ts":"1700000"}"#;
    let bbo = CefiParser::parse_okx_bbo(5, raw, 1).unwrap();
    assert_eq!(bbo.venue, VenueId::Okx.as_u16());
    assert_eq!(bbo.bid_price, 350_010_000_000);
    assert_eq!(bbo.ask_price, 350_020_000_000);
    assert_eq!(bbo.sequence, 1_700_000);
    assert_eq!(bbo.telemetry.t0_exchange_ns, 1_700_000_000_000);
    let no_ts = br#"{"bidPx":"1","bidSz":"1","askPx":"2","askSz":"1"}"#;
    let b2 = CefiParser::parse_okx_bbo(5, no_ts, 1).unwrap();
    assert_eq!(b2.sequence, 0);
    assert_eq!(b2.spread_bps, 10_000);
}

#[test]
fn okx_v5_ticker_with_millisecond_timestamp() {
    let payload = br#"{"bidPx":"3500.5","bidSz":"2","askPx":"3501","askSz":"1.5","ts":"1700000000000"}"#;
    let bbo = CefiParser::parse_okx_bbo(5, payload, 9).unwrap();
    assert_eq!(bbo.venue, VenueId::Okx.as_u16());
    assert_eq!(bbo.bid_price, 350_050_000_000);
    assert_eq!(bbo.bid_qty, 200_000_000);
    assert_eq!(bbo.ask_price, 350_100_000_000);
    assert_eq!(bbo.ask_qty, 150_000_000);
    assert_eq!(bbo.spread_bps, 1);
    assert_eq!(bbo.sequence, 1_700_000_000_000);
    assert_eq!(bbo.telemetry.t0_exchange_ns, 1_700_000_000_000_000_000);
    assert_eq!(bbo.telemetry.t1_ingest_nic_ns, 9);
    // A fractional timestamp keeps its whole milliseconds.
    let frac = br#"{"bidPx":"1","bidSz":"1","askPx":"2","askSz":"1","ts":"1700000000000.75"}"#;
    assert_eq!(CefiParser::parse_okx_bbo(5, frac, 9).unwrap().sequence, 1_700_000_000_000);
}

#[test]
fn speculative_sell_lowers_price() {
    let pool = UniswapV2Pool::new(1000 * 10u128.pow(18), 2_000_000 * 10u128.pow(6), 30);
    let before = pool.spot_price_scaled();
    let sell = PendingMempoolTx {
        tx_hash: [1; 32],
        chain_id: 1,
        target_pool: [2; 20],
        gas_priority_fee_gwei: 3,
        is_buy: false,
        amount_in: 10 * 10u128.pow(18),
        min_amount_out: 0,
        detected_ts_ns: 0,
    };
    let shift = SpeculativeStateSimulator::simulate_pending_swap(&sell, &pool).unwrap();
    assert!(shift.predicted_spot_price < before);
    assert!(shift.price_impact_bps > 0);
    assert_eq!(shift.pool_address, [2; 20]);
    assert_eq!(shift.tx_hash, [1; 32]);
    assert_eq!(shift.priority_fee_gwei, 3);
}

#[test]
fn speculative_swap_on_empty_pool_is_none() {
    let pool = UniswapV2Pool::new(0, 0, 30);
    let tx = PendingMempoolTx {
        tx_hash: [0; 32],
        chain_id: 1,
        target_pool: [0; 20],
        gas_priority_fee_gwei: 0,
        is_buy: true,
        amount_in: 1,
        min_amount_out: 0,
        detected_ts_ns: 0,
    };
    assert!(SpeculativeStateSimulator::simulate_pending_swap(&tx, &pool).is_none());
}

#[test]
fn raydium_account_decoding() {
    let mut data = [0u8; 64];
    data[16..24].copy_from_slice(&1_000_000u64.to_le_bytes());
    let bbo = SolanaGeyserParser::parse_raydium_clmm_account(7, &[0u8; 32], &data, 10, 99).unwrap();
    assert_eq!(bbo.bid_price, 100_000_000);
    assert_eq!(bbo.ask_price, 100_050_000);
    assert_eq!(bbo.telemetry.t0_exchange_ns, 4_000_000_000);
    assert_eq!(bbo.sequence, 10);
    assert_eq!(bbo.venue, VenueId::Raydium.as_u16());
    assert_eq!(bbo.chain, ChainId::Solana.as_u16());
    assert_eq!(bbo.flags, 0x01);
    assert_eq!(bbo.spread_bps, 5);
    assert!(SolanaGeyserParser::parse_raydium_clmm_account(7, &[0u8; 32], &data[..63], 10, 99).is_err());
}
