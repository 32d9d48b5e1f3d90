use chain_market_price::bitmap::ClientBitmap;
use chain_market_price::fanout::{ClientFilterPredicate, LockFreeTokenBucket, TopicKey};
use chain_market_price::fast_json::{serialize_bbo_json, serialize_trade_json, FastJsonWriter, JsonError};
use chain_market_price::models::{NormalizedBbo, TelemetryTimestamps, UnifiedTrade};
use chain_market_price::router::{Delivery, InvertedTopicRouter, RouterError, STREAM_TYPE_BBO, STREAM_TYPE_TRADE};
use chain_market_price::sbe::{
    decode_bbo_sbe, decode_trade_sbe, encode_bbo_sbe, encode_trade_sbe, SbeError, SbeMessageHeader,
    TOTAL_SBE_BBO_LEN, TOTAL_SBE_TRADE_LEN,
};
use chain_market_price::session::{ClientSession, SessionState, WireProtocol};
use chain_market_price::shm::{ShmMessageSlot, ShmReadStatus, ShmRingBuffer};
use chain_market_price::websocket::{
    decode_ws_frame_header, encode_ws_frame, parse_client_command, unmask_payload, ClientCommand,
    WebSocketServerEngine, WsError, WsOpcode,
};

fn masked_frame(first_byte: u8, payload: &[u8], mask: [u8; 4]) -> Vec<u8> {
    let mut masked = payload.to_vec();
    for (i, b) in masked.iter_mut().enumerate() {
        *b ^= mask[i % 4];
    }
    let mut frame = vec![first_byte, 0x80 | (payload.len() as u8)];
    frame.extend_from_slice(&mask);
    frame.extend_from_slice(&masked);
    frame
}

#[test]
fn test_client_bitmap_insert_contains_remove() {
    let mut bitmap = ClientBitmap::new();
    assert!(!bitmap.contains(42));
    assert!(bitmap.is_empty());

    assert!(bitmap.insert(42));
    assert!(bitmap.contains(42));
    assert!(!bitmap.insert(42));
    assert_eq!(bitmap.count(), 1);

    assert!(bitmap.insert(127));
    assert!(bitmap.contains(127));
    assert_eq!(bitmap.count(), 2);

    assert!(bitmap.remove(42));
    assert!(!bitmap.contains(42));
    assert_eq!(bitmap.count(), 1);
    assert!(!bitmap.remove(42));
}

#[test]
fn test_client_bitmap_iteration() {
    let mut bitmap = ClientBitmap::new();
    bitmap.insert(3);
    bitmap.insert(63);
    bitmap.insert(64);
    bitmap.insert(200);

    let mut collected = Vec::new();
    bitmap.for_each(&mut collected);
    assert_eq!(collected, vec![3, 63, 64, 200]);

    let mut iter = bitmap.iter();
    let mut iter_collected: Vec<u32> = Vec::new();
    while let Some(id) = iter.next() {
        iter_collected.push(id);
    }
    assert_eq!(iter_collected, vec![3, 63, 64, 200]);
}

#[test]
fn test_client_bitmap_set_operations() {
    let mut b1 = ClientBitmap::new();
    let mut b2 = ClientBitmap::new();

    b1.insert(1);
    b1.insert(2);
    b2.insert(2);
    b2.insert(3);

    let intersection = b1.intersect(&b2);
    assert!(!intersection.contains(1));
    assert!(intersection.contains(2));
    assert!(!intersection.contains(3));

    let union = b1.union(&b2);
    assert!(union.contains(1));
    assert!(union.contains(2));
    assert!(union.contains(3));
}

#[test]
fn test_fast_json_bbo() {
    let bbo = NormalizedBbo {
        telemetry: TelemetryTimestamps {
            t0_exchange_ns: 1000,
            t1_ingest_nic_ns: 2000,
            t2_engine_proc_ns: 3000,
            t3_egress_ns: 4000,
        },
        market_id: 42,
        venue: 1,
        chain: 1,
        sequence: 123456,
        bid_price: 65432_10000000,
        bid_qty: 1_50000000,
        ask_price: 65433_00000000,
        ask_qty: 2_00000000,
        spread_bps: 2,
        flags: 1,
    };

    let mut buf = [0u8; 512];
    let len = serialize_bbo_json(&bbo, &mut buf).expect("serialize bbo json failed");
    let json_str = std::str::from_utf8(&buf[..len]).expect("valid utf-8");

    assert!(json_str.starts_with(r#"{"type":"bbo","market_id":42"#));
    assert!(json_str.contains(r#""bid_px":"65432.10000000""#));
    assert!(json_str.contains(r#""ask_px":"65433.00000000""#));
    assert!(json_str.contains(r#""spread_bps":2"#));
    assert!(json_str.contains(r#""telemetry":{"t0":1000,"t1":2000,"t2":3000,"t3":4000}"#));
}

#[test]
fn test_fast_json_trade() {
    let trade = UnifiedTrade {
        telemetry: TelemetryTimestamps {
            t0_exchange_ns: 10,
            t1_ingest_nic_ns: 20,
            t2_engine_proc_ns: 30,
            t3_egress_ns: 40,
        },
        market_id: 88,
        venue: 3,
        chain: 8453,
        sequence: 777,
        trade_id: 99999,
        price: 3500_50000000,
        size: 5_00000000,
        side: 2,
        is_liquidation: true,
    };

    let mut buf = [0u8; 512];
    let len = serialize_trade_json(&trade, &mut buf).expect("serialize trade json failed");
    let json_str = std::str::from_utf8(&buf[..len]).expect("valid utf-8");

    assert!(json_str.starts_with(r#"{"type":"trade","market_id":88"#));
    assert!(json_str.contains(r#""price":"3500.50000000""#));
    assert!(json_str.contains(r#""size":"5.00000000""#));
    assert!(json_str.contains(r#""side":2"#));
    assert!(json_str.contains(r#""is_liquidation":true"#));
}

#[test]
fn test_fast_json_writer_buffer_overflow() {
    let mut buf = [0u8; 10];
    let mut writer = FastJsonWriter::new(&mut buf);
    assert!(writer.write_str("12345678901").is_err());
}

#[test]
fn test_topic_key_packing() {
    let topic = TopicKey::new(1, 42, 2, 0);
    assert_eq!(topic.venue_id(), 1);
    assert_eq!(topic.market_id(), 42);
    assert_eq!(topic.stream_type(), 2);
}

#[test]
fn test_lock_free_token_bucket() {
    let mut bucket = LockFreeTokenBucket::new(100, 10, 1000);
    assert!(bucket.try_consume(5, 1000));
    assert!(bucket.try_consume(5, 1000));
    assert!(!bucket.try_consume(1, 1000));

    assert!(bucket.try_consume(5, 1100));
}

#[test]
fn test_inverted_router_bbo_dispatch() {
    let mut router = InvertedTopicRouter::new();

    let sbe_client = ClientSession::new(1, WireProtocol::Sbe, 1000, 10, 0);
    let json_client = ClientSession::new(2, WireProtocol::Json, 1000, 10, 0);

    router.register_client(sbe_client).unwrap();
    router.register_client(json_client).unwrap();

    let topic = TopicKey::new(1, 100, STREAM_TYPE_BBO, 0);
    router.subscribe(1, topic).unwrap();
    router.subscribe(2, topic).unwrap();

    let bbo = NormalizedBbo {
        telemetry: TelemetryTimestamps::default(),
        venue: 1,
        chain: 1,
        market_id: 100,
        sequence: 1,
        bid_price: 50_000_00000000,
        bid_qty: 1_00000000,
        ask_price: 50_001_00000000,
        ask_qty: 1_00000000,
        spread_bps: 2,
        flags: 0,
    };

    let mut deliveries: Vec<Delivery> = Vec::new();
    let metrics = router.dispatch_bbo(&bbo, 0, &mut deliveries);
    let received: Vec<(u32, WireProtocol, usize)> =
        deliveries.iter().map(|d| (d.client_id, d.protocol, d.payload.len())).collect();

    assert_eq!(metrics.matched_clients, 2);
    assert_eq!(metrics.delivered_clients, 2);
    assert_eq!(metrics.filtered_clients, 0);
    assert_eq!(received.len(), 2);
    assert_eq!(received[0], (1, WireProtocol::Sbe, TOTAL_SBE_BBO_LEN));
    assert_eq!(received[1].0, 2);
    assert_eq!(received[1].1, WireProtocol::Json);
}

#[test]
fn test_inverted_router_predicate_filtering() {
    let mut router = InvertedTopicRouter::new();

    let filter1 = ClientFilterPredicate {
        min_notional_usd_bits: 10_000.0f64.to_bits(),
        max_spread_bps: 0,
        min_gas_priority_gwei: 0,
        target_prefix: 0,
    };
    let client1 = ClientSession::new(1, WireProtocol::Json, 1000, 10, 0).with_filter(filter1);

    let filter2 = ClientFilterPredicate {
        min_notional_usd_bits: 100.0f64.to_bits(),
        max_spread_bps: 0,
        min_gas_priority_gwei: 0,
        target_prefix: 0,
    };
    let client2 = ClientSession::new(2, WireProtocol::Json, 1000, 10, 0).with_filter(filter2);

    router.register_client(client1).unwrap();
    router.register_client(client2).unwrap();

    let topic = TopicKey::new(1, 42, STREAM_TYPE_TRADE, 0);
    router.subscribe(1, topic).unwrap();
    router.subscribe(2, topic).unwrap();

    let trade = UnifiedTrade {
        market_id: 42,
        venue: 1,
        price: 2000_00000000,
        size: 1_00000000,
        ..Default::default()
    };

    let mut deliveries: Vec<Delivery> = Vec::new();
    let metrics = router.dispatch_trade(&trade, 2000.0f64.to_bits(), 0, &mut deliveries);
    let delivered: Vec<u32> = deliveries.iter().map(|d| d.client_id).collect();

    assert_eq!(metrics.matched_clients, 2);
    assert_eq!(metrics.delivered_clients, 1);
    assert_eq!(metrics.filtered_clients, 1);
    assert_eq!(delivered, vec![2]);
}

#[test]
fn test_sbe_bbo_roundtrip() {
    let bbo = NormalizedBbo {
        telemetry: TelemetryTimestamps {
            t0_exchange_ns: 1_000_000_000,
            t1_ingest_nic_ns: 1_000_000_100,
            t2_engine_proc_ns: 1_000_000_200,
            t3_egress_ns: 1_000_000_300,
        },
        market_id: 1001,
        venue: 1,
        chain: 1,
        sequence: 424242,
        bid_price: 65_000_00000000,
        bid_qty: 1_50000000,
        ask_price: 65_001_00000000,
        ask_qty: 2_00000000,
        spread_bps: 1,
        flags: 0x01,
    };

    let mut buf = [0u8; 128];
    let bytes_written = encode_bbo_sbe(&bbo, &mut buf).expect("encoding failed");
    assert_eq!(bytes_written, TOTAL_SBE_BBO_LEN);

    let decoded = decode_bbo_sbe(&buf[..bytes_written]).expect("decoding failed");
    assert_eq!(bbo, decoded);
}

#[test]
fn test_sbe_trade_roundtrip() {
    let trade = UnifiedTrade {
        telemetry: TelemetryTimestamps {
            t0_exchange_ns: 500,
            t1_ingest_nic_ns: 600,
            t2_engine_proc_ns: 700,
            t3_egress_ns: 800,
        },
        market_id: 2002,
        venue: 2,
        chain: 42161,
        sequence: 88888,
        trade_id: 999999,
        price: 3_500_00000000,
        size: 10_00000000,
        side: 1,
        is_liquidation: false,
    };

    let mut buf = [0u8; 128];
    let bytes_written = encode_trade_sbe(&trade, &mut buf).expect("encoding failed");
    assert_eq!(bytes_written, TOTAL_SBE_TRADE_LEN);

    let decoded = decode_trade_sbe(&buf[..bytes_written]).expect("decoding failed");
    assert_eq!(trade, decoded);
}

#[test]
fn test_sbe_buffer_too_small() {
    let bbo = NormalizedBbo::default();
    let mut buf = [0u8; 50];
    assert!(encode_bbo_sbe(&bbo, &mut buf).is_err());
}

#[test]
fn test_client_session_lifecycle() {
    let mut session = ClientSession::new(1, WireProtocol::Sbe, 1000, 50, 1000);
    assert_eq!(session.state(), SessionState::Connected);
    assert!(session.is_active());

    session.set_state(SessionState::Subscribed);
    assert_eq!(session.state(), SessionState::Subscribed);
    assert!(session.is_active());

    session.set_state(SessionState::Closed);
    assert_eq!(session.state(), SessionState::Closed);
    assert!(!session.is_active());
}

#[test]
fn test_client_session_heartbeat() {
    let mut session = ClientSession::new(1, WireProtocol::Json, 1000, 50, 1000);
    session.record_ping(1_000_000_000);
    session.record_pong(1_000_000_500);

    assert!(session.is_heartbeat_healthy(1_000_001_000, 10_000_000));
    assert!(!session.is_heartbeat_healthy(2_000_000_000, 10_000_000));
}

#[test]
fn test_client_session_delivery_accounting() {
    let mut session = ClientSession::new(42, WireProtocol::Sbe, 100, 10, 0);
    session.record_delivery(92);
    session.record_delivery(92);

    assert_eq!(session.messages_sent, 2);
    assert_eq!(session.bytes_sent, 184);
}

#[test]
fn test_shm_writer_reader_roundtrip() {
    let mut ring: ShmRingBuffer<1024> = ShmRingBuffer::new(12345);
    let mut reader_cursor = 0u64;

    let bbo = NormalizedBbo {
        market_id: 42,
        venue: 1,
        sequence: 1,
        bid_price: 65_000_00000000,
        bid_qty: 1_50000000,
        ..Default::default()
    };

    ring.publish_bbo(&bbo, 1_000_000);

    let mut out = ShmMessageSlot::default();
    let status = ring.try_read(&mut reader_cursor, &mut out);

    assert_eq!(status, ShmReadStatus::Read);
    assert_eq!(out.sequence, 1);
    assert_eq!(out.market_id, 42);
    assert_eq!(out.price, 65_000_00000000);
    assert_eq!(reader_cursor, 1);

    assert_eq!(ring.try_read(&mut reader_cursor, &mut out), ShmReadStatus::Empty);
}

#[test]
fn test_shm_overrun_detection() {
    let mut ring: ShmRingBuffer<8> = ShmRingBuffer::new(1);
    let mut reader_cursor = 0u64;
    let mut out = ShmMessageSlot::default();

    let bbo = NormalizedBbo::default();
    for _ in 0..20 {
        ring.publish_bbo(&bbo, 0);
    }

    let status = ring.try_read(&mut reader_cursor, &mut out);
    assert!(matches!(status, ShmReadStatus::Overrun { .. }));
}

#[test]
fn test_ws_frame_encode_decode() {
    let payload = b"hello hft engine";
    let mut out = [0u8; 64];
    let len = encode_ws_frame(WsOpcode::Text, payload, &mut out).expect("encode failed");

    let header = decode_ws_frame_header(&out[..len]).expect("decode failed");
    assert!(header.fin);
    assert_eq!(header.opcode, WsOpcode::Text);
    assert!(!header.masked);
    assert_eq!(header.payload_len, payload.len());
    assert_eq!(&out[header.header_len..len], payload);
}

#[test]
fn test_ws_vectorized_unmasking() {
    let plain = b"Institutional HFT WebSocket Test Payload 1234567890!";
    let mask = [0xAA, 0xBB, 0xCC, 0xDD];

    let mut masked = plain.to_vec();
    for (i, b) in masked.iter_mut().enumerate() {
        *b ^= mask[i % 4];
    }

    unmask_payload(&mut masked, mask);
    assert_eq!(&masked[..], &plain[..]);
}

#[test]
fn test_ws_server_ping_pong() {
    let mut engine = WebSocketServerEngine::new();
    engine.handle_client_connect(1, WireProtocol::Json, 1000, 10, 0).unwrap();

    let mask = [0x12, 0x34, 0x56, 0x78];
    let ping_payload = b"ping-data";
    let client_frame = masked_frame(0x89, ping_payload, mask);

    let mut responses: Vec<Vec<u8>> = Vec::new();
    engine.handle_inbound_frame(1, &client_frame, 1000, &mut responses).expect("handling ping failed");
    let response: Vec<u8> = responses.concat();

    assert!(!response.is_empty());
    let resp_header = decode_ws_frame_header(&response).expect("decode pong header failed");
    assert_eq!(resp_header.opcode, WsOpcode::Pong);
    assert_eq!(
        &response[resp_header.header_len..resp_header.header_len + resp_header.payload_len],
        ping_payload
    );
}

#[test]
fn test_ws_client_subscribe_flow() {
    let mut engine = WebSocketServerEngine::new();
    engine.handle_client_connect(10, WireProtocol::Json, 1000, 10, 0).unwrap();

    let sub_cmd = br#"{"action":"subscribe","venue":1,"market_id":42,"stream_type":1,"flags":0}"#;
    let client_frame = masked_frame(0x81, sub_cmd, [0x01, 0x02, 0x03, 0x04]);

    let mut responses: Vec<Vec<u8>> = Vec::new();
    engine.handle_inbound_frame(10, &client_frame, 1000, &mut responses).expect("handling subscribe failed");
    let response: Vec<u8> = responses.concat();

    let resp_str = std::str::from_utf8(&response[2..]).expect("valid response utf-8");
    assert!(resp_str.contains(r#"{"type":"subscribed""#));

    let bbo = NormalizedBbo { market_id: 42, venue: 1, ..Default::default() };

    let mut frames: Vec<(u32, Vec<u8>)> = Vec::new();
    let metrics = engine.broadcast_bbo(&bbo, 1000, &mut frames);
    let delivered_clients: Vec<u32> = frames.iter().map(|f| f.0).collect();

    assert_eq!(metrics.matched_clients, 1);
    assert_eq!(metrics.delivered_clients, 1);
    assert_eq!(delivered_clients, vec![10]);
}

#[test]
fn bitmap_ignores_ids_beyond_capacity() {
    let mut bitmap = ClientBitmap::new();
    assert!(!bitmap.insert(1024));
    assert!(!bitmap.contains(1024));
    assert!(!bitmap.remove(5000));
    assert!(bitmap.insert(1023));
    assert_eq!(bitmap.client_ids(), vec![1023]);
    bitmap.clear();
    assert!(bitmap.is_empty());
}

#[test]
fn json_buffer_too_small_reports_sizes() {
    let bbo = NormalizedBbo::default();
    let mut buf = [0u8; 16];
    match serialize_bbo_json(&bbo, &mut buf) {
        Err(JsonError::BufferTooSmall { provided, required }) => {
            assert_eq!(provided, 16);
            assert_eq!(required, 26);
        }
        Ok(_) => panic!("a 16-byte buffer cannot hold the document"),
    }
}

#[test]
fn json_serialization_leaves_bytes_after_the_document_untouched() {
    let bbo = NormalizedBbo::default();
    let mut buf = [0xAAu8; 400];
    let n = serialize_bbo_json(&bbo, &mut buf).unwrap();
    assert!(buf[n..].iter().all(|&b| b == 0xAA));
    let mut small = [0xAAu8; 75];
    assert!(serialize_bbo_json(&bbo, &mut small).is_err());
    assert!(small[73..].iter().all(|&b| b == 0xAA));
}

#[test]
fn json_buffer_too_small_names_the_piece_that_did_not_fit() {
    let bbo = NormalizedBbo::default();
    let mut buf = [0u8; 72];
    assert_eq!(
        serialize_bbo_json(&bbo, &mut buf),
        Err(JsonError::BufferTooSmall { required: 73, provided: 72 })
    );
    let mut buf = [0u8; 75];
    assert_eq!(
        serialize_bbo_json(&bbo, &mut buf),
        Err(JsonError::BufferTooSmall { required: 81, provided: 75 })
    );
}

#[test]
fn json_writer_numbers() {
    let mut buf = [0u8; 64];
    let mut w = FastJsonWriter::new(&mut buf);
    w.write_u64(0).unwrap();
    w.write_byte(b',').unwrap();
    w.write_i64(-42).unwrap();
    w.write_byte(b',').unwrap();
    w.write_fixed_point_8(-150_000_000).unwrap();
    let n = w.pos();
    assert_eq!(w.remaining(), 64 - n);
    assert_eq!(&buf[..n], b"0,-42,-1.50000000");
}

#[test]
fn sbe_decode_rejects_wrong_template_and_short_input() {
    let trade = UnifiedTrade::default();
    let mut buf = [0u8; 128];
    let n = encode_trade_sbe(&trade, &mut buf).unwrap();
    assert_eq!(decode_bbo_sbe(&buf[..n]), Err(SbeError::UnsupportedTemplateId(104)));
    assert!(matches!(decode_trade_sbe(&buf[..10]), Err(SbeError::BufferTooSmall { .. })));
    let header = SbeMessageHeader::new(84, 101);
    let mut hb = [0u8; 8];
    header.write_to(&mut hb);
    assert_eq!(SbeMessageHeader::read_from(&hb), Ok(header));
}

#[test]
fn router_rejects_duplicates_and_unknown_clients() {
    let mut router = InvertedTopicRouter::new();
    router.register_client(ClientSession::new(7, WireProtocol::Sbe, 10, 10, 0)).unwrap();
    assert_eq!(
        router.register_client(ClientSession::new(7, WireProtocol::Json, 10, 10, 0)),
        Err(RouterError::ClientAlreadyExists(7))
    );
    let topic = TopicKey::new(1, 1, STREAM_TYPE_BBO, 0);
    assert_eq!(router.subscribe(8, topic), Err(RouterError::ClientNotFound(8)));
    router.subscribe(7, topic).unwrap();
    assert_eq!(router.client_count(), 1);
    assert_eq!(router.topic_count(), 1);
    router.unregister_client(7).unwrap();
    assert_eq!(router.client_count(), 0);
    assert_eq!(router.topic_count(), 0);
    assert_eq!(router.unregister_client(7), Err(RouterError::ClientNotFound(7)));
}

#[test]
fn router_rate_limits_after_burst() {
    let mut router = InvertedTopicRouter::new();
    router.register_client(ClientSession::new(1, WireProtocol::Sbe, 1, 1, 0)).unwrap();
    let topic = TopicKey::new(1, 9, STREAM_TYPE_BBO, 0);
    router.subscribe(1, topic).unwrap();
    let bbo = NormalizedBbo { market_id: 9, venue: 1, ..Default::default() };
    let mut out = Vec::new();
    let m1 = router.dispatch_bbo(&bbo, 0, &mut out);
    assert_eq!(m1.delivered_clients, 1);
    assert_eq!(m1.sbe_bytes_dispatched, TOTAL_SBE_BBO_LEN);
    let m2 = router.dispatch_bbo(&bbo, 0, &mut out);
    assert_eq!(m2.rate_limited_clients, 1);
    assert_eq!(m2.delivered_clients, 0);
    assert_eq!(out.len(), 1);
}

#[test]
fn ws_close_frame_unregisters_and_replies() {
    let mut engine = WebSocketServerEngine::new();
    engine.handle_client_connect(5, WireProtocol::Json, 10, 10, 0).unwrap();
    assert_eq!(
        engine.handle_client_connect(5, WireProtocol::Json, 10, 10, 0),
        Err(WsError::ClientNotFound(5))
    );
    let close = masked_frame(0x88, b"", [1, 2, 3, 4]);
    let mut responses: Vec<Vec<u8>> = Vec::new();
    engine.handle_inbound_frame(5, &close, 0, &mut responses).unwrap();
    assert_eq!(responses, vec![vec![0x88, 0x00]]);
    assert_eq!(engine.router.client_count(), 0);
}

#[test]
fn ws_frame_errors() {
    assert_eq!(decode_ws_frame_header(&[0x81]), Err(WsError::IncompleteFrame));
    assert_eq!(decode_ws_frame_header(&[0x83, 0x00]), Err(WsError::InvalidOpcode(3)));
    let mut small = [0u8; 4];
    assert_eq!(
        encode_ws_frame(WsOpcode::Binary, b"hello", &mut small),
        Err(WsError::BufferTooSmall { required: 7, provided: 4 })
    );
    let mut engine = WebSocketServerEngine::new();
    let mut responses = Vec::new();
    assert_eq!(engine.handle_inbound_frame(1, &[0x81, 0x05, b'a'], 0, &mut responses), Err(WsError::IncompleteFrame));
}

#[test]
fn ws_long_payload_uses_extended_length() {
    let payload = vec![b'x'; 300];
    let mut out = [0u8; 400];
    let n = encode_ws_frame(WsOpcode::Binary, &payload, &mut out).unwrap();
    assert_eq!(n, 304);
    assert_eq!(&out[..4], &[0x82, 126, 0x01, 0x2C]);
    let h = decode_ws_frame_header(&out[..n]).unwrap();
    assert_eq!(h.payload_len, 300);
    assert_eq!(h.header_len, 4);
}

#[test]
fn client_commands_are_parsed() {
    let sub = br#"{"action":"subscribe","venue":2,"market_id":7,"stream_type":3}"#;
    assert_eq!(parse_client_command(sub), Some(ClientCommand::Subscribe(TopicKey::new(2, 7, 3, 0))));
    let unsub = br#"{"action": "unsubscribe", "venue": 2, "market_id": 7, "stream_type":3}"#;
    assert_eq!(parse_client_command(unsub), Some(ClientCommand::Unsubscribe(TopicKey::new(2, 7, 3, 0))));
    // The spaced key form is found, but its number is read from the colon on.
    let spaced_key = br#"{"action": "unsubscribe", "venue" : 2, "market_id": 7, "stream_type":3}"#;
    assert_eq!(parse_client_command(spaced_key), None);
    assert_eq!(parse_client_command(br#"{"action":"ping"}"#), Some(ClientCommand::Ping));
    assert_eq!(parse_client_command(br#"{"action":"subscribe"}"#), None);
    assert_eq!(parse_client_command(&[0xFF, 0xFE]), None);
}

#[test]
fn ws_ping_command_replies_with_time() {
    let mut engine = WebSocketServerEngine::new();
    engine.handle_client_connect(3, WireProtocol::Sbe, 10, 10, 0).unwrap();
    let frame = masked_frame(0x81, br#"{"action":"ping"}"#, [9, 8, 7, 6]);
    let mut responses = Vec::new();
    engine.handle_inbound_frame(3, &frame, 777, &mut responses).unwrap();
    assert_eq!(responses.len(), 1);
    let text = std::str::from_utf8(&responses[0][2..]).unwrap();
    assert_eq!(text, r#"{"type":"pong","ts":777}"#);
}

#[test]
fn sbe_bbo_fields_sit_at_documented_offsets() {
    let bbo = NormalizedBbo {
        telemetry: TelemetryTimestamps { t0_exchange_ns: 1, t1_ingest_nic_ns: 2, t2_engine_proc_ns: 3, t3_egress_ns: 4 },
        market_id: 0x0A0B0C0D,
        venue: 102,
        chain: 501,
        sequence: 77,
        bid_price: -5,
        bid_qty: 6,
        ask_price: 7,
        ask_qty: 8,
        spread_bps: 9,
        flags: 0x02,
    };
    let mut buf = [0u8; 92];
    assert_eq!(encode_bbo_sbe(&bbo, &mut buf), Ok(92));
    assert_eq!(&buf[0..8], &[84, 0, 101, 0, 1, 0, 1, 0]);
    assert_eq!(&buf[8..16], &1u64.to_le_bytes());
    assert_eq!(&buf[32..40], &4u64.to_le_bytes());
    assert_eq!(&buf[40..44], &0x0A0B0C0Du32.to_le_bytes());
    assert_eq!(&buf[44..52], &77u64.to_le_bytes());
    assert_eq!(&buf[52..60], &(-5i64).to_le_bytes());
    assert_eq!(&buf[60..68], &6u64.to_le_bytes());
    assert_eq!(&buf[68..76], &7i64.to_le_bytes());
    assert_eq!(&buf[76..84], &8u64.to_le_bytes());
    assert_eq!(&buf[84..86], &9u16.to_le_bytes());
    assert_eq!(&buf[86..88], &102u16.to_le_bytes());
    assert_eq!(&buf[88..90], &501u16.to_le_bytes());
    assert_eq!(&buf[90..92], &2u16.to_le_bytes());
    assert_eq!(decode_bbo_sbe(&buf), Ok(bbo));
}

#[test]
fn token_bucket_refill_check() {
    let bucket = LockFreeTokenBucket::new(100, 10, 1000);
    assert!(bucket.refill_fits_at(1000));
    assert!(bucket.refill_fits_at(5000));
    let fast = LockFreeTokenBucket::new(u32::MAX, 10, 0);
    assert!(!fast.refill_fits_at(u64::MAX >> 24));
    let mut router = InvertedTopicRouter::new();
    router.register_client(ClientSession::new(1, WireProtocol::Sbe, 100, 10, 0)).unwrap();
    assert!(router.buckets_ready_at(10_000));
    router.register_client(ClientSession::new(2, WireProtocol::Sbe, u32::MAX, 10, 0)).unwrap();
    assert!(!router.buckets_ready_at(u64::MAX >> 24));
}

#[test]
fn shm_trade_publish_marks_liquidations() {
    let mut ring: ShmRingBuffer<4> = ShmRingBuffer::new(7);
    let trade = UnifiedTrade { market_id: 3, venue: 2, price: 11, size: 12, is_liquidation: true, ..Default::default() };
    assert_eq!(ring.publish_trade(&trade, 5), 1);
    let mut cursor = 0u64;
    let mut out = ShmMessageSlot::default();
    assert_eq!(ring.try_read(&mut cursor, &mut out), ShmReadStatus::Read);
    assert_eq!(out.kind, 2);
    assert_eq!(out.flags, 0x01);
    assert_eq!(out.price, 11);
    assert_eq!(out.qty, 12);
    assert_eq!(out.venue_id, 2);
}

#[test]
fn test_shm_slot_alignment_and_size() {
    assert_eq!(std::mem::size_of::<ShmMessageSlot>(), 64);
}
