use chain_market_price::kernel_bypass::{
    BypassBackendKind, BypassConfig, DmaBufferPool, KernelBypassBridge, PacketDescriptor, DEFAULT_RING_CAPACITY,
};
use chain_market_price::models::VenueId;
use chain_market_price::order_book::{parse_fixed_point_8, ContiguousOrderBook};
use chain_market_price::ring::SpscRingBuffer;
use chain_market_price::simulator::{
    FastPrng, FeedBurstConfig, IsolatedConsumerQueue, MockExchangeFeedSimulator, PushResult, SaturationDropPolicy,
    SimulatedFeedEvent,
};

#[test]
fn test_spsc_ring_buffer() {
    let mut queue: SpscRingBuffer<u64, 1024> = SpscRingBuffer::new();
    assert!(queue.try_push(42).is_ok());
    assert_eq!(queue.try_pop(), Some(42));
    assert_eq!(queue.try_pop(), None);
}

#[test]
fn test_fixed_point_parser() {
    assert_eq!(parse_fixed_point_8(b"123.45"), 12345000000);
    assert_eq!(parse_fixed_point_8(b"0.00000001"), 1);
    assert_eq!(parse_fixed_point_8(b"65000"), 6500000000000);
}

#[test]
fn test_prng_deterministic() {
    let mut prng1 = FastPrng::new(42);
    let mut prng2 = FastPrng::new(42);
    for _ in 0..1000 {
        assert_eq!(prng1.next_u64(), prng2.next_u64());
    }
}

#[test]
fn test_feed_generator_burst() {
    let config = FeedBurstConfig::default();
    let mut sim = MockExchangeFeedSimulator::new(1337, &config);
    let mut buf = [SimulatedFeedEvent::default(); 1000];

    let generated = sim.generate_burst(&config, &mut buf, 1_700_000_000_000_000_000);
    assert_eq!(generated, 1000);

    let first = buf[0];
    assert!(first.market_id >= 1001 && first.market_id <= 1003);
    assert!(
        first.venue_id == VenueId::Binance.as_u16()
            || first.venue_id == VenueId::Okx.as_u16()
            || first.venue_id == VenueId::UniswapV3.as_u16()
    );
}

#[test]
fn test_saturation_policy_drop_newest() {
    let mut queue: IsolatedConsumerQueue<u64, 4> = IsolatedConsumerQueue::new();

    assert_eq!(queue.push_with_policy(1, SaturationDropPolicy::DropNewest), PushResult::Enqueued);
    assert_eq!(queue.push_with_policy(2, SaturationDropPolicy::DropNewest), PushResult::Enqueued);
    assert_eq!(queue.push_with_policy(3, SaturationDropPolicy::DropNewest), PushResult::Enqueued);
    assert_eq!(queue.push_with_policy(4, SaturationDropPolicy::DropNewest), PushResult::Enqueued);

    assert_eq!(queue.push_with_policy(5, SaturationDropPolicy::DropNewest), PushResult::DroppedNewest);
    assert_eq!(queue.metrics.total_dropped, 1);
    assert_eq!(queue.metrics.saturation_events, 1);

    assert_eq!(queue.try_pop(), Some(1));
    assert_eq!(queue.try_pop(), Some(2));
    assert_eq!(queue.try_pop(), Some(3));
    assert_eq!(queue.try_pop(), Some(4));
    assert_eq!(queue.try_pop(), None);
}

#[test]
fn test_saturation_policy_drop_oldest() {
    let mut queue: IsolatedConsumerQueue<u64, 4> = IsolatedConsumerQueue::new();

    assert_eq!(queue.push_with_policy(10, SaturationDropPolicy::DropOldest), PushResult::Enqueued);
    assert_eq!(queue.push_with_policy(20, SaturationDropPolicy::DropOldest), PushResult::Enqueued);
    assert_eq!(queue.push_with_policy(30, SaturationDropPolicy::DropOldest), PushResult::Enqueued);
    assert_eq!(queue.push_with_policy(40, SaturationDropPolicy::DropOldest), PushResult::Enqueued);

    assert_eq!(queue.push_with_policy(50, SaturationDropPolicy::DropOldest), PushResult::EvictedOldest);
    assert_eq!(queue.metrics.total_evicted, 1);

    assert_eq!(queue.push_with_policy(60, SaturationDropPolicy::DropOldest), PushResult::EvictedOldest);
    assert_eq!(queue.metrics.total_evicted, 2);

    assert_eq!(queue.try_pop(), Some(30));
    assert_eq!(queue.try_pop(), Some(40));
    assert_eq!(queue.try_pop(), Some(50));
    assert_eq!(queue.try_pop(), Some(60));
    assert_eq!(queue.try_pop(), None);
}

#[test]
fn test_kernel_bypass_bridge_lifecycle() {
    let config = BypassConfig {
        backend: BypassBackendKind::SolarflareEfVi,
        ring_capacity: 64,
        interface_id: 1,
        enable_hardware_timestamping: true,
        promiscuous_mode: false,
    };

    let mut bridge: KernelBypassBridge<64> = KernelBypassBridge::new(config);
    assert!(bridge.is_active());

    let test_payload_1 = b"BBO_BINANCE_BTC_USDT_65000";
    let test_payload_2 = b"BBO_OKX_ETH_USDT_3500";
    let test_payload_3 = b"TRADE_UNISWAP_V3_SOL_USDC_150";

    assert!(bridge.inject_packet(test_payload_1, 1_700_000_000_000_000_100).is_ok());
    assert!(bridge.inject_packet(test_payload_2, 1_700_000_000_000_000_200).is_ok());
    assert!(bridge.inject_packet(test_payload_3, 1_700_000_000_000_000_300).is_ok());

    let mut received = Vec::new();
    let polled = bridge.poll_rx_burst(10, &mut received);

    assert_eq!(polled, 3);
    assert_eq!(received.len(), 3);
    assert_eq!(received[0].0, test_payload_1);
    assert_eq!(received[0].1, 1_700_000_000_000_000_100);
    assert_eq!(received[1].0, test_payload_2);
    assert_eq!(received[1].1, 1_700_000_000_000_000_200);
    assert_eq!(received[2].0, test_payload_3);
    assert_eq!(received[2].1, 1_700_000_000_000_000_300);

    let mut none = Vec::new();
    let empty_polled = bridge.poll_rx_burst(10, &mut none);
    assert_eq!(empty_polled, 0);
    assert_eq!(bridge.metrics.empty_polls, 1);
}

#[test]
fn test_rx_ring_saturation_handling() {
    let config = BypassConfig {
        backend: BypassBackendKind::DpdkPmd,
        ring_capacity: 4,
        interface_id: 0,
        enable_hardware_timestamping: false,
        promiscuous_mode: false,
    };

    let mut bridge: KernelBypassBridge<4> = KernelBypassBridge::new(config);

    assert!(bridge.inject_packet(b"PKT1", 10).is_ok());
    assert!(bridge.inject_packet(b"PKT2", 20).is_ok());
    assert!(bridge.inject_packet(b"PKT3", 30).is_ok());
    assert!(bridge.inject_packet(b"PKT4", 40).is_ok());

    let res = bridge.inject_packet(b"PKT5", 50);
    assert!(res.is_err());
    assert_eq!(bridge.metrics.dma_errors, 1);

    let mut drained_packets = Vec::new();
    bridge.poll_rx_burst(2, &mut drained_packets);
    let drained = drained_packets.len();
    assert_eq!(drained, 2);

    assert!(bridge.inject_packet(b"PKT6", 60).is_ok());
}

#[test]
fn bridge_polls_packets_in_injection_order_after_partial_poll() {
    let mut bridge: KernelBypassBridge<4> = KernelBypassBridge::new(BypassConfig::default());
    assert!(bridge.inject_packet(b"A1", 1).is_ok());
    assert!(bridge.inject_packet(b"B22", 2).is_ok());
    assert!(bridge.inject_packet(b"C333", 3).is_ok());
    let mut first = Vec::new();
    assert_eq!(bridge.poll_rx_burst(1, &mut first), 1);
    assert_eq!(first, vec![(b"A1".to_vec(), 1)]);
    let mut rest = Vec::new();
    assert_eq!(bridge.poll_rx_burst(8, &mut rest), 2);
    assert_eq!(rest, vec![(b"B22".to_vec(), 2), (b"C333".to_vec(), 3)]);
    assert_eq!(bridge.metrics.packets_received, 3);
    assert_eq!(bridge.metrics.bytes_received, 9);
    assert_eq!(bridge.metrics.poll_cycles, 2);
    assert_eq!(bridge.metrics.empty_polls, 0);
}

#[test]
fn bridge_truncates_oversized_packets_to_a_frame() {
    let mut bridge: KernelBypassBridge<2> = KernelBypassBridge::new(BypassConfig::default());
    let big = vec![7u8; 3000];
    assert!(bridge.inject_packet(&big, 99).is_ok());
    let mut got = Vec::new();
    assert_eq!(bridge.poll_rx_burst(1, &mut got), 1);
    assert_eq!(got[0].0.len(), 2048);
    assert!(got[0].0.iter().all(|b| *b == 7));
    assert_eq!(got[0].1, 99);
}

#[test]
fn bridge_new_posts_every_buffer() {
    let bridge: KernelBypassBridge<8> = KernelBypassBridge::new(BypassConfig::default());
    assert_eq!(bridge.metrics.ring_refills, 8);
    assert_eq!(bridge.metrics.packets_received, 0);
    assert_eq!(DEFAULT_RING_CAPACITY, 2048);
}

#[test]
fn dma_pool_is_a_lifo_free_list() {
    let mut pool: DmaBufferPool<4> = DmaBufferPool::new();
    assert_eq!(pool.allocate_descriptor(), Some(3));
    assert_eq!(pool.allocate_descriptor(), Some(2));
    pool.release_descriptor(3);
    assert_eq!(pool.allocate_descriptor(), Some(3));
    assert_eq!(pool.allocate_descriptor(), Some(1));
    assert_eq!(pool.allocate_descriptor(), Some(0));
    assert_eq!(pool.allocate_descriptor(), None);
    let d = pool.descriptor(2);
    assert_eq!(d.dma_address, 0x1000_0000 + 2 * 2048);
    assert_eq!(d.buffer_id, 2);
    let d6 = pool.descriptor(6);
    assert_eq!(d6.buffer_id, 2);
}

#[test]
fn dma_pool_buffer_write_then_slice() {
    let mut pool: DmaBufferPool<4> = DmaBufferPool::new();
    {
        let buf = pool.get_buffer_mut(1);
        buf[0] = 0xAB;
        buf[1] = 0xCD;
    }
    assert_eq!(pool.get_buffer_slice(1, 3), &[0xAB, 0xCD, 0x00]);
    assert_eq!(pool.get_buffer_slice(5, 2), &[0xAB, 0xCD]);
    assert_eq!(pool.get_buffer_slice(1, 10_000).len(), 2048);
}

#[test]
fn packet_descriptor_default_is_zero() {
    let d = PacketDescriptor::default();
    assert_eq!(d.dma_address, 0);
    assert_eq!(d.length, 0);
    assert_eq!(d._reserved, [0u8; 36]);
}

#[test]
fn prng_zero_seed_and_ranges() {
    let mut a = FastPrng::new(0);
    let mut b = FastPrng::new(0);
    assert_eq!(a.next_u64(), b.next_u64());
    for _ in 0..100 {
        let v = a.gen_range(10, 20);
        assert!((10..=20).contains(&v));
        let d = a.gen_price_delta(5);
        assert!((-5..=5).contains(&d));
    }
    assert_eq!(a.gen_range(7, 7), 7);
}

#[test]
fn order_book_best_levels_follow_updates() {
    let mut book = ContiguousOrderBook::new(1_000_000);
    assert!(book.bbo_bid().is_none());
    assert!(book.bbo_ask().is_none());
    book.update_bid(999_000, 5, 1, 1);
    book.update_ask(1_001_000, 7, 1, 2);
    assert_eq!(book.bbo_bid().unwrap().quantity, 5);
    assert_eq!(book.bbo_ask().unwrap().quantity, 7);
}

#[test]
fn fixed_point_parser_negative_and_truncation() {
    assert_eq!(parse_fixed_point_8(b"-1.5"), -150_000_000);
    assert_eq!(parse_fixed_point_8(b"0.123456789"), 12_345_678);
    assert_eq!(parse_fixed_point_8(b""), 0);
    // A second point restarts the fraction count; other bytes are skipped.
    assert_eq!(parse_fixed_point_8(b"1.5.25"), 1_525_000_000);
    assert_eq!(parse_fixed_point_8(b"1,000.5"), 100_050_000_000);
}

#[test]
fn prng_price_delta_with_negative_bound_follows_the_unsigned_modulus() {
    let mut a = FastPrng::new(9);
    let mut b = FastPrng::new(9);
    let d = a.gen_price_delta(-3);
    let x = b.next_u64();
    let span = (-3i64 * 2 + 1) as u64;
    assert_eq!(d, ((x % span) as i64) + 3);
    let mut c = FastPrng::new(9);
    let mut e = FastPrng::new(9);
    let d2 = c.gen_price_delta(4);
    assert_eq!(d2, ((e.next_u64() % 9) as i64) - 4);
    assert!((-4..=4).contains(&d2));
}

#[test]
fn empty_dma_pool_allocates_nothing() {
    let mut pool: DmaBufferPool<0> = DmaBufferPool::new();
    assert_eq!(pool.allocate_descriptor(), None);
    pool.release_descriptor(3);
    assert_eq!(pool.allocate_descriptor(), None);
}
