use chain_market_price::u256::U256;
use chain_market_price::amm::{integer_sqrt, ConcentratedLiquidityPool, ConcentratedTick, UniswapV2Pool};
use chain_market_price::curve::CurvePool;
use chain_market_price::order_book::ContiguousOrderBook;
use chain_market_price::v4::{
    HookFlags, HookSimulationConfig, PoolKey, UniswapV4Pool, DYNAMIC_FEE_FLAG,
};

#[test]
fn test_curve_3pool_dai_usdc_usdt_invariant() {
    let reserves = [
        10_000_000 * 10u128.pow(18),
        10_000_000 * 10u128.pow(6),
        10_000_000 * 10u128.pow(6),
    ];
    let decimals = [18, 6, 6];
    let pool = CurvePool::new_3pool(reserves, decimals, 200, 4);

    let xp = pool.normalized_reserves();
    assert_eq!(xp[0], 10_000_000 * 10u128.pow(18));
    assert_eq!(xp[1], 10_000_000 * 10u128.pow(18));
    assert_eq!(xp[2], 10_000_000 * 10u128.pow(18));

    let d = pool.get_d(&xp).expect("Failed to compute D");
    assert_eq!(d, 30_000_000 * 10u128.pow(18));

    let spot = pool.spot_price_scaled(0, 1);
    assert!(spot >= 99_900_000 && spot <= 100_100_000);

    let dy = pool
        .calculate_swap_output(0, 1, 10_000 * 10u128.pow(18))
        .expect("Swap output failed");
    let dy_scaled = dy as f64 / 1e6;
    assert!(dy_scaled >= 9990.0 && dy_scaled <= 10000.0);
}

#[test]
fn test_curve_2pool_steth_eth_discretization() {
    let reserves = [100_000 * 10u128.pow(18), 100_000 * 10u128.pow(18)];
    let pool = CurvePool::new_2pool(reserves, [18, 18], 50, 4);

    let mut book = ContiguousOrderBook::new(100_000_000);
    pool.populate_virtual_order_book(&mut book, 0, 1, &[1, 2, 5, 10], 1000);

    assert!(book.bbo_bid().is_some());
    assert!(book.bbo_bid().unwrap().quantity > 0);
}

#[test]
fn test_uniswap_v2_discretization() {
    let pool = UniswapV2Pool::new(1_000 * 10u128.pow(18), 2_000_000 * 10u128.pow(6), 30);
    assert_eq!(pool.spot_price_scaled(), 200000000000);

    let mut book = ContiguousOrderBook::new(200000000000);
    pool.populate_virtual_order_book(&mut book, &[10, 25, 50, 100], 1000);

    assert!(book.bbo_bid().is_some());
    assert!(book.bbo_bid().unwrap().quantity > 0);
}

#[test]
fn test_v4_hook_flags_and_dynamic_fee() {
    let mut hooks_addr = [0u8; 20];
    hooks_addr[1] = 0x80;

    let key = PoolKey {
        currency0: [0x11; 20],
        currency1: [0x22; 20],
        fee: DYNAMIC_FEE_FLAG | 3000,
        tick_spacing: 60,
        hooks: hooks_addr,
    };

    assert!(key.has_dynamic_fee());
    assert!(key.has_hook(HookFlags::BEFORE_SWAP));
    assert!(!key.has_hook(HookFlags::AFTER_SWAP));

    let pool = UniswapV4Pool::new(key, 1u128 << 96, 0, 10_000_000_000);
    assert_eq!(pool.effective_fee_bps(), 30);

    let config = HookSimulationConfig {
        dynamic_fee_override_bps: Some(12),
        hook_delta_specified: 0,
        hook_fee_delta_bps: -2,
    };
    let dynamic_pool = pool.with_hook_config(config);
    assert_eq!(dynamic_pool.effective_fee_bps(), 10);
}

#[test]
fn test_v4_order_book_discretization() {
    let key = PoolKey {
        currency0: [0xaa; 20],
        currency1: [0xbb; 20],
        fee: 500,
        tick_spacing: 10,
        hooks: [0u8; 20],
    };

    let sqrt_p = 3543191142285914205922034323210u128;
    let pool = UniswapV4Pool::new(key, sqrt_p, 100, 50_000_000_000_000);

    let mut book = ContiguousOrderBook::new(200_000_000_000);
    let ticks = [
        ConcentratedTick { tick_index: 90, liquidity_gross: 5_000_000_000, liquidity_net: -5_000_000_000 },
        ConcentratedTick { tick_index: 100, liquidity_gross: 10_000_000_000, liquidity_net: 10_000_000_000 },
        ConcentratedTick { tick_index: 110, liquidity_gross: 5_000_000_000, liquidity_net: -5_000_000_000 },
    ];

    pool.populate_virtual_order_book(&mut book, &ticks, 1234567);

    assert!(book.bbo_bid().is_some());
    assert!(book.bbo_bid().unwrap().quantity > 0);
}

#[test]
fn curve_balanced_pool_invariant_is_sum_of_reserves() {
    let pool = CurvePool::new_2pool([5_000 * 10u128.pow(18), 5_000 * 10u128.pow(6)], [18, 6], 100, 4);
    let xp = pool.normalized_reserves();
    assert_eq!(pool.get_d(&xp), Some(10_000 * 10u128.pow(18)));
}

#[test]
fn curve_swap_output_is_below_input_for_balanced_pool() {
    let pool = CurvePool::new_2pool([1_000_000 * 10u128.pow(18), 1_000_000 * 10u128.pow(18)], [18, 18], 100, 4);
    let out = pool.calculate_swap_output(0, 1, 1_000 * 10u128.pow(18)).unwrap();
    assert!(out < 1_000 * 10u128.pow(18));
    assert!(out > 990 * 10u128.pow(18));
}

#[test]
fn integer_sqrt_exact_values() {
    assert_eq!(integer_sqrt(0), 0);
    assert_eq!(integer_sqrt(1), 1);
    assert_eq!(integer_sqrt(15), 3);
    assert_eq!(integer_sqrt(16), 4);
    assert_eq!(integer_sqrt(1_000_000_000_000), 1_000_000);
    assert_eq!(integer_sqrt(u128::MAX), 18446744073709551615);
}

#[test]
fn uniswap_v2_empty_base_reserve_has_zero_price() {
    let pool = UniswapV2Pool::new(0, 1_000, 30);
    assert_eq!(pool.spot_price_scaled(), 0);
    assert_eq!(pool.fee_numerator, 9_970);
    assert_eq!(pool.fee_denominator, 10_000);
}

#[test]
fn concentrated_pool_price_at_unit_sqrt_price() {
    let pool = ConcentratedLiquidityPool::new(0, 1u128 << 96, 1_000_000, 60);
    assert_eq!(pool.spot_price_scaled(), 100_000_000);
    let zero = ConcentratedLiquidityPool::new(0, 0, 1_000_000, 60);
    assert_eq!(zero.spot_price_scaled(), 0);
}

#[test]
fn v4_static_fee_and_flags_from_address() {
    let mut hooks = [0u8; 20];
    hooks[0] = 0x20;
    hooks[1] = 0x40;
    assert_eq!(HookFlags::parse_flags_from_address(&hooks), 0x2040);
    let key = PoolKey { currency0: [1; 20], currency1: [2; 20], fee: 500, tick_spacing: 10, hooks };
    assert!(!key.has_dynamic_fee());
    assert_eq!(key.hook_flags(), 0x2040);
    assert!(key.has_hook(HookFlags::BEFORE_INITIALIZE));
    assert!(key.has_hook(HookFlags::AFTER_SWAP));
    let pool = UniswapV4Pool::new(key, 1u128 << 96, 0, 1);
    assert_eq!(pool.effective_fee_bps(), 5);
    assert_eq!(pool.spot_price_scaled(), 100_000_000);
}

#[test]
fn curve_get_y_rejects_equal_or_out_of_range_coins_without_balances() {
    let pool = CurvePool::new_2pool([1_000 * 10u128.pow(18), 1_000 * 10u128.pow(18)], [18, 18], 100, 4);
    assert_eq!(pool.get_y(0, 0, 5, &[]), None);
    assert_eq!(pool.get_y(0, 2, 5, &[]), None);
    assert_eq!(pool.get_y(3, 1, 5, &[]), None);
}

#[test]
fn u256_add_then_sub_and_sub_then_add_give_the_value_back() {
    let a = U256 { hi: 7, lo: u128::MAX - 3 };
    let b = U256 { hi: u128::MAX, lo: 10 };
    assert_eq!(a.add(b).sub(b), a);
    assert_eq!(a.sub(b).add(b), a);
    let small = U256::from_u128(5);
    let big = U256::from_u128(12);
    assert_eq!(big.sub(small), U256::from_u128(7));
}
