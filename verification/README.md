# chain_market_price

A market data engine library with machine-checked contracts: normalized
CeFi/DeFi models, a price-ladder order book, AMM virtualizers (constant
product, Curve stableswap, concentrated liquidity, Uniswap v4 hooks), feed
ingestion (sequence tracking, exchange message parsing, mempool swap
simulation, kernel-bypass RX ring), and distribution (topic keys, client
bitmaps, token buckets, SBE and JSON encoders, an inverted topic router, a
shared-memory ring and a WebSocket engine).

Every function in `src/` is verified with Verus against its `requires` /
`ensures` contract, with one exception: `websocket::utf8_valid`, a trusted
wrapper around `std::str::from_utf8` whose contract (the result says whether
the bytes are well-formed UTF-8, spelled out as the spec `is_utf8`) Verus
takes without proof. Laws that relate several calls are public proof
functions next to the code they speak of.

## Layout

- `src/` — the verified library, one module per component:
  `models`, `u256`, `order_book`, `ring`, `curve`, `amm`, `v4`, `simulator`,
  `fanout`, `bitmap`, `wire`, `sbe`, `fast_json`, `session`, `router`, `shm`,
  `websocket`, `cefi`, `onchain`, `kernel_bypass`.
- `tests/` — executable tests of the library.
- `app/` — host-side adapters: raw driver handles, floating-point filter
  thresholds, callback-style delivery and std iterators.

## Conventions

- Prices and quantities are fixed-point integers scaled by 10^8.
- Floating-point values (trade notionals, filter thresholds) cross into the
  library as IEEE-754 bit patterns; comparisons on them are done on the bits.
- Functions that deliver several results append them to a `Vec` sink given by
  the caller, in delivery order.
- The router keeps its topics and client sessions as vectors of (key, value)
  pairs with distinct keys rather than hash maps. Its operations update
  entries in place: unregistering removes a client from every topic bitmap
  and drops topics left empty, and dispatching updates each session's rate
  limiter and counters. vstd specifies `HashMap` lookups, inserts and
  removals, but not the in-place updates these need (`values_mut`, `retain`,
  `get_mut`), so the vectors keep every router operation verified without
  trusted specifications of std.
