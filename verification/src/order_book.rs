//! Contiguous flat-array order book ladder and the fixed-point price parser.
use vstd::prelude::*;

verus! {

/// CPU cache line size on modern x86-64 and ARM64 architectures.
pub const CACHE_LINE_SIZE: usize = 64;

/// Number of price levels on each side of the ladder.
pub const PRICE_LEVELS_COUNT: usize = 2048;

/// Ladder tick: 0.001 in 10^8 fixed-point scale.
pub const TICK_SIZE: i64 = 100_000;

/// Wrapper that keeps a value on a cache line of its own.
pub struct CachePadded<T>(pub T);

/// One rung of the price ladder.
#[derive(Clone, Copy, Default, Debug, PartialEq, Eq, Structural)]
pub struct PriceLevel {
    /// Price scaled 10^8.
    pub price: i64,
    /// Quantity scaled 10^8.
    pub quantity: u64,
    pub order_count: u32,
    /// Hardware nanosecond timestamp of the last update.
    pub last_update_ts: u64,
}

/// The empty price level.
pub open spec fn empty_level() -> PriceLevel {
    PriceLevel { price: 0, quantity: 0, order_count: 0, last_update_ts: 0 }
}

/// Ladder index of `price` relative to `base`: distance in whole ticks.
pub open spec fn ladder_index(price: int, base: int) -> int {
    if price >= base {
        (price - base) / (TICK_SIZE as int)
    } else {
        (base - price) / (TICK_SIZE as int)
    }
}

/// Scanning levels `0..n`: the first index holding the highest positive price
/// among levels with a positive quantity, with that price (index 0 and price 0
/// when there is none).
pub open spec fn best_bid_scan(levels: Seq<PriceLevel>, n: nat) -> (int, i64)
    decreases n,
{
    if n == 0 {
        (0, 0)
    } else {
        let (idx, best) = best_bid_scan(levels, (n - 1) as nat);
        let l = levels[n - 1];
        if l.quantity > 0 && l.price > best {
            ((n - 1) as int, l.price)
        } else {
            (idx, best)
        }
    }
}

/// Scanning levels `0..n`: the first index holding the lowest price below
/// `i64::MAX` among levels with a positive quantity (index 0 when there is none).
pub open spec fn best_ask_scan(levels: Seq<PriceLevel>, n: nat) -> (int, i64)
    decreases n,
{
    if n == 0 {
        (0, i64::MAX)
    } else {
        let (idx, best) = best_ask_scan(levels, (n - 1) as nat);
        let l = levels[n - 1];
        if l.quantity > 0 && l.price < best {
            ((n - 1) as int, l.price)
        } else {
            (idx, best)
        }
    }
}

/// The bid scan finds the highest positive price among levels with quantity,
/// at a level that holds quantity (index 0 and price 0 when there is none).
proof fn lemma_best_bid_scan(levels: Seq<PriceLevel>, n: nat)
    requires
        n <= levels.len(),
    ensures
        ({
            let (i, p) = best_bid_scan(levels, n);
            &&& 0 <= i && (i < n || i == 0)
            &&& p >= 0
            &&& p > 0 ==> levels[i].quantity > 0 && levels[i].price == p
            &&& forall|k: int| 0 <= k < n && (#[trigger] levels[k]).quantity > 0 ==> levels[k].price <= p
        }),
    decreases n,
{
    if n > 0 {
        lemma_best_bid_scan(levels, (n - 1) as nat);
    }
}

/// The ask scan finds the lowest price below `i64::MAX` among levels with
/// quantity, at a level that holds quantity (index 0 and `i64::MAX` when there
/// is none).
proof fn lemma_best_ask_scan(levels: Seq<PriceLevel>, n: nat)
    requires
        n <= levels.len(),
    ensures
        ({
            let (i, p) = best_ask_scan(levels, n);
            &&& 0 <= i && (i < n || i == 0)
            &&& p < i64::MAX ==> levels[i].quantity > 0 && levels[i].price == p
            &&& forall|k: int| 0 <= k < n && (#[trigger] levels[k]).quantity > 0 ==> levels[k].price >= p
        }),
    decreases n,
{
    if n > 0 {
        lemma_best_ask_scan(levels, (n - 1) as nat);
    }
}

/// Dense price-indexed L2 ladder with cached best bid and best ask indices.
pub struct ContiguousOrderBook {
    pub bids: [PriceLevel; PRICE_LEVELS_COUNT],
    pub asks: [PriceLevel; PRICE_LEVELS_COUNT],
    pub best_bid_idx: usize,
    pub best_ask_idx: usize,
    /// Anchor reference price of index 0.
    pub base_price: i64,
}

/// The best-index after writing a level at `idx` on one side: becomes `idx`
/// when the new level is better than the current best, is recomputed by a full
/// scan when the current best level was emptied, and otherwise stays.
pub open spec fn next_best_bid(levels: Seq<PriceLevel>, best: int, idx: int, price: i64, qty: u64) -> int {
    if qty > 0 && (levels[best].quantity == 0 || price > levels[best].price) {
        idx
    } else if qty == 0 && idx == best {
        best_bid_scan(levels, levels.len()).0
    } else {
        best
    }
}

pub open spec fn next_best_ask(levels: Seq<PriceLevel>, best: int, idx: int, price: i64, qty: u64) -> int {
    if qty > 0 && (levels[best].quantity == 0 || price < levels[best].price) {
        idx
    } else if qty == 0 && idx == best {
        best_ask_scan(levels, levels.len()).0
    } else {
        best
    }
}

/// Abstract state of a ladder: both sides as sequences, the cached best
/// indices and the anchor price.
pub struct BookView {
    pub bids: Seq<PriceLevel>,
    pub asks: Seq<PriceLevel>,
    pub best_bid: int,
    pub best_ask: int,
    pub base_price: i64,
}

/// A bid write at the rung of `price`: the level is replaced and the best-bid
/// index maintained; a price off the ladder leaves the book unchanged.
pub open spec fn apply_bid(v: BookView, price: i64, qty: u64, cnt: u32, ts: u64) -> BookView {
    let idx = ladder_index(price as int, v.base_price as int);
    let lvl = PriceLevel { price, quantity: qty, order_count: cnt, last_update_ts: ts };
    if idx < PRICE_LEVELS_COUNT {
        let levels = v.bids.update(idx, lvl);
        BookView { bids: levels, best_bid: next_best_bid(levels, v.best_bid, idx, price, qty), ..v }
    } else {
        v
    }
}

/// An ask write at the rung of `price`, symmetric to [`apply_bid`].
pub open spec fn apply_ask(v: BookView, price: i64, qty: u64, cnt: u32, ts: u64) -> BookView {
    let idx = ladder_index(price as int, v.base_price as int);
    let lvl = PriceLevel { price, quantity: qty, order_count: cnt, last_update_ts: ts };
    if idx < PRICE_LEVELS_COUNT {
        let levels = v.asks.update(idx, lvl);
        BookView { asks: levels, best_ask: next_best_ask(levels, v.best_ask, idx, price, qty), ..v }
    } else {
        v
    }
}

/// `price - base` stays within the `i64` range, so the rung can be computed.
pub open spec fn rung_computable(price: i64, base: i64) -> bool {
    -(i64::MAX as int) <= price - base <= i64::MAX
}

impl View for ContiguousOrderBook {
    type V = BookView;

    open spec fn view(&self) -> BookView {
        BookView {
            bids: self.bids@,
            asks: self.asks@,
            best_bid: self.best_bid_idx as int,
            best_ask: self.best_ask_idx as int,
            base_price: self.base_price,
        }
    }
}

impl ContiguousOrderBook {
    /// Both cached best indices point into the ladder.
    pub open spec fn wf(&self) -> bool {
        &&& self.best_bid_idx < PRICE_LEVELS_COUNT
        &&& self.best_ask_idx < PRICE_LEVELS_COUNT
    }

    pub fn new(base_price: i64) -> (book: Self)
        ensures
            book.wf(),
            book.base_price == base_price,
            book.best_bid_idx == 0,
            book.best_ask_idx == PRICE_LEVELS_COUNT - 1,
            forall|i: int| 0 <= i < PRICE_LEVELS_COUNT ==> book.bids@[i] == empty_level(),
            forall|i: int| 0 <= i < PRICE_LEVELS_COUNT ==> book.asks@[i] == empty_level(),
    {
        let empty = PriceLevel { price: 0, quantity: 0, order_count: 0, last_update_ts: 0 };
        ContiguousOrderBook {
            bids: [empty; PRICE_LEVELS_COUNT],
            asks: [empty; PRICE_LEVELS_COUNT],
            best_bid_idx: 0,
            best_ask_idx: PRICE_LEVELS_COUNT - 1,
            base_price,
        }
    }

    /// Writes a bid level at the rung of `price` (ignored when off the ladder)
    /// and maintains the best-bid index.
    pub fn update_bid(&mut self, price: i64, quantity: u64, order_count: u32, ts: u64)
        requires
            old(self).wf(),
            rung_computable(price, old(self).base_price),
        ensures
            final(self).wf(),
            final(self)@ == apply_bid(old(self)@, price, quantity, order_count, ts),
            // A level with quantity lands on the ladder: the best bid then holds
            // quantity at a price no lower than it.
            quantity > 0 && ladder_index(price as int, old(self).base_price as int) < PRICE_LEVELS_COUNT ==> {
                &&& final(self).bids@[final(self).best_bid_idx as int].quantity > 0
                &&& final(self).bids@[final(self).best_bid_idx as int].price >= price
            },
            // A level with quantity written at another rung never lowers a live best bid.
            quantity > 0 && ladder_index(price as int, old(self).base_price as int) < PRICE_LEVELS_COUNT
                && ladder_index(price as int, old(self).base_price as int) != old(self).best_bid_idx
                && old(self).bids@[old(self).best_bid_idx as int].quantity > 0
                ==> final(self).bids@[final(self).best_bid_idx as int].price >= old(self).bids@[old(
                self).best_bid_idx as int].price,
            // Emptying the best rung finds the highest positive price among the
            // levels that still hold quantity.
            quantity == 0 && ladder_index(price as int, old(self).base_price as int) == old(self).best_bid_idx
                ==> forall|k: int|
                0 <= k < PRICE_LEVELS_COUNT && #[trigger] final(self).bids@[k].quantity > 0
                    && final(self).bids@[k].price > 0 ==> {
                    &&& final(self).bids@[final(self).best_bid_idx as int].quantity > 0
                    &&& final(self).bids@[k].price <= final(self).bids@[final(self).best_bid_idx as int].price
                },
    {
        proof {
            let ix = ladder_index(price as int, old(self).base_price as int);
            if 0 <= ix < PRICE_LEVELS_COUNT {
                lemma_best_bid_scan(
                    old(self).bids@.update(ix, PriceLevel { price, quantity, order_count, last_update_ts: ts }),
                    PRICE_LEVELS_COUNT as nat,
                );
            }
        }
        let diff = if price >= self.base_price {
            (price - self.base_price) / TICK_SIZE
        } else {
            (self.base_price - price) / TICK_SIZE
        };
        if diff >= 0 && diff < PRICE_LEVELS_COUNT as i64 {
            let idx = diff as usize;
            self.bids[idx] = PriceLevel { price, quantity, order_count, last_update_ts: ts };
            if quantity > 0 && (self.bids[self.best_bid_idx].quantity == 0 || price
                > self.bids[self.best_bid_idx].price) {
                self.best_bid_idx = idx;
            } else if quantity == 0 && idx == self.best_bid_idx {
                self.recalculate_best_bid();
            }
        }
    }

    /// Writes an ask level at the rung of `price` (ignored when off the ladder)
    /// and maintains the best-ask index.
    pub fn update_ask(&mut self, price: i64, quantity: u64, order_count: u32, ts: u64)
        requires
            old(self).wf(),
            rung_computable(price, old(self).base_price),
        ensures
            final(self).wf(),
            final(self)@ == apply_ask(old(self)@, price, quantity, order_count, ts),
            // A level with quantity lands on the ladder: the best ask then holds
            // quantity at a price no higher than it.
            quantity > 0 && ladder_index(price as int, old(self).base_price as int) < PRICE_LEVELS_COUNT ==> {
                &&& final(self).asks@[final(self).best_ask_idx as int].quantity > 0
                &&& final(self).asks@[final(self).best_ask_idx as int].price <= price
            },
            // A level with quantity written at another rung never raises a live best ask.
            quantity > 0 && ladder_index(price as int, old(self).base_price as int) < PRICE_LEVELS_COUNT
                && ladder_index(price as int, old(self).base_price as int) != old(self).best_ask_idx
                && old(self).asks@[old(self).best_ask_idx as int].quantity > 0
                ==> final(self).asks@[final(self).best_ask_idx as int].price <= old(self).asks@[old(
                self).best_ask_idx as int].price,
            // Emptying the best rung finds the lowest price among the levels
            // that still hold quantity (below `i64::MAX`).
            quantity == 0 && ladder_index(price as int, old(self).base_price as int) == old(self).best_ask_idx
                ==> forall|k: int|
                0 <= k < PRICE_LEVELS_COUNT && #[trigger] final(self).asks@[k].quantity > 0
                    && final(self).asks@[k].price < i64::MAX ==> {
                    &&& final(self).asks@[final(self).best_ask_idx as int].quantity > 0
                    &&& final(self).asks@[k].price >= final(self).asks@[final(self).best_ask_idx as int].price
                },
    {
        proof {
            let ix = ladder_index(price as int, old(self).base_price as int);
            if 0 <= ix < PRICE_LEVELS_COUNT {
                lemma_best_ask_scan(
                    old(self).asks@.update(ix, PriceLevel { price, quantity, order_count, last_update_ts: ts }),
                    PRICE_LEVELS_COUNT as nat,
                );
            }
        }
        let diff = if price >= self.base_price {
            (price - self.base_price) / TICK_SIZE
        } else {
            (self.base_price - price) / TICK_SIZE
        };
        if diff >= 0 && diff < PRICE_LEVELS_COUNT as i64 {
            let idx = diff as usize;
            self.asks[idx] = PriceLevel { price, quantity, order_count, last_update_ts: ts };
            if quantity > 0 && (self.asks[self.best_ask_idx].quantity == 0 || price
                < self.asks[self.best_ask_idx].price) {
                self.best_ask_idx = idx;
            } else if quantity == 0 && idx == self.best_ask_idx {
                self.recalculate_best_ask();
            }
        }
    }

    fn recalculate_best_bid(&mut self)
        ensures
            final(self).best_bid_idx == best_bid_scan(old(self).bids@, PRICE_LEVELS_COUNT as nat).0,
            final(self).best_bid_idx < PRICE_LEVELS_COUNT,
            final(self).bids == old(self).bids,
            final(self).asks == old(self).asks,
            final(self).best_ask_idx == old(self).best_ask_idx,
            final(self).base_price == old(self).base_price,
    {
        let mut best_idx: usize = 0;
        let mut best_price: i64 = 0;
        let mut i: usize = 0;
        while i < PRICE_LEVELS_COUNT
            invariant
                i <= PRICE_LEVELS_COUNT,
                (best_idx as int, best_price) == best_bid_scan(self.bids@, i as nat),
                best_idx < PRICE_LEVELS_COUNT,
            decreases PRICE_LEVELS_COUNT - i,
        {
            let level = self.bids[i];
            if level.quantity > 0 && level.price > best_price {
                best_price = level.price;
                best_idx = i;
            }
            i += 1;
        }
        self.best_bid_idx = best_idx;
    }

    fn recalculate_best_ask(&mut self)
        ensures
            final(self).best_ask_idx == best_ask_scan(old(self).asks@, PRICE_LEVELS_COUNT as nat).0,
            final(self).best_ask_idx < PRICE_LEVELS_COUNT,
            final(self).bids == old(self).bids,
            final(self).asks == old(self).asks,
            final(self).best_bid_idx == old(self).best_bid_idx,
            final(self).base_price == old(self).base_price,
    {
        let mut best_idx: usize = 0;
        let mut best_price: i64 = i64::MAX;
        let mut i: usize = 0;
        while i < PRICE_LEVELS_COUNT
            invariant
                i <= PRICE_LEVELS_COUNT,
                (best_idx as int, best_price) == best_ask_scan(self.asks@, i as nat),
                best_idx < PRICE_LEVELS_COUNT,
            decreases PRICE_LEVELS_COUNT - i,
        {
            let level = self.asks[i];
            if level.quantity > 0 && level.price < best_price {
                best_price = level.price;
                best_idx = i;
            }
            i += 1;
        }
        self.best_ask_idx = best_idx;
    }

    /// The best bid level, when it holds a positive quantity.
    pub fn bbo_bid(&self) -> (r: Option<&PriceLevel>)
        requires
            self.wf(),
        ensures
            r == (if self.bids@[self.best_bid_idx as int].quantity > 0 {
                Some(&self.bids@[self.best_bid_idx as int])
            } else {
                None
            }),
    {
        let level = &self.bids[self.best_bid_idx];
        if level.quantity > 0 {
            Some(level)
        } else {
            None
        }
    }

    /// The best ask level, when it holds a positive quantity.
    pub fn bbo_ask(&self) -> (r: Option<&PriceLevel>)
        requires
            self.wf(),
        ensures
            r == (if self.asks@[self.best_ask_idx as int].quantity > 0 {
                Some(&self.asks@[self.best_ask_idx as int])
            } else {
                None
            }),
    {
        let level = &self.asks[self.best_ask_idx];
        if level.quantity > 0 {
            Some(level)
        } else {
            None
        }
    }
}

/// 10^n.
pub open spec fn pow10(n: nat) -> nat
    decreases n,
{
    if n == 0 {
        1
    } else {
        10 * pow10((n - 1) as nat)
    }
}

/// ASCII decimal digit.
pub open spec fn is_digit(b: u8) -> bool {
    48 <= b <= 57
}

/// Reading `s` left to right: the number formed by all its digits, and the count
/// of digits seen since the last `.` (-1 before any `.`); other bytes are skipped.
pub open spec fn scan_number(s: Seq<u8>) -> (int, int)
    decreases s.len(),
{
    if s.len() == 0 {
        (0, -1)
    } else {
        let (r, dp) = scan_number(s.drop_last());
        let b = s.last();
        if b == 46 {
            (r, 0)
        } else if is_digit(b) {
            (r * 10 + (b - 48), if dp >= 0 { dp + 1 } else { dp })
        } else {
            (r, dp)
        }
    }
}

/// Whether `s` starts with a minus sign.
pub open spec fn is_negative_literal(s: Seq<u8>) -> bool {
    s.len() > 0 && s[0] == 45
}

/// The bytes after an optional leading minus sign.
pub open spec fn unsigned_part(s: Seq<u8>) -> Seq<u8> {
    if is_negative_literal(s) {
        s.subrange(1, s.len() as int)
    } else {
        s
    }
}

/// Rescales the digit value `r` with `dp` decimals (negative: no `.`) to 8
/// decimals, truncating extra decimals.
pub open spec fn rescale_to_8(r: int, dp: int) -> int {
    let shift = 8 - (if dp < 0 { 0 } else { dp });
    if shift >= 0 {
        r * pow10(shift as nat)
    } else {
        r / (pow10((-shift) as nat) as int)
    }
}

/// The 10^8 fixed-point value of an ASCII decimal literal.
pub open spec fn fixed_point_8(s: Seq<u8>) -> int {
    let (r, dp) = scan_number(unsigned_part(s));
    let v = rescale_to_8(r, dp);
    if is_negative_literal(s) {
        -v
    } else {
        v
    }
}

/// Parsing `s` stays within `i64`: its digits form a value that fits, and
/// so does that value scaled up to 8 decimals.
pub open spec fn fixed_point_8_fits(s: Seq<u8>) -> bool {
    let (r, dp) = scan_number(unsigned_part(s));
    let shift = 8 - (if dp < 0 { 0 } else { dp });
    &&& r <= i64::MAX
    &&& shift > 0 ==> r * pow10(shift as nat) <= i64::MAX
    &&& peak_places(unsigned_part(s)) <= i32::MAX
}

/// The largest count of fraction digits seen while scanning `s` (a point
/// restarts the count; -1 before any point).
pub open spec fn peak_places(s: Seq<u8>) -> int
    decreases s.len(),
{
    if s.len() == 0 {
        -1
    } else {
        let p = peak_places(s.drop_last());
        let dp = scan_number(s).1;
        if dp > p { dp } else { p }
    }
}

/// Every prefix's fraction-digit count is at most the peak.
proof fn lemma_peak_places(s: Seq<u8>, n: int)
    requires
        0 <= n <= s.len(),
    ensures
        scan_number(s.take(n)).1 <= peak_places(s),
    decreases s.len(),
{
    if s.len() > 0 {
        if n == s.len() {
            assert(s.take(n) =~= s);
        } else {
            lemma_peak_places(s.drop_last(), n);
            assert(s.drop_last().take(n) =~= s.take(n));
        }
    } else {
        assert(s.take(n) =~= s);
    }
}

pub(crate) proof fn lemma_scan_number_prefix(s: Seq<u8>, n: int)
    requires
        0 <= n <= s.len(),
    ensures
        0 <= scan_number(s.take(n)).0 <= scan_number(s).0,
        scan_number(s.take(n)).1 < n,
        scan_number(s).0 >= 0,
    decreases s.len(),
{
    if s.len() > 0 {
        if n == s.len() {
            assert(s.take(n) =~= s);
            lemma_scan_number_prefix(s.drop_last(), n - 1);
            assert(s.drop_last().take(n - 1) =~= s.drop_last());
        } else {
            lemma_scan_number_prefix(s.drop_last(), n);
            assert(s.drop_last().take(n) =~= s.take(n));
            lemma_scan_number_prefix(s.drop_last(), s.len() - 1);
            assert(s.drop_last().take(s.len() - 1) =~= s.drop_last());
        }
    } else {
        assert(s.take(n) =~= s);
    }
}

pub proof fn lemma_pow10_pos(n: nat)
    ensures
        pow10(n) >= 1,
    decreases n,
{
    if n > 0 {
        lemma_pow10_pos((n - 1) as nat);
    }
}

pub proof fn lemma_pow10_mono(a: nat, b: nat)
    requires
        a <= b,
    ensures
        pow10(a) <= pow10(b),
    decreases b,
{
    if a < b {
        lemma_pow10_mono(a, (b - 1) as nat);
    }
}

/// Powers of ten multiply: `10^(a + b) == 10^a * 10^b`.
pub proof fn lemma_pow10_add(a: nat, b: nat)
    ensures
        pow10(a + b) == pow10(a) * pow10(b),
    decreases a,
{
    if a == 0 {
        assert(pow10(0) == 1);
        assert(a + b == b);
    } else {
        lemma_pow10_add((a - 1) as nat, b);
        assert(pow10(a) == 10 * pow10((a - 1) as nat));
        assert((a - 1 + b) as nat == (a + b - 1) as nat);
        assert(pow10(a + b) == 10 * pow10((a - 1 + b) as nat));
        assert(10 * (pow10((a - 1) as nat) * pow10(b)) == (10 * pow10((a - 1) as nat)) * pow10(b)) by (nonlinear_arith);
    }
}

/// Rust's `/` on integers: the quotient truncated toward zero.
pub open spec fn trunc_div(a: int, b: int) -> int {
    if a >= 0 {
        a / b
    } else {
        -((-a) / b)
    }
}

/// A direct write of price, quantity and timestamp into the ask rung `idx`,
/// keeping its order count and both cached best indices.
pub open spec fn set_ask_level(v: BookView, idx: int, price: i64, qty: u64, ts: u64) -> BookView {
    let old_lvl = v.asks[idx];
    BookView {
        asks: v.asks.update(
            idx,
            PriceLevel { price, quantity: qty, order_count: old_lvl.order_count, last_update_ts: ts },
        ),
        ..v
    }
}

proof fn lemma_pow10_38()
    ensures
        pow10(38) == 100_000_000_000_000_000_000_000_000_000_000_000_000nat,
{
    reveal_with_fuel(pow10, 39);
}

/// 10^e as a `u128`.
pub fn pow10_u128(e: u32) -> (r: u128)
    requires
        e <= 38,
    ensures
        r as nat == pow10(e as nat),
        r >= 1,
{
    proof {
        lemma_pow10_pos(e as nat);
    }
    let mut r: u128 = 1;
    let mut k: u32 = 0;
    while k < e
        invariant
            k <= e <= 38,
            r as nat == pow10(k as nat),
        decreases e - k,
    {
        proof {
            lemma_pow10_mono((k + 1) as nat, 38);
            lemma_pow10_38();
        }
        r = r * 10;
        k += 1;
    }
    r
}

/// Parses an ASCII decimal literal straight into a 10^8 fixed-point integer.
pub fn parse_fixed_point_8(val: &[u8]) -> (r: i64)
    requires
        fixed_point_8_fits(val@),
    ensures
        r == fixed_point_8(val@),
{
    let mut result: i64 = 0;
    let mut decimal_places: i32 = -1;
    let mut is_negative = false;
    let mut i: usize = 0;

    if val.len() > 0 && val[0] == 45u8 {
        is_negative = true;
        i = 1;
    }
    let ghost start = i as int;
    let ghost body = unsigned_part(val@);
    proof {
        assert(body =~= val@.subrange(start, val@.len() as int));
        lemma_scan_number_prefix(body, body.len() as int);
        assert(body.take(body.len() as int) =~= body);
        lemma_pow10_pos(8);
        assert(pow10(8) == 100_000_000) by {
            reveal_with_fuel(pow10, 9);
        }
    }

    while i < val.len()
        invariant
            0 <= start <= i <= val@.len(),
            peak_places(body) <= i32::MAX,
            body =~= val@.subrange(start, val@.len() as int),
            body.len() == val@.len() - start,
            (result as int, decimal_places as int) == scan_number(body.take(i - start)),
            scan_number(body).0 <= i64::MAX,
            scan_number(body).0 >= 0,
        decreases val@.len() - i,
    {
        let byte = val[i];
        proof {
            lemma_scan_number_prefix(body, i - start + 1);
            lemma_scan_number_prefix(body, i - start);
            lemma_peak_places(body, i - start + 1);
            assert(body.take(i - start + 1).drop_last() =~= body.take(i - start));
            assert(i < val@.len());
            assert(val@.subrange(start, val@.len() as int)[i - start] == val@[i as int]);
            assert(body[i - start] == val@[i as int]);
            assert(body.take(i - start + 1).last() == byte);
            assert(scan_number(body.take(i - start + 1)).1 <= i32::MAX);
        }
        if byte == 46u8 {
            decimal_places = 0;
        } else if byte >= 48u8 && byte <= 57u8 {
            result = result * 10 + (byte - 48u8) as i64;
            if decimal_places >= 0 {
                decimal_places += 1;
            }
        }
        i += 1;
    }
    proof {
        assert(body.take(i - start) =~= body);
    }
    let ghost r0 = result as int;
    let ghost dp0 = decimal_places as int;

    let mut shift: i32 = 8 - if decimal_places < 0 {
        0
    } else {
        decimal_places
    };
    let ghost shift0 = shift as int;
    proof {
        assert(pow10(0) == 1);
        assert(r0 * pow10(0) == r0);
    }
    while shift > 0
        invariant
            shift0 <= 8,
            0 <= shift <= shift0 || shift == shift0,
            shift0 > 0 ==> result as int == r0 * pow10((shift0 - shift) as nat),
            shift0 <= 0 ==> result == r0,
            r0 >= 0,
            shift0 > 0 ==> r0 * pow10(shift0 as nat) <= i64::MAX,
            pow10(8) == 100_000_000,
        decreases shift,
    {
        proof {
            lemma_pow10_mono((shift0 - shift + 1) as nat, shift0 as nat);
            assert(r0 * pow10((shift0 - shift + 1) as nat) <= r0 * pow10(shift0 as nat)) by (nonlinear_arith)
                requires
                    r0 >= 0,
                    pow10((shift0 - shift + 1) as nat) <= pow10(shift0 as nat),
            ;
            assert(pow10((shift0 - shift + 1) as nat) == 10 * pow10((shift0 - shift) as nat));
            assert(r0 * pow10((shift0 - shift + 1) as nat) == (r0 * pow10((shift0 - shift) as nat)) * 10) by (nonlinear_arith)
                requires
                    pow10((shift0 - shift + 1) as nat) == 10 * pow10((shift0 - shift) as nat),
            ;
        }
        result *= 10;
        shift -= 1;
    }
    proof {
        if shift0 >= 0 {
            assert(shift == 0);
            assert(result as int == r0 * pow10(shift0 as nat));
        }
    }
    while shift < 0
        invariant
            shift0 <= 8,
            shift0 <= shift <= 0 || (shift0 > 0 && shift == 0),
            shift0 < 0 ==> result as int == r0 / (pow10((shift - shift0) as nat) as int),
            shift0 >= 0 ==> result as int == rescale_to_8(r0, dp0),
            shift0 == 8 - (if dp0 < 0 { 0 } else { dp0 }),
            r0 >= 0,
            result >= 0,
        decreases -shift,
    {
        proof {
            let k = (shift - shift0) as nat;
            lemma_pow10_pos(k);
            vstd::arithmetic::div_mod::lemma_div_denominator(r0, pow10(k) as int, 10);
            assert(pow10((k + 1) as nat) == pow10(k) * 10);
            vstd::arithmetic::div_mod::lemma_div_pos_is_pos(r0, pow10(k) as int);
        }
        result = result / 10;
        shift += 1;
    }
    proof {
        if shift0 < 0 {
            assert((shift - shift0) as nat == (-shift0) as nat);
        }
        if shift0 > 0 {
            assert(shift == 0);
        }
    }
    if is_negative {
        -result
    } else {
        result
    }
}

} // verus!
