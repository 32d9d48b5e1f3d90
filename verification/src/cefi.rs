//! Centralized-exchange feed ingestion: sequence gap tracking for order book
//! deltas and allocation-free parsing of Binance and OKX messages into the
//! normalized models.
use vstd::prelude::*;
use vstd::string::StringSliceAdditionalSpecFns;
use crate::models::{ChainId, NormalizedBbo, TelemetryTimestamps, UnifiedTrade, VenueId};
use crate::order_book::{
    fixed_point_8, fixed_point_8_fits, lemma_pow10_pos, lemma_scan_number_prefix, parse_fixed_point_8, pow10,
    scan_number, unsigned_part,
};
use crate::websocket::{decimal_value, digit_run, find_bytes, first_match, lemma_first_match_bound, matches_at};

verus! {

/// Synchronization state of one market's delta stream.
#[derive(Clone, Copy, Debug, PartialEq, Eq, Structural)]
pub enum SyncStatus {
    /// Cold start: waiting for a snapshot.
    Synchronizing,
    /// Deltas arrive in sequence.
    InSync,
    /// A delta skipped ahead of the next expected sequence number.
    GapDetected { expected: u64, received: u64 },
}

/// Monotonic sequence gap tracker for exchange order book deltas.
#[derive(Debug)]
pub struct SequenceTracker {
    pub last_sequence: u64,
    pub status: SyncStatus,
    pub gaps_detected: u64,
    pub updates_processed: u64,
}

/// A delta `[first, last]` covers the sequence number after `prev`.
pub open spec fn covers_next(prev: u64, first: u64, last: u64) -> bool {
    first <= prev + 1 && last >= prev + 1
}

/// A delta `[first, last]` ends at or before `prev`.
pub open spec fn is_stale(prev: u64, last: u64) -> bool {
    last <= prev
}

/// The tracker after a delta `[first, last]` and whether the delta applies: nothing
/// applies before a snapshot; a delta covering the next number advances the
/// tracker; a stale one is dropped; any other one records a gap.
pub open spec fn validated(t: SequenceTracker, first: u64, last: u64) -> (SequenceTracker, bool) {
    if t.status is Synchronizing {
        (t, false)
    } else if covers_next(t.last_sequence, first, last) {
        (SequenceTracker { last_sequence: last, updates_processed: (t.updates_processed + 1) as u64, ..t }, true)
    } else if is_stale(t.last_sequence, last) {
        (t, false)
    } else {
        (
            SequenceTracker {
                status: SyncStatus::GapDetected { expected: (t.last_sequence + 1) as u64, received: first },
                gaps_detected: (t.gaps_detected + 1) as u64,
                ..t
            },
            false,
        )
    }
}

/// The counters of [`validated`] do not overflow.
pub open spec fn validation_fits(t: SequenceTracker, first: u64, last: u64) -> bool {
    !(t.status is Synchronizing) ==> {
        &&& t.last_sequence < u64::MAX
        &&& covers_next(t.last_sequence, first, last) ==> t.updates_processed < u64::MAX
        &&& !covers_next(t.last_sequence, first, last) && !is_stale(t.last_sequence, last) ==> t.gaps_detected
            < u64::MAX
    }
}

impl SequenceTracker {
    /// A tracker waiting for its first snapshot.
    pub fn new() -> (r: Self)
        ensures
            r.last_sequence == 0,
            r.status == SyncStatus::Synchronizing,
            r.gaps_detected == 0,
            r.updates_processed == 0,
    {
        SequenceTracker { last_sequence: 0, status: SyncStatus::Synchronizing, gaps_detected: 0, updates_processed: 0 }
    }

    /// Resumes the stream after a snapshot ending at `snapshot_last_seq`.
    pub fn on_snapshot(&mut self, snapshot_last_seq: u64)
        ensures
            final(self).last_sequence == snapshot_last_seq,
            final(self).status == SyncStatus::InSync,
            final(self).gaps_detected == old(self).gaps_detected,
            final(self).updates_processed == old(self).updates_processed,
    {
        self.last_sequence = snapshot_last_seq;
        self.status = SyncStatus::InSync;
    }

    /// Checks the delta `[first_seq, final_seq]` against the stream; `true`
    /// when it applies.
    pub fn validate_sequence(&mut self, first_seq: u64, final_seq: u64) -> (r: bool)
        requires
            validation_fits(*old(self), first_seq, final_seq),
        ensures
            (*final(self), r) == validated(*old(self), first_seq, final_seq),
    {
        if let SyncStatus::Synchronizing = self.status {
            return false;
        }
        let expected = self.last_sequence + 1;
        if first_seq <= expected && final_seq >= expected {
            self.last_sequence = final_seq;
            self.updates_processed += 1;
            true
        } else if final_seq <= self.last_sequence {
            false
        } else {
            self.status = SyncStatus::GapDetected { expected, received: first_seq };
            self.gaps_detected += 1;
            false
        }
    }
}

/// The last applied sequence number never decreases, and an applied delta
/// covers the number right after the previous one and ends the new position.
pub proof fn lemma_sequence_monotone(t: SequenceTracker, first: u64, last: u64)
    requires
        validation_fits(t, first, last),
    ensures
        validated(t, first, last).0.last_sequence >= t.last_sequence,
        validated(t, first, last).1 ==> {
            &&& first <= t.last_sequence + 1 <= last
            &&& validated(t, first, last).0.last_sequence == last
        },
        !validated(t, first, last).1 ==> validated(t, first, last).0.last_sequence == t.last_sequence,
{
}

/// Position of the first byte at or after `i` that is neither a space nor a tab.
pub open spec fn skip_blanks(s: Seq<u8>, i: int) -> int
    decreases s.len() - i,
{
    if 0 <= i < s.len() && (s[i] == 32 || s[i] == 9) {
        skip_blanks(s, i + 1)
    } else {
        i
    }
}

/// Position of the first byte at or after `i` that is neither a space, a tab
/// nor a double quote.
pub open spec fn skip_number_lead(s: Seq<u8>, i: int) -> int
    decreases s.len() - i,
{
    if 0 <= i < s.len() && (s[i] == 32 || s[i] == 9 || s[i] == 34) {
        skip_number_lead(s, i + 1)
    } else {
        i
    }
}

/// Position of the first double quote at or after `i` (or the length).
pub open spec fn quote_end(s: Seq<u8>, i: int) -> int
    decreases s.len() - i,
{
    if 0 <= i < s.len() && s[i] != 34 {
        quote_end(s, i + 1)
    } else {
        i
    }
}

/// Position right after the first occurrence of `key`, or -1.
pub open spec fn value_start(src: Seq<u8>, key: Seq<u8>) -> int {
    let pos = first_match(src, key, 0);
    if pos < 0 {
        -1
    } else {
        pos + key.len()
    }
}

/// The quoted string after the first `key`, blanks skipped; `None` without
/// the key, without an opening quote, or without a closing one.
pub open spec fn str_field(src: Seq<u8>, key: Seq<u8>) -> Option<Seq<u8>> {
    let v = value_start(src, key);
    if v < 0 {
        None
    } else {
        let i = skip_blanks(src, v);
        if i < src.len() && src[i] == 34 && quote_end(src, i + 1) < src.len() {
            Some(src.subrange(i + 1, quote_end(src, i + 1)))
        } else {
            None
        }
    }
}

/// The unsigned decimal after the first `key` (blanks and quotes skipped);
/// `None` without the key or without digits.
pub open spec fn int_field(src: Seq<u8>, key: Seq<u8>) -> Option<nat> {
    let v = value_start(src, key);
    if v < 0 {
        None
    } else {
        let j = skip_number_lead(src, v);
        if digit_run(src, j) == 0 {
            None
        } else {
            Some(decimal_value(src.subrange(j, j + digit_run(src, j))))
        }
    }
}

/// The decimal after `key` fits a `u64` (or there is none).
pub open spec fn int_field_fits(src: Seq<u8>, key: Seq<u8>) -> bool {
    int_field(src, key) matches Some(v) ==> v <= u64::MAX
}

/// The decimal after `key`, zero when there is none.
pub open spec fn int_or_zero(src: Seq<u8>, key: Seq<u8>) -> u64 {
    match int_field(src, key) {
        Some(v) => v as u64,
        None => 0,
    }
}

/// The bytes of `true`.
pub open spec fn true_bytes() -> Seq<u8> {
    seq![116u8, 114u8, 117u8, 101u8]
}

/// The bytes of `false`.
pub open spec fn false_bytes() -> Seq<u8> {
    seq![102u8, 97u8, 108u8, 115u8, 101u8]
}

/// The literal `true` or `false` after the first `key`, blanks skipped.
pub open spec fn bool_field(src: Seq<u8>, key: Seq<u8>) -> Option<bool> {
    let v = value_start(src, key);
    if v < 0 {
        None
    } else {
        let i = skip_blanks(src, v);
        if i + 4 <= src.len() && src.subrange(i, i + 4) == true_bytes() {
            Some(true)
        } else if i + 5 <= src.len() && src.subrange(i, i + 5) == false_bytes() {
            Some(false)
        } else {
            None
        }
    }
}

/// Position after the first occurrence of `key`.
fn find_value_start(src: &[u8], key: &[u8]) -> (r: Option<usize>)
    ensures
        match r {
            Some(v) => v == value_start(src@, key@) && v <= src@.len(),
            None => value_start(src@, key@) == -1,
        },
{
    let n = key.len();
    let len = src.len();
    match find_bytes(src, key) {
        Some(pos) => {
            proof {
                lemma_first_match_bound(src@, key@, 0);
                assert(matches_at(src@, key@, pos as int));
                assert(pos + n <= len);
            }
            Some(pos + n)
        },
        None => None,
    }
}

fn skip_blanks_from(s: &[u8], i: usize) -> (r: usize)
    requires
        i <= s@.len(),
    ensures
        r == skip_blanks(s@, i as int),
        i <= r <= s@.len(),
{
    let mut j = i;
    while j < s.len() && (s[j] == 32 || s[j] == 9)
        invariant
            i <= j <= s@.len(),
            skip_blanks(s@, i as int) == skip_blanks(s@, j as int),
        decreases s@.len() - j,
    {
        j += 1;
    }
    j
}

/// Reads the quoted string after `key`.
fn extract_json_str_field<'a>(src: &'a [u8], key: &[u8]) -> (r: Result<&'a [u8], &'static str>)
    ensures
        match str_field(src@, key@) {
            Some(v) => r matches Ok(x) && x@ == v,
            None => r == Err::<&'a [u8], &'static str>("Field not found"),
        },
{
    if let Some(v) = find_value_start(src, key) {
        let i = skip_blanks_from(src, v);
        if i < src.len() && src[i] == 34 {
            let start = i + 1;
            let mut end = start;
            while end < src.len() && src[end] != 34
                invariant
                    start <= end <= src@.len(),
                    quote_end(src@, start as int) == quote_end(src@, end as int),
                decreases src@.len() - end,
            {
                end += 1;
            }
            if end < src.len() {
                return Ok(vstd::slice::slice_subrange(src, start, end));
            }
        }
    }
    Err("Field not found")
}

/// Reads the unsigned decimal after `key`.
fn extract_json_int_field(src: &[u8], key: &[u8]) -> (r: Option<u64>)
    requires
        int_field_fits(src@, key@),
    ensures
        match int_field(src@, key@) {
            Some(v) => r == Some(v as u64),
            None => r is None,
        },
{
    if let Some(v) = find_value_start(src, key) {
        let mut i = v;
        while i < src.len() && (src[i] == 32 || src[i] == 9 || src[i] == 34)
            invariant
                v <= i <= src@.len(),
                skip_number_lead(src@, v as int) == skip_number_lead(src@, i as int),
            decreases src@.len() - i,
        {
            i += 1;
        }
        let start = i;
        proof {
            lemma_digit_prefix_bound(src@, start as int);
        }
        let mut num: u64 = 0;
        let mut found_digit = false;
        while i < src.len() && src[i] >= 48 && src[i] <= 57
            invariant
                start <= i <= src@.len(),
                digit_run(src@, start as int) == (i - start) + digit_run(src@, i as int),
                num == decimal_value(src@.subrange(start as int, i as int)),
                found_digit == (i > start),
                digit_run(src@, start as int) > 0 ==> decimal_value(
                    src@.subrange(start as int, start + digit_run(src@, start as int)),
                ) <= u64::MAX,
                forall|k: int|
                    start <= k <= start + digit_run(src@, start as int) ==> #[trigger] decimal_value(
                        src@.subrange(start as int, k),
                    ) <= decimal_value(src@.subrange(start as int, start + digit_run(src@, start as int))),
            decreases src@.len() - i,
        {
            proof {
                assert(src@.subrange(start as int, i + 1).drop_last() =~= src@.subrange(start as int, i as int));
                assert(decimal_value(src@.subrange(start as int, i + 1)) <= u64::MAX);
            }
            num = num * 10 + (src[i] - 48) as u64;
            found_digit = true;
            i += 1;
        }
        if found_digit {
            return Some(num);
        }
    }
    None
}

/// Digit prefixes of a run weigh no more than the whole run.
proof fn lemma_digit_prefix_bound(s: Seq<u8>, start: int)
    requires
        0 <= start <= s.len(),
    ensures
        forall|k: int|
            start <= k <= start + digit_run(s, start) ==> #[trigger] decimal_value(s.subrange(start, k))
                <= decimal_value(s.subrange(start, start + digit_run(s, start))),
{
    lemma_digit_run_bound(s, start);
    let n = start + digit_run(s, start);
    assert forall|k: int| start <= k <= n implies #[trigger] decimal_value(s.subrange(start, k)) <= decimal_value(
        s.subrange(start, n),
    ) by {
        lemma_decimal_prefix_mono(s.subrange(start, n), k - start);
        assert(s.subrange(start, n).take(k - start) =~= s.subrange(start, k));
    }
}

proof fn lemma_digit_run_bound(s: Seq<u8>, i: int)
    requires
        0 <= i <= s.len(),
    ensures
        i + digit_run(s, i) <= s.len(),
    decreases s.len() - i,
{
    if i < s.len() && 48 <= s[i] <= 57 {
        lemma_digit_run_bound(s, i + 1);
    }
}

proof fn lemma_decimal_prefix_mono(d: Seq<u8>, k: int)
    requires
        0 <= k <= d.len(),
    ensures
        decimal_value(d.take(k)) <= decimal_value(d),
    decreases d.len(),
{
    if k < d.len() {
        lemma_decimal_prefix_mono(d.drop_last(), k);
        assert(d.drop_last().take(k) =~= d.take(k));
    } else {
        assert(d.take(k) =~= d);
    }
}

/// Reads the literal `true` or `false` after `key`.
fn extract_json_bool_field(src: &[u8], key: &[u8]) -> (r: Option<bool>)
    ensures
        r == bool_field(src@, key@),
{
    if let Some(v) = find_value_start(src, key) {
        let i = skip_blanks_from(src, v);
        let len = src.len();
        if len - i >= 4 && src[i] == 116 && src[i + 1] == 114 && src[i + 2] == 117 && src[i + 3] == 101 {
            proof {
                assert(src@.subrange(i as int, i + 4) =~= true_bytes());
            }
            return Some(true);
        }
        proof {
            if i + 4 <= src@.len() {
                assert(src@.subrange(i as int, i + 4) != true_bytes()) by {
                    if src@.subrange(i as int, i + 4) == true_bytes() {
                        assert(src@.subrange(i as int, i + 4)[0] == src@[i as int]);
                        assert(src@.subrange(i as int, i + 4)[1] == src@[i + 1]);
                        assert(src@.subrange(i as int, i + 4)[2] == src@[i + 2]);
                        assert(src@.subrange(i as int, i + 4)[3] == src@[i + 3]);
                    }
                }
            }
        }
        if len - i >= 5 && src[i] == 102 && src[i + 1] == 97 && src[i + 2] == 108 && src[i + 3] == 115 && src[i + 4]
            == 101 {
            proof {
                assert(src@.subrange(i as int, i + 5) =~= false_bytes());
            }
            return Some(false);
        }
        proof {
            if i + 5 <= src@.len() {
                assert(src@.subrange(i as int, i + 5) != false_bytes()) by {
                    if src@.subrange(i as int, i + 5) == false_bytes() {
                        assert(src@.subrange(i as int, i + 5)[0] == src@[i as int]);
                        assert(src@.subrange(i as int, i + 5)[1] == src@[i + 1]);
                        assert(src@.subrange(i as int, i + 5)[2] == src@[i + 2]);
                        assert(src@.subrange(i as int, i + 5)[3] == src@[i + 3]);
                        assert(src@.subrange(i as int, i + 5)[4] == src@[i + 4]);
                    }
                }
            }
        }
    }
    None
}

/// Spread in basis points, truncated to 16 bits; zero unless the ask is above
/// a positive bid.
pub open spec fn spread_bps_of(bp: i64, ap: i64) -> u16 {
    if ap > bp && bp > 0 {
        (((ap - bp) * 10000) / (bp as int)) as u16
    } else {
        0
    }
}

/// The spread computation stays within `i64`.
pub open spec fn spread_fits(bp: i64, ap: i64) -> bool {
    ap > bp && bp > 0 ==> (ap - bp) * 10000 <= i64::MAX
}

/// A quote from the four decimal fields, timestamps and sequence number.
pub open spec fn quote_of(
    market_id: u32,
    venue: VenueId,
    t0: u64,
    t1: u64,
    sequence: u64,
    b: Seq<u8>,
    bq: Seq<u8>,
    a: Seq<u8>,
    aq: Seq<u8>,
) -> NormalizedBbo {
    let bp = fixed_point_8(b) as i64;
    let ap = fixed_point_8(a) as i64;
    NormalizedBbo {
        telemetry: TelemetryTimestamps { t0_exchange_ns: t0, t1_ingest_nic_ns: t1, t2_engine_proc_ns: 0, t3_egress_ns: 0 },
        market_id,
        venue: venue.code(),
        chain: ChainId::OffChain.code(),
        sequence,
        bid_price: bp,
        bid_qty: fixed_point_8(bq) as u64,
        ask_price: ap,
        ask_qty: fixed_point_8(aq) as u64,
        spread_bps: spread_bps_of(bp, ap),
        flags: 0,
    }
}

/// The four quote fields parse without overflow.
pub open spec fn quote_fits(b: Seq<u8>, bq: Seq<u8>, a: Seq<u8>, aq: Seq<u8>) -> bool {
    &&& fixed_point_8_fits(b) && fixed_point_8_fits(bq) && fixed_point_8_fits(a) && fixed_point_8_fits(aq)
    &&& spread_fits(fixed_point_8(b) as i64, fixed_point_8(a) as i64)
}

/// The Binance book ticker in `p`: bid and ask prices and sizes from the
/// quoted fields `b`, `B`, `a`, `A`, exchange time from `E` (milliseconds,
/// zero when absent), sequence from `u`; `None` when a price or size is missing.
pub open spec fn binance_bbo(market_id: u32, p: Seq<u8>, t1: u64) -> Option<NormalizedBbo> {
    match (
        str_field(p, "\"b\":".spec_bytes()),
        str_field(p, "\"B\":".spec_bytes()),
        str_field(p, "\"a\":".spec_bytes()),
        str_field(p, "\"A\":".spec_bytes()),
    ) {
        (Some(b), Some(bq), Some(a), Some(aq)) => Some(
            quote_of(
                market_id,
                VenueId::Binance,
                (int_or_zero(p, "\"E\":".spec_bytes()) * 1_000_000) as u64,
                t1,
                int_or_zero(p, "\"u\":".spec_bytes()),
                b,
                bq,
                a,
                aq,
            ),
        ),
        _ => None,
    }
}

/// Parsing a Binance book ticker does not overflow.
pub open spec fn binance_bbo_fits(p: Seq<u8>) -> bool {
    match (
        str_field(p, "\"b\":".spec_bytes()),
        str_field(p, "\"B\":".spec_bytes()),
        str_field(p, "\"a\":".spec_bytes()),
        str_field(p, "\"A\":".spec_bytes()),
    ) {
        (Some(b), Some(bq), Some(a), Some(aq)) => {
            &&& quote_fits(b, bq, a, aq)
            &&& int_field_fits(p, "\"E\":".spec_bytes())
            &&& int_field_fits(p, "\"u\":".spec_bytes())
            &&& int_or_zero(p, "\"E\":".spec_bytes()) * 1_000_000 <= u64::MAX
        },
        _ => true,
    }
}

/// The Binance trade in `p`: price and size from the quoted fields `p` and
/// `q`, trade time from `T`, trade id (and sequence) from `t`, a sell when the
/// buyer is the maker (`m` is `true`); `None` when the price or size is missing.
pub open spec fn binance_trade(market_id: u32, p: Seq<u8>, t1: u64) -> Option<UnifiedTrade> {
    match (str_field(p, "\"p\":".spec_bytes()), str_field(p, "\"q\":".spec_bytes())) {
        (Some(pr), Some(q)) => Some(
            UnifiedTrade {
                telemetry: TelemetryTimestamps {
                    t0_exchange_ns: (int_or_zero(p, "\"T\":".spec_bytes()) * 1_000_000) as u64,
                    t1_ingest_nic_ns: t1,
                    t2_engine_proc_ns: 0,
                    t3_egress_ns: 0,
                },
                market_id,
                venue: VenueId::Binance.code(),
                chain: ChainId::OffChain.code(),
                sequence: int_or_zero(p, "\"t\":".spec_bytes()),
                trade_id: int_or_zero(p, "\"t\":".spec_bytes()),
                price: fixed_point_8(pr) as i64,
                size: fixed_point_8(q) as u64,
                side: if bool_field(p, "\"m\":".spec_bytes()) == Some(true) {
                    2
                } else {
                    1
                },
                is_liquidation: false,
            },
        ),
        _ => None,
    }
}

/// Parsing a Binance trade does not overflow.
pub open spec fn binance_trade_fits(p: Seq<u8>) -> bool {
    &&& int_field_fits(p, "\"T\":".spec_bytes())
    &&& int_field_fits(p, "\"t\":".spec_bytes())
    &&& match (str_field(p, "\"p\":".spec_bytes()), str_field(p, "\"q\":".spec_bytes())) {
        (Some(pr), Some(q)) => fixed_point_8_fits(pr) && fixed_point_8_fits(q) && int_or_zero(p, "\"T\":".spec_bytes()) * 1_000_000
            <= u64::MAX,
        _ => true,
    }
}

/// The OKX timestamp field, `"0"` when absent.
pub open spec fn okx_ts(p: Seq<u8>) -> Seq<u8> {
    match str_field(p, "\"ts\":".spec_bytes()) {
        Some(v) => v,
        None => "0".spec_bytes(),
    }
}

/// The OKX event time: the `ts` field read as a 10^8 fixed-point value,
/// reinterpreted as unsigned and divided by 10^8.
pub open spec fn okx_event_time(p: Seq<u8>) -> u64 {
    integer_part(okx_ts(p)) as u64
}

/// The whole part of a decimal literal: its digits as one number, divided by
/// ten for each digit after the point (the sign and other bytes are skipped).
pub open spec fn integer_part(s: Seq<u8>) -> nat {
    let (r, dp) = scan_number(unsigned_part(s));
    if dp > 0 {
        (r / (pow10(dp as nat) as int)) as nat
    } else {
        r as nat
    }
}

/// The digits of a decimal literal, taken as one number, fit in 64 bits.
pub open spec fn integer_part_fits(s: Seq<u8>) -> bool {
    scan_number(unsigned_part(s)).0 <= u64::MAX
}

/// Reads the whole part of a decimal literal (a millisecond timestamp).
fn parse_integer_part(s: &[u8]) -> (r: u64)
    requires
        integer_part_fits(s@),
    ensures
        r == integer_part(s@),
{
    let mut i: usize = 0;
    if s.len() > 0 && s[0] == 45u8 {
        i = 1;
    }
    let ghost start = i as int;
    let ghost body = unsigned_part(s@);
    proof {
        assert(body =~= s@.subrange(start, s@.len() as int));
        lemma_scan_number_prefix(body, body.len() as int);
        assert(body.take(body.len() as int) =~= body);
        assert(body.take(0) =~= Seq::<u8>::empty());
    }
    let mut digits: u64 = 0;
    let mut places: u64 = 0;
    let mut seen_point = false;
    while i < s.len()
        invariant
            0 <= start <= i <= s@.len(),
            body =~= s@.subrange(start, s@.len() as int),
            body.len() == s@.len() - start,
            scan_number(body).0 <= u64::MAX,
            digits as int == scan_number(body.take(i - start)).0,
            (if seen_point { places as int } else { -1 }) == scan_number(body.take(i - start)).1,
        decreases s@.len() - i,
    {
        let byte = s[i];
        proof {
            lemma_scan_number_prefix(body, i - start + 1);
            assert(body.take(i - start + 1).drop_last() =~= body.take(i - start));
            assert(body[i - start] == s@[i as int]);
            assert(body.take(i - start + 1).last() == byte);
        }
        if byte == 46u8 {
            seen_point = true;
            places = 0;
        } else if byte >= 48u8 && byte <= 57u8 {
            digits = digits * 10 + (byte - 48u8) as u64;
            if seen_point {
                places += 1;
            }
        }
        i += 1;
    }
    proof {
        assert(body.take(i - start) =~= body);
    }
    let ghost r0 = digits as int;
    let mut k: u64 = 0;
    let mut whole = digits;
    proof {
        assert(pow10(0) == 1);
        assert(r0 / 1 == r0);
    }
    if seen_point {
        while k < places
            invariant
                k <= places,
                r0 >= 0,
                whole as int == r0 / (pow10(k as nat) as int),
            decreases places - k,
        {
            proof {
                lemma_pow10_pos(k as nat);
                vstd::arithmetic::div_mod::lemma_div_denominator(r0, pow10(k as nat) as int, 10);
                assert(pow10((k + 1) as nat) == pow10(k as nat) * 10);
            }
            whole = whole / 10;
            k += 1;
        }
    }
    whole
}

/// The OKX ticker in `p`: prices and sizes from the quoted fields `bidPx`,
/// `bidSz`, `askPx`, `askSz`, the event time (also the sequence) from `ts`;
/// `None` when a price or size is missing.
pub open spec fn okx_bbo(market_id: u32, p: Seq<u8>, t1: u64) -> Option<NormalizedBbo> {
    match (
        str_field(p, "\"bidPx\":".spec_bytes()),
        str_field(p, "\"bidSz\":".spec_bytes()),
        str_field(p, "\"askPx\":".spec_bytes()),
        str_field(p, "\"askSz\":".spec_bytes()),
    ) {
        (Some(b), Some(bq), Some(a), Some(aq)) => Some(
            quote_of(
                market_id,
                VenueId::Okx,
                (okx_event_time(p) * 1_000_000) as u64,
                t1,
                okx_event_time(p),
                b,
                bq,
                a,
                aq,
            ),
        ),
        _ => None,
    }
}

/// Parsing an OKX ticker does not overflow.
pub open spec fn okx_bbo_fits(p: Seq<u8>) -> bool {
    match (
        str_field(p, "\"bidPx\":".spec_bytes()),
        str_field(p, "\"bidSz\":".spec_bytes()),
        str_field(p, "\"askPx\":".spec_bytes()),
        str_field(p, "\"askSz\":".spec_bytes()),
    ) {
        (Some(b), Some(bq), Some(a), Some(aq)) => {
            &&& quote_fits(b, bq, a, aq)
            &&& integer_part_fits(okx_ts(p))
            &&& okx_event_time(p) * 1_000_000 <= u64::MAX
        },
        _ => true,
    }
}

/// Builds a quote from its four decimal fields.
fn normalize_quote(
    market_id: u32,
    venue: VenueId,
    t0: u64,
    t1: u64,
    sequence: u64,
    b: &[u8],
    bq: &[u8],
    a: &[u8],
    aq: &[u8],
) -> (r: NormalizedBbo)
    requires
        quote_fits(b@, bq@, a@, aq@),
    ensures
        r == quote_of(market_id, venue, t0, t1, sequence, b@, bq@, a@, aq@),
{
    let bp = parse_fixed_point_8(b);
    let bqv = parse_fixed_point_8(bq) as u64;
    let ap = parse_fixed_point_8(a);
    let aqv = parse_fixed_point_8(aq) as u64;
    let spread_bps = if ap > bp && bp > 0 {
        (((ap - bp) * 10_000) / bp) as u16
    } else {
        0
    };
    NormalizedBbo {
        telemetry: TelemetryTimestamps { t0_exchange_ns: t0, t1_ingest_nic_ns: t1, t2_engine_proc_ns: 0, t3_egress_ns: 0 },
        market_id,
        venue: venue.as_u16(),
        chain: ChainId::OffChain.as_u16(),
        sequence,
        bid_price: bp,
        bid_qty: bqv,
        ask_price: ap,
        ask_qty: aqv,
        spread_bps,
        flags: 0,
    }
}

/// Allocation-free parser of centralized-exchange messages.
pub struct CefiParser;

impl CefiParser {
    /// Parses a Binance `@bookTicker` event.
    pub fn parse_binance_bbo(market_id: u32, payload: &[u8], t1_ingest_ns: u64) -> (r: Result<
        NormalizedBbo,
        &'static str,
    >)
        requires
            binance_bbo_fits(payload@),
        ensures
            match binance_bbo(market_id, payload@, t1_ingest_ns) {
                Some(b) => r == Ok::<NormalizedBbo, &'static str>(b),
                None => r == Err::<NormalizedBbo, &'static str>("Field not found"),
            },
    {
        let bid_price = extract_json_str_field(payload, "\"b\":".as_bytes())?;
        let bid_qty = extract_json_str_field(payload, "\"B\":".as_bytes())?;
        let ask_price = extract_json_str_field(payload, "\"a\":".as_bytes())?;
        let ask_qty = extract_json_str_field(payload, "\"A\":".as_bytes())?;
        let event_time = match extract_json_int_field(payload, "\"E\":".as_bytes()) {
            Some(v) => v,
            None => 0,
        };
        let seq = match extract_json_int_field(payload, "\"u\":".as_bytes()) {
            Some(v) => v,
            None => 0,
        };
        Ok(
            normalize_quote(
                market_id,
                VenueId::Binance,
                event_time * 1_000_000,
                t1_ingest_ns,
                seq,
                bid_price,
                bid_qty,
                ask_price,
                ask_qty,
            ),
        )
    }

    /// Parses a Binance trade event.
    pub fn parse_binance_trade(market_id: u32, payload: &[u8], t1_ingest_ns: u64) -> (r: Result<
        UnifiedTrade,
        &'static str,
    >)
        requires
            binance_trade_fits(payload@),
        ensures
            match binance_trade(market_id, payload@, t1_ingest_ns) {
                Some(t) => r == Ok::<UnifiedTrade, &'static str>(t),
                None => r == Err::<UnifiedTrade, &'static str>("Field not found"),
            },
    {
        let trade_time = match extract_json_int_field(payload, "\"T\":".as_bytes()) {
            Some(v) => v,
            None => 0,
        };
        let trade_id = match extract_json_int_field(payload, "\"t\":".as_bytes()) {
            Some(v) => v,
            None => 0,
        };
        let price_bytes = extract_json_str_field(payload, "\"p\":".as_bytes())?;
        let qty_bytes = extract_json_str_field(payload, "\"q\":".as_bytes())?;
        let is_buyer_maker = match extract_json_bool_field(payload, "\"m\":".as_bytes()) {
            Some(m) => m,
            None => false,
        };
        let price = parse_fixed_point_8(price_bytes);
        let size = parse_fixed_point_8(qty_bytes) as u64;
        let side: u8 = if is_buyer_maker {
            2
        } else {
            1
        };
        Ok(
            UnifiedTrade {
                telemetry: TelemetryTimestamps {
                    t0_exchange_ns: trade_time * 1_000_000,
                    t1_ingest_nic_ns: t1_ingest_ns,
                    t2_engine_proc_ns: 0,
                    t3_egress_ns: 0,
                },
                market_id,
                venue: VenueId::Binance.as_u16(),
                chain: ChainId::OffChain.as_u16(),
                sequence: trade_id,
                trade_id,
                price,
                size,
                side,
                is_liquidation: false,
            },
        )
    }

    /// Parses an OKX v5 tickers event.
    pub fn parse_okx_bbo(market_id: u32, payload: &[u8], t1_ingest_ns: u64) -> (r: Result<
        NormalizedBbo,
        &'static str,
    >)
        requires
            okx_bbo_fits(payload@),
        ensures
            match okx_bbo(market_id, payload@, t1_ingest_ns) {
                Some(b) => r == Ok::<NormalizedBbo, &'static str>(b),
                None => r == Err::<NormalizedBbo, &'static str>("Field not found"),
            },
    {
        let bid_price = extract_json_str_field(payload, "\"bidPx\":".as_bytes())?;
        let bid_qty = extract_json_str_field(payload, "\"bidSz\":".as_bytes())?;
        let ask_price = extract_json_str_field(payload, "\"askPx\":".as_bytes())?;
        let ask_qty = extract_json_str_field(payload, "\"askSz\":".as_bytes())?;
        let ts_ms = match extract_json_str_field(payload, "\"ts\":".as_bytes()) {
            Ok(v) => v,
            Err(_) => "0".as_bytes(),
        };
        let event_time = parse_integer_part(ts_ms);
        Ok(
            normalize_quote(
                market_id,
                VenueId::Okx,
                event_time * 1_000_000,
                t1_ingest_ns,
                event_time,
                bid_price,
                bid_qty,
                ask_price,
                ask_qty,
            ),
        )
    }
}

} // verus!
