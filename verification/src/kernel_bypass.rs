//! Kernel-bypass packet ingestion: a DMA buffer pool with a free-list stack and
//! an RX descriptor ring fed by the pool, with hardware timestamps per packet.
use vstd::prelude::*;
use vstd::arithmetic::power2::{pow2, lemma_pow2_pos};
use vstd::bits::{low_bits_mask, lemma_u64_low_bits_mask_is_mod, lemma_u64_pow2_no_overflow};
use crate::order_book::CachePadded;
use crate::ring::is_power_of_two;

verus! {

/// Largest Ethernet frame held by a DMA buffer.
pub const MAX_FRAME_SIZE: usize = 2048;

/// Default RX ring capacity (a power of two).
pub const DEFAULT_RING_CAPACITY: usize = 2048;

/// Hardware (IEEE 1588) ingest timestamp in nanoseconds.
pub type HwTimestampNs = u64;

/// Kernel-bypass backends.
#[derive(Clone, Copy, Debug, PartialEq, Eq, Structural)]
pub enum BypassBackendKind {
    /// Solarflare ef_vi virtual interface.
    SolarflareEfVi,
    /// DPDK poll-mode driver.
    DpdkPmd,
    /// Non-blocking socket fallback.
    PosixFallback,
}

/// Packet descriptor of one DMA buffer.
#[derive(Clone, Copy, Debug, PartialEq, Eq)]
pub struct PacketDescriptor {
    /// DMA address of the buffer.
    pub dma_address: u64,
    /// Hardware timestamp of the packet.
    pub hw_timestamp_ns: u64,
    /// Payload length in bytes.
    pub length: u32,
    /// Pool index of the buffer.
    pub buffer_id: u32,
    /// Status flags (0x01 UDP, 0x02 checksum OK, 0x04 multicast).
    pub flags: u32,
    /// Padding to a cache line.
    pub _reserved: [u8; 36],
}

/// A descriptor with every field zero.
pub open spec fn zero_descriptor(d: PacketDescriptor) -> bool {
    &&& d.dma_address == 0 && d.hw_timestamp_ns == 0 && d.length == 0 && d.buffer_id == 0 && d.flags == 0
    &&& d._reserved@ == Seq::new(36, |i: int| 0u8)
}

impl Default for PacketDescriptor {
    fn default() -> (r: Self)
        ensures
            zero_descriptor(r),
    {
        let r = PacketDescriptor { dma_address: 0, hw_timestamp_ns: 0, length: 0, buffer_id: 0, flags: 0, _reserved: [0u8; 36] };
        proof {
            assert(r._reserved@ =~= Seq::new(36, |i: int| 0u8));
        }
        r
    }
}

/// Bridge configuration.
#[derive(Clone, Copy, Debug)]
pub struct BypassConfig {
    pub backend: BypassBackendKind,
    pub ring_capacity: usize,
    pub interface_id: u16,
    pub enable_hardware_timestamping: bool,
    pub promiscuous_mode: bool,
}

impl Default for BypassConfig {
    fn default() -> (r: Self)
        ensures
            r.backend == BypassBackendKind::PosixFallback,
            r.ring_capacity == DEFAULT_RING_CAPACITY,
            r.interface_id == 0,
            r.enable_hardware_timestamping,
            !r.promiscuous_mode,
    {
        BypassConfig {
            backend: BypassBackendKind::PosixFallback,
            ring_capacity: DEFAULT_RING_CAPACITY,
            interface_id: 0,
            enable_hardware_timestamping: true,
            promiscuous_mode: false,
        }
    }
}

/// Ingress counters (each wraps at 2^64).
#[derive(Clone, Copy, Debug, PartialEq, Eq, Structural)]
pub struct BypassMetrics {
    pub packets_received: u64,
    pub bytes_received: u64,
    pub poll_cycles: u64,
    pub empty_polls: u64,
    pub ring_refills: u64,
    pub dma_errors: u64,
}

/// All counters zero.
pub open spec fn zero_metrics() -> BypassMetrics {
    BypassMetrics { packets_received: 0, bytes_received: 0, poll_cycles: 0, empty_polls: 0, ring_refills: 0, dma_errors: 0 }
}

impl Default for BypassMetrics {
    fn default() -> (r: Self)
        ensures
            r == zero_metrics(),
    {
        BypassMetrics { packets_received: 0, bytes_received: 0, poll_cycles: 0, empty_polls: 0, ring_refills: 0, dma_errors: 0 }
    }
}

/// `a + b` modulo 2^64.
pub open spec fn wrap_add(a: u64, b: int) -> u64 {
    ((a + b) % 0x1_0000_0000_0000_0000) as u64
}

/// Index of a buffer or ring position in an array of `n`: `x & (n - 1)`.
pub open spec fn ring_slot(x: usize, n: usize) -> usize {
    x & ((n - 1) as usize)
}

fn mask_index(x: usize, n: usize) -> (r: usize)
    requires
        n > 0,
    ensures
        r == ring_slot(x, n),
        r < n,
{
    let m = n - 1;
    let r = x & m;
    assert(x & m <= m) by (bit_vector);
    r
}

/// Below a power-of-two `n`, masking is the identity.
proof fn lemma_slot_small(x: usize, n: usize)
    requires
        is_power_of_two(n as nat),
        x < n,
    ensures
        ring_slot(x, n) == x,
{
    let k = choose|k: nat| k < 64 && pow2(k) == n as nat;
    lemma_u64_pow2_no_overflow(k);
    lemma_pow2_pos(k);
    let xu = x as u64;
    let nu = n as u64;
    lemma_u64_low_bits_mask_is_mod(xu, k);
    assert(low_bits_mask(k) as u64 == (nu - 1) as u64);
    assert(pow2(k) as u64 == nu);
    vstd::arithmetic::div_mod::lemma_small_mod(xu as nat, nu as nat);
    assert(xu % (pow2(k) as u64) == xu);
    assert(xu & ((nu - 1) as u64) == xu);
    assert(xu & ((nu - 1) as u64) == (x & ((n - 1) as usize)) as u64) by (bit_vector)
        requires
            xu == x as u64,
            nu == n as u64,
            n > 0,
    ;
}

/// Frame bytes of the DMA buffers, with their descriptors and a free-list stack.
pub struct DmaBufferPool<const N: usize> {
    storage: Vec<[u8; 2048]>,
    descriptors: Vec<PacketDescriptor>,
    available_indices: Vec<u32>,
    free_count: usize,
}

/// Free list after a buffer is returned: pushed when there is room for it.
pub open spec fn released(free: Seq<u32>, id: u32, n: nat) -> Seq<u32> {
    if free.len() < n {
        free.push(id)
    } else {
        free
    }
}

/// Free list after an allocation and the allocated buffer: the top of the
/// stack, or nothing when the list is empty.
pub open spec fn allocated(free: Seq<u32>) -> (Seq<u32>, Option<u32>) {
    if free.len() == 0 {
        (free, None)
    } else {
        (free.drop_last(), Some(free.last()))
    }
}

impl<const N: usize> DmaBufferPool<N> {
    /// Bytes of each buffer.
    pub closed spec fn frames(&self) -> Seq<Seq<u8>> {
        self.storage@.map_values(|a: [u8; 2048]| a@)
    }

    /// Descriptor of each buffer.
    pub closed spec fn descs(&self) -> Seq<PacketDescriptor> {
        self.descriptors@
    }

    /// Free buffer ids, the next to allocate last.
    pub closed spec fn free(&self) -> Seq<u32> {
        self.available_indices@.take(self.free_count as int)
    }

    pub closed spec fn wf(&self) -> bool {
        &&& self.storage@.len() == N
        &&& self.descriptors@.len() == N
        &&& self.available_indices@.len() == N
        &&& self.free_count <= N
    }

    /// A pool of `N` zeroed buffers, all free, buffer `i` at DMA address
    /// `0x1000_0000 + i * 2048`.
    pub fn new() -> (r: Self)
        requires
            0x1000_0000 + (N - 1) * 2048 <= u64::MAX,
        ensures
            r.wf(),
            r.frames() == Seq::new(N as nat, |i: int| Seq::new(2048, |j: int| 0u8)),
            r.free() == Seq::new(N as nat, |i: int| i as u32),
            forall|i: int|
                0 <= i < N ==> {
                    let d = #[trigger] r.descs()[i];
                    &&& d.dma_address == 0x1000_0000 + i * 2048
                    &&& d.buffer_id == i as u32
                    &&& d.hw_timestamp_ns == 0 && d.length == 0 && d.flags == 0
                },
    {
        let mut storage: Vec<[u8; 2048]> = Vec::new();
        let mut descriptors: Vec<PacketDescriptor> = Vec::new();
        let mut available: Vec<u32> = Vec::new();
        let mut i: usize = 0;
        while i < N
            invariant
                i <= N,
                0x1000_0000 + (N - 1) * 2048 <= u64::MAX,
                storage@.len() == i && descriptors@.len() == i && available@.len() == i,
                forall|k: int| 0 <= k < i ==> (#[trigger] storage@[k])@ == Seq::new(2048, |j: int| 0u8),
                forall|k: int| 0 <= k < i ==> #[trigger] available@[k] == k as u32,
                forall|k: int|
                    0 <= k < i ==> {
                        let d = #[trigger] descriptors@[k];
                        &&& d.dma_address == 0x1000_0000 + k * 2048
                        &&& d.buffer_id == k as u32
                        &&& d.hw_timestamp_ns == 0 && d.length == 0 && d.flags == 0
                    },
            decreases N - i,
        {
            let frame = [0u8; 2048];
            proof {
                assert(frame@ =~= Seq::new(2048, |j: int| 0u8));
            }
            storage.push(frame);
            descriptors.push(
                PacketDescriptor {
                    dma_address: 0x1000_0000 + (i as u64 * 2048),
                    hw_timestamp_ns: 0,
                    length: 0,
                    buffer_id: i as u32,
                    flags: 0,
                    _reserved: [0u8; 36],
                },
            );
            available.push(i as u32);
            i += 1;
        }
        let r = DmaBufferPool { storage, descriptors, available_indices: available, free_count: N };
        proof {
            assert(r.frames() =~= Seq::new(N as nat, |i: int| Seq::new(2048, |j: int| 0u8)));
            assert(r.free() =~= Seq::new(N as nat, |i: int| i as u32));
        }
        r
    }

    /// The first `length` bytes (at most a frame) of the buffer `buffer_id`
    /// selects.
    pub fn get_buffer_slice(&self, buffer_id: u32, length: usize) -> (r: &[u8])
        requires
            self.wf(),
            N > 0,
        ensures
            r@ == self.frames()[ring_slot(buffer_id as usize, N) as int].take(
                if length < 2048 { length as int } else { 2048 },
            ),
    {
        let idx = mask_index(buffer_id as usize, N);
        let len = if length < MAX_FRAME_SIZE {
            length
        } else {
            MAX_FRAME_SIZE
        };
        let frame: &[u8; 2048] = &self.storage[idx];
        let s = vstd::slice::slice_subrange(frame.as_slice(), 0, len);
        proof {
            assert(s@ =~= self.frames()[idx as int].take(len as int));
        }
        s
    }

    /// The whole buffer `buffer_id` selects, for writing.
    pub fn get_buffer_mut(&mut self, buffer_id: u32) -> (r: &mut [u8; 2048])
        requires
            old(self).wf(),
            N > 0,
        ensures
            r@ == old(self).frames()[ring_slot(buffer_id as usize, N) as int],
            final(self).wf(),
            final(self).frames() == old(self).frames().update(ring_slot(buffer_id as usize, N) as int, final(r)@),
            final(self).descs() == old(self).descs(),
            final(self).free() == old(self).free(),
    {
        let idx = mask_index(buffer_id as usize, N);
        &mut self.storage[idx]
    }

    /// Pops the next free buffer, if any.
    pub fn allocate_descriptor(&mut self) -> (r: Option<u32>)
        requires
            old(self).wf(),
        ensures
            final(self).wf(),
            (final(self).free(), r) == allocated(old(self).free()),
            final(self).frames() == old(self).frames(),
            final(self).descs() == old(self).descs(),
    {
        if self.free_count == 0 {
            return None;
        }
        self.free_count -= 1;
        proof {
            assert(self.free() =~= old(self).free().drop_last());
        }
        Some(self.available_indices[self.free_count])
    }

    /// Returns a buffer to the free list; dropped when the list is full.
    pub fn release_descriptor(&mut self, buffer_id: u32)
        requires
            old(self).wf(),
        ensures
            final(self).wf(),
            final(self).free() == released(old(self).free(), buffer_id, N as nat),
            final(self).frames() == old(self).frames(),
            final(self).descs() == old(self).descs(),
    {
        if self.free_count < N {
            self.available_indices.set(self.free_count, buffer_id);
            self.free_count += 1;
            proof {
                assert(self.free() =~= old(self).free().push(buffer_id));
            }
        }
    }

    /// The descriptor of the buffer `buffer_id` selects.
    pub fn descriptor(&self, buffer_id: u32) -> (r: &PacketDescriptor)
        requires
            self.wf(),
            N > 0,
        ensures
            *r == self.descs()[ring_slot(buffer_id as usize, N) as int],
    {
        let idx = mask_index(buffer_id as usize, N);
        &self.descriptors[idx]
    }
}

/// A buffer returned and then allocated again is the same buffer, and the
/// free list is as it was.
pub proof fn lemma_release_then_allocate(free: Seq<u32>, id: u32, n: nat)
    requires
        free.len() < n,
    ensures
        allocated(released(free, id, n)) == (free, Some(id)),
{
    assert(free.push(id).drop_last() =~= free);
}

/// The free list and the results after `k` allocations in a row.
pub open spec fn allocated_times(free: Seq<u32>, k: nat) -> (Seq<u32>, Seq<Option<u32>>)
    decreases k,
{
    if k == 0 {
        (free, Seq::empty())
    } else {
        let (f, out) = allocated_times(free, (k - 1) as nat);
        let (f2, r) = allocated(f);
        (f2, out.push(r))
    }
}

/// The free list of a fresh pool of `n` buffers.
pub open spec fn fresh_free(n: nat) -> Seq<u32> {
    Seq::new(n, |i: int| i as u32)
}

proof fn lemma_allocated_times_fresh(n: nat, k: nat)
    requires
        k <= n,
    ensures
        allocated_times(fresh_free(n), k).0 == fresh_free(n).take(n - k),
        allocated_times(fresh_free(n), k).1 == Seq::new(k, |j: int| Some((n - 1 - j) as u32)),
    decreases k,
{
    if k > 0 {
        lemma_allocated_times_fresh(n, (k - 1) as nat);
        let f = fresh_free(n).take(n - (k - 1));
        assert(f.drop_last() =~= fresh_free(n).take(n - k));
        assert(allocated_times(fresh_free(n), k).1 =~= Seq::new(k, |j: int| Some((n - 1 - j) as u32)));
    } else {
        assert(fresh_free(n).take(n as int) =~= fresh_free(n));
        assert(allocated_times(fresh_free(n), 0).1 =~= Seq::new(0, |j: int| Some((n - 1 - j) as u32)));
    }
}

/// Allocating the `n` buffers of a fresh pool one after the other hands out
/// `n` distinct ids, each below `n` (the most recently listed first), and a
/// further allocation finds none and changes nothing.
pub proof fn lemma_fresh_pool_allocations(n: nat)
    requires
        n <= 0x1_0000_0000,
    ensures
        ({
            let (f, out) = allocated_times(fresh_free(n), n);
            &&& out.len() == n
            &&& forall|k: int| 0 <= k < n ==> (#[trigger] out[k]) == Some((n - 1 - k) as u32)
            &&& forall|k: int| 0 <= k < n ==> ((#[trigger] out[k]) matches Some(id) && id < n)
            &&& forall|a: int, b: int| 0 <= a < b < n ==> #[trigger] out[a] != #[trigger] out[b]
            &&& f.len() == 0
            &&& allocated(f) == (f, None::<u32>)
        }),
{
    lemma_allocated_times_fresh(n, n);
    let out = allocated_times(fresh_free(n), n).1;
    assert forall|k: int| 0 <= k < n implies ((#[trigger] out[k]) matches Some(id) && id < n) by {
        assert(((n - 1 - k) as u32) == n - 1 - k);
    }
    assert forall|a: int, b: int| 0 <= a < b < n implies #[trigger] out[a] != #[trigger] out[b] by {
        assert(((n - 1 - a) as u32) == n - 1 - a);
        assert(((n - 1 - b) as u32) == n - 1 - b);
    }
}

/// Buffers a refill posts: as many as the ring has room for, at most the free ones.
pub open spec fn refill_count(head: usize, tail: usize, free_len: nat, n: usize) -> nat {
    let room = n - (tail - head);
    if free_len < room {
        free_len
    } else {
        room as nat
    }
}

/// The ring after posting the top `k` free buffers, most recently freed first,
/// at positions `tail .. tail + k`.
pub open spec fn posted_after_refill(posted: Seq<u32>, tail: int, free: Seq<u32>, k: int) -> Seq<u32> {
    Seq::new(posted.len(), |p: int| if tail <= p < tail + k { free[free.len() - 1 - (p - tail)] } else { posted[p] })
}

/// Bytes of `frame` after a packet is copied in (at most a frame's worth).
pub open spec fn frame_written(frame: Seq<u8>, payload: Seq<u8>) -> Seq<u8> {
    let len = if payload.len() < 2048 { payload.len() as int } else { 2048 };
    payload.take(len) + frame.skip(len)
}

/// Buffer bytes and descriptors after a packet lands in buffer `i`: its bytes
/// (at most a frame) copied in, its length, timestamp and the UDP flag recorded.
pub open spec fn receive(frames: Seq<Seq<u8>>, descs: Seq<PacketDescriptor>, i: int, payload: Seq<u8>, ts: u64) -> (
    Seq<Seq<u8>>,
    Seq<PacketDescriptor>,
) {
    (
        frames.update(i, frame_written(frames[i], payload)),
        descs.update(
            i,
            PacketDescriptor { length: clamp_frame(payload.len() as int) as u32, hw_timestamp_ns: ts, flags: 0x01, ..descs[i] },
        ),
    )
}

/// No buffer id occurs twice.
pub open spec fn no_dup(s: Seq<u32>) -> bool {
    forall|i: int, j: int| 0 <= i < j < s.len() ==> s[i] != s[j]
}

/// Every buffer id is below `n`.
pub open spec fn ids_below(s: Seq<u32>, n: usize) -> bool {
    forall|i: int| 0 <= i < s.len() ==> s[i] < n
}

/// The buffers at ring positions `0 .. tail` and on the free list are distinct
/// ids below `n`.
pub open spec fn ring_distinct(posted: Seq<u32>, tail: int, free: Seq<u32>, n: usize) -> bool {
    no_dup(posted.take(tail) + free) && ids_below(posted.take(tail) + free, n)
}

/// Length recorded for a packet of `len` bytes: at most a frame.
pub open spec fn clamp_frame(len: int) -> int {
    if len < 2048 {
        len
    } else {
        2048
    }
}

/// The packet the ring position `c` holds: its bytes and hardware timestamp.
pub open spec fn packet_at(frames: Seq<Seq<u8>>, descs: Seq<PacketDescriptor>, posted: Seq<u32>, c: int, n: usize) -> (
    Seq<u8>,
    u64,
) {
    let i = ring_slot(posted[c] as usize, n) as int;
    (frames[i].take(clamp_frame(descs[i].length as int)), descs[i].hw_timestamp_ns)
}

/// The packets of the first `count` ring positions, in ring order.
pub open spec fn packets_of(frames: Seq<Seq<u8>>, descs: Seq<PacketDescriptor>, posted: Seq<u32>, count: nat, n: usize) -> Seq<
    (Seq<u8>, u64),
> {
    Seq::new(count, |c: int| packet_at(frames, descs, posted, c, n))
}

/// Total recorded length of the first `count` ring positions' packets.
pub open spec fn bytes_of(descs: Seq<PacketDescriptor>, posted: Seq<u32>, count: nat, n: usize) -> nat
    decreases count,
{
    if count == 0 {
        0
    } else {
        bytes_of(descs, posted, (count - 1) as nat, n) + descs[ring_slot(posted[count - 1] as usize, n) as int].length as nat
    }
}

/// The ring after the first `count` positions are consumed: the positions
/// `count .. head` move to the front.
pub open spec fn posted_after_shift(posted: Seq<u32>, count: int, head: int) -> Seq<u32> {
    Seq::new(posted.len(), |p: int| if p < head - count { posted[count + p] } else { posted[p] })
}

/// Packet ingestion over an RX ring fed from a DMA buffer pool.
pub struct KernelBypassBridge<const N: usize> {
    pub config: BypassConfig,
    pub metrics: BypassMetrics,
    buffer_pool: DmaBufferPool<N>,
    rx_ring_head: CachePadded<usize>,
    rx_ring_tail: CachePadded<usize>,
    posted_descriptors: Vec<u32>,
    is_active: bool,
}

impl<const N: usize> KernelBypassBridge<N> {
    /// Ring positions holding received packets: `0 .. head`.
    pub closed spec fn head(&self) -> usize {
        self.rx_ring_head.0
    }

    /// Ring positions holding posted buffers: `0 .. tail`.
    pub closed spec fn tail(&self) -> usize {
        self.rx_ring_tail.0
    }

    /// Buffer id at each ring position.
    pub closed spec fn posted(&self) -> Seq<u32> {
        self.posted_descriptors@
    }

    /// The buffer pool.
    pub closed spec fn pool(&self) -> DmaBufferPool<N> {
        self.buffer_pool
    }

    /// The configuration.
    pub closed spec fn settings(&self) -> BypassConfig {
        self.config
    }

    /// The ingress counters.
    pub closed spec fn counters(&self) -> BypassMetrics {
        self.metrics
    }

    /// Whether the bridge is running.
    pub closed spec fn active(&self) -> bool {
        self.is_active
    }

    pub closed spec fn wf(&self) -> bool {
        &&& self.buffer_pool.wf()
        &&& is_power_of_two(N as nat)
        &&& self.posted_descriptors@.len() == N
        &&& self.rx_ring_head.0 <= self.rx_ring_tail.0
        &&& self.rx_ring_tail.0 + self.buffer_pool.free().len() <= N
    }

    /// The buffers posted to the ring and those on the free list are distinct
    /// pool indices: no two ring positions share a buffer.
    pub open spec fn buffers_distinct(&self) -> bool {
        ring_distinct(self.posted(), self.tail() as int, self.pool().free(), N)
    }

    /// A running bridge over a fresh pool, with every buffer posted to the ring.
    pub fn new(config: BypassConfig) -> (r: Self)
        requires
            is_power_of_two(N as nat),
            0x1000_0000 + (N - 1) * 2048 <= u64::MAX,
        ensures
            r.wf(),
            r.settings() == config,
            r.active(),
            r.head() == 0,
            r.tail() == N,
            r.pool().free() == Seq::<u32>::empty(),
            r.posted() == Seq::new(N as nat, |p: int| (N - 1 - p) as u32),
            r.pool().frames() == Seq::new(N as nat, |i: int| Seq::new(2048, |j: int| 0u8)),
            forall|i: int|
                0 <= i < N ==> {
                    let d = #[trigger] r.pool().descs()[i];
                    &&& d.dma_address == 0x1000_0000 + i * 2048
                    &&& d.buffer_id == i as u32
                    &&& d.hw_timestamp_ns == 0 && d.length == 0 && d.flags == 0
                },
            r.counters() == (BypassMetrics { ring_refills: N as u64, ..zero_metrics() }),
            N <= 0x1_0000_0000 ==> r.buffers_distinct(),
    {
        proof {
            crate::ring::lemma_power_of_two_pos(N as nat);
        }
        let mut posted: Vec<u32> = Vec::new();
        let mut i: usize = 0;
        while i < N
            invariant
                i <= N,
                posted@.len() == i,
            decreases N - i,
        {
            posted.push(0u32);
            i += 1;
        }
        let mut bridge = KernelBypassBridge {
            config,
            metrics: BypassMetrics::default(),
            buffer_pool: DmaBufferPool::new(),
            rx_ring_head: CachePadded(0),
            rx_ring_tail: CachePadded(0),
            posted_descriptors: posted,
            is_active: true,
        };
        let ghost free0 = bridge.buffer_pool.free();
        bridge.refill_rx_ring();
        proof {
            assert(bridge.pool().free() =~= Seq::<u32>::empty());
            assert(bridge.posted() =~= Seq::new(N as nat, |p: int| (N - 1 - p) as u32));
            if N <= 0x1_0000_0000 {
                let live = bridge.posted().take(N as int) + bridge.pool().free();
                assert(live =~= Seq::new(N as nat, |p: int| (N - 1 - p) as u32));
                assert forall|i: int, j: int| 0 <= i < j < live.len() implies live[i] != live[j] by {
                    assert(live[i] == (N - 1 - i) as u32);
                    assert(live[j] == (N - 1 - j) as u32);
                }
            }
        }
        bridge
    }

    /// Posts free buffers to the ring until it is full or the pool is empty;
    /// the number posted.
    pub fn refill_rx_ring(&mut self) -> (r: usize)
        requires
            old(self).wf(),
        ensures
            final(self).wf(),
            r == refill_count(old(self).head(), old(self).tail(), old(self).pool().free().len(), N),
            final(self).head() == old(self).head(),
            final(self).tail() == old(self).tail() + r,
            final(self).posted() == posted_after_refill(old(self).posted(), old(self).tail() as int, old(self).pool().free(), r as int),
            final(self).pool().free() == old(self).pool().free().take(old(self).pool().free().len() - r),
            final(self).pool().frames() == old(self).pool().frames(),
            final(self).pool().descs() == old(self).pool().descs(),
            final(self).counters() == (BypassMetrics { ring_refills: wrap_add(old(self).counters().ring_refills, r as int), ..old(self).counters() }),
            final(self).settings() == old(self).settings(),
            final(self).active() == old(self).active(),
            old(self).buffers_distinct() ==> final(self).buffers_distinct(),
    {
        let ghost free0 = self.buffer_pool.free();
        let ghost posted0 = self.posted_descriptors@;
        let mut refilled: usize = 0;
        let head = self.rx_ring_head.0;
        let mut tail = self.rx_ring_tail.0;
        let ghost tail0 = tail as int;
        let mut exhausted = false;
        proof {
            crate::ring::lemma_power_of_two_pos(N as nat);
            assert(posted0 =~= posted_after_refill(posted0, tail0, free0, 0));
            assert(free0.take(free0.len() as int) =~= free0);
        }
        while !exhausted && tail - head < N
            invariant
                self.buffer_pool.wf(),
                is_power_of_two(N as nat),
                self.posted_descriptors@.len() == N,
                head == self.rx_ring_head.0,
                head <= tail0 <= tail,
                refilled == tail - tail0,
                tail0 + free0.len() <= N,
                free0.len() >= refilled,
                self.buffer_pool.free() == free0.take(free0.len() - refilled),
                self.posted_descriptors@ == posted_after_refill(posted0, tail0, free0, refilled as int),
                posted0.len() == N,
                self.buffer_pool.frames() == old(self).buffer_pool.frames(),
                self.buffer_pool.descs() == old(self).buffer_pool.descs(),
                self.metrics == old(self).metrics,
                self.config == old(self).config,
                self.is_active == old(self).is_active,
                exhausted ==> refilled == free0.len(),
            decreases N - (tail - head) + (if exhausted { 0int } else { 1int }),
        {
            match self.buffer_pool.allocate_descriptor() {
                Some(buf_id) => {
                    proof {
                        lemma_slot_small(tail, N);
                    }
                    let ring_idx = mask_index(tail, N);
                    self.posted_descriptors.set(ring_idx, buf_id);
                    tail += 1;
                    refilled += 1;
                    proof {
                        assert(self.buffer_pool.free() =~= free0.take(free0.len() - refilled));
                        assert(self.posted_descriptors@ =~= posted_after_refill(posted0, tail0, free0, refilled as int));
                    }
                },
                None => {
                    exhausted = true;
                },
            }
        }
        self.rx_ring_tail.0 = tail;
        if refilled > 0 {
            self.metrics.ring_refills = self.metrics.ring_refills.wrapping_add(refilled as u64);
        }
        proof {
            assert(wrap_add(old(self).counters().ring_refills, 0) == old(self).counters().ring_refills);
            if old(self).buffers_distinct() {
                let t0 = tail0;
                let f0 = free0.len() as int;
                let k = refilled as int;
                let a = posted0.take(t0) + free0;
                let b = self.posted().take(self.tail() as int) + self.pool().free();
                let f = |p: int| if p < t0 { p } else if p < t0 + k { t0 + (f0 - 1 - (p - t0)) } else { t0 + (p - t0 - k) };
                assert forall|p: int| 0 <= p < b.len() implies 0 <= #[trigger] f(p) < a.len() && b[p] == a[f(p)] by {
                    if p < t0 + k {
                        assert(b[p] == self.posted()[p]);
                    } else {
                        assert(b[p] == self.pool().free()[p - t0 - k]);
                    }
                }
                assert forall|i: int, j: int| 0 <= i < j < b.len() implies #[trigger] f(i) != #[trigger] f(j) by {}
                lemma_no_dup_map(a, b, f, N);
            }
        }
        refilled
    }

    /// Receives a packet into the buffer at the ring's next position (its
    /// bytes, at most a frame, its length, timestamp and UDP flag); refused and
    /// counted as a DMA error when no posted buffer is left.
    pub fn inject_packet(&mut self, payload: &[u8], hw_ts_ns: u64) -> (r: Result<(), &'static str>)
        requires
            old(self).wf(),
        ensures
            final(self).wf(),
            final(self).settings() == old(self).settings(),
            final(self).active() == old(self).active(),
            final(self).tail() == old(self).tail(),
            final(self).posted() == old(self).posted(),
            final(self).pool().free() == old(self).pool().free(),
            old(self).head() >= old(self).tail() ==> {
                &&& r == Err::<(), &'static str>("RX ring exhausted - packet dropped at PHY layer")
                &&& final(self).counters() == (BypassMetrics { dma_errors: wrap_add(old(self).counters().dma_errors, 1), ..old(self).counters() })
                &&& final(self).head() == old(self).head()
                &&& final(self).pool().frames() == old(self).pool().frames()
                &&& final(self).pool().descs() == old(self).pool().descs()
            },
            old(self).head() < old(self).tail() ==> {
                let i = ring_slot(old(self).posted()[old(self).head() as int] as usize, N) as int;
                &&& r is Ok
                &&& final(self).counters() == old(self).counters()
                &&& final(self).head() == old(self).head() + 1
                &&& (final(self).pool().frames(), final(self).pool().descs()) == receive(
                    old(self).pool().frames(),
                    old(self).pool().descs(),
                    i,
                    payload@,
                    hw_ts_ns,
                )
            },
            old(self).buffers_distinct() ==> final(self).buffers_distinct(),
    {
        if self.rx_ring_head.0 >= self.rx_ring_tail.0 {
            self.metrics.dma_errors = self.metrics.dma_errors.wrapping_add(1);
            return Err("RX ring exhausted - packet dropped at PHY layer");
        }
        let head = self.rx_ring_head.0;
        proof {
            lemma_slot_small(head, N);
        }
        let ring_idx = mask_index(head, N);
        let buf_id = self.posted_descriptors[ring_idx];
        let len = if payload.len() < MAX_FRAME_SIZE {
            payload.len()
        } else {
            MAX_FRAME_SIZE
        };
        let ghost i = ring_slot(buf_id as usize, N) as int;
        let ghost frame0 = self.buffer_pool.frames()[i];
        let dest = self.buffer_pool.get_buffer_mut(buf_id);
        let mut k: usize = 0;
        while k < len
            invariant
                k <= len <= 2048,
                len <= payload@.len(),
                dest@.len() == 2048,
                frame0.len() == 2048,
                dest@ == payload@.take(k as int) + frame0.skip(k as int),
            decreases len - k,
        {
            dest[k] = payload[k];
            k += 1;
            proof {
                assert(dest@ =~= payload@.take(k as int) + frame0.skip(k as int));
            }
        }
        proof {
            assert(dest@ == frame_written(frame0, payload@));
        }
        let idx = mask_index(buf_id as usize, N);
        let mut desc = self.buffer_pool.descriptors[idx];
        desc.length = len as u32;
        desc.hw_timestamp_ns = hw_ts_ns;
        desc.flags = 0x01;
        self.buffer_pool.descriptors.set(idx, desc);
        self.rx_ring_head.0 = head + 1;
        Ok(())
    }

    /// Polls up to `max_packets` received packets, in ring order, appending
    /// each one's bytes and hardware timestamp to `received`; their buffers go
    /// back to the pool, the unconsumed positions move to the front and the
    /// ring is refilled. The number polled.
    pub fn poll_rx_burst(&mut self, max_packets: usize, received: &mut Vec<(Vec<u8>, u64)>) -> (r: usize)
        requires
            old(self).wf(),
        ensures
            final(self).wf(),
            r == (if max_packets < old(self).head() { max_packets } else { old(self).head() }),
            final(received)@.map_values(|e: (Vec<u8>, u64)| (e.0@, e.1)) == old(received)@.map_values(
                |e: (Vec<u8>, u64)| (e.0@, e.1),
            ) + packets_of(old(self).pool().frames(), old(self).pool().descs(), old(self).posted(), r as nat, N),
            final(self).pool().frames() == old(self).pool().frames(),
            final(self).pool().descs() == old(self).pool().descs(),
            final(self).settings() == old(self).settings(),
            final(self).active() == old(self).active(),
            final(self).counters().poll_cycles == wrap_add(old(self).counters().poll_cycles, 1),
            final(self).counters().packets_received == wrap_add(old(self).counters().packets_received, r as int),
            final(self).counters().bytes_received == wrap_add(
                old(self).counters().bytes_received,
                bytes_of(old(self).pool().descs(), old(self).posted(), r as nat, N) as int,
            ),
            final(self).counters().dma_errors == old(self).counters().dma_errors,
            r == 0 ==> {
                &&& final(self).counters().empty_polls == wrap_add(old(self).counters().empty_polls, 1)
                &&& final(self).counters().ring_refills == old(self).counters().ring_refills
                &&& final(self).head() == old(self).head()
                &&& final(self).tail() == old(self).tail()
                &&& final(self).posted() == old(self).posted()
                &&& final(self).pool().free() == old(self).pool().free()
            },
            r > 0 ==> {
                let rem = old(self).head() - r;
                let free1 = old(self).pool().free() + old(self).posted().take(r as int);
                let posted1 = posted_after_shift(old(self).posted(), r as int, old(self).head() as int);
                let k = refill_count(rem as usize, rem as usize, free1.len(), N);
                &&& final(self).counters().empty_polls == old(self).counters().empty_polls
                &&& final(self).counters().ring_refills == wrap_add(old(self).counters().ring_refills, k as int)
                &&& final(self).head() == rem
                &&& final(self).tail() == rem + k
                &&& final(self).posted() == posted_after_refill(posted1, rem, free1, k as int)
                &&& final(self).pool().free() == free1.take(free1.len() - k)
            },
            old(self).buffers_distinct() ==> final(self).buffers_distinct(),
    {
        self.metrics.poll_cycles = self.metrics.poll_cycles.wrapping_add(1);
        let head = self.rx_ring_head.0;
        let limit = if max_packets < head {
            max_packets
        } else {
            head
        };
        let ghost pool0 = self.buffer_pool;
        let ghost posted0 = self.posted_descriptors@;
        let ghost frames0 = pool0.frames();
        let ghost descs0 = pool0.descs();
        let ghost free0 = pool0.free();
        let ghost out0 = received@.map_values(|e: (Vec<u8>, u64)| (e.0@, e.1));
        let ghost metrics1 = self.metrics;
        let mut current: usize = 0;
        proof {
            crate::ring::lemma_power_of_two_pos(N as nat);
            assert(free0 + posted0.take(0) =~= free0);
            assert(out0 + packets_of(frames0, descs0, posted0, 0, N) =~= out0);
        }
        while current < limit
            invariant
                current <= limit <= head,
                head == self.rx_ring_head.0,
                head <= self.rx_ring_tail.0,
                self.rx_ring_tail.0 + free0.len() <= N,
                self.config == old(self).config,
                self.is_active == old(self).is_active,
                self.rx_ring_tail.0 == old(self).rx_ring_tail.0,
                metrics1.poll_cycles == wrap_add(old(self).metrics.poll_cycles, 1),
                metrics1.empty_polls == old(self).metrics.empty_polls,
                metrics1.ring_refills == old(self).metrics.ring_refills,
                metrics1.dma_errors == old(self).metrics.dma_errors,
                metrics1.packets_received == old(self).metrics.packets_received,
                metrics1.bytes_received == old(self).metrics.bytes_received,
                self.buffer_pool.wf(),
                is_power_of_two(N as nat),
                self.posted_descriptors@ == posted0,
                posted0.len() == N,
                self.buffer_pool.frames() == frames0,
                self.buffer_pool.descs() == descs0,
                self.buffer_pool.free() == free0 + posted0.take(current as int),
                received@.map_values(|e: (Vec<u8>, u64)| (e.0@, e.1)) == out0 + packets_of(frames0, descs0, posted0, current as nat, N),
                self.metrics == (BypassMetrics {
                    packets_received: wrap_add(metrics1.packets_received, current as int),
                    bytes_received: wrap_add(metrics1.bytes_received, bytes_of(descs0, posted0, current as nat, N) as int),
                    ..metrics1
                }),
            decreases limit - current,
        {
            proof {
                lemma_slot_small(current, N);
            }
            let ring_idx = mask_index(current, N);
            let buf_id = self.posted_descriptors[ring_idx];
            let desc = self.buffer_pool.descriptor(buf_id);
            let len = desc.length as usize;
            let hw_ts = desc.hw_timestamp_ns;
            let payload_slice = self.buffer_pool.get_buffer_slice(buf_id, len);
            let packet = vstd::slice::slice_to_vec(payload_slice);
            let ghost before = received@.map_values(|e: (Vec<u8>, u64)| (e.0@, e.1));
            received.push((packet, hw_ts));
            proof {
                assert(received@.map_values(|e: (Vec<u8>, u64)| (e.0@, e.1)) =~= before.push((packet@, hw_ts)));
                assert(packets_of(frames0, descs0, posted0, (current + 1) as nat, N) =~= packets_of(
                    frames0,
                    descs0,
                    posted0,
                    current as nat,
                    N,
                ).push(packet_at(frames0, descs0, posted0, current as int, N)));
                lemma_wrap_add_step(metrics1.packets_received, current as int, 1);
                lemma_wrap_add_step(metrics1.bytes_received, bytes_of(descs0, posted0, current as nat, N) as int, len as int);
            }
            self.metrics.packets_received = self.metrics.packets_received.wrapping_add(1);
            self.metrics.bytes_received = self.metrics.bytes_received.wrapping_add(len as u64);
            self.buffer_pool.release_descriptor(buf_id);
            proof {
                assert(free0 + posted0.take(current + 1) =~= (free0 + posted0.take(current as int)).push(buf_id));
            }
            current += 1;
        }
        if current == 0 {
            self.metrics.empty_polls = self.metrics.empty_polls.wrapping_add(1);
            proof {
                assert(packets_of(frames0, descs0, posted0, 0, N) =~= Seq::<(Seq<u8>, u64)>::empty());
                assert(free0 + posted0.take(0) =~= free0);
            }
        } else {
            let ghost metrics2 = self.metrics;
            let remaining = head - current;
            let mut i: usize = 0;
            while i < remaining
                invariant
                    0 < current <= head,
                    head <= N,
                    remaining == head - current,
                    i <= remaining,
                    head == self.rx_ring_head.0,
                    head <= self.rx_ring_tail.0,
                    self.rx_ring_tail.0 + free0.len() <= N,
                    self.metrics == metrics2,
                    self.config == old(self).config,
                    self.is_active == old(self).is_active,
                    self.buffer_pool.wf(),
                    self.buffer_pool.free() == free0 + posted0.take(current as int),
                    self.buffer_pool.frames() == frames0,
                    self.buffer_pool.descs() == descs0,
                    is_power_of_two(N as nat),
                    posted0.len() == N,
                    self.posted_descriptors@.len() == N,
                    forall|p: int| 0 <= p < i ==> self.posted_descriptors@[p] == posted0[current + p],
                    forall|p: int| i <= p < N ==> self.posted_descriptors@[p] == posted0[p],
                decreases remaining - i,
            {
                let v = self.posted_descriptors[current + i];
                self.posted_descriptors.set(i, v);
                i += 1;
            }
            proof {
                assert(self.posted_descriptors@ =~= posted_after_shift(posted0, current as int, head as int));
            }
            self.rx_ring_head.0 = remaining;
            self.rx_ring_tail.0 = remaining;
            proof {
                if old(self).buffers_distinct() {
                    let t0 = old(self).tail() as int;
                    let f0 = free0.len() as int;
                    let c = current as int;
                    let rem = remaining as int;
                    let a = posted0.take(t0) + free0;
                    let b = self.posted().take(rem) + self.pool().free();
                    let f = |p: int| if p < rem { c + p } else if p < rem + f0 { t0 + (p - rem) } else { p - rem - f0 };
                    assert forall|p: int| 0 <= p < b.len() implies 0 <= #[trigger] f(p) < a.len() && b[p] == a[f(p)] by {
                        if p < rem {
                            assert(b[p] == self.posted()[p]);
                        } else {
                            assert(b[p] == self.pool().free()[p - rem]);
                        }
                    }
                    assert forall|i: int, j: int| 0 <= i < j < b.len() implies #[trigger] f(i) != #[trigger] f(j) by {}
                    lemma_no_dup_map(a, b, f, N);
                    assert(self.buffers_distinct());
                }
            }
            self.refill_rx_ring();
        }
        current
    }

    /// Whether the bridge is running.
    pub fn is_active(&self) -> (r: bool)
        ensures
            r == self.active(),
    {
        self.is_active
    }
}

/// A sequence whose elements are taken, injectively, from a sequence of
/// distinct ids below `n` is itself such a sequence.
proof fn lemma_no_dup_map(a: Seq<u32>, b: Seq<u32>, f: spec_fn(int) -> int, n: usize)
    requires
        no_dup(a),
        ids_below(a, n),
        forall|i: int| 0 <= i < b.len() ==> 0 <= #[trigger] f(i) < a.len() && b[i] == a[f(i)],
        forall|i: int, j: int| 0 <= i < j < b.len() ==> #[trigger] f(i) != #[trigger] f(j),
    ensures
        no_dup(b),
        ids_below(b, n),
{
    assert forall|i: int, j: int| 0 <= i < j < b.len() implies b[i] != b[j] by {
        assert(f(i) != f(j));
        if f(i) < f(j) {
            assert(a[f(i)] != a[f(j)]);
        } else {
            assert(a[f(j)] != a[f(i)]);
        }
    }
    assert forall|i: int| 0 <= i < b.len() implies b[i] < n by {
        assert(0 <= f(i) < a.len());
    }
}

/// A packet received at ring position `head` is read back by a poll, bytes (at
/// most a frame) and timestamp, and receiving it leaves the packets at the
/// earlier positions as they were, as long as the ring's buffers are distinct.
pub proof fn lemma_receive_then_poll(
    frames: Seq<Seq<u8>>,
    descs: Seq<PacketDescriptor>,
    posted: Seq<u32>,
    head: int,
    tail: int,
    free: Seq<u32>,
    payload: Seq<u8>,
    ts: u64,
    n: usize,
)
    requires
        is_power_of_two(n as nat),
        frames.len() == n,
        descs.len() == n,
        posted.len() == n,
        forall|i: int| 0 <= i < n ==> (#[trigger] frames[i]).len() == 2048,
        0 <= head < tail <= n,
        ring_distinct(posted, tail, free, n),
    ensures
        ({
            let (f2, d2) = receive(frames, descs, ring_slot(posted[head] as usize, n) as int, payload, ts);
            packets_of(f2, d2, posted, (head + 1) as nat, n) == packets_of(frames, descs, posted, head as nat, n).push(
                (payload.take(clamp_frame(payload.len() as int)), ts),
            )
        }),
{
    let live = posted.take(tail) + free;
    let h = posted[head];
    assert(live[head] == h);
    lemma_slot_small(h as usize, n);
    let (f2, d2) = receive(frames, descs, h as int, payload, ts);
    let lhs = packets_of(f2, d2, posted, (head + 1) as nat, n);
    let rhs = packets_of(frames, descs, posted, head as nat, n).push((payload.take(clamp_frame(payload.len() as int)), ts));
    assert forall|c: int| 0 <= c < head + 1 implies #[trigger] lhs[c] == rhs[c] by {
        let b = posted[c];
        assert(live[c] == b);
        lemma_slot_small(b as usize, n);
        if c < head {
            assert(live[c] != live[head]);
        } else {
            let len = clamp_frame(payload.len() as int);
            assert(f2[h as int] == payload.take(len) + frames[h as int].skip(len));
            assert(f2[h as int].take(len) =~= payload.take(len));
        }
    }
    assert(lhs =~= rhs);
}

impl<const N: usize> DmaBufferPool<N> {
    /// Every buffer holds a full frame.
    pub proof fn lemma_frame_lengths(&self)
        requires
            self.wf(),
        ensures
            forall|i: int| 0 <= i < N ==> (#[trigger] self.frames()[i]).len() == 2048,
    {
        assert forall|i: int| 0 <= i < N implies (#[trigger] self.frames()[i]).len() == 2048 by {
            assert(self.frames()[i] == self.storage@[i]@);
        }
    }
}

proof fn lemma_wrap_add_step(a: u64, x: int, y: int)
    requires
        x >= 0,
        y >= 0,
    ensures
        wrap_add(wrap_add(a, x), y) == wrap_add(a, x + y),
{
    let m: int = 0x1_0000_0000_0000_0000;
    vstd::arithmetic::div_mod::lemma_add_mod_noop_right(y, a + x, m);
    vstd::arithmetic::div_mod::lemma_mod_bound(a + x, m);
    assert(wrap_add(a, x) as int == (a + x) % m);
    assert(((a + x) % m + y) % m == (a + x + y) % m);
}

} // verus!
