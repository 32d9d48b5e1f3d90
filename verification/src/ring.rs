//! Single-producer single-consumer circular queue over a power-of-two slot array.
use vstd::prelude::*;
use vstd::arithmetic::power2::{pow2, lemma_pow2_pos, lemma_pow2_strictly_increases};
use vstd::bits::{low_bits_mask, lemma_u64_low_bits_mask_is_mod, lemma_u64_pow2_no_overflow};

verus! {

/// `n` is 2^k for some `k < 64`.
pub open spec fn is_power_of_two(n: nat) -> bool {
    exists|k: nat| k < 64 && pow2(k) == n
}

/// A power of two is at least one.
pub proof fn lemma_power_of_two_pos(n: nat)
    requires
        is_power_of_two(n),
    ensures
        n >= 1,
{
    let k = choose|k: nat| k < 64 && pow2(k) == n;
    lemma_pow2_pos(k);
}

/// Slot of a monotonically increasing cursor in a ring of `n` slots, by masking.
pub fn slot_of(cursor: u64, n: usize) -> (r: usize)
    requires
        is_power_of_two(n as nat),
    ensures
        r as nat == cursor as nat % (n as nat),
        r < n,
{
    let ghost k = choose|k: nat| k < 64 && pow2(k) == n as nat;
    proof {
        lemma_u64_pow2_no_overflow(k);
        lemma_pow2_pos(k);
        lemma_u64_low_bits_mask_is_mod(cursor, k);
    }
    let masked = cursor & (n as u64 - 1);
    proof {
        assert(low_bits_mask(k) as u64 == (n as u64 - 1) as u64);
    }
    masked as usize
}

/// Lock-free single-producer single-consumer circular queue (LMAX Disruptor
/// pattern). Cursors grow monotonically; slot `c % N` holds the item of cursor `c`.
pub struct SpscRingBuffer<T, const N: usize> {
    producer_cursor: u64,
    cached_consumer_cursor: u64,
    consumer_cursor: u64,
    cached_producer_cursor: u64,
    buffer: Vec<T>,
}

impl<T: Copy + Default, const N: usize> SpscRingBuffer<T, N> {
    /// The items queued, oldest first.
    pub closed spec fn view(&self) -> Seq<T> {
        Seq::new(
            (self.producer_cursor - self.consumer_cursor) as nat,
            |k: int| self.buffer@[((self.consumer_cursor + k) % (N as int))],
        )
    }

    /// Number of items ever pushed.
    pub closed spec fn pushed(&self) -> nat {
        self.producer_cursor as nat
    }

    /// Number of items ever popped.
    pub closed spec fn popped(&self) -> nat {
        self.consumer_cursor as nat
    }

    pub closed spec fn wf(&self) -> bool {
        &&& is_power_of_two(N as nat)
        &&& self.buffer@.len() == N
        &&& self.consumer_cursor <= self.producer_cursor <= self.consumer_cursor + N
        &&& self.cached_consumer_cursor <= self.consumer_cursor
        &&& self.cached_producer_cursor <= self.producer_cursor
    }

    pub fn new() -> (r: Self)
        requires
            is_power_of_two(N as nat),
        ensures
            r.wf(),
            r.view() == Seq::<T>::empty(),
            r.pushed() == 0,
            r.popped() == 0,
    {
        let mut buffer: Vec<T> = Vec::new();
        let mut i: usize = 0;
        while i < N
            invariant
                i <= N,
                buffer@.len() == i,
            decreases N - i,
        {
            buffer.push(T::default());
            i += 1;
        }
        let r = SpscRingBuffer {
            producer_cursor: 0,
            cached_consumer_cursor: 0,
            consumer_cursor: 0,
            cached_producer_cursor: 0,
            buffer,
        };
        proof {
            assert(r.view() =~= Seq::<T>::empty());
        }
        r
    }

    /// Producer: enqueues `item` unless the ring is full.
    pub fn try_push(&mut self, item: T) -> (r: Result<(), ()>)
        requires
            old(self).wf(),
            old(self).pushed() + N < u64::MAX,
        ensures
            final(self).wf(),
            final(self).popped() == old(self).popped(),
            old(self).view().len() < N ==> r is Ok && final(self).view() == old(self).view().push(item)
                && final(self).pushed() == old(self).pushed() + 1,
            old(self).view().len() >= N ==> r is Err && final(self).view() == old(self).view()
                && final(self).pushed() == old(self).pushed(),
    {
        let current_head = self.producer_cursor;
        let cached_tail = self.cached_consumer_cursor;

        if current_head >= cached_tail + N as u64 {
            let actual_tail = self.consumer_cursor;
            self.cached_consumer_cursor = actual_tail;
            if current_head >= actual_tail + N as u64 {
                return Err(());
            }
        }

        let slot_index = slot_of(current_head, N);
        let ghost old_view = self.view();
        self.buffer.set(slot_index, item);
        self.producer_cursor = current_head + 1;
        proof {
            assert forall|k: int| 0 <= k < old_view.len() implies #[trigger] self.view()[k]
                == old_view[k] by {
                lemma_distinct_slots(self.consumer_cursor as int, k, current_head as int, N as int);
            }
            assert(self.view() =~= old_view.push(item));
        }
        Ok(())
    }

    /// Consumer: dequeues the oldest item, if any.
    pub fn try_pop(&mut self) -> (r: Option<T>)
        requires
            old(self).wf(),
        ensures
            final(self).wf(),
            final(self).pushed() == old(self).pushed(),
            old(self).view().len() == 0 ==> r is None && final(self).view() == old(self).view()
                && final(self).popped() == old(self).popped(),
            old(self).view().len() > 0 ==> r == Some(old(self).view()[0]) && final(self).view()
                == old(self).view().drop_first() && final(self).popped() == old(self).popped() + 1,
    {
        let current_tail = self.consumer_cursor;
        let cached_head = self.cached_producer_cursor;

        if current_tail >= cached_head {
            let actual_head = self.producer_cursor;
            self.cached_producer_cursor = actual_head;
            if current_tail >= actual_head {
                return None;
            }
        }

        let slot_index = slot_of(current_tail, N);
        let item = self.buffer[slot_index];
        let ghost old_view = self.view();
        self.consumer_cursor = current_tail + 1;
        proof {
            assert forall|k: int| 0 <= k < self.view().len() implies #[trigger] self.view()[k]
                == old_view[k + 1] by {
                assert((current_tail + 1) + k == current_tail + (k + 1));
            }
            assert(self.view() =~= old_view.drop_first());
        }
        Some(item)
    }
}

/// Two cursors less than `n` apart occupy different slots.
pub proof fn lemma_distinct_slots(tail: int, k: int, head: int, n: int)
    requires
        0 <= tail,
        0 <= k < head - tail,
        head - tail < n,
        n > 0,
    ensures
        (tail + k) % n != head % n,
{
    let a = tail + k;
    vstd::arithmetic::div_mod::lemma_fundamental_div_mod(a, n);
    vstd::arithmetic::div_mod::lemma_fundamental_div_mod(head, n);
    if a % n == head % n {
        assert(head - a == n * (head / n - a / n)) by (nonlinear_arith)
            requires
                a == n * (a / n) + a % n,
                head == n * (head / n) + head % n,
                a % n == head % n,
        ;
        assert(0 < head - a < n);
        assert(false) by (nonlinear_arith)
            requires
                head - a == n * (head / n - a / n),
                0 < head - a < n,
        ;
    }
}

} // verus!
