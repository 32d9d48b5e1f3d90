//! Dense 1024-client subscription bitset.
use vstd::prelude::*;

verus! {

/// Number of 64-bit words in a bitmap.
pub const DEFAULT_BITMAP_WORDS: usize = 16;

/// Number of client ids a bitmap can hold.
pub const MAX_CLIENT_CAPACITY: usize = 1024;

/// Bit `b` of `w`.
pub open spec fn bit_of(w: u64, b: u64) -> bool {
    (w >> b) & 1u64 == 1u64
}

/// Client `id` is set in `words`.
pub open spec fn has_id(words: Seq<u64>, id: u32) -> bool {
    id < MAX_CLIENT_CAPACITY && bit_of(words[id as int / 64], (id % 64) as u64)
}

/// The ids below `n` set in `words`, ascending.
pub open spec fn ids_below(words: Seq<u64>, n: nat) -> Seq<u32>
    decreases n,
{
    if n == 0 {
        Seq::empty()
    } else {
        let prev = ids_below(words, (n - 1) as nat);
        if (n - 1) < MAX_CLIENT_CAPACITY && has_id(words, (n - 1) as u32) {
            prev.push((n - 1) as u32)
        } else {
            prev
        }
    }
}

proof fn lemma_bit_ops(w: u64, b: u64, c: u64)
    requires
        b < 64,
        c < 64,
    ensures
        bit_of(w | (1u64 << b), c) == (c == b || bit_of(w, c)),
        bit_of(w & !(1u64 << b), c) == (c != b && bit_of(w, c)),
        (w & (1u64 << b) != 0) == bit_of(w, b),
{
    assert(bit_of(w | (1u64 << b), c) == (c == b || bit_of(w, c))) by (bit_vector)
        requires
            b < 64,
            c < 64,
    ;
    assert(bit_of(w & !(1u64 << b), c) == (c != b && bit_of(w, c))) by (bit_vector)
        requires
            b < 64,
            c < 64,
    ;
    assert((w & (1u64 << b) != 0) == bit_of(w, b)) by (bit_vector)
        requires
            b < 64,
    ;
}

proof fn lemma_word_ops(x: u64, y: u64, c: u64)
    requires
        c < 64,
    ensures
        bit_of(x & y, c) == (bit_of(x, c) && bit_of(y, c)),
        bit_of(x | y, c) == (bit_of(x, c) || bit_of(y, c)),
        !bit_of(0u64, c),
{
    assert(bit_of(x & y, c) == (bit_of(x, c) && bit_of(y, c))) by (bit_vector)
        requires
            c < 64,
    ;
    assert(bit_of(x | y, c) == (bit_of(x, c) || bit_of(y, c))) by (bit_vector)
        requires
            c < 64,
    ;
    assert(!bit_of(0u64, c)) by (bit_vector)
        requires
            c < 64,
    ;
}

/// Dense 64-bit-word client bitset.
#[derive(Clone, Copy, Debug, PartialEq, Eq)]
pub struct ClientBitmap {
    pub words: [u64; DEFAULT_BITMAP_WORDS],
}

impl View for ClientBitmap {
    type V = Set<u32>;

    /// The set of client ids held.
    open spec fn view(&self) -> Set<u32> {
        Set::new(|id: u32| has_id(self.words@, id))
    }
}

impl Default for ClientBitmap {
    fn default() -> (r: Self)
        ensures
            r@ == Set::<u32>::empty(),
            forall|k: int| 0 <= k < DEFAULT_BITMAP_WORDS ==> r.words@[k] == 0,
    {
        ClientBitmap::new()
    }
}

impl ClientBitmap {
    /// The ids held, ascending.
    pub open spec fn ids(&self) -> Seq<u32> {
        ids_below(self.words@, MAX_CLIENT_CAPACITY as nat)
    }

    /// The empty bitmap.
    pub fn new() -> (r: Self)
        ensures
            r@ == Set::<u32>::empty(),
            forall|k: int| 0 <= k < DEFAULT_BITMAP_WORDS ==> r.words@[k] == 0,
    {
        let r = ClientBitmap { words: [0u64; DEFAULT_BITMAP_WORDS] };
        proof {
            assert forall|id: u32| !r@.contains(id) by {
                if id < MAX_CLIENT_CAPACITY {
                    lemma_word_ops(0, 0, (id % 64) as u64);
                }
            }
            assert(r@ =~= Set::<u32>::empty());
        }
        r
    }

    /// Adds `client_id` (ignored past the capacity); true when it was not held.
    pub fn insert(&mut self, client_id: u32) -> (r: bool)
        ensures
            r == (client_id < MAX_CLIENT_CAPACITY && !old(self)@.contains(client_id)),
            final(self)@ == (if client_id < MAX_CLIENT_CAPACITY {
                old(self)@.insert(client_id)
            } else {
                old(self)@
            }),
    {
        let idx = client_id as usize;
        let word_idx = idx / 64;
        let bit_idx = (idx % 64) as u64;
        if word_idx < DEFAULT_BITMAP_WORDS {
            let w = self.words[word_idx];
            let mask = 1u64 << bit_idx;
            let already_set = (w & mask) != 0;
            let ghost old_words = self.words@;
            self.words[word_idx] = w | mask;
            proof {
                lemma_bit_ops(w, bit_idx, bit_idx);
                assert forall|x: u32| #[trigger] self@.contains(x) == old(self)@.insert(client_id).contains(x) by {
                    if x < MAX_CLIENT_CAPACITY && x / 64 == client_id / 64 {
                        lemma_bit_ops(w, bit_idx, (x % 64) as u64);
                    }
                }
                assert(self@ =~= old(self)@.insert(client_id));
            }
            !already_set
        } else {
            false
        }
    }

    /// Removes `client_id`; true when it was held.
    pub fn remove(&mut self, client_id: u32) -> (r: bool)
        ensures
            r == old(self)@.contains(client_id),
            final(self)@ == old(self)@.remove(client_id),
    {
        let idx = client_id as usize;
        let word_idx = idx / 64;
        let bit_idx = (idx % 64) as u64;
        if word_idx < DEFAULT_BITMAP_WORDS {
            let w = self.words[word_idx];
            let mask = 1u64 << bit_idx;
            let was_set = (w & mask) != 0;
            self.words[word_idx] = w & !mask;
            proof {
                lemma_bit_ops(w, bit_idx, bit_idx);
                assert forall|x: u32| #[trigger] self@.contains(x) == old(self)@.remove(client_id).contains(x) by {
                    if x < MAX_CLIENT_CAPACITY && x / 64 == client_id / 64 {
                        lemma_bit_ops(w, bit_idx, (x % 64) as u64);
                    }
                }
                assert(self@ =~= old(self)@.remove(client_id));
            }
            was_set
        } else {
            proof {
                assert(self@ =~= old(self)@.remove(client_id));
            }
            false
        }
    }

    /// Whether `client_id` is held.
    pub fn contains(&self, client_id: u32) -> (r: bool)
        ensures
            r == self@.contains(client_id),
    {
        let idx = client_id as usize;
        let word_idx = idx / 64;
        let bit_idx = (idx % 64) as u64;
        if word_idx < DEFAULT_BITMAP_WORDS {
            let w = self.words[word_idx];
            proof {
                lemma_bit_ops(w, bit_idx, bit_idx);
            }
            (w & (1u64 << bit_idx)) != 0
        } else {
            false
        }
    }

    /// Appends the ids of word `k` to `out`, ascending.
    fn push_word_ids(&self, k: usize, out: &mut Vec<u32>)
        requires
            k < DEFAULT_BITMAP_WORDS,
            old(out)@ == ids_below(self.words@, (k * 64) as nat),
        ensures
            final(out)@ == ids_below(self.words@, ((k + 1) * 64) as nat),
    {
        let w = self.words[k];
        let base = (k * 64) as u32;
        let mut b: u64 = 0;
        while b < 64
            invariant
                k < DEFAULT_BITMAP_WORDS,
                w == self.words@[k as int],
                base == k * 64,
                b <= 64,
                out@ == ids_below(self.words@, (k * 64 + b) as nat),
            decreases 64 - b,
        {
            let id = base + b as u32;
            proof {
                assert(id / 64 == k && id % 64 == b) by (nonlinear_arith)
                    requires
                        id == k * 64 + b,
                        b < 64,
                ;
            }
            if (w >> b) & 1 == 1 {
                out.push(id);
            }
            b += 1;
        }
    }

    /// Appends every id held to `sink`, ascending.
    pub fn for_each(&self, sink: &mut Vec<u32>)
        ensures
            final(sink)@ == old(sink)@ + self.ids(),
    {
        let mut ids: Vec<u32> = Vec::new();
        let mut k: usize = 0;
        while k < DEFAULT_BITMAP_WORDS
            invariant
                k <= DEFAULT_BITMAP_WORDS,
                ids@ == ids_below(self.words@, (k * 64) as nat),
            decreases DEFAULT_BITMAP_WORDS - k,
        {
            self.push_word_ids(k, &mut ids);
            k += 1;
        }
        let mut i: usize = 0;
        let ghost start = sink@;
        while i < ids.len()
            invariant
                i <= ids@.len(),
                ids@ == self.ids(),
                sink@ == start + ids@.take(i as int),
            decreases ids@.len() - i,
        {
            sink.push(ids[i]);
            proof {
                assert(ids@.take(i + 1) =~= ids@.take(i as int).push(ids@[i as int]));
            }
            i += 1;
        }
        proof {
            assert(ids@.take(ids@.len() as int) =~= ids@);
        }
    }

    /// The ids held, ascending.
    pub fn client_ids(&self) -> (r: Vec<u32>)
        ensures
            r@ == self.ids(),
    {
        let mut out: Vec<u32> = Vec::new();
        self.for_each(&mut out);
        proof {
            assert(Seq::<u32>::empty() + self.ids() =~= self.ids());
        }
        out
    }

    /// Whether no id is held.
    pub fn is_empty(&self) -> (r: bool)
        ensures
            r == (self.ids().len() == 0),
    {
        self.count() == 0
    }

    /// Number of ids held.
    pub fn count(&self) -> (r: usize)
        ensures
            r == self.ids().len(),
    {
        let ids = self.client_ids();
        ids.len()
    }

    /// Clears every id.
    pub fn clear(&mut self)
        ensures
            final(self)@ == Set::<u32>::empty(),
            forall|k: int| 0 <= k < DEFAULT_BITMAP_WORDS ==> final(self).words@[k] == 0,
    {
        *self = ClientBitmap::new();
    }

    /// Word-wise AND: the ids held by both.
    pub fn intersect(&self, other: &Self) -> (r: Self)
        ensures
            r@ == self@.intersect(other@),
            forall|k: int| 0 <= k < DEFAULT_BITMAP_WORDS ==> r.words@[k] == self.words@[k] & other.words@[k],
    {
        let mut result = ClientBitmap::new();
        let mut i: usize = 0;
        while i < DEFAULT_BITMAP_WORDS
            invariant
                i <= DEFAULT_BITMAP_WORDS,
                forall|k: int| 0 <= k < i ==> result.words@[k] == self.words@[k] & other.words@[k],
            decreases DEFAULT_BITMAP_WORDS - i,
        {
            result.words[i] = self.words[i] & other.words[i];
            i += 1;
        }
        proof {
            assert forall|x: u32| #[trigger] result@.contains(x) == self@.intersect(other@).contains(x) by {
                if x < MAX_CLIENT_CAPACITY {
                    lemma_word_ops(self.words@[x as int / 64], other.words@[x as int / 64], (x % 64) as u64);
                }
            }
            assert(result@ =~= self@.intersect(other@));
        }
        result
    }

    /// Word-wise OR: the ids held by either.
    pub fn union(&self, other: &Self) -> (r: Self)
        ensures
            r@ == self@.union(other@),
            forall|k: int| 0 <= k < DEFAULT_BITMAP_WORDS ==> r.words@[k] == self.words@[k] | other.words@[k],
    {
        let mut result = ClientBitmap::new();
        let mut i: usize = 0;
        while i < DEFAULT_BITMAP_WORDS
            invariant
                i <= DEFAULT_BITMAP_WORDS,
                forall|k: int| 0 <= k < i ==> result.words@[k] == self.words@[k] | other.words@[k],
            decreases DEFAULT_BITMAP_WORDS - i,
        {
            result.words[i] = self.words[i] | other.words[i];
            i += 1;
        }
        proof {
            assert forall|x: u32| #[trigger] result@.contains(x) == self@.union(other@).contains(x) by {
                if x < MAX_CLIENT_CAPACITY {
                    lemma_word_ops(self.words@[x as int / 64], other.words@[x as int / 64], (x % 64) as u64);
                }
            }
            assert(result@ =~= self@.union(other@));
        }
        result
    }

    /// An iterator over the ids held, ascending.
    pub fn iter(&self) -> (r: ClientBitmapIter<'_>)
        ensures
            r.wf(),
            r.remaining() == self.ids(),
    {
        let r = ClientBitmapIter { bitmap: self, next_id: 0 };
        proof {
            lemma_ids_from(self.words@, 0);
        }
        r
    }
}

/// The ids at or above `from` set in `words`, ascending.
pub open spec fn ids_from(words: Seq<u64>, from: nat) -> Seq<u32>
    decreases MAX_CLIENT_CAPACITY - from,
{
    if from >= MAX_CLIENT_CAPACITY {
        Seq::empty()
    } else if has_id(words, from as u32) {
        seq![from as u32] + ids_from(words, from + 1)
    } else {
        ids_from(words, from + 1)
    }
}

/// The ids below `n` listed by `ids_below` are exactly the members below `n`,
/// in strictly increasing order.
pub proof fn lemma_ids_below(words: Seq<u64>, n: nat)
    ensures
        forall|x: u32| #[trigger] ids_below(words, n).contains(x) <==> (x < n && has_id(words, x)),
        forall|i: int, j: int|
            0 <= i < j < ids_below(words, n).len() ==> #[trigger] ids_below(words, n)[i] < #[trigger] ids_below(
                words,
                n,
            )[j],
        forall|i: int| 0 <= i < ids_below(words, n).len() ==> #[trigger] ids_below(words, n)[i] < n,
    decreases n,
{
    if n > 0 {
        lemma_ids_below(words, (n - 1) as nat);
        let prev = ids_below(words, (n - 1) as nat);
        if (n - 1) < MAX_CLIENT_CAPACITY && has_id(words, (n - 1) as u32) {
            let cur = prev.push((n - 1) as u32);
            assert(ids_below(words, n) == cur);
            assert forall|x: u32| #[trigger] cur.contains(x) <==> (x < n && has_id(words, x)) by {
                if cur.contains(x) {
                    let k = choose|k: int| 0 <= k < cur.len() && cur[k] == x;
                    if k < prev.len() {
                        assert(prev[k] == x);
                        assert(prev.contains(x));
                    }
                }
                if x < n && has_id(words, x) {
                    if x == n - 1 {
                        assert(cur[prev.len() as int] == x);
                    } else {
                        assert(prev.contains(x));
                        let k = choose|k: int| 0 <= k < prev.len() && prev[k] == x;
                        assert(cur[k] == x);
                    }
                }
            }
            assert forall|i: int, j: int| 0 <= i < j < cur.len() implies #[trigger] cur[i] < #[trigger] cur[j] by {
                if j == prev.len() {
                    assert(prev[i] < n - 1);
                } else {
                    assert(prev[i] < prev[j]);
                }
            }
            assert forall|i: int| 0 <= i < cur.len() implies #[trigger] cur[i] < n by {
                if i < prev.len() {
                    assert(prev[i] < n - 1);
                }
            }
        } else {
            assert(ids_below(words, n) == prev);
            assert forall|x: u32| #[trigger] prev.contains(x) <==> (x < n && has_id(words, x)) by {
                if prev.contains(x) {
                    let k = choose|k: int| 0 <= k < prev.len() && prev[k] == x;
                    assert(prev[k] < n - 1);
                }
            }
        }
    }
}

/// At most `n` ids lie below `n`.
pub proof fn lemma_ids_below_len(words: Seq<u64>, n: nat)
    ensures
        ids_below(words, n).len() <= n,
    decreases n,
{
    if n > 0 {
        lemma_ids_below_len(words, (n - 1) as nat);
    }
}

/// The ids a bitmap lists are exactly its members, ascending without repeats.
pub proof fn lemma_ids_are_members(b: ClientBitmap)
    ensures
        forall|x: u32| #[trigger] b.ids().contains(x) <==> b@.contains(x),
        forall|i: int, j: int| 0 <= i < j < b.ids().len() ==> #[trigger] b.ids()[i] < #[trigger] b.ids()[j],
        (b.ids().len() == 0) == (b@ == Set::<u32>::empty()),
{
    lemma_ids_below(b.words@, MAX_CLIENT_CAPACITY as nat);
    assert forall|x: u32| #[trigger] b.ids().contains(x) <==> b@.contains(x) by {
        assert(b.ids().contains(x) <==> (x < MAX_CLIENT_CAPACITY && has_id(b.words@, x)));
    }
    if b.ids().len() == 0 {
        assert forall|x: u32| !b@.contains(x) by {
            assert(!b.ids().contains(x));
        }
        assert(b@ =~= Set::<u32>::empty());
    } else {
        assert(b.ids().contains(b.ids()[0]));
        assert(b@.contains(b.ids()[0]));
    }
}

/// `ids_from(0)` lists the same ids as `ids_below(capacity)`.
proof fn lemma_ids_from(words: Seq<u64>, from: nat)
    requires
        from <= MAX_CLIENT_CAPACITY,
    ensures
        ids_below(words, from) + ids_from(words, from) == ids_below(words, MAX_CLIENT_CAPACITY as nat),
    decreases MAX_CLIENT_CAPACITY - from,
{
    if from < MAX_CLIENT_CAPACITY {
        lemma_ids_from(words, from + 1);
        if has_id(words, from as u32) {
            assert(ids_below(words, from + 1) == ids_below(words, from).push(from as u32));
            assert(ids_below(words, from) + ids_from(words, from) =~= ids_below(words, from + 1) + ids_from(
                words,
                from + 1,
            ));
        } else {
            assert(ids_below(words, from + 1) == ids_below(words, from));
        }
    } else {
        assert(ids_below(words, from) + Seq::<u32>::empty() =~= ids_below(words, from));
    }
}

/// Iterator over the ids of a bitmap, ascending.
pub struct ClientBitmapIter<'a> {
    bitmap: &'a ClientBitmap,
    next_id: u32,
}

impl<'a> ClientBitmapIter<'a> {
    /// The cursor is within the id range.
    pub closed spec fn wf(&self) -> bool {
        self.next_id <= MAX_CLIENT_CAPACITY
    }

    /// The ids still to come.
    pub closed spec fn remaining(&self) -> Seq<u32> {
        ids_from(self.bitmap.words@, self.next_id as nat)
    }

    /// The next id, if any.
    pub fn next(&mut self) -> (r: Option<u32>)
        requires
            old(self).wf(),
        ensures
            final(self).wf(),
            old(self).remaining().len() == 0 ==> r is None && final(self).remaining().len() == 0,
            old(self).remaining().len() > 0 ==> r == Some(old(self).remaining()[0])
                && final(self).remaining() == old(self).remaining().drop_first(),
    {
        while self.next_id < MAX_CLIENT_CAPACITY as u32
            invariant
                self.next_id <= MAX_CLIENT_CAPACITY,
                self.bitmap == old(self).bitmap,
                self.remaining() == old(self).remaining(),
            decreases MAX_CLIENT_CAPACITY - self.next_id,
        {
            let id = self.next_id;
            self.next_id = id + 1;
            if self.bitmap.contains(id) {
                proof {
                    assert(old(self).remaining() == seq![id] + self.remaining());
                    assert((seq![id] + self.remaining()).drop_first() =~= self.remaining());
                }
                return Some(id);
            }
        }
        None
    }
}

} // verus!
