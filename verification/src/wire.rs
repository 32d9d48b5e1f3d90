//! Little-endian byte fields shared by the binary codecs.
use vstd::prelude::*;

verus! {

/// 256^n.
pub open spec fn pow256(n: nat) -> nat
    decreases n,
{
    if n == 0 {
        1
    } else {
        256 * pow256((n - 1) as nat)
    }
}

/// The `n` little-endian bytes of `v` (its value modulo 256^n).
pub open spec fn le_bytes(v: nat, n: nat) -> Seq<u8>
    decreases n,
{
    if n == 0 {
        Seq::empty()
    } else {
        seq![(v % 256) as u8] + le_bytes(v / 256, (n - 1) as nat)
    }
}

/// The value of little-endian bytes.
pub open spec fn le_value(s: Seq<u8>) -> nat
    decreases s.len(),
{
    if s.len() == 0 {
        0
    } else {
        s[0] as nat + 256 * le_value(s.drop_first())
    }
}

pub proof fn lemma_le_bytes_len(v: nat, n: nat)
    ensures
        le_bytes(v, n).len() == n,
    decreases n,
{
    if n > 0 {
        lemma_le_bytes_len(v / 256, (n - 1) as nat);
    }
}

/// Reading back the little-endian bytes of a value gives the value.
pub proof fn lemma_le_roundtrip(v: nat, n: nat)
    requires
        v < pow256(n),
    ensures
        le_value(le_bytes(v, n)) == v,
    decreases n,
{
    if n > 0 {
        assert(v / 256 < pow256((n - 1) as nat)) by {
            vstd::arithmetic::div_mod::lemma_multiply_divide_lt(v as int, 256, pow256((n - 1) as nat) as int);
        }
        lemma_le_roundtrip(v / 256, (n - 1) as nat);
        let s = le_bytes(v, n);
        assert(s.drop_first() =~= le_bytes(v / 256, (n - 1) as nat));
        vstd::arithmetic::div_mod::lemma_fundamental_div_mod(v as int, 256);
    } else {
        assert(v == 0);
    }
}

/// Little-endian bytes are below 256^len.
pub proof fn lemma_le_value_bound(s: Seq<u8>)
    ensures
        le_value(s) < pow256(s.len()),
    decreases s.len(),
{
    if s.len() > 0 {
        lemma_le_value_bound(s.drop_first());
    }
}

pub proof fn lemma_pow256_facts()
    ensures
        pow256(1) == 0x100,
        pow256(2) == 0x1_0000,
        pow256(4) == 0x1_0000_0000,
        pow256(8) == 0x1_0000_0000_0000_0000,
{
    reveal_with_fuel(pow256, 9);
}

/// Writes the `n` little-endian bytes of `v` at `off`.
pub fn put_le(out: &mut [u8], off: usize, v: u64, n: usize)
    requires
        off + n <= old(out)@.len(),
        n <= 8,
    ensures
        final(out)@.len() == old(out)@.len(),
        final(out)@.subrange(off as int, off + n) == le_bytes(v as nat, n as nat),
        forall|k: int| 0 <= k < old(out)@.len() && !(off <= k < off + n) ==> final(out)@[k] == old(out)@[k],
{
    let ghost start = out@;
    let len = out.len();
    let mut x = v;
    let mut i: usize = 0;
    proof {
        lemma_le_bytes_len(v as nat, n as nat);
    }
    while i < n
        invariant
            i <= n <= 8,
            off + n <= len,
            len == out@.len(),
            out@.len() == start.len(),
            out@.subrange(off as int, off + i) + le_bytes(x as nat, (n - i) as nat) == le_bytes(v as nat, n as nat),
            forall|k: int| 0 <= k < start.len() && !(off <= k < off + i) ==> out@[k] == start[k],
        decreases n - i,
    {
        let ghost before = out@;
        out[off + i] = (x % 256) as u8;
        proof {
            let rest = le_bytes(x as nat / 256, (n - i - 1) as nat);
            assert(le_bytes(x as nat, (n - i) as nat) == seq![(x % 256) as u8] + rest);
            assert(out@.subrange(off as int, off + i + 1) =~= before.subrange(off as int, off + i).push(
                (x % 256) as u8,
            ));
            assert(out@.subrange(off as int, off + i + 1) + rest =~= before.subrange(off as int, off + i) + (
            seq![(x % 256) as u8] + rest));
        }
        x = x / 256;
        i += 1;
    }
    proof {
        assert(le_bytes(x as nat, 0) =~= Seq::<u8>::empty());
        assert(out@.subrange(off as int, off + n) + Seq::<u8>::empty() =~= out@.subrange(off as int, off + n));
    }
}

/// Reads the little-endian value of the `n` bytes at `off`.
pub fn get_le(buf: &[u8], off: usize, n: usize) -> (r: u64)
    requires
        off + n <= buf@.len(),
        n <= 8,
    ensures
        r as nat == le_value(buf@.subrange(off as int, off + n)),
{
    let len = buf.len();
    let mut acc: u64 = 0;
    let mut k: usize = n;
    while k > 0
        invariant
            k <= n <= 8,
            off + n <= len,
            len == buf@.len(),
            acc as nat == le_value(buf@.subrange(off + k, off + n)),
        decreases k,
    {
        let ghost tail = buf@.subrange(off + k, off + n);
        let ghost s = buf@.subrange(off + k - 1, off + n);
        proof {
            assert(s.drop_first() =~= tail);
            lemma_le_value_bound(s);
            lemma_pow256_mono(s.len(), 8);
            lemma_pow256_facts();
        }
        acc = acc * 256 + buf[off + k - 1] as u64;
        k -= 1;
    }
    proof {
        assert(buf@.subrange(off + n, off + n) =~= Seq::<u8>::empty());
    }
    acc
}

pub proof fn lemma_pow256_mono(a: nat, b: nat)
    requires
        a <= b,
    ensures
        pow256(a) <= pow256(b),
    decreases b,
{
    if a < b {
        lemma_pow256_mono(a, (b - 1) as nat);
    }
}

} // verus!
