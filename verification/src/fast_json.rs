//! Allocation-free JSON formatting of quotes and trades into caller buffers.
use vstd::prelude::*;
use crate::models::{NormalizedBbo, UnifiedTrade, TelemetryTimestamps};
use vstd::string::StringSliceAdditionalSpecFns;

verus! {

#[derive(Debug, Clone, Copy, PartialEq, Eq, Structural)]
pub enum JsonError {
    BufferTooSmall { required: usize, provided: usize },
}

/// ASCII decimal digits of `v`, without leading zeros ("0" for zero).
pub open spec fn dec_digits(v: nat) -> Seq<u8>
    decreases v,
{
    if v < 10 {
        seq![(48 + v) as u8]
    } else {
        dec_digits(v / 10) + seq![(48 + v % 10) as u8]
    }
}

/// The last `n` decimal digits of `v`, zero-padded.
pub open spec fn pad_digits(v: nat, n: nat) -> Seq<u8>
    decreases n,
{
    if n == 0 {
        Seq::empty()
    } else {
        pad_digits(v / 10, (n - 1) as nat) + seq![(48 + v % 10) as u8]
    }
}

/// `|v|`.
pub open spec fn abs_i64(v: i64) -> nat {
    if v < 0 {
        (-v) as nat
    } else {
        v as nat
    }
}

/// A 10^8 fixed-point value as "[-]I.FFFFFFFF".
pub open spec fn fixed_point_text(v: i64) -> Seq<u8> {
    let sign: Seq<u8> = if v < 0 { seq![45u8] } else { Seq::empty() };
    sign + dec_digits(abs_i64(v) / 100_000_000) + seq![46u8] + pad_digits(abs_i64(v) % 100_000_000, 8)
}

/// The units a fixed-point value is written in: its sign (when negative), its
/// integer digits, the point and its eight fraction digits.
pub open spec fn fixed_units(v: i64) -> Seq<Seq<u8>> {
    sign_units(v) + seq![dec_digits(abs_i64(v) / 100_000_000), seq![46u8], pad_digits(abs_i64(v) % 100_000_000, 8)]
}

/// The sign unit of a negative value; none otherwise.
pub open spec fn sign_units(v: i64) -> Seq<Seq<u8>> {
    if v < 0 { seq![seq![45u8]] } else { Seq::empty() }
}

/// The units an integer is written in: its sign (when negative) and its digits.
pub open spec fn int_units(v: i64) -> Seq<Seq<u8>> {
    sign_units(v) + seq![dec_digits(abs_i64(v))]
}

/// The length a buffer of `cap` bytes is found short at when `units` are
/// written one after the other from `pos`: the end of the first unit that does
/// not fit (or where the last one ends, when all fit).
pub open spec fn short_at(units: Seq<Seq<u8>>, pos: nat, cap: nat) -> nat
    decreases units.len(),
{
    if units.len() == 0 {
        pos
    } else if pos + units[0].len() > cap {
        pos + units[0].len()
    } else {
        short_at(units.drop_first(), pos + units[0].len(), cap)
    }
}

/// The bytes of units written one after the other.
pub open spec fn join(units: Seq<Seq<u8>>) -> Seq<u8>
    decreases units.len(),
{
    if units.len() == 0 {
        Seq::empty()
    } else {
        units[0] + join(units.drop_first())
    }
}

/// Joining concatenated units concatenates their bytes.
proof fn lemma_join_concat(a: Seq<Seq<u8>>, b: Seq<Seq<u8>>)
    ensures
        join(a + b) == join(a) + join(b),
    decreases a.len(),
{
    if a.len() > 0 {
        assert((a + b)[0] == a[0]);
        assert((a + b).drop_first() =~= a.drop_first() + b);
        lemma_join_concat(a.drop_first(), b);
        assert(join(a + b) =~= join(a) + join(b));
    } else {
        assert(a + b =~= b);
        assert(join(a) + join(b) =~= join(b));
    }
}

/// A single unit: its bytes, and the length it is found short at.
proof fn lemma_join_one(p: Seq<u8>, pos: nat, cap: nat)
    ensures
        join(seq![p]) == p,
        short_at(seq![p], pos, cap) == pos + p.len(),
{
    reveal_with_fuel(join, 2);
    reveal_with_fuel(short_at, 2);
    assert(seq![p][0] == p);
    assert(seq![p].drop_first() =~= Seq::<Seq<u8>>::empty());
    assert(p + Seq::<u8>::empty() =~= p);
}

/// Units that all fit leave the search for the short length to what follows.
proof fn lemma_short_at_concat(a: Seq<Seq<u8>>, b: Seq<Seq<u8>>, pos: nat, cap: nat)
    requires
        pos + join(a).len() <= cap,
    ensures
        short_at(a + b, pos, cap) == short_at(b, pos + join(a).len(), cap),
    decreases a.len(),
{
    if a.len() > 0 {
        assert((a + b)[0] == a[0]);
        assert((a + b).drop_first() =~= a.drop_first() + b);
        lemma_short_at_concat(a.drop_first(), b, pos + a[0].len(), cap);
    } else {
        assert(a + b =~= b);
    }
}

/// Units that do not all fit are found short among themselves.
proof fn lemma_short_at_stop(a: Seq<Seq<u8>>, b: Seq<Seq<u8>>, pos: nat, cap: nat)
    requires
        pos <= cap,
        pos + join(a).len() > cap,
    ensures
        short_at(a + b, pos, cap) == short_at(a, pos, cap),
    decreases a.len(),
{
    if a.len() > 0 {
        assert((a + b)[0] == a[0]);
        assert((a + b).drop_first() =~= a.drop_first() + b);
        if pos + a[0].len() <= cap {
            lemma_short_at_stop(a.drop_first(), b, pos + a[0].len(), cap);
        }
    }
}

/// A buffer writer that tracks the length written.
pub struct FastJsonWriter<'a> {
    pub buf: &'a mut [u8],
    pub pos: usize,
}

impl<'a> FastJsonWriter<'a> {
    /// The cursor lies within the buffer, whose length is a valid slice length.
    pub open spec fn wf(&self) -> bool {
        self.pos <= self.buf@.len() <= isize::MAX
    }

    /// Bytes left after the cursor.
    pub open spec fn spare(&self) -> nat {
        if self.buf@.len() >= self.pos {
            (self.buf@.len() - self.pos) as nat
        } else {
            0
        }
    }

    /// The bytes written so far.
    pub open spec fn written(&self) -> Seq<u8> {
        self.buf@.subrange(0, self.pos as int)
    }

    /// The effect of appending `piece`: on success the written bytes grow by
    /// `piece`; when it does not fit, an error whose required length lies past
    /// the buffer, with at most a leading part of `piece` written. Either way
    /// the bytes from the new cursor on keep their values.
    pub open spec fn appended(&self, old_w: &Self, piece: Seq<u8>, r: Result<(), JsonError>) -> bool {
        &&& self.wf()
        &&& self.buf@.len() == old_w.buf@.len()
        &&& self.buf@.skip(self.pos as int) == old_w.buf@.skip(self.pos as int)
        &&& (r is Ok) == (old_w.pos + piece.len() <= old_w.buf@.len())
        &&& r is Ok ==> self.pos == old_w.pos + piece.len() && self.written() == old_w.written() + piece
        &&& r is Err ==> {
            &&& old_w.pos <= self.pos <= old_w.pos + piece.len()
            &&& self.written() == old_w.written() + piece.subrange(0, self.pos - old_w.pos)
            &&& r matches Err(JsonError::BufferTooSmall { required, provided })
            &&& provided == old_w.buf@.len()
            &&& old_w.pos + piece.len() <= usize::MAX ==> provided < required <= old_w.pos + piece.len()
        }
    }

    /// Appending `piece` as one unit: a failure writes nothing and names the
    /// length the whole piece required.
    pub open spec fn appended_whole(&self, old_w: &Self, piece: Seq<u8>, r: Result<(), JsonError>) -> bool {
        &&& self.appended(old_w, piece, r)
        &&& r is Err ==> self.pos == old_w.pos && r == Err::<(), JsonError>(
            JsonError::BufferTooSmall {
                required: (old_w.pos + piece.len()) as usize,
                provided: old_w.buf@.len() as usize,
            },
        )
    }

    /// Appending `units` one after the other, each written whole or not at
    /// all: a failure names the end of the first unit that did not fit.
    pub open spec fn appended_units(&self, old_w: &Self, units: Seq<Seq<u8>>, r: Result<(), JsonError>) -> bool {
        &&& self.appended(old_w, join(units), r)
        &&& r is Err ==> r == Err::<(), JsonError>(
            JsonError::BufferTooSmall {
                required: short_at(units, old_w.pos as nat, old_w.buf@.len()) as usize,
                provided: old_w.buf@.len() as usize,
            },
        )
    }

    /// A writer at the start of `buf`.
    pub fn new(buf: &'a mut [u8]) -> (r: Self)
        requires
            old(buf)@.len() <= isize::MAX,
        ensures
            r.wf(),
            r.pos == 0,
            r.buf@ == old(buf)@,
            final(r.buf)@ == final(buf)@,
    {
        FastJsonWriter { buf, pos: 0 }
    }

    pub fn pos(&self) -> (r: usize)
        ensures
            r == self.pos,
    {
        self.pos
    }

    /// Bytes left in the buffer.
    pub fn remaining(&self) -> (r: usize)
        ensures
            r == self.spare(),
    {
        self.buf.len().saturating_sub(self.pos)
    }

    pub fn write_byte(&mut self, b: u8) -> (r: Result<(), JsonError>)
        requires
            old(self).wf(),
        ensures
            final(self).appended_whole(&*old(self), seq![b], r),
            final(final(self).buf)@ == final(old(self).buf)@,
    {
        if self.pos >= self.buf.len() {
            proof {
                assert(seq![b].subrange(0, 0) =~= Seq::<u8>::empty());
                assert(self.written() =~= self.written() + Seq::<u8>::empty());
            }
            return Err(JsonError::BufferTooSmall { required: self.pos + 1, provided: self.buf.len() });
        }
        let ghost before = self.written();
        let ghost b0 = self.buf@;
        self.buf[self.pos] = b;
        self.pos += 1;
        proof {
            assert(self.written() =~= before + seq![b]);
            assert(self.buf@.skip(self.pos as int) =~= b0.skip(self.pos as int));
        }
        Ok(())
    }

    pub fn write_bytes(&mut self, bytes: &[u8]) -> (r: Result<(), JsonError>)
        requires
            old(self).wf(),
        ensures
            final(self).appended_whole(&*old(self), bytes@, r),
            final(final(self).buf)@ == final(old(self).buf)@,
    {
        if bytes.len() > self.buf.len() - self.pos {
            proof {
                assert(bytes@.subrange(0, 0) =~= Seq::<u8>::empty());
                assert(self.written() =~= self.written() + Seq::<u8>::empty());
            }
            let required = (self.pos as u128 + bytes.len() as u128) as usize;
            return Err(JsonError::BufferTooSmall { required, provided: self.buf.len() });
        }
        let needed = self.pos + bytes.len();
        let ghost before = self.written();
        let ghost b0 = self.buf@;
        let start = self.pos;
        let mut i: usize = 0;
        while i < bytes.len()
            invariant
                start == old(self).pos,
                start + bytes@.len() == needed,
                needed <= self.buf@.len(),
                self.buf@.len() == old(self).buf@.len(),
                self.pos == start,
                i <= bytes@.len(),
                self.buf@.subrange(0, start as int) == before,
                self.buf@.subrange(start as int, start + i) == bytes@.subrange(0, i as int),
                b0 == old(self).buf@,
                forall|k: int| start + i <= k < self.buf@.len() ==> self.buf@[k] == b0[k],
                final(self.buf)@ == final(old(self).buf)@,
            decreases bytes@.len() - i,
        {
            let ghost prev = self.buf@;
            self.buf[start + i] = bytes[i];
            proof {
                assert(self.buf@.subrange(0, start as int) =~= prev.subrange(0, start as int));
                assert(self.buf@.subrange(start as int, start + i + 1) =~= bytes@.subrange(0, i + 1));
            }
            i += 1;
        }
        self.pos = needed;
        proof {
            assert(bytes@.subrange(0, bytes@.len() as int) =~= bytes@);
            assert(self.buf@.subrange(0, needed as int) =~= self.buf@.subrange(0, start as int) + self.buf@.subrange(
                start as int,
                needed as int,
            ));
            assert(self.written() =~= before + bytes@);
            assert(self.buf@.skip(needed as int) =~= b0.skip(needed as int));
        }
        Ok(())
    }

    pub fn write_str(&mut self, s: &str) -> (r: Result<(), JsonError>)
        requires
            old(self).wf(),
        ensures
            final(self).appended_whole(&*old(self), s.spec_bytes(), r),
            final(final(self).buf)@ == final(old(self).buf)@,
    {
        self.write_bytes(s.as_bytes())
    }

    /// Writes the decimal digits of `val`.
    pub fn write_u64(&mut self, val: u64) -> (r: Result<(), JsonError>)
        requires
            old(self).wf(),
        ensures
            final(self).appended_whole(&*old(self), dec_digits(val as nat), r),
            final(final(self).buf)@ == final(old(self).buf)@,
    {
        if val == 0 {
            return self.write_byte(48u8);
        }
        let mut temp = [0u8; 20];
        let mut idx: usize = 20;
        let mut v = val;
        proof {
            lemma_dec_digits_len(val as nat);
            assert(temp@.subrange(20, 20) =~= Seq::<u8>::empty());
            assert(dec_digits(val as nat) =~= dec_digits(v as nat) + Seq::<u8>::empty());
        }
        while v >= 100
            invariant
                idx <= 20,
                v > 0,
                dec_digits(v as nat).len() <= idx,
                dec_digits(val as nat) == dec_digits(v as nat) + temp@.subrange(idx as int, 20),
            decreases v,
        {
            let rem = v % 100;
            proof {
                lemma_dec_digits_pair(v as nat);
                lemma_dec_digits_len(v as nat / 100);
                lemma_dec_digits_len(v as nat / 10);
            }
            let ghost before = temp@;
            v = v / 100;
            idx -= 2;
            temp[idx] = (48 + rem / 10) as u8;
            temp[idx + 1] = (48 + rem % 10) as u8;
            proof {
                assert(temp@.subrange(idx as int, 20) =~= seq![(48 + rem / 10) as u8, (48 + rem % 10) as u8]
                    + before.subrange(idx + 2, 20));
                assert(dec_digits(val as nat) =~= dec_digits(v as nat) + temp@.subrange(idx as int, 20));
            }
        }
        let ghost before = temp@;
        proof {
            lemma_dec_digits_len(v as nat / 10);
        }
        if v < 10 {
            idx -= 1;
            temp[idx] = 48 + v as u8;
            proof {
                assert(temp@.subrange(idx as int, 20) =~= seq![(48 + v) as u8] + before.subrange(idx + 1, 20));
                assert(dec_digits(val as nat) =~= temp@.subrange(idx as int, 20));
            }
        } else {
            idx -= 2;
            temp[idx] = (48 + v / 10) as u8;
            temp[idx + 1] = (48 + v % 10) as u8;
            proof {
                assert(dec_digits(v as nat) == dec_digits(v as nat / 10) + seq![(48 + v % 10) as u8]);
                assert(temp@.subrange(idx as int, 20) =~= seq![(48 + v / 10) as u8, (48 + v % 10) as u8]
                    + before.subrange(idx + 2, 20));
                assert(dec_digits(val as nat) =~= temp@.subrange(idx as int, 20));
            }
        }
        let digits = copy_tail(&temp, idx);
        self.write_bytes(digits.as_slice())
    }

    /// Writes `val` as "[-]digits".
    pub fn write_i64(&mut self, val: i64) -> (r: Result<(), JsonError>)
        requires
            old(self).wf(),
        ensures
            final(self).appended(
                &*old(self),
                (if val < 0 { seq![45u8] } else { Seq::empty() }) + dec_digits(abs_i64(val)),
                r,
            ),
            final(self).appended_units(&*old(self), int_units(val), r),
            final(final(self).buf)@ == final(old(self).buf)@,
    {
        let ghost w0 = *self;
        let ghost digits = dec_digits(abs_i64(val));
        proof {
            lemma_int_units_join(val);
            lemma_units_nothing(w0);
        }
        if val < 0 {
            let r1 = self.write_byte(45u8);
            proof {
                lemma_whole_units(w0, *self, seq![45u8], r1);
            }
            if r1.is_err() {
                proof {
                    lemma_units_stop(w0, *self, sign_units(val), seq![digits], r1);
                }
                return r1;
            }
        }
        let ghost w1 = *self;
        proof {
            assert(w1.appended_units(&w0, sign_units(val), Ok(())));
        }
        let r = self.write_u64(unsigned_abs(val));
        proof {
            lemma_whole_units(w1, *self, digits, r);
            lemma_units_then(w0, w1, *self, sign_units(val), seq![digits], r);
        }
        r
    }

    /// Writes a 10^8 fixed-point value as "[-]I.FFFFFFFF".
    pub fn write_fixed_point_8(&mut self, val: i64) -> (r: Result<(), JsonError>)
        requires
            old(self).wf(),
        ensures
            final(self).appended(&*old(self), fixed_point_text(val), r),
            final(self).appended_units(&*old(self), fixed_units(val), r),
            final(final(self).buf)@ == final(old(self).buf)@,
    {
        let ghost w0 = *self;
        let ghost sign = sign_units(val);
        let ghost ip = dec_digits(abs_i64(val) / 100_000_000);
        let ghost dot: Seq<u8> = seq![46u8];
        let ghost fp = pad_digits(abs_i64(val) % 100_000_000, 8);
        proof {
            lemma_fixed_units_join(val);
            lemma_units_nothing(w0);
            assert(fixed_units(val) =~= sign + seq![ip] + seq![dot] + seq![fp]);
            assert(sign + seq![ip] + seq![dot] + seq![fp] =~= sign + seq![ip, dot, fp]);
            assert(sign + seq![ip] + seq![dot] + seq![fp] =~= sign + seq![ip] + seq![dot, fp]);
        }
        if val < 0 {
            let r1 = self.write_byte(45u8);
            proof {
                lemma_whole_units(w0, *self, seq![45u8], r1);
            }
            if r1.is_err() {
                proof {
                    lemma_units_stop(w0, *self, sign, seq![ip, dot, fp], r1);
                }
                return r1;
            }
        }
        let ghost w1 = *self;
        proof {
            assert(w1.appended_units(&w0, sign, Ok(())));
        }
        let unsigned_val = unsigned_abs(val);
        let integer_part = unsigned_val / 100_000_000;
        let frac_part = unsigned_val % 100_000_000;
        let r2 = self.write_u64(integer_part);
        proof {
            lemma_whole_units(w1, *self, ip, r2);
            lemma_units_then(w0, w1, *self, sign, seq![ip], r2);
        }
        if r2.is_err() {
            proof {
                lemma_units_stop(w0, *self, sign + seq![ip], seq![dot, fp], r2);
            }
            return r2;
        }
        let ghost w2 = *self;
        let r3 = self.write_byte(46u8);
        proof {
            lemma_whole_units(w2, *self, dot, r3);
            lemma_units_then(w0, w2, *self, sign + seq![ip], seq![dot], r3);
        }
        if r3.is_err() {
            proof {
                lemma_units_stop(w0, *self, sign + seq![ip] + seq![dot], seq![fp], r3);
            }
            return r3;
        }
        let ghost w3 = *self;
        let frac_buf = frac_digits(frac_part);
        let r = self.write_bytes(&frac_buf);
        proof {
            lemma_whole_units(w3, *self, fp, r);
            lemma_units_then(w0, w3, *self, sign + seq![ip] + seq![dot], seq![fp], r);
        }
        r
    }
}

/// Appending nothing succeeds and changes nothing.
proof fn lemma_append_nothing<'a>(w: FastJsonWriter<'a>)
    requires
        w.wf(),
    ensures
        w.appended(&w, Seq::empty(), Ok(())),
{
    assert(w.written() + Seq::<u8>::empty() =~= w.written());
}

/// Appending `p1` and then `p2` is appending `p1 + p2`.
proof fn lemma_append_then<'a>(
    w0: FastJsonWriter<'a>,
    w1: FastJsonWriter<'a>,
    w2: FastJsonWriter<'a>,
    p1: Seq<u8>,
    p2: Seq<u8>,
    r2: Result<(), JsonError>,
)
    requires
        w1.appended(&w0, p1, Ok(())),
        w2.appended(&w1, p2, r2),
    ensures
        w2.appended(&w0, p1 + p2, r2),
{
    assert forall|k: int| 0 <= k < w2.buf@.len() - w2.pos implies w2.buf@.skip(w2.pos as int)[k] == w0.buf@.skip(
        w2.pos as int,
    )[k] by {
        assert(w2.buf@.skip(w2.pos as int)[k] == w1.buf@.skip(w2.pos as int)[k]);
        assert(w1.buf@.skip(w1.pos as int)[k + w2.pos - w1.pos] == w0.buf@.skip(w1.pos as int)[k + w2.pos - w1.pos]);
    }
    assert(w2.buf@.skip(w2.pos as int) =~= w0.buf@.skip(w2.pos as int));
    if r2 is Ok {
        assert(w2.written() =~= w0.written() + (p1 + p2));
    } else {
        assert(p1 + p2.subrange(0, w2.pos - w1.pos) =~= (p1 + p2).subrange(0, w2.pos - w0.pos));
        assert(w2.written() =~= w0.written() + (p1 + p2).subrange(0, w2.pos - w0.pos));
    }
}

/// A failure appending `p1` is a failure appending anything that starts with it.
proof fn lemma_append_stop<'a>(w0: FastJsonWriter<'a>, w1: FastJsonWriter<'a>, p1: Seq<u8>, p2: Seq<u8>, r1: Result<(), JsonError>)
    requires
        w1.appended(&w0, p1, r1),
        r1 is Err,
    ensures
        w1.appended(&w0, p1 + p2, r1),
{
    assert(p1.subrange(0, w1.pos - w0.pos) =~= (p1 + p2).subrange(0, w1.pos - w0.pos));
}

/// A piece written whole is a single unit.
proof fn lemma_whole_units<'a>(w0: FastJsonWriter<'a>, w1: FastJsonWriter<'a>, p: Seq<u8>, r: Result<(), JsonError>)
    requires
        w1.appended_whole(&w0, p, r),
    ensures
        w1.appended_units(&w0, seq![p], r),
{
    lemma_join_one(p, w0.pos as nat, w0.buf@.len());
}

/// Appending no units succeeds and changes nothing.
proof fn lemma_units_nothing<'a>(w: FastJsonWriter<'a>)
    requires
        w.wf(),
    ensures
        w.appended_units(&w, Seq::empty(), Ok(())),
{
    lemma_append_nothing(w);
    assert(join(Seq::<Seq<u8>>::empty()) =~= Seq::<u8>::empty());
}

/// Appending units `a` and then `b` is appending `a + b`.
proof fn lemma_units_then<'a>(
    w0: FastJsonWriter<'a>,
    w1: FastJsonWriter<'a>,
    w2: FastJsonWriter<'a>,
    a: Seq<Seq<u8>>,
    b: Seq<Seq<u8>>,
    r2: Result<(), JsonError>,
)
    requires
        w1.appended_units(&w0, a, Ok(())),
        w2.appended_units(&w1, b, r2),
    ensures
        w2.appended_units(&w0, a + b, r2),
{
    lemma_join_concat(a, b);
    lemma_append_then(w0, w1, w2, join(a), join(b), r2);
    lemma_short_at_concat(a, b, w0.pos as nat, w0.buf@.len());
}

/// A failure appending units `a` is a failure appending `a + b`.
proof fn lemma_units_stop<'a>(w0: FastJsonWriter<'a>, w1: FastJsonWriter<'a>, a: Seq<Seq<u8>>, b: Seq<Seq<u8>>, r1: Result<(), JsonError>)
    requires
        w1.appended_units(&w0, a, r1),
        r1 is Err,
    ensures
        w1.appended_units(&w0, a + b, r1),
{
    lemma_join_concat(a, b);
    lemma_append_stop(w0, w1, join(a), join(b), r1);
    lemma_short_at_stop(a, b, w0.pos as nat, w0.buf@.len());
}

/// The units of a fixed-point value join to its text.
proof fn lemma_fixed_units_join(v: i64)
    ensures
        join(fixed_units(v)) == fixed_point_text(v),
{
    let ip = dec_digits(abs_i64(v) / 100_000_000);
    let fp = pad_digits(abs_i64(v) % 100_000_000, 8);
    lemma_join_concat(sign_units(v), seq![ip, seq![46u8], fp]);
    lemma_join_one(seq![45u8], 0, 0);
    assert(join(Seq::<Seq<u8>>::empty()) =~= Seq::<u8>::empty());
    reveal_with_fuel(join, 4);
    assert(seq![ip, seq![46u8], fp].drop_first() =~= seq![seq![46u8], fp]);
    assert(seq![seq![46u8], fp].drop_first() =~= seq![fp]);
    assert(seq![fp].drop_first() =~= Seq::<Seq<u8>>::empty());
    assert(join(fixed_units(v)) =~= fixed_point_text(v));
}

/// The units of an integer join to its text.
proof fn lemma_int_units_join(v: i64)
    ensures
        join(int_units(v)) == (if v < 0 { seq![45u8] } else { Seq::empty() }) + dec_digits(abs_i64(v)),
{
    lemma_join_concat(sign_units(v), seq![dec_digits(abs_i64(v))]);
    lemma_join_one(seq![45u8], 0, 0);
    lemma_join_one(dec_digits(abs_i64(v)), 0, 0);
    assert(join(Seq::<Seq<u8>>::empty()) =~= Seq::<u8>::empty());
    assert(join(int_units(v)) =~= (if v < 0 { seq![45u8] } else { Seq::empty() }) + dec_digits(abs_i64(v)));
}

/// `|v|` as a `u64`.
fn unsigned_abs(v: i64) -> (r: u64)
    ensures
        r == abs_i64(v),
{
    if v < 0 {
        (-(v as i128)) as u64
    } else {
        v as u64
    }
}

/// The bytes of `temp` from `idx` on.
fn copy_tail(temp: &[u8; 20], idx: usize) -> (r: Vec<u8>)
    requires
        idx <= 20,
    ensures
        r@ == temp@.subrange(idx as int, 20),
{
    let mut out: Vec<u8> = Vec::new();
    let mut i = idx;
    while i < 20
        invariant
            idx <= i <= 20,
            out@ == temp@.subrange(idx as int, i as int),
        decreases 20 - i,
    {
        out.push(temp[i]);
        proof {
            assert(out@ =~= temp@.subrange(idx as int, i + 1));
        }
        i += 1;
    }
    out
}

/// The eight zero-padded digits of a fraction below 10^8, filled two at a time
/// from the right.
fn frac_digits(frac_part: u64) -> (r: [u8; 8])
    requires
        frac_part < 100_000_000,
    ensures
        r@ == pad_digits(frac_part as nat, 8),
{
    let mut frac_buf = [48u8; 8];
    let mut frac = frac_part;
    let mut idx: usize = 8;
    proof {
        assert(pow10_nat(8) == 100_000_000) by {
            reveal_with_fuel(pow10_nat, 9);
        }
        assert(frac_buf@.subrange(8, 8) =~= Seq::<u8>::empty());
        assert(pad_digits(frac_part as nat, 8) =~= pad_digits(frac as nat, 8) + Seq::<u8>::empty());
    }
    while frac > 0 && idx >= 2
        invariant
            idx <= 8,
            idx % 2 == 0,
            pad_digits(frac_part as nat, 8) == pad_digits(frac as nat, idx as nat) + frac_buf@.subrange(idx as int, 8),
            forall|k: int| 0 <= k < idx ==> frac_buf@[k] == 48u8,
            frac < pow10_nat(idx as nat),
        decreases idx,
    {
        let rem = frac % 100;
        let ghost before = frac_buf@;
        proof {
            lemma_pad_pair(frac as nat, (idx - 2) as nat);
        }
        frac = frac / 100;
        idx -= 2;
        frac_buf[idx] = (48 + rem / 10) as u8;
        frac_buf[idx + 1] = (48 + rem % 10) as u8;
        proof {
            assert(frac_buf@.subrange(idx as int, 8) =~= seq![(48 + rem / 10) as u8, (48 + rem % 10) as u8]
                + before.subrange(idx + 2, 8));
            assert(pad_digits(frac_part as nat, 8) =~= pad_digits(frac as nat, idx as nat) + frac_buf@.subrange(
                idx as int,
                8,
            ));
            reveal_with_fuel(pow10_nat, 3);
        }
    }
    if frac > 0 && idx == 1 {
        idx -= 1;
        frac_buf[idx] = 48 + frac as u8;
    }
    proof {
        lemma_pad_zero(idx as nat);
        if frac == 0 {
            assert(pad_digits(0, idx as nat) =~= frac_buf@.subrange(0, idx as int));
        } else {
            assert(idx == 0);
        }
        assert(frac_buf@ =~= frac_buf@.subrange(0, idx as int) + frac_buf@.subrange(idx as int, 8));
    }
    frac_buf
}

/// 10^n.
pub open spec fn pow10_nat(n: nat) -> nat
    decreases n,
{
    if n == 0 {
        1
    } else {
        10 * pow10_nat((n - 1) as nat)
    }
}

proof fn lemma_pad_zero(n: nat)
    ensures
        forall|k: int| 0 <= k < n ==> #[trigger] pad_digits(0, n)[k] == 48u8,
        pad_digits(0, n).len() == n,
    decreases n,
{
    if n > 0 {
        lemma_pad_zero((n - 1) as nat);
    }
}

proof fn lemma_pad_len(v: nat, n: nat)
    ensures
        pad_digits(v, n).len() == n,
    decreases n,
{
    if n > 0 {
        lemma_pad_len(v / 10, (n - 1) as nat);
    }
}

/// Two digits at a time: the last `n + 2` digits of `v` are the last `n` digits
/// of `v / 100` followed by the two digits of `v % 100`.
proof fn lemma_pad_pair(v: nat, n: nat)
    ensures
        pad_digits(v, n + 2) == pad_digits(v / 100, n) + seq![(48 + (v % 100) / 10) as u8, (48 + (v % 100) % 10) as u8],
{
    vstd::arithmetic::div_mod::lemma_div_denominator(v as int, 10, 10);
    lemma_mod_pair(v);
    assert(pad_digits(v, n + 2) == pad_digits(v / 10, n + 1) + seq![(48 + v % 10) as u8]);
    assert(pad_digits(v / 10, n + 1) == pad_digits(v / 10 / 10, n) + seq![(48 + (v / 10) % 10) as u8]);
    assert(pad_digits(v, n + 2) =~= pad_digits(v / 100, n) + seq![(48 + (v % 100) / 10) as u8, (48 + (v % 100) % 10) as u8]);
}

proof fn lemma_mod_pair(v: nat)
    ensures
        (v % 100) / 10 == (v / 10) % 10,
        (v % 100) % 10 == v % 10,
{
    assert((v % 100) / 10 == (v / 10) % 10) by (nonlinear_arith);
    assert((v % 100) % 10 == v % 10) by (nonlinear_arith);
}

/// Two digits at a time for numbers of three or more digits.
proof fn lemma_dec_digits_pair(v: nat)
    requires
        v >= 100,
    ensures
        dec_digits(v) == dec_digits(v / 100) + seq![(48 + (v % 100) / 10) as u8, (48 + (v % 100) % 10) as u8],
{
    vstd::arithmetic::div_mod::lemma_div_denominator(v as int, 10, 10);
    lemma_mod_pair(v);
    assert(v / 10 >= 10);
    assert(dec_digits(v) == dec_digits(v / 10) + seq![(48 + v % 10) as u8]);
    assert(dec_digits(v / 10) == dec_digits(v / 10 / 10) + seq![(48 + (v / 10) % 10) as u8]);
    assert(dec_digits(v) =~= dec_digits(v / 100) + seq![(48 + (v % 100) / 10) as u8, (48 + (v % 100) % 10) as u8]);
}

/// A `u64` has at most 20 digits; fewer below 10^k.
proof fn lemma_dec_digits_len(v: nat)
    ensures
        dec_digits(v).len() >= 1,
        v <= u64::MAX ==> dec_digits(v).len() <= 20,
        v < 100 ==> dec_digits(v).len() <= 2,
        v < 10 ==> dec_digits(v).len() == 1,
        forall|k: nat| v < #[trigger] pow10_nat(k) && k >= 1 ==> dec_digits(v).len() <= k,
    decreases v,
{
    if v >= 10 {
        lemma_dec_digits_len(v / 10);
        assert forall|k: nat| v < #[trigger] pow10_nat(k) && k >= 1 implies dec_digits(v).len() <= k by {
            assert(pow10_nat(k) == 10 * pow10_nat((k - 1) as nat));
            if k == 1 {
                assert(false);
            } else {
                assert(v / 10 < pow10_nat((k - 1) as nat));
            }
        }
        if v <= u64::MAX {
            assert(pow10_nat(20) == 100_000_000_000_000_000_000nat) by {
                reveal_with_fuel(pow10_nat, 21);
            }
        }
    } else {
        assert forall|k: nat| v < #[trigger] pow10_nat(k) && k >= 1 implies dec_digits(v).len() <= k by {}
    }
}

/// One piece of a JSON document: literal text, an unsigned number or a 10^8
/// fixed-point value.
#[derive(Clone, Copy)]
pub enum JsonField {
    Lit(&'static str),
    Num(u64),
    Fixed(i64),
}

/// The units a piece is written in.
pub open spec fn field_units(f: JsonField) -> Seq<Seq<u8>> {
    match f {
        JsonField::Lit(s) => seq![s.spec_bytes()],
        JsonField::Num(v) => seq![dec_digits(v as nat)],
        JsonField::Fixed(v) => fixed_units(v),
    }
}

/// The units of pieces, in order.
pub open spec fn all_units(fs: Seq<JsonField>) -> Seq<Seq<u8>>
    decreases fs.len(),
{
    if fs.len() == 0 {
        Seq::empty()
    } else {
        all_units(fs.drop_last()) + field_units(fs.last())
    }
}

/// Bytes of pieces, in order.
pub open spec fn flatten(fs: Seq<JsonField>) -> Seq<u8> {
    join(all_units(fs))
}

/// The pieces of a quote's JSON document.
pub open spec fn bbo_fields(b: NormalizedBbo) -> Seq<JsonField> {
    seq![
        JsonField::Lit(r#"{"type":"bbo","market_id":"#),
        JsonField::Num(b.market_id as u64),
        JsonField::Lit(r#","venue":"#),
        JsonField::Num(b.venue as u64),
        JsonField::Lit(r#","chain":"#),
        JsonField::Num(b.chain as u64),
        JsonField::Lit(r#","sequence":"#),
        JsonField::Num(b.sequence),
        JsonField::Lit(r#","bid_px":""#),
        JsonField::Fixed(b.bid_price),
        JsonField::Lit(r#"","bid_qty":""#),
        JsonField::Fixed(b.bid_qty as i64),
        JsonField::Lit(r#"","ask_px":""#),
        JsonField::Fixed(b.ask_price),
        JsonField::Lit(r#"","ask_qty":""#),
        JsonField::Fixed(b.ask_qty as i64),
        JsonField::Lit(r#"","spread_bps":"#),
        JsonField::Num(b.spread_bps as u64),
        JsonField::Lit(r#","flags":"#),
        JsonField::Num(b.flags as u64),
        JsonField::Lit(r#","telemetry":{"t0":"#),
        JsonField::Num(b.telemetry.t0_exchange_ns),
        JsonField::Lit(r#","t1":"#),
        JsonField::Num(b.telemetry.t1_ingest_nic_ns),
        JsonField::Lit(r#","t2":"#),
        JsonField::Num(b.telemetry.t2_engine_proc_ns),
        JsonField::Lit(r#","t3":"#),
        JsonField::Num(b.telemetry.t3_egress_ns),
        JsonField::Lit(r#"}}"#),
    ]
}

/// The pieces of a trade's JSON document.
pub open spec fn trade_fields(t: UnifiedTrade) -> Seq<JsonField> {
    seq![
        JsonField::Lit(r#"{"type":"trade","market_id":"#),
        JsonField::Num(t.market_id as u64),
        JsonField::Lit(r#","venue":"#),
        JsonField::Num(t.venue as u64),
        JsonField::Lit(r#","chain":"#),
        JsonField::Num(t.chain as u64),
        JsonField::Lit(r#","sequence":"#),
        JsonField::Num(t.sequence),
        JsonField::Lit(r#","trade_id":"#),
        JsonField::Num(t.trade_id),
        JsonField::Lit(r#","price":""#),
        JsonField::Fixed(t.price),
        JsonField::Lit(r#"","size":""#),
        JsonField::Fixed(t.size as i64),
        JsonField::Lit(r#"","side":"#),
        JsonField::Num(t.side as u64),
        JsonField::Lit(r#","is_liquidation":"#),
        JsonField::Lit(if t.is_liquidation { "true" } else { "false" }),
        JsonField::Lit(r#","telemetry":{"t0":"#),
        JsonField::Num(t.telemetry.t0_exchange_ns),
        JsonField::Lit(r#","t1":"#),
        JsonField::Num(t.telemetry.t1_ingest_nic_ns),
        JsonField::Lit(r#","t2":"#),
        JsonField::Num(t.telemetry.t2_engine_proc_ns),
        JsonField::Lit(r#","t3":"#),
        JsonField::Num(t.telemetry.t3_egress_ns),
        JsonField::Lit(r#"}}"#),
    ]
}

/// The JSON document of a quote.
pub open spec fn bbo_json(b: NormalizedBbo) -> Seq<u8> {
    flatten(bbo_fields(b))
}

/// The JSON document of a trade.
pub open spec fn trade_json(t: UnifiedTrade) -> Seq<u8> {
    flatten(trade_fields(t))
}

fn write_field<'a>(w: &mut FastJsonWriter<'a>, f: JsonField) -> (r: Result<(), JsonError>)
    requires
        old(w).wf(),
    ensures
        final(w).appended_units(&*old(w), field_units(f), r),
        final(final(w).buf)@ == final(old(w).buf)@,
{
    let ghost w0 = *w;
    match f {
        JsonField::Lit(s) => {
            let r = w.write_str(s);
            proof {
                lemma_whole_units(w0, *w, s.spec_bytes(), r);
            }
            r
        },
        JsonField::Num(v) => {
            let r = w.write_u64(v);
            proof {
                lemma_whole_units(w0, *w, dec_digits(v as nat), r);
            }
            r
        },
        JsonField::Fixed(v) => w.write_fixed_point_8(v),
    }
}

/// Writes the pieces in order, stopping at the first that does not fit.
fn write_fields<'a>(w: &mut FastJsonWriter<'a>, fields: &[JsonField]) -> (r: Result<(), JsonError>)
    requires
        old(w).wf(),
    ensures
        final(w).appended_units(&*old(w), all_units(fields@), r),
        final(final(w).buf)@ == final(old(w).buf)@,
{
    let ghost w0 = *w;
    proof {
        lemma_units_nothing(w0);
        assert(fields@.take(0) =~= Seq::<JsonField>::empty());
    }
    let mut k: usize = 0;
    while k < fields.len()
        invariant
            k <= fields@.len(),
            w.appended_units(&w0, all_units(fields@.take(k as int)), Ok(())),
            w0 == *old(w),
            final(w.buf)@ == final(old(w).buf)@,
        decreases fields@.len() - k,
    {
        let ghost wk = *w;
        let r = write_field(w, fields[k]);
        proof {
            assert(fields@.take(k + 1).drop_last() =~= fields@.take(k as int));
            assert(all_units(fields@.take(k + 1)) == all_units(fields@.take(k as int)) + field_units(fields@[k as int]));
            lemma_units_then(w0, wk, *w, all_units(fields@.take(k as int)), field_units(fields@[k as int]), r);
        }
        if r.is_err() {
            proof {
                lemma_all_units_prefix(fields@, k + 1);
                lemma_units_stop(w0, *w, all_units(fields@.take(k + 1)), all_units(fields@.skip(k + 1)), r);
            }
            return r;
        }
        k += 1;
    }
    proof {
        assert(fields@.take(fields@.len() as int) =~= fields@);
    }
    Ok(())
}

/// Splitting the pieces splits their units.
proof fn lemma_all_units_prefix(fs: Seq<JsonField>, k: int)
    requires
        0 <= k <= fs.len(),
    ensures
        all_units(fs) == all_units(fs.take(k)) + all_units(fs.skip(k)),
    decreases fs.len() - k,
{
    if k < fs.len() {
        lemma_all_units_prefix(fs, k + 1);
        lemma_all_units_split_first(fs.skip(k));
        assert(fs.skip(k).drop_first() =~= fs.skip(k + 1));
        assert(fs.take(k + 1).drop_last() =~= fs.take(k));
        assert(fs.take(k + 1).last() == fs.skip(k)[0]);
        assert(all_units(fs.take(k + 1)) + all_units(fs.skip(k + 1)) =~= all_units(fs.take(k)) + all_units(fs.skip(k)));
    } else {
        assert(fs.take(k) =~= fs);
        assert(fs.skip(k) =~= Seq::<JsonField>::empty());
        assert(all_units(fs) + Seq::<Seq<u8>>::empty() =~= all_units(fs));
    }
}

proof fn lemma_all_units_split_first(fs: Seq<JsonField>)
    requires
        fs.len() > 0,
    ensures
        all_units(fs) == field_units(fs[0]) + all_units(fs.drop_first()),
    decreases fs.len(),
{
    if fs.len() == 1 {
        assert(fs.drop_first() =~= Seq::<JsonField>::empty());
        assert(fs.drop_last() =~= Seq::<JsonField>::empty());
        assert(Seq::<Seq<u8>>::empty() + field_units(fs[0]) =~= field_units(fs[0]) + Seq::<Seq<u8>>::empty());
    } else {
        lemma_all_units_split_first(fs.drop_last());
        assert(fs.drop_last().drop_first() =~= fs.drop_first().drop_last());
        assert(fs.drop_first().last() == fs.last());
        assert(fs.drop_last()[0] == fs[0]);
        assert(all_units(fs) =~= field_units(fs[0]) + all_units(fs.drop_first()));
    }
}

/// Serializes a quote as JSON into `out`; the length written on success.
pub fn serialize_bbo_json(bbo: &NormalizedBbo, out: &mut [u8]) -> (r: Result<usize, JsonError>)
    requires
        old(out)@.len() <= isize::MAX,
    ensures
        final(out)@.len() == old(out)@.len(),
        (r is Ok) == (bbo_json(*bbo).len() <= old(out)@.len()),
        r is Ok ==> r == Ok::<usize, JsonError>(bbo_json(*bbo).len() as usize)
            && final(out)@ == bbo_json(*bbo) + old(out)@.skip(bbo_json(*bbo).len() as int),
        r is Err ==> exists|m: int|
            0 <= m <= old(out)@.len() && m < bbo_json(*bbo).len() && final(out)@ == bbo_json(*bbo).take(m)
                + #[trigger] old(out)@.skip(m),
        r is Err ==> r == Err::<usize, JsonError>(
            JsonError::BufferTooSmall {
                required: short_at(all_units(bbo_fields(*bbo)), 0, old(out)@.len()) as usize,
                provided: old(out)@.len() as usize,
            },
        ),
        r is Err ==> (bbo_json(*bbo).len() <= usize::MAX ==> old(out)@.len() < short_at(
            all_units(bbo_fields(*bbo)),
            0,
            old(out)@.len(),
        )),
{
    let fields = [
        JsonField::Lit(r#"{"type":"bbo","market_id":"#),
        JsonField::Num(bbo.market_id as u64),
        JsonField::Lit(r#","venue":"#),
        JsonField::Num(bbo.venue as u64),
        JsonField::Lit(r#","chain":"#),
        JsonField::Num(bbo.chain as u64),
        JsonField::Lit(r#","sequence":"#),
        JsonField::Num(bbo.sequence),
        JsonField::Lit(r#","bid_px":""#),
        JsonField::Fixed(bbo.bid_price),
        JsonField::Lit(r#"","bid_qty":""#),
        JsonField::Fixed(bbo.bid_qty as i64),
        JsonField::Lit(r#"","ask_px":""#),
        JsonField::Fixed(bbo.ask_price),
        JsonField::Lit(r#"","ask_qty":""#),
        JsonField::Fixed(bbo.ask_qty as i64),
        JsonField::Lit(r#"","spread_bps":"#),
        JsonField::Num(bbo.spread_bps as u64),
        JsonField::Lit(r#","flags":"#),
        JsonField::Num(bbo.flags as u64),
        JsonField::Lit(r#","telemetry":{"t0":"#),
        JsonField::Num(bbo.telemetry.t0_exchange_ns),
        JsonField::Lit(r#","t1":"#),
        JsonField::Num(bbo.telemetry.t1_ingest_nic_ns),
        JsonField::Lit(r#","t2":"#),
        JsonField::Num(bbo.telemetry.t2_engine_proc_ns),
        JsonField::Lit(r#","t3":"#),
        JsonField::Num(bbo.telemetry.t3_egress_ns),
        JsonField::Lit(r#"}}"#),
    ];
    proof {
        assert(fields@ =~= bbo_fields(*bbo));
    }
    let mut writer = FastJsonWriter::new(out);
    let r = write_fields(&mut writer, &fields);
    let n = writer.pos();
    let ghost wbuf = writer.buf@;
    proof {
        assert(has_resolved(writer));
        assert(has_resolved(writer.buf));
    }
    assert(out@ == wbuf);
    proof {
        if r is Ok {
            assert(wbuf =~= wbuf.subrange(0, n as int) + wbuf.skip(n as int));
        } else {
            assert(wbuf =~= wbuf.subrange(0, n as int) + wbuf.skip(n as int));
            assert(wbuf == flatten(fields@).take(n as int) + old(out)@.skip(n as int));
        }
    }
    match r {
        Ok(_) => Ok(n),
        Err(e) => Err(e),
    }
}

/// Serializes a trade as JSON into `out`; the length written on success.
pub fn serialize_trade_json(trade: &UnifiedTrade, out: &mut [u8]) -> (r: Result<usize, JsonError>)
    requires
        old(out)@.len() <= isize::MAX,
    ensures
        final(out)@.len() == old(out)@.len(),
        (r is Ok) == (trade_json(*trade).len() <= old(out)@.len()),
        r is Ok ==> r == Ok::<usize, JsonError>(trade_json(*trade).len() as usize)
            && final(out)@ == trade_json(*trade) + old(out)@.skip(trade_json(*trade).len() as int),
        r is Err ==> exists|m: int|
            0 <= m <= old(out)@.len() && m < trade_json(*trade).len() && final(out)@ == trade_json(*trade).take(m)
                + #[trigger] old(out)@.skip(m),
        r is Err ==> r == Err::<usize, JsonError>(
            JsonError::BufferTooSmall {
                required: short_at(all_units(trade_fields(*trade)), 0, old(out)@.len()) as usize,
                provided: old(out)@.len() as usize,
            },
        ),
        r is Err ==> (trade_json(*trade).len() <= usize::MAX ==> old(out)@.len() < short_at(
            all_units(trade_fields(*trade)),
            0,
            old(out)@.len(),
        )),
{
    let fields = [
        JsonField::Lit(r#"{"type":"trade","market_id":"#),
        JsonField::Num(trade.market_id as u64),
        JsonField::Lit(r#","venue":"#),
        JsonField::Num(trade.venue as u64),
        JsonField::Lit(r#","chain":"#),
        JsonField::Num(trade.chain as u64),
        JsonField::Lit(r#","sequence":"#),
        JsonField::Num(trade.sequence),
        JsonField::Lit(r#","trade_id":"#),
        JsonField::Num(trade.trade_id),
        JsonField::Lit(r#","price":""#),
        JsonField::Fixed(trade.price),
        JsonField::Lit(r#"","size":""#),
        JsonField::Fixed(trade.size as i64),
        JsonField::Lit(r#"","side":"#),
        JsonField::Num(trade.side as u64),
        JsonField::Lit(r#","is_liquidation":"#),
        JsonField::Lit(if trade.is_liquidation { "true" } else { "false" }),
        JsonField::Lit(r#","telemetry":{"t0":"#),
        JsonField::Num(trade.telemetry.t0_exchange_ns),
        JsonField::Lit(r#","t1":"#),
        JsonField::Num(trade.telemetry.t1_ingest_nic_ns),
        JsonField::Lit(r#","t2":"#),
        JsonField::Num(trade.telemetry.t2_engine_proc_ns),
        JsonField::Lit(r#","t3":"#),
        JsonField::Num(trade.telemetry.t3_egress_ns),
        JsonField::Lit(r#"}}"#),
    ];
    proof {
        assert(fields@ =~= trade_fields(*trade));
    }
    let mut writer = FastJsonWriter::new(out);
    let r = write_fields(&mut writer, &fields);
    let n = writer.pos();
    let ghost wbuf = writer.buf@;
    proof {
        assert(has_resolved(writer));
        assert(has_resolved(writer.buf));
    }
    assert(out@ == wbuf);
    proof {
        if r is Ok {
            assert(wbuf =~= wbuf.subrange(0, n as int) + wbuf.skip(n as int));
        } else {
            assert(wbuf =~= wbuf.subrange(0, n as int) + wbuf.skip(n as int));
            assert(wbuf == flatten(fields@).take(n as int) + old(out)@.skip(n as int));
        }
    }
    match r {
        Ok(_) => Ok(n),
        Err(e) => Err(e),
    }
}

} // verus!
