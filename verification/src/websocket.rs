//! RFC 6455 framing (header decoding, server frame encoding, payload unmasking),
//! client command scanning and the WebSocket server engine.
use vstd::prelude::*;
use vstd::string::StringSliceAdditionalSpecFns;
use crate::fanout::{TopicKey, ClientFilterPredicate, pack_topic};
use crate::fast_json::{FastJsonWriter, dec_digits};
use crate::models::{NormalizedBbo, UnifiedTrade, zero_bbo, zero_trade};
use crate::router::{
    DispatchMetrics, InvertedTopicRouter, Delivery, delivery_view, client_index, buckets_ready, dispatch_all,
    dispatch_start, bbo_candidate_ids, trade_candidate_ids, bbo_blocks, trade_blocks, json_payload,
    unregister_effect, subscribe_effect, unsubscribe_effect, DispatchState, lemma_dispatch_payloads, delivery_fits,
};
use crate::sbe::{bbo_wire, trade_wire, lemma_frame_lengths};
use crate::fast_json::{bbo_json, trade_json};
use crate::session::{fresh_session, ClientSession, WireProtocol};

verus! {

#[derive(Debug, Clone, Copy, PartialEq, Eq, Structural)]
pub enum WsOpcode {
    Continuation,
    Text,
    Binary,
    Close,
    Ping,
    Pong,
}

impl WsOpcode {
    /// The opcode's 4-bit code.
    pub open spec fn code(self) -> u8 {
        match self {
            WsOpcode::Continuation => 0x0,
            WsOpcode::Text => 0x1,
            WsOpcode::Binary => 0x2,
            WsOpcode::Close => 0x8,
            WsOpcode::Ping => 0x9,
            WsOpcode::Pong => 0xA,
        }
    }

    /// The opcode of a 4-bit code, if defined.
    pub open spec fn of_code(c: u8) -> Option<WsOpcode> {
        if c == 0x0 {
            Some(WsOpcode::Continuation)
        } else if c == 0x1 {
            Some(WsOpcode::Text)
        } else if c == 0x2 {
            Some(WsOpcode::Binary)
        } else if c == 0x8 {
            Some(WsOpcode::Close)
        } else if c == 0x9 {
            Some(WsOpcode::Ping)
        } else if c == 0xA {
            Some(WsOpcode::Pong)
        } else {
            None
        }
    }

    pub fn as_u8(self) -> (r: u8)
        ensures
            r == self.code(),
    {
        match self {
            WsOpcode::Continuation => 0x0,
            WsOpcode::Text => 0x1,
            WsOpcode::Binary => 0x2,
            WsOpcode::Close => 0x8,
            WsOpcode::Ping => 0x9,
            WsOpcode::Pong => 0xA,
        }
    }

    /// The opcode in the low nibble of `val`.
    pub fn from_u8(val: u8) -> (r: Option<Self>)
        ensures
            r == Self::of_code(val % 16),
    {
        let c = val & 0x0F;
        assert(c == val % 16) by (bit_vector)
            requires
                c == val & 0x0F,
        ;
        if c == 0x0 {
            Some(WsOpcode::Continuation)
        } else if c == 0x1 {
            Some(WsOpcode::Text)
        } else if c == 0x2 {
            Some(WsOpcode::Binary)
        } else if c == 0x8 {
            Some(WsOpcode::Close)
        } else if c == 0x9 {
            Some(WsOpcode::Ping)
        } else if c == 0xA {
            Some(WsOpcode::Pong)
        } else {
            None
        }
    }
}

/// A code round-trips through its opcode.
pub proof fn lemma_opcode_code(op: WsOpcode)
    ensures
        WsOpcode::of_code(op.code()) == Some(op),
        op.code() < 16,
{
}

#[derive(Debug, Clone, Copy, PartialEq, Eq, Structural)]
pub enum WsError {
    BufferTooSmall { required: usize, provided: usize },
    IncompleteFrame,
    InvalidOpcode(u8),
    MaskingRequired,
    InvalidPayloadLength,
    InvalidCommand,
    ClientNotFound(u32),
}

/// Parsed frame header.
#[derive(Debug, Clone, Copy, PartialEq, Eq)]
pub struct WsFrameHeader {
    pub fin: bool,
    pub opcode: WsOpcode,
    pub masked: bool,
    pub payload_len: usize,
    pub mask_key: [u8; 4],
    pub header_len: usize,
}

/// Header fields as plain values (the mask key as a sequence).
pub struct HeaderView {
    pub fin: bool,
    pub opcode: WsOpcode,
    pub masked: bool,
    pub payload_len: usize,
    pub mask_key: Seq<u8>,
    pub header_len: usize,
}

impl WsFrameHeader {
    pub open spec fn view_of(self) -> HeaderView {
        HeaderView {
            fin: self.fin,
            opcode: self.opcode,
            masked: self.masked,
            payload_len: self.payload_len,
            mask_key: self.mask_key@,
            header_len: self.header_len,
        }
    }
}

/// Big-endian value of bytes.
pub open spec fn be_value(s: Seq<u8>) -> nat
    decreases s.len(),
{
    if s.len() == 0 {
        0
    } else {
        be_value(s.drop_last()) * 256 + s.last() as nat
    }
}

/// Decoding a frame header from the start of `buf`.
pub open spec fn decode_header(buf: Seq<u8>) -> Result<HeaderView, WsError> {
    if buf.len() < 2 {
        Err(WsError::IncompleteFrame)
    } else {
        let b0 = buf[0];
        let b1 = buf[1];
        match WsOpcode::of_code(b0 % 16) {
            None => Err(WsError::InvalidOpcode(b0 % 16)),
            Some(op) => {
                let masked = b1 >= 0x80;
                let len_byte = b1 % 0x80;
                if len_byte == 126 && buf.len() < 4 {
                    Err(WsError::IncompleteFrame)
                } else if len_byte == 127 && buf.len() < 10 {
                    Err(WsError::IncompleteFrame)
                } else {
                    let ext: int = if len_byte == 126 { 2 } else if len_byte == 127 { 8 } else { 0 };
                    let payload_len: usize = if len_byte == 126 {
                        be_value(buf.subrange(2, 4)) as usize
                    } else if len_byte == 127 {
                        be_value(buf.subrange(2, 10)) as usize
                    } else {
                        len_byte as usize
                    };
                    if masked && buf.len() < 2 + ext + 4 {
                        Err(WsError::IncompleteFrame)
                    } else {
                        Ok(
                            HeaderView {
                                fin: b0 >= 0x80,
                                opcode: op,
                                masked,
                                payload_len,
                                mask_key: if masked {
                                    buf.subrange(2 + ext, 2 + ext + 4)
                                } else {
                                    seq![0u8, 0u8, 0u8, 0u8]
                                },
                                header_len: (2 + ext + if masked { 4int } else { 0int }) as usize,
                            },
                        )
                    }
                }
            },
        }
    }
}

/// Reads the big-endian value of the `n` bytes at `off`.
fn get_be(buf: &[u8], off: usize, n: usize) -> (r: u64)
    requires
        off + n <= buf@.len(),
        n <= 8,
    ensures
        r as nat == be_value(buf@.subrange(off as int, off + n)),
{
    let len = buf.len();
    let mut acc: u64 = 0;
    let mut k: usize = 0;
    while k < n
        invariant
            k <= n <= 8,
            off + n <= len,
            len == buf@.len(),
            acc as nat == be_value(buf@.subrange(off as int, off + k)),
            acc < crate::wire::pow256(k as nat),
        decreases n - k,
    {
        proof {
            assert(buf@.subrange(off as int, off + k + 1).drop_last() =~= buf@.subrange(off as int, off + k));
            crate::wire::lemma_pow256_mono((k + 1) as nat, 8);
            crate::wire::lemma_pow256_facts();
        }
        acc = acc * 256 + buf[off + k] as u64;
        k += 1;
    }
    acc
}

/// Decodes an RFC 6455 frame header.
pub fn decode_ws_frame_header(buf: &[u8]) -> (r: Result<WsFrameHeader, WsError>)
    ensures
        match decode_header(buf@) {
            Ok(h) => r matches Ok(x) && x.view_of() == h,
            Err(e) => r == Err::<WsFrameHeader, WsError>(e),
        },
{
    if buf.len() < 2 {
        return Err(WsError::IncompleteFrame);
    }
    let b0 = buf[0];
    let fin = (b0 & 0x80) != 0;
    assert(((b0 & 0x80) != 0) == (b0 >= 0x80)) by (bit_vector);
    assert(b0 & 0x0F == b0 % 16) by (bit_vector);
    let opcode = match WsOpcode::from_u8(b0) {
        Some(op) => op,
        None => {
            return Err(WsError::InvalidOpcode(b0 & 0x0F));
        },
    };
    let b1 = buf[1];
    let masked = (b1 & 0x80) != 0;
    let len_byte = b1 & 0x7F;
    assert(((b1 & 0x80) != 0) == (b1 >= 0x80)) by (bit_vector);
    assert(b1 & 0x7F == b1 % 0x80) by (bit_vector);
    let mut header_len: usize = 2;
    let payload_len: usize = if len_byte == 126 {
        if buf.len() < 4 {
            return Err(WsError::IncompleteFrame);
        }
        header_len += 2;
        get_be(buf, 2, 2) as usize
    } else if len_byte == 127 {
        if buf.len() < 10 {
            return Err(WsError::IncompleteFrame);
        }
        header_len += 8;
        get_be(buf, 2, 8) as usize
    } else {
        len_byte as usize
    };
    let mut mask_key = [0u8; 4];
    if masked {
        if buf.len() < header_len + 4 {
            return Err(WsError::IncompleteFrame);
        }
        mask_key[0] = buf[header_len];
        mask_key[1] = buf[header_len + 1];
        mask_key[2] = buf[header_len + 2];
        mask_key[3] = buf[header_len + 3];
        assert(mask_key@ =~= buf@.subrange(header_len as int, header_len + 4));
        header_len += 4;
    } else {
        assert(mask_key@ =~= seq![0u8, 0u8, 0u8, 0u8]);
    }
    Ok(WsFrameHeader { fin, opcode, masked, payload_len, mask_key, header_len })
}

/// Big-endian bytes of `v`, `n` of them.
pub open spec fn be_bytes(v: nat, n: nat) -> Seq<u8>
    decreases n,
{
    if n == 0 {
        Seq::empty()
    } else {
        be_bytes(v / 256, (n - 1) as nat) + seq![(v % 256) as u8]
    }
}

/// Header length of a server frame carrying `len` payload bytes.
pub open spec fn frame_header_len(len: nat) -> nat {
    if len < 126 {
        2
    } else if len <= 0xFFFF {
        4
    } else {
        10
    }
}

/// An unmasked final server frame: FIN and opcode, the length (7-bit, or 126
/// and 16 bits, or 127 and 64 bits, big-endian), then the payload.
pub open spec fn ws_frame(op: WsOpcode, payload: Seq<u8>) -> Seq<u8> {
    let len = payload.len();
    let head = seq![(0x80 + op.code()) as u8];
    let lenb: Seq<u8> = if len < 126 {
        seq![len as u8]
    } else if len <= 0xFFFF {
        seq![126u8] + be_bytes(len, 2)
    } else {
        seq![127u8] + be_bytes(len, 8)
    };
    head + lenb + payload
}

/// Writes the big-endian `n` bytes of `v` at `off`.
fn put_be(out: &mut [u8], off: usize, v: u64, n: usize)
    requires
        off + n <= old(out)@.len(),
        n <= 8,
    ensures
        final(out)@.len() == old(out)@.len(),
        final(out)@.subrange(off as int, off + n) == be_bytes(v as nat, n as nat),
        forall|k: int| 0 <= k < old(out)@.len() && !(off <= k < off + n) ==> final(out)@[k] == old(out)@[k],
{
    let ghost start = out@;
    let len = out.len();
    let mut x = v;
    let mut i: usize = n;
    proof {
        assert(out@.subrange(off + n, off + n) =~= Seq::<u8>::empty());
        assert(be_bytes(v as nat, n as nat) =~= be_bytes(x as nat, n as nat) + Seq::<u8>::empty());
    }
    while i > 0
        invariant
            i <= n <= 8,
            off + n <= len,
            len == out@.len(),
            out@.len() == start.len(),
            be_bytes(v as nat, n as nat) == be_bytes(x as nat, i as nat) + out@.subrange(off + i, off + n),
            forall|k: int| 0 <= k < start.len() && !(off + i <= k < off + n) ==> out@[k] == start[k],
        decreases i,
    {
        let ghost before = out@;
        out[off + i - 1] = (x % 256) as u8;
        proof {
            assert(out@.subrange(off + i - 1, off + n) =~= seq![(x % 256) as u8] + before.subrange(off + i, off + n));
            assert(be_bytes(x as nat, i as nat) == be_bytes(x as nat / 256, (i - 1) as nat) + seq![(x % 256) as u8]);
        }
        x = x / 256;
        i -= 1;
    }
    proof {
        assert(be_bytes(x as nat, 0) =~= Seq::<u8>::empty());
        assert(Seq::<u8>::empty() + out@.subrange(off as int, off + n) =~= out@.subrange(off as int, off + n));
    }
}

/// Encodes an unmasked server frame into `out`; the frame length on success.
pub fn encode_ws_frame(opcode: WsOpcode, payload: &[u8], out: &mut [u8]) -> (r: Result<usize, WsError>)
    requires
        payload@.len() + 10 <= usize::MAX,
    ensures
        final(out)@.len() == old(out)@.len(),
        old(out)@.len() < ws_frame(opcode, payload@).len() ==> r == Err::<usize, WsError>(
            WsError::BufferTooSmall { required: ws_frame(opcode, payload@).len() as usize, provided: old(out)@.len() as usize },
        ) && final(out)@ == old(out)@,
        old(out)@.len() >= ws_frame(opcode, payload@).len() ==> {
            &&& r == Ok::<usize, WsError>(ws_frame(opcode, payload@).len() as usize)
            &&& final(out)@.subrange(0, ws_frame(opcode, payload@).len() as int) == ws_frame(opcode, payload@)
        },
{
    let payload_len = payload.len();
    let header_len: usize = if payload_len < 126 {
        2
    } else if payload_len <= 0xFFFF {
        4
    } else {
        10
    };
    proof {
        lemma_be_bytes_len(payload_len as nat, 2);
        lemma_be_bytes_len(payload_len as nat, 8);
        assert(ws_frame(opcode, payload@).len() == header_len + payload_len);
    }
    let total_len = header_len + payload_len;
    if out.len() < total_len {
        return Err(WsError::BufferTooSmall { required: total_len, provided: out.len() });
    }
    let ghost start = out@;
    let c = opcode.as_u8();
    assert(0x80 | c == 0x80 + c) by (bit_vector)
        requires
            c < 16,
    ;
    out[0] = 0x80 | c;
    if payload_len < 126 {
        out[1] = payload_len as u8;
    } else if payload_len <= 0xFFFF {
        out[1] = 126;
        put_be(out, 2, payload_len as u64, 2);
    } else {
        out[1] = 127;
        put_be(out, 2, payload_len as u64, 8);
    }
    let ghost mid = out@;
    let mut i: usize = 0;
    while i < payload_len
        invariant
            i <= payload_len == payload@.len(),
            total_len == header_len + payload_len,
            total_len <= out@.len(),
            out@.len() == start.len(),
            out@.subrange(0, header_len as int) == mid.subrange(0, header_len as int),
            out@.subrange(header_len as int, header_len + i) == payload@.subrange(0, i as int),
        decreases payload_len - i,
    {
        let ghost before = out@;
        out[header_len + i] = payload[i];
        proof {
            assert(out@.subrange(0, header_len as int) =~= before.subrange(0, header_len as int));
            assert(out@.subrange(header_len as int, header_len + i + 1) =~= payload@.subrange(0, i + 1));
        }
        i += 1;
    }
    proof {
        let frame = ws_frame(opcode, payload@);
        assert(payload@.subrange(0, payload_len as int) =~= payload@);
        assert(out@.subrange(0, total_len as int) =~= out@.subrange(0, header_len as int) + out@.subrange(
            header_len as int,
            total_len as int,
        ));
        if payload_len < 126 {
            assert(mid.subrange(0, 2) =~= seq![(0x80 + opcode.code()) as u8] + seq![payload_len as u8]);
        } else if payload_len <= 0xFFFF {
            assert(mid.subrange(0, 4) =~= seq![(0x80 + opcode.code()) as u8] + (seq![126u8] + mid.subrange(2, 4)));
        } else {
            assert(mid.subrange(0, 10) =~= seq![(0x80 + opcode.code()) as u8] + (seq![127u8] + mid.subrange(2, 10)));
        }
        assert(out@.subrange(0, total_len as int) =~= frame);
    }
    Ok(total_len)
}

pub proof fn lemma_be_bytes_len(v: nat, n: nat)
    ensures
        be_bytes(v, n).len() == n,
    decreases n,
{
    if n > 0 {
        lemma_be_bytes_len(v / 256, (n - 1) as nat);
    }
}

/// Reading back big-endian bytes gives the value modulo 256^n.
pub proof fn lemma_be_roundtrip(v: nat, n: nat)
    requires
        v < crate::wire::pow256(n),
    ensures
        be_value(be_bytes(v, n)) == v,
    decreases n,
{
    if n > 0 {
        vstd::arithmetic::div_mod::lemma_multiply_divide_lt(v as int, 256, crate::wire::pow256((n - 1) as nat) as int);
        lemma_be_roundtrip(v / 256, (n - 1) as nat);
        lemma_be_bytes_len(v / 256, (n - 1) as nat);
        let s = be_bytes(v, n);
        assert(s.drop_last() =~= be_bytes(v / 256, (n - 1) as nat));
        vstd::arithmetic::div_mod::lemma_fundamental_div_mod(v as int, 256);
    }
}

/// The payload after unmasking with `mask`: byte `i` XORed with `mask[i % 4]`.
pub open spec fn unmasked(s: Seq<u8>, mask: Seq<u8>) -> Seq<u8> {
    Seq::new(s.len(), |i: int| s[i] ^ mask[i % 4])
}

/// XORs each payload byte with the mask byte of its position.
pub fn unmask_payload(payload: &mut [u8], mask: [u8; 4])
    ensures
        final(payload)@ == unmasked(old(payload)@, mask@),
{
    let ghost start = payload@;
    let len = payload.len();
    let mut i: usize = 0;
    while i < len
        invariant
            i <= len == payload@.len(),
            start.len() == len,
            forall|k: int| 0 <= k < i ==> payload@[k] == start[k] ^ mask@[k % 4],
            forall|k: int| i <= k < len ==> payload@[k] == start[k],
        decreases len - i,
    {
        payload[i] = payload[i] ^ mask[i % 4];
        i += 1;
    }
    assert(payload@ =~= unmasked(start, mask@));
}

/// Unmasking is an involution: masking twice with the same key restores the
/// payload.
pub proof fn lemma_unmask_involution(s: Seq<u8>, mask: Seq<u8>)
    ensures
        unmasked(unmasked(s, mask), mask) == s,
{
    assert forall|i: int| 0 <= i < s.len() implies #[trigger] unmasked(unmasked(s, mask), mask)[i] == s[i] by {
        let x = s[i];
        let k = mask[i % 4];
        assert((x ^ k) ^ k == x) by (bit_vector);
    }
    assert(unmasked(unmasked(s, mask), mask) =~= s);
}

/// Decoding the header of an encoded server frame gives its opcode, the FIN
/// bit, no mask and the payload length, and the payload follows the header.
pub proof fn lemma_frame_roundtrip(op: WsOpcode, payload: Seq<u8>)
    requires
        payload.len() <= usize::MAX,
        payload.len() < 0x1_0000_0000_0000_0000,
    ensures
        decode_header(ws_frame(op, payload)) == Ok::<HeaderView, WsError>(
            HeaderView {
                fin: true,
                opcode: op,
                masked: false,
                payload_len: payload.len() as usize,
                mask_key: seq![0u8, 0u8, 0u8, 0u8],
                header_len: frame_header_len(payload.len()) as usize,
            },
        ),
        ws_frame(op, payload).subrange(
            frame_header_len(payload.len()) as int,
            ws_frame(op, payload).len() as int,
        ) == payload,
{
    let len = payload.len();
    let f = ws_frame(op, payload);
    lemma_be_bytes_len(len, 2);
    lemma_be_bytes_len(len, 8);
    crate::wire::lemma_pow256_facts();
    let b0 = (0x80 + op.code()) as u8;
    assert(f[0] == b0);
    assert(b0 % 16 == op.code()) by {
        assert(op.code() < 16);
    }
    if len < 126 {
        assert(f[1] == len as u8);
        assert(f.subrange(2, f.len() as int) =~= payload);
    } else if len <= 0xFFFF {
        assert(f[1] == 126u8);
        assert(f.subrange(2, 4) =~= be_bytes(len, 2));
        lemma_be_roundtrip(len, 2);
        assert(f.subrange(4, f.len() as int) =~= payload);
    } else {
        assert(f[1] == 127u8);
        assert(f.subrange(2, 10) =~= be_bytes(len, 8));
        lemma_be_roundtrip(len, 8);
        assert(f.subrange(10, f.len() as int) =~= payload);
    }
}

/// A continuation byte (10xxxxxx) in the range `lo..=hi`.
pub open spec fn cont_in(s: Seq<u8>, i: int, lo: u8, hi: u8) -> bool {
    i < s.len() && lo <= s[i] <= hi
}

/// Length of the well-formed UTF-8 sequence starting at byte `i` (0 when the
/// bytes there are not one).
pub open spec fn utf8_char_len(s: Seq<u8>, i: int) -> nat {
    let b = s[i];
    if b <= 0x7F {
        1
    } else if 0xC2 <= b <= 0xDF && cont_in(s, i + 1, 0x80, 0xBF) {
        2
    } else if b == 0xE0 && cont_in(s, i + 1, 0xA0, 0xBF) && cont_in(s, i + 2, 0x80, 0xBF) {
        3
    } else if ((0xE1 <= b <= 0xEC) || b == 0xEE || b == 0xEF) && cont_in(s, i + 1, 0x80, 0xBF) && cont_in(s, i + 2, 0x80, 0xBF) {
        3
    } else if b == 0xED && cont_in(s, i + 1, 0x80, 0x9F) && cont_in(s, i + 2, 0x80, 0xBF) {
        3
    } else if b == 0xF0 && cont_in(s, i + 1, 0x90, 0xBF) && cont_in(s, i + 2, 0x80, 0xBF) && cont_in(s, i + 3, 0x80, 0xBF) {
        4
    } else if (0xF1 <= b <= 0xF3) && cont_in(s, i + 1, 0x80, 0xBF) && cont_in(s, i + 2, 0x80, 0xBF) && cont_in(s, i + 3, 0x80, 0xBF) {
        4
    } else if b == 0xF4 && cont_in(s, i + 1, 0x80, 0x8F) && cont_in(s, i + 2, 0x80, 0xBF) && cont_in(s, i + 3, 0x80, 0xBF) {
        4
    } else {
        0
    }
}

/// The bytes from `i` on are a sequence of well-formed UTF-8 characters.
pub open spec fn utf8_from(s: Seq<u8>, i: int) -> bool
    decreases s.len() - i,
{
    if i >= s.len() {
        true
    } else if utf8_char_len(s, i) == 0 {
        false
    } else {
        utf8_from(s, i + utf8_char_len(s, i))
    }
}

/// The bytes are well-formed UTF-8.
pub open spec fn is_utf8(s: Seq<u8>) -> bool {
    utf8_from(s, 0)
}

/// Whether `bytes` are valid UTF-8, by `std::str::from_utf8`.
#[verifier::external_body]
fn utf8_valid(bytes: &[u8]) -> (r: bool)
    ensures
        r == is_utf8(bytes@),
{
    std::str::from_utf8(bytes).is_ok()
}

/// `needle` occurs in `hay` at `i`.
pub open spec fn matches_at(hay: Seq<u8>, needle: Seq<u8>, i: int) -> bool {
    0 <= i && i + needle.len() <= hay.len() && hay.subrange(i, i + needle.len()) == needle
}

/// First position at or after `from` where `needle` occurs, or -1.
pub open spec fn first_match(hay: Seq<u8>, needle: Seq<u8>, from: int) -> int
    decreases hay.len() + 1 - from,
{
    if from < 0 || from + needle.len() > hay.len() {
        -1
    } else if matches_at(hay, needle, from) {
        from
    } else {
        first_match(hay, needle, from + 1)
    }
}

/// Whether `needle` occurs in `hay`.
pub open spec fn contains_bytes(hay: Seq<u8>, needle: Seq<u8>) -> bool {
    first_match(hay, needle, 0) >= 0
}

/// First occurrence of `needle` in `hay`.
pub(crate) fn find_bytes(hay: &[u8], needle: &[u8]) -> (r: Option<usize>)
    ensures
        match r {
            Some(i) => first_match(hay@, needle@, 0) == i,
            None => first_match(hay@, needle@, 0) == -1,
        },
{
    let n = needle.len();
    let len = hay.len();
    if n > len {
        return None;
    }
    let mut i: usize = 0;
    while i <= len - n
        invariant
            n == needle@.len(),
            len == hay@.len(),
            n <= len,
            i <= len - n + 1,
            first_match(hay@, needle@, 0) == first_match(hay@, needle@, i as int),
        decreases len - i,
    {
        let mut j: usize = 0;
        let mut ok = true;
        while j < n
            invariant
                j <= n == needle@.len(),
                i + n <= len == hay@.len(),
                ok == (forall|k: int| 0 <= k < j ==> hay@[i + k] == needle@[k]),
            decreases n - j,
        {
            if hay[i + j] != needle[j] {
                ok = false;
            }
            j += 1;
        }
        proof {
            if ok {
                assert(hay@.subrange(i as int, i + n) =~= needle@);
            } else {
                assert(!matches_at(hay@, needle@, i as int)) by {
                    if matches_at(hay@, needle@, i as int) {
                        assert forall|k: int| 0 <= k < n implies hay@[i + k] == needle@[k] by {
                            assert(hay@.subrange(i as int, i + n)[k] == needle@[k]);
                        }
                    }
                }
            }
        }
        if ok {
            return Some(i);
        }
        i += 1;
    }
    None
}

/// Byte length of a Unicode white-space character (`char::is_whitespace`)
/// encoded at byte `i`, or 0.
pub open spec fn ws_len(s: Seq<u8>, i: int) -> nat {
    let at = |k: int, v: u8| i + k < s.len() && s[i + k] == v;
    if i >= s.len() {
        0
    } else if (0x09 <= s[i] <= 0x0D) || s[i] == 0x20 {
        1
    } else if at(0, 0xC2) && (at(1, 0x85) || at(1, 0xA0)) {
        2
    } else if at(0, 0xE1) && at(1, 0x9A) && at(2, 0x80) {
        3
    } else if at(0, 0xE2) && at(1, 0x80) && i + 2 < s.len() && ((0x80 <= s[i + 2] <= 0x8A) || s[i + 2] == 0xA8
        || s[i + 2] == 0xA9 || s[i + 2] == 0xAF) {
        3
    } else if at(0, 0xE2) && at(1, 0x81) && at(2, 0x9F) {
        3
    } else if at(0, 0xE3) && at(1, 0x80) && at(2, 0x80) {
        3
    } else {
        0
    }
}

/// Position after the white space starting at `i`.
pub open spec fn skip_ws(s: Seq<u8>, i: int) -> int
    decreases s.len() - i,
{
    if i < 0 || i >= s.len() || ws_len(s, i) == 0 {
        i
    } else {
        skip_ws(s, i + ws_len(s, i))
    }
}

/// Number of ASCII digits starting at `i`.
pub open spec fn digit_run(s: Seq<u8>, i: int) -> nat
    decreases s.len() - i,
{
    if i < 0 || i >= s.len() || !(48 <= s[i] <= 57) {
        0
    } else {
        1 + digit_run(s, i + 1)
    }
}

/// Decimal value of ASCII digits.
pub open spec fn decimal_value(d: Seq<u8>) -> nat
    decreases d.len(),
{
    if d.len() == 0 {
        0
    } else {
        decimal_value(d.drop_last()) * 10 + (d.last() - 48) as nat
    }
}

/// The patterns `"key":` and `"key" :`.
pub open spec fn key_pattern(key: Seq<u8>, spaced: bool) -> Seq<u8> {
    if spaced {
        seq![34u8] + key + seq![34u8, 32u8, 58u8]
    } else {
        seq![34u8] + key + seq![34u8, 58u8]
    }
}

/// The unsigned number after `"key":` (or `"key" :`), skipping white space:
/// `None` without the key, without digits, or past `u64::MAX`.
pub open spec fn json_u64_field(s: Seq<u8>, key: Seq<u8>) -> Option<u64> {
    let f1 = first_match(s, key_pattern(key, false), 0);
    let pos = if f1 >= 0 { f1 } else { first_match(s, key_pattern(key, true), 0) };
    if pos < 0 {
        None
    } else {
        let j = skip_ws(s, pos + key_pattern(key, false).len());
        let n = digit_run(s, j);
        if n == 0 || decimal_value(s.subrange(j, j + n)) > u64::MAX {
            None
        } else {
            Some(decimal_value(s.subrange(j, j + n)) as u64)
        }
    }
}

fn ws_len_at(s: &[u8], i: usize) -> (r: usize)
    requires
        i <= s@.len(),
    ensures
        r == ws_len(s@, i as int),
        r <= 3,
{
    let len = s.len();
    if i >= len {
        return 0;
    }
    let b = s[i];
    if (0x09 <= b && b <= 0x0D) || b == 0x20 {
        return 1;
    }
    let has1 = len - i > 1;
    let has2 = len - i > 2;
    let b1: u8 = if has1 { s[i + 1] } else { 0 };
    let b2: u8 = if has2 { s[i + 2] } else { 0 };
    if b == 0xC2 && has1 && (b1 == 0x85 || b1 == 0xA0) {
        2
    } else if b == 0xE1 && has1 && b1 == 0x9A && has2 && b2 == 0x80 {
        3
    } else if b == 0xE2 && has1 && b1 == 0x80 && has2 && ((0x80 <= b2 && b2 <= 0x8A) || b2 == 0xA8 || b2 == 0xA9
        || b2 == 0xAF) {
        3
    } else if b == 0xE2 && has1 && b1 == 0x81 && has2 && b2 == 0x9F {
        3
    } else if b == 0xE3 && has1 && b1 == 0x80 && has2 && b2 == 0x80 {
        3
    } else {
        0
    }
}

/// The number after `"key":` in `s`.
fn extract_json_u64(s: &[u8], key: &str) -> (r: Option<u64>)
    ensures
        r == json_u64_field(s@, key.spec_bytes()),
{
    let kb = key.as_bytes();
    let mut p1: Vec<u8> = Vec::new();
    p1.push(34u8);
    let mut k: usize = 0;
    while k < kb.len()
        invariant
            k <= kb@.len(),
            p1@ == seq![34u8] + kb@.subrange(0, k as int),
        decreases kb@.len() - k,
    {
        p1.push(kb[k]);
        proof {
            assert(p1@ =~= seq![34u8] + kb@.subrange(0, k + 1));
        }
        k += 1;
    }
    let mut p2: Vec<u8> = Vec::new();
    let mut k: usize = 0;
    while k < p1.len()
        invariant
            k <= p1@.len(),
            p2@ == p1@.subrange(0, k as int),
        decreases p1@.len() - k,
    {
        p2.push(p1[k]);
        proof {
            assert(p2@ =~= p1@.subrange(0, k + 1));
        }
        k += 1;
    }
    p1.push(34u8);
    p1.push(58u8);
    p2.push(34u8);
    p2.push(32u8);
    p2.push(58u8);
    proof {
        assert(kb@.subrange(0, kb@.len() as int) =~= kb@);
        assert(p1@ =~= key_pattern(kb@, false));
        assert(p2@ =~= key_pattern(kb@, true));
    }
    let pos = match find_bytes(s, p1.as_slice()) {
        Some(p) => p,
        None => match find_bytes(s, p2.as_slice()) {
            Some(p) => p,
            None => {
                return None;
            },
        },
    };
    proof {
        lemma_first_match_bound(s@, key_pattern(kb@, false), 0);
        lemma_first_match_bound(s@, key_pattern(kb@, true), 0);
        assert(matches_at(s@, key_pattern(kb@, false), pos as int) || matches_at(s@, key_pattern(kb@, true), pos as int));
    }
    let len = s.len();
    let mut j: usize = pos + p1.len();
    while j < len && ws_len_at(s, j) > 0
        invariant
            j <= len == s@.len(),
            skip_ws(s@, (pos + key_pattern(kb@, false).len()) as int) == skip_ws(s@, j as int),
        decreases len - j,
    {
        let w = ws_len_at(s, j);
        proof {
            assert(ws_len(s@, j as int) == w);
        }
        if j + w > len {
            j = len;
        } else {
            j = j + w;
        }
        proof {
            assert(j <= len);
        }
    }
    let start = j;
    let mut value: u64 = 0;
    let mut overflow = false;
    while j < len && s[j] >= 48 && s[j] <= 57
        invariant
            start <= j <= len == s@.len(),
            digit_run(s@, start as int) == (j - start) + digit_run(s@, j as int),
            !overflow ==> value == decimal_value(s@.subrange(start as int, j as int)),
            overflow ==> decimal_value(s@.subrange(start as int, j as int)) > u64::MAX,
        decreases len - j,
    {
        let d = (s[j] - 48) as u64;
        proof {
            assert(s@.subrange(start as int, j + 1).drop_last() =~= s@.subrange(start as int, j as int));
        }
        if !overflow {
            if value > (u64::MAX - d) / 10 {
                overflow = true;
            } else {
                value = value * 10 + d;
            }
        } else {
            proof {
                assert(decimal_value(s@.subrange(start as int, j + 1)) >= decimal_value(s@.subrange(start as int, j as int)));
            }
        }
        j += 1;
    }
    if j == start || overflow {
        None
    } else {
        Some(value)
    }
}

pub(crate) proof fn lemma_first_match_bound(hay: Seq<u8>, needle: Seq<u8>, from: int)
    ensures
        first_match(hay, needle, from) >= 0 ==> matches_at(hay, needle, first_match(hay, needle, from)),
    decreases hay.len() + 1 - from,
{
    if !(from < 0 || from + needle.len() > hay.len()) && !matches_at(hay, needle, from) {
        lemma_first_match_bound(hay, needle, from + 1);
    }
}

/// Inbound client command.
#[derive(Debug, PartialEq, Eq, Structural)]
pub enum ClientCommand {
    Subscribe(TopicKey),
    Unsubscribe(TopicKey),
    Filter(ClientFilterPredicate),
    Ping,
    Pong,
}

/// `"action":"<verb>"` or `"action": "<verb>"` occurs in `s`.
pub open spec fn has_action(s: Seq<u8>, tight: &str, spaced: &str) -> bool {
    contains_bytes(s, tight.spec_bytes()) || contains_bytes(s, spaced.spec_bytes())
}

/// The command a client's UTF-8 JSON text carries: ping, pong, subscribe (venue,
/// market id and stream type required, flags optional) or unsubscribe, checked
/// in that order.
pub open spec fn client_command(s: Seq<u8>) -> Option<ClientCommand> {
    if !is_utf8(s) {
        None
    } else if has_action(s, r#""action":"ping""#, r#""action": "ping""#) {
        Some(ClientCommand::Ping)
    } else if has_action(s, r#""action":"pong""#, r#""action": "pong""#) {
        Some(ClientCommand::Pong)
    } else if has_action(s, r#""action":"subscribe""#, r#""action": "subscribe""#) {
        match (
            json_u64_field(s, "venue".spec_bytes()),
            json_u64_field(s, "market_id".spec_bytes()),
            json_u64_field(s, "stream_type".spec_bytes()),
        ) {
            (Some(v), Some(m), Some(st)) => {
                let f = match json_u64_field(s, "flags".spec_bytes()) {
                    Some(f) => f,
                    None => 0,
                };
                Some(ClientCommand::Subscribe(TopicKey(pack_topic(v as u8, m as u32, st as u8, f as u32))))
            },
            _ => None,
        }
    } else if has_action(s, r#""action":"unsubscribe""#, r#""action": "unsubscribe""#) {
        match (
            json_u64_field(s, "venue".spec_bytes()),
            json_u64_field(s, "market_id".spec_bytes()),
            json_u64_field(s, "stream_type".spec_bytes()),
        ) {
            (Some(v), Some(m), Some(st)) => Some(
                ClientCommand::Unsubscribe(TopicKey(pack_topic(v as u8, m as u32, st as u8, 0))),
            ),
            _ => None,
        }
    } else {
        None
    }
}

fn action_present(s: &[u8], tight: &str, spaced: &str) -> (r: bool)
    ensures
        r == has_action(s@, tight, spaced),
{
    find_bytes(s, tight.as_bytes()).is_some() || find_bytes(s, spaced.as_bytes()).is_some()
}

/// Scans a client's JSON text for a command.
pub fn parse_client_command(json_bytes: &[u8]) -> (r: Option<ClientCommand>)
    ensures
        r == client_command(json_bytes@),
{
    if !utf8_valid(json_bytes) {
        return None;
    }
    if action_present(json_bytes, r#""action":"ping""#, r#""action": "ping""#) {
        return Some(ClientCommand::Ping);
    }
    if action_present(json_bytes, r#""action":"pong""#, r#""action": "pong""#) {
        return Some(ClientCommand::Pong);
    }
    if action_present(json_bytes, r#""action":"subscribe""#, r#""action": "subscribe""#) {
        let venue = match extract_json_u64(json_bytes, "venue") {
            Some(v) => v as u8,
            None => {
                return None;
            },
        };
        let market_id = match extract_json_u64(json_bytes, "market_id") {
            Some(v) => v as u32,
            None => {
                return None;
            },
        };
        let stream_type = match extract_json_u64(json_bytes, "stream_type") {
            Some(v) => v as u8,
            None => {
                return None;
            },
        };
        let flags = match extract_json_u64(json_bytes, "flags") {
            Some(v) => v as u32,
            None => 0,
        };
        return Some(ClientCommand::Subscribe(TopicKey::new(venue, market_id, stream_type, flags)));
    }
    if action_present(json_bytes, r#""action":"unsubscribe""#, r#""action": "unsubscribe""#) {
        let venue = match extract_json_u64(json_bytes, "venue") {
            Some(v) => v as u8,
            None => {
                return None;
            },
        };
        let market_id = match extract_json_u64(json_bytes, "market_id") {
            Some(v) => v as u32,
            None => {
                return None;
            },
        };
        let stream_type = match extract_json_u64(json_bytes, "stream_type") {
            Some(v) => v as u8,
            None => {
                return None;
            },
        };
        return Some(ClientCommand::Unsubscribe(TopicKey::new(venue, market_id, stream_type, 0)));
    }
    None
}

/// `piece` appended when it fits `cap` bytes in all.
pub open spec fn try_append(acc: Seq<u8>, piece: Seq<u8>, cap: nat) -> Seq<u8> {
    if acc.len() + piece.len() <= cap {
        acc + piece
    } else {
        acc
    }
}

/// A short JSON reply `<head><number><tail>`, each piece written only if it
/// fits a buffer of `cap` bytes.
pub open spec fn reply_text(head: &str, v: u64, tail: &str, cap: nat) -> Seq<u8> {
    try_append(try_append(try_append(Seq::empty(), head.spec_bytes(), cap), dec_digits(v as nat), cap), tail.spec_bytes(), cap)
}

/// The frame of `payload` when it fits `cap` bytes, else the encoder's error.
pub open spec fn frame_into(op: WsOpcode, payload: Seq<u8>, cap: nat) -> Result<Seq<u8>, WsError> {
    if ws_frame(op, payload).len() <= cap {
        Ok(ws_frame(op, payload))
    } else {
        Err(WsError::BufferTooSmall { required: ws_frame(op, payload).len() as usize, provided: cap as usize })
    }
}

/// Header and payload of a frame, the payload unmasked.
pub open spec fn frame_payload(frame: Seq<u8>, h: HeaderView) -> Seq<u8> {
    let p = frame.subrange(h.header_len as int, h.header_len + h.payload_len);
    if h.masked {
        unmasked(p, h.mask_key)
    } else {
        p
    }
}

/// Frames for delivered payloads: binary (256-byte buffer) for SBE, text
/// (1024-byte buffer) for JSON; a payload that does not fit is dropped.
pub open spec fn broadcast_frames(ds: Seq<(u32, WireProtocol, Seq<u8>)>) -> Seq<(u32, Seq<u8>)>
    decreases ds.len(),
{
    if ds.len() == 0 {
        Seq::empty()
    } else {
        let prev = broadcast_frames(ds.drop_last());
        let (id, proto, p) = ds.last();
        let r = match proto {
            WireProtocol::Sbe => frame_into(WsOpcode::Binary, p, 256),
            WireProtocol::Json => frame_into(WsOpcode::Text, p, 1024),
        };
        match r {
            Ok(f) => prev.push((id, f)),
            Err(_) => prev,
        }
    }
}

/// Frames `payload` into a fresh buffer of `cap` bytes.
fn frame_vec(op: WsOpcode, payload: &[u8], cap: usize) -> (r: Result<Vec<u8>, WsError>)
    requires
        cap <= 1024,
        payload@.len() + 10 <= usize::MAX,
    ensures
        match frame_into(op, payload@, cap as nat) {
            Ok(f) => r matches Ok(v) && v@ == f,
            Err(e) => r == Err::<Vec<u8>, WsError>(e),
        },
{
    let mut buf: Vec<u8> = Vec::new();
    let mut i: usize = 0;
    while i < cap
        invariant
            i <= cap,
            buf@.len() == i,
        decreases cap - i,
    {
        buf.push(0u8);
        i += 1;
    }
    let res = encode_ws_frame(op, payload, buf.as_mut_slice());
    match res {
        Ok(n) => {
            let mut out: Vec<u8> = Vec::new();
            let mut k: usize = 0;
            while k < n
                invariant
                    k <= n <= buf@.len(),
                    out@ == buf@.subrange(0, k as int),
                decreases n - k,
            {
                out.push(buf[k]);
                proof {
                    assert(out@ =~= buf@.subrange(0, k + 1));
                }
                k += 1;
            }
            Ok(out)
        },
        Err(e) => Err(e),
    }
}

/// A decoded frame's payload leaves room for the longest server header.
proof fn lemma_payload_room(buf: Seq<u8>)
    requires
        decode_header(buf) matches Ok(h) ==> h.header_len + h.payload_len <= usize::MAX,
    ensures
        decode_header(buf) matches Ok(h) ==> h.payload_len + 10 <= usize::MAX,
{
    if decode_header(buf) is Ok && buf[1] % 0x80 == 126 {
        let s = buf.subrange(2, 4);
        reveal_with_fuel(be_value, 3);
        assert(s.drop_last().drop_last() =~= Seq::<u8>::empty());
        assert(be_value(s) <= 0xFFFF);
    }
}

/// The router's sessions and topics are those of another.
pub open spec fn same_router(a: InvertedTopicRouter, b: InvertedTopicRouter) -> bool {
    a.sessions() == b.sessions() && a.topic_entries() == b.topic_entries()
}

/// The reply `<head><number><tail>` written into a `cap`-byte buffer.
fn reply_vec(head: &str, v: u64, tail: &str, cap: usize) -> (r: Vec<u8>)
    requires
        cap <= 1024,
    ensures
        r@ == reply_text(head, v, tail, cap as nat),
{
    let mut buf: Vec<u8> = Vec::new();
    let mut i: usize = 0;
    while i < cap
        invariant
            i <= cap,
            buf@.len() == i,
        decreases cap - i,
    {
        buf.push(0u8);
        i += 1;
    }
    let mut writer = FastJsonWriter::new(buf.as_mut_slice());
    let ghost w0 = writer;
    let _ = writer.write_str(head);
    let ghost w1 = writer;
    let _ = writer.write_u64(v);
    let ghost w2 = writer;
    let _ = writer.write_str(tail);
    let n = writer.pos();
    proof {
        assert(w0.written() =~= Seq::<u8>::empty());
    }
    let mut out: Vec<u8> = Vec::new();
    let mut k: usize = 0;
    while k < n
        invariant
            k <= n <= writer.buf@.len(),
            out@ == writer.buf@.subrange(0, k as int),
        decreases n - k,
    {
        out.push(writer.buf[k]);
        proof {
            assert(out@ =~= writer.buf@.subrange(0, k + 1));
        }
        k += 1;
    }
    out
}

/// Deliveries recorded from a dispatch carry payloads of at most 1024 bytes
/// when the SBE encoding and the JSON document are that short.
proof fn lemma_delivery_sizes(
    ds: Seq<Delivery>,
    st: DispatchState,
    ids: Seq<u32>,
    now_ms: u64,
    blocks: spec_fn(ClientFilterPredicate) -> bool,
    sbe: Seq<u8>,
    json: Option<Seq<u8>>,
)
    requires
        st.deliveries == Seq::<(u32, WireProtocol, Seq<u8>)>::empty(),
        ds.map_values(|d: Delivery| delivery_view(d)) == dispatch_all(st, ids, now_ms, blocks, sbe, json).deliveries,
        sbe.len() <= 1024,
        json matches Some(p) ==> p.len() <= 1024,
    ensures
        forall|i: int| 0 <= i < ds.len() ==> (#[trigger] ds[i]).payload@.len() <= 1024,
{
    lemma_dispatch_payloads(st, ids, now_ms, blocks, sbe, json);
    let all = dispatch_all(st, ids, now_ms, blocks, sbe, json).deliveries;
    assert forall|i: int| 0 <= i < ds.len() implies (#[trigger] ds[i]).payload@.len() <= 1024 by {
        assert(ds.map_values(|d: Delivery| delivery_view(d))[i] == delivery_view(ds[i]));
        assert(delivery_fits(all[i], sbe, json));
    }
}

/// The WebSocket server: client connections and the topic router.
pub struct WebSocketServerEngine {
    pub router: InvertedTopicRouter,
}

impl WebSocketServerEngine {
    /// An engine with an empty router.
    pub fn new() -> (r: Self)
        ensures
            r.router.wf(),
            r.router.sessions() == Seq::<ClientSession>::empty(),
            r.router.topic_entries() == Seq::<(TopicKey, crate::bitmap::ClientBitmap)>::empty(),
    {
        WebSocketServerEngine { router: InvertedTopicRouter::new() }
    }

    /// Registers a connected client with a fresh session (a full bucket of
    /// `burst_capacity` tokens refilled at `rate_per_sec`, the pass-all filter,
    /// no traffic yet); a taken id is reported as an error.
    pub fn handle_client_connect(&mut self, client_id: u32, protocol: WireProtocol, rate_per_sec: u32, burst_capacity: u32, now_ms: u64) -> (r: Result<u32, WsError>)
        requires
            old(self).router.wf(),
        ensures
            final(self).router.wf(),
            final(self).router.topic_entries() == old(self).router.topic_entries(),
            client_index(old(self).router.sessions(), client_id) >= 0 ==> r == Err::<u32, WsError>(
                WsError::ClientNotFound(client_id),
            ) && final(self).router.sessions() == old(self).router.sessions(),
            client_index(old(self).router.sessions(), client_id) < 0 ==> {
                &&& r == Ok::<u32, WsError>(client_id)
                &&& final(self).router.sessions() == old(self).router.sessions().push(
                    final(self).router.sessions().last(),
                )
                &&& fresh_session(
                    final(self).router.sessions().last(),
                    client_id,
                    protocol,
                    rate_per_sec,
                    burst_capacity,
                    now_ms,
                )
            },
    {
        let session = ClientSession::new(client_id, protocol, rate_per_sec, burst_capacity, now_ms);
        match self.router.register_client(session) {
            Ok(id) => {
                proof {
                    assert(self.router.sessions().drop_last() =~= old(self).router.sessions());
                }
                Ok(id)
            },
            Err(_) => Err(WsError::ClientNotFound(client_id)),
        }
    }

    /// Unregisters a client (nothing for an unknown one).
    pub fn handle_client_disconnect(&mut self, client_id: u32)
        requires
            old(self).router.wf(),
        ensures
            final(self).router.wf(),
            unregister_effect(old(self).router, final(self).router, client_id),
    {
        let _ = self.router.unregister_client(client_id);
    }

    /// Handles one client frame: a ping is answered with a pong carrying its
    /// payload, a close unregisters the client and is answered with a close, and
    /// a text frame's command is applied (a subscription is acknowledged, a ping
    /// command is answered with the time); replies are appended to `responses`.
    pub fn handle_inbound_frame(&mut self, client_id: u32, frame_bytes: &[u8], now_ms: u64, responses: &mut Vec<Vec<u8>>) -> (r: Result<(), WsError>)
        requires
            old(self).router.wf(),
            decode_header(frame_bytes@) matches Ok(h) ==> h.header_len + h.payload_len <= usize::MAX,
        ensures
            final(self).router.wf(),
            ({
                let out0 = old(responses)@.map_values(|v: Vec<u8>| v@);
                let out1 = final(responses)@.map_values(|v: Vec<u8>| v@);
                let same = same_router(old(self).router, final(self).router) && out1 == out0;
                match decode_header(frame_bytes@) {
                    Err(e) => r == Err::<(), WsError>(e) && same,
                    Ok(h) => if frame_bytes@.len() < h.header_len + h.payload_len {
                        r == Err::<(), WsError>(WsError::IncompleteFrame) && same
                    } else {
                        let p = frame_payload(frame_bytes@, h);
                        match h.opcode {
                            WsOpcode::Ping => match frame_into(WsOpcode::Pong, p, 256) {
                                Ok(f) => r is Ok && same_router(old(self).router, final(self).router) && out1 == out0.push(f),
                                Err(e) => r == Err::<(), WsError>(e) && same,
                            },
                            WsOpcode::Close => {
                                &&& r is Ok
                                &&& unregister_effect(old(self).router, final(self).router, client_id)
                                &&& out1 == out0.push(ws_frame(WsOpcode::Close, Seq::empty()))
                            },
                            WsOpcode::Text => match client_command(p) {
                                Some(ClientCommand::Subscribe(t)) => if client_index(old(self).router.sessions(), client_id) < 0 {
                                    r == Err::<(), WsError>(WsError::ClientNotFound(client_id)) && same
                                } else {
                                    &&& subscribe_effect(old(self).router, final(self).router, client_id, t)
                                    &&& match frame_into(WsOpcode::Text, reply_text(r#"{"type":"subscribed","topic":"#, t.0, r#"}"#, 128), 256) {
                                        Ok(f) => r is Ok && out1 == out0.push(f),
                                        Err(e) => r == Err::<(), WsError>(e) && out1 == out0,
                                    }
                                },
                                Some(ClientCommand::Unsubscribe(t)) => r is Ok && out1 == out0
                                    && unsubscribe_effect(old(self).router, final(self).router, client_id, t),
                                Some(ClientCommand::Ping) => match frame_into(WsOpcode::Text, reply_text(r#"{"type":"pong","ts":"#, now_ms, r#"}"#, 64), 128) {
                                    Ok(f) => r is Ok && same_router(old(self).router, final(self).router) && out1 == out0.push(f),
                                    Err(e) => r == Err::<(), WsError>(e) && same,
                                },
                                _ => r is Ok && same,
                            },
                            _ => r is Ok && same,
                        }
                    },
                }
            }),
    {
        let header = match decode_ws_frame_header(frame_bytes) {
            Ok(h) => h,
            Err(e) => {
                return Err(e);
            },
        };
        let total_required = header.header_len + header.payload_len;
        if frame_bytes.len() < total_required {
            return Err(WsError::IncompleteFrame);
        }
        let mut payload: Vec<u8> = Vec::new();
        let mut k: usize = header.header_len;
        while k < total_required
            invariant
                header.header_len <= k <= total_required <= frame_bytes@.len(),
                payload@ == frame_bytes@.subrange(header.header_len as int, k as int),
            decreases total_required - k,
        {
            payload.push(frame_bytes[k]);
            proof {
                assert(payload@ =~= frame_bytes@.subrange(header.header_len as int, k + 1));
            }
            k += 1;
        }
        if header.masked {
            unmask_payload(payload.as_mut_slice(), header.mask_key);
        }
        let ghost p = payload@;
        let ghost out0 = responses@.map_values(|v: Vec<u8>| v@);
        proof {
            assert(p == frame_payload(frame_bytes@, header.view_of()));
        }
        match header.opcode {
            WsOpcode::Ping => {
                proof {
                    lemma_payload_room(frame_bytes@);
                }
                match frame_vec(WsOpcode::Pong, payload.as_slice(), 256) {
                    Ok(f) => {
                        responses.push(f);
                        proof {
                            assert(responses@.map_values(|v: Vec<u8>| v@) =~= out0.push(f@));
                        }
                    },
                    Err(e) => {
                        return Err(e);
                    },
                }
            },
            WsOpcode::Pong => {},
            WsOpcode::Close => {
                self.handle_client_disconnect(client_id);
                let empty: [u8; 0] = [];
                let f = match frame_vec(WsOpcode::Close, &empty, 16) {
                    Ok(f) => f,
                    Err(e) => {
                        proof {
                            assert(empty@ =~= Seq::<u8>::empty());
                        }
                        return Err(e);
                    },
                };
                responses.push(f);
                proof {
                    assert(empty@ =~= Seq::<u8>::empty());
                    assert(responses@.map_values(|v: Vec<u8>| v@) =~= out0.push(f@));
                }
            },
            WsOpcode::Text => {
                match parse_client_command(payload.as_slice()) {
                    Some(ClientCommand::Subscribe(topic)) => {
                        match self.router.subscribe(client_id, topic) {
                            Ok(_) => {},
                            Err(_) => {
                                return Err(WsError::ClientNotFound(client_id));
                            },
                        }
                        let ack = reply_vec(r#"{"type":"subscribed","topic":"#, topic.0, r#"}"#, 128);
                        match frame_vec(WsOpcode::Text, ack.as_slice(), 256) {
                            Ok(f) => {
                                responses.push(f);
                                proof {
                                    assert(responses@.map_values(|v: Vec<u8>| v@) =~= out0.push(f@));
                                }
                            },
                            Err(e) => {
                                return Err(e);
                            },
                        }
                    },
                    Some(ClientCommand::Unsubscribe(topic)) => {
                        let _ = self.router.unsubscribe(client_id, topic);
                    },
                    Some(ClientCommand::Ping) => {
                        let ack = reply_vec(r#"{"type":"pong","ts":"#, now_ms, r#"}"#, 64);
                        match frame_vec(WsOpcode::Text, ack.as_slice(), 128) {
                            Ok(f) => {
                                responses.push(f);
                                proof {
                                    assert(responses@.map_values(|v: Vec<u8>| v@) =~= out0.push(f@));
                                }
                            },
                            Err(e) => {
                                return Err(e);
                            },
                        }
                    },
                    _ => {},
                }
            },
            _ => {},
        }
        Ok(())
    }

    /// Appends the frame of each delivery to `out`.
    fn frame_deliveries(deliveries: &Vec<Delivery>, out: &mut Vec<(u32, Vec<u8>)>)
        requires
            forall|i: int| 0 <= i < deliveries@.len() ==> (#[trigger] deliveries@[i]).payload@.len() <= 1024,
        ensures
            final(out)@.map_values(|e: (u32, Vec<u8>)| (e.0, e.1@)) == old(out)@.map_values(
                |e: (u32, Vec<u8>)| (e.0, e.1@),
            ) + broadcast_frames(deliveries@.map_values(|d: Delivery| delivery_view(d))),
    {
        let ghost out0 = out@.map_values(|e: (u32, Vec<u8>)| (e.0, e.1@));
        let ghost ds = deliveries@.map_values(|d: Delivery| delivery_view(d));
        let mut k: usize = 0;
        proof {
            assert(ds.take(0) =~= Seq::<(u32, WireProtocol, Seq<u8>)>::empty());
            assert(out0 + Seq::<(u32, Seq<u8>)>::empty() =~= out0);
        }
        while k < deliveries.len()
            invariant
                k <= deliveries@.len(),
                ds == deliveries@.map_values(|d: Delivery| delivery_view(d)),
                forall|i: int| 0 <= i < deliveries@.len() ==> (#[trigger] deliveries@[i]).payload@.len() <= 1024,
                out@.map_values(|e: (u32, Vec<u8>)| (e.0, e.1@)) == out0 + broadcast_frames(ds.take(k as int)),
            decreases deliveries@.len() - k,
        {
            let d = &deliveries[k];
            proof {
                assert(ds.take(k + 1).drop_last() =~= ds.take(k as int));
                assert(ds.take(k + 1).last() == delivery_view(deliveries@[k as int]));
            }
            let r = match d.protocol {
                WireProtocol::Sbe => frame_vec(WsOpcode::Binary, d.payload.as_slice(), 256),
                WireProtocol::Json => frame_vec(WsOpcode::Text, d.payload.as_slice(), 1024),
            };
            match r {
                Ok(f) => {
                    let ghost before = out@.map_values(|e: (u32, Vec<u8>)| (e.0, e.1@));
                    out.push((d.client_id, f));
                    proof {
                        assert(out@.map_values(|e: (u32, Vec<u8>)| (e.0, e.1@)) =~= before.push((d.client_id, f@)));
                    }
                },
                Err(_) => {},
            }
            k += 1;
        }
        proof {
            assert(ds.take(deliveries@.len() as int) =~= ds);
        }
    }

    /// Broadcasts a quote: the router's deliveries, each wrapped in a frame
    /// (binary for SBE, text for JSON), appended to `out` with their client ids.
    pub fn broadcast_bbo(&mut self, bbo: &NormalizedBbo, now_ms: u64, out: &mut Vec<(u32, Vec<u8>)>) -> (m: DispatchMetrics)
        requires
            old(self).router.wf(),
            buckets_ready(old(self).router.sessions(), now_ms),
        ensures
            final(self).router.wf(),
            ({
                let st = dispatch_all(
                    dispatch_start(old(self).router.sessions()),
                    bbo_candidate_ids(old(self).router.topic_entries(), *bbo),
                    now_ms,
                    bbo_blocks(bbo.spread_bps),
                    bbo_wire(*bbo),
                    json_payload(bbo_json(*bbo)),
                );
                &&& final(self).router.sessions() == st.clients
                &&& final(self).router.topic_entries() == old(self).router.topic_entries()
                &&& m == st.metrics
                &&& final(out)@.map_values(|e: (u32, Vec<u8>)| (e.0, e.1@)) == old(out)@.map_values(
                    |e: (u32, Vec<u8>)| (e.0, e.1@),
                ) + broadcast_frames(st.deliveries)
            }),
    {
        let ghost st0 = dispatch_start(self.router.sessions());
        let ghost ids = bbo_candidate_ids(self.router.topic_entries(), *bbo);
        let mut deliveries: Vec<Delivery> = Vec::new();
        let m = self.router.dispatch_bbo(bbo, now_ms, &mut deliveries);
        proof {
            assert(Seq::<Delivery>::empty().map_values(|d: Delivery| delivery_view(d)) =~= Seq::empty());
            lemma_frame_lengths(*bbo, zero_trade());
            lemma_delivery_sizes(deliveries@, st0, ids, now_ms, bbo_blocks(bbo.spread_bps), bbo_wire(*bbo), json_payload(bbo_json(*bbo)));
        }
        Self::frame_deliveries(&deliveries, out);
        m
    }

    /// Broadcasts a trade like [`broadcast_bbo`](Self::broadcast_bbo);
    /// `notional_usd_bits` is the bit pattern of the trade's USD notional.
    pub fn broadcast_trade(&mut self, trade: &UnifiedTrade, notional_usd_bits: u64, now_ms: u64, out: &mut Vec<(u32, Vec<u8>)>) -> (m: DispatchMetrics)
        requires
            old(self).router.wf(),
            buckets_ready(old(self).router.sessions(), now_ms),
        ensures
            final(self).router.wf(),
            ({
                let st = dispatch_all(
                    dispatch_start(old(self).router.sessions()),
                    trade_candidate_ids(old(self).router.topic_entries(), *trade),
                    now_ms,
                    trade_blocks(notional_usd_bits),
                    trade_wire(*trade),
                    json_payload(trade_json(*trade)),
                );
                &&& final(self).router.sessions() == st.clients
                &&& final(self).router.topic_entries() == old(self).router.topic_entries()
                &&& m == st.metrics
                &&& final(out)@.map_values(|e: (u32, Vec<u8>)| (e.0, e.1@)) == old(out)@.map_values(
                    |e: (u32, Vec<u8>)| (e.0, e.1@),
                ) + broadcast_frames(st.deliveries)
            }),
    {
        let ghost st0 = dispatch_start(self.router.sessions());
        let ghost ids = trade_candidate_ids(self.router.topic_entries(), *trade);
        let mut deliveries: Vec<Delivery> = Vec::new();
        let m = self.router.dispatch_trade(trade, notional_usd_bits, now_ms, &mut deliveries);
        proof {
            assert(Seq::<Delivery>::empty().map_values(|d: Delivery| delivery_view(d)) =~= Seq::empty());
            lemma_frame_lengths(zero_bbo(), *trade);
            lemma_delivery_sizes(deliveries@, st0, ids, now_ms, trade_blocks(notional_usd_bits), trade_wire(*trade), json_payload(trade_json(*trade)));
        }
        Self::frame_deliveries(&deliveries, out);
        m
    }
}

impl Default for WebSocketServerEngine {
    fn default() -> (r: Self)
        ensures
            r.router.wf(),
            r.router.sessions() == Seq::<ClientSession>::empty(),
            r.router.topic_entries() == Seq::<(TopicKey, crate::bitmap::ClientBitmap)>::empty(),
    {
        WebSocketServerEngine::new()
    }
}

} // verus!
