//! The length-prefixed framing: the connection handshake and the frames that
//! carry each message, with reassembly of frames from arbitrary reads.
use vstd::prelude::*;
use crate::cbor::{be_bytes, be_value, lemma_be_round_trip, pow256, put_u16_be};
use crate::errors::WampError;

verus! {

/// The first byte of every handshake.
pub const MAGIC: u8 = 0x7f;

/// The serializer id of the binary encoding.
pub const SERIALIZER_CBOR: u8 = 0x03;

/// The frame size this client asks for: 2 to the power (9 + 3), 4096 bytes.
pub const MAX_FRAME_EXPONENT: u8 = 0x03;

/// The message type of a frame that carries a protocol message.
pub const MESSAGE_TYPE_REGULAR: u8 = 0;

/// The four bytes that open a connection.
pub open spec fn handshake_bytes(max_exponent: u8, serializer: u8) -> Seq<u8> {
    seq![MAGIC, (max_exponent * 16 + serializer) as u8, 0u8, 0u8]
}

/// 2 to the power `n`.
pub open spec fn pow2(n: nat) -> nat
    decreases n,
{
    if n == 0 {
        1
    } else {
        2 * pow2((n - 1) as nat)
    }
}

/// The largest payload that a peer announcing `exponent` accepts.
pub open spec fn max_frame_size(exponent: nat) -> nat {
    pow2(9 + exponent)
}

/// The handshake that asks for frames of up to 2^(9 + `max_exponent`) bytes
/// and for the serializer `serializer`.
pub fn handshake_request(max_exponent: u8, serializer: u8) -> (r: Vec<u8>)
    requires
        max_exponent < 16,
        serializer < 16,
    ensures
        r@ == handshake_bytes(max_exponent, serializer),
{
    let mut r: Vec<u8> = Vec::new();
    r.push(MAGIC);
    r.push(max_exponent * 16 + serializer);
    r.push(0);
    r.push(0);
    assert(r@ =~= handshake_bytes(max_exponent, serializer));
    r
}

/// Checks the peer's four-byte answer to the handshake: it must start with the
/// magic byte and name the serializer that was asked for. Gives the largest
/// payload the peer accepts.
pub fn check_handshake(reply: &[u8], serializer: u8) -> (r: Result<u32, WampError>)
    ensures
        (reply@.len() != 4 || reply@[0] != MAGIC || reply@[1] % 16 != serializer) ==> r
            == Err::<u32, WampError>(WampError::ConnectionFailure),
        !(reply@.len() != 4 || reply@[0] != MAGIC || reply@[1] % 16 != serializer) ==> r is Ok
            && r->Ok_0 == max_frame_size((reply@[1] / 16) as nat),
{
    if reply.len() != 4 || reply[0] != MAGIC || reply[1] % 16 != serializer {
        return Err(WampError::ConnectionFailure);
    }
    let exponent = reply[1] / 16;
    let mut size: u32 = 512;
    let mut k: u8 = 0;
    proof {
        reveal_with_fuel(pow2, 25);
        assert(pow2(24) == 0x100_0000);
    }
    while k < exponent
        invariant
            k <= exponent,
            exponent < 16,
            size == pow2(9 + k as nat),
            size <= pow2(24),
            pow2(24) == 0x100_0000,
        decreases exponent - k,
    {
        proof {
            lemma_pow2_mono((9 + k + 1) as nat, 24);
            assert(pow2((9 + k + 1) as nat) == 2 * pow2((9 + k) as nat));
        }
        size = size * 2;
        k = k + 1;
    }
    Ok(size)
}

proof fn lemma_pow2_mono(a: nat, b: nat)
    requires
        a <= b,
    ensures
        pow2(a) <= pow2(b),
    decreases b,
{
    if a < b {
        lemma_pow2_mono(a, (b - 1) as nat);
    }
}

/// The frame that carries `payload`.
pub open spec fn frame_bytes(payload: Seq<u8>) -> Seq<u8> {
    seq![MESSAGE_TYPE_REGULAR, 0u8] + be_bytes(payload.len(), 2) + payload
}

/// Frames `payload`, which may not exceed `max_len` bytes nor a 16-bit length.
pub fn encode_frame(payload: &[u8], max_len: usize) -> (r: Result<Vec<u8>, WampError>)
    ensures
        payload@.len() <= max_len && payload@.len() <= 0xffff ==> r is Ok && r->Ok_0@
            == frame_bytes(payload@),
        !(payload@.len() <= max_len && payload@.len() <= 0xffff) ==> r == Err::<Vec<u8>, WampError>(
            WampError::FrameError,
        ),
{
    if payload.len() > max_len || payload.len() > 0xffff {
        return Err(WampError::FrameError);
    }
    let mut out: Vec<u8> = Vec::new();
    out.push(MESSAGE_TYPE_REGULAR);
    out.push(0);
    put_u16_be(&mut out, payload.len() as u16);
    let ghost head = out@;
    let mut i: usize = 0;
    while i < payload.len()
        invariant
            i <= payload@.len(),
            out@ == head + payload@.subrange(0, i as int),
        decreases payload@.len() - i,
    {
        out.push(payload[i]);
        i = i + 1;
        assert(out@ =~= head + payload@.subrange(0, i as int));
    }
    assert(out@ =~= frame_bytes(payload@));
    Ok(out)
}

/// What the front of a receive buffer holds.
pub enum FrameParse {
    /// Not yet a whole frame: more bytes are needed.
    Incomplete,
    /// A frame whose header breaks the rules.
    Invalid,
    /// A whole frame's payload, and the bytes after it.
    Complete(Seq<u8>, Seq<u8>),
}

/// Reads the frame at the front of `buf`, whose payload may not exceed `max_len`.
pub open spec fn parse_frame(buf: Seq<u8>, max_len: nat) -> FrameParse {
    if buf.len() < 4 {
        FrameParse::Incomplete
    } else {
        let n = be_value(buf.subrange(2, 4));
        if buf[0] != MESSAGE_TYPE_REGULAR || n > max_len {
            FrameParse::Invalid
        } else if buf.len() < 4 + n {
            FrameParse::Incomplete
        } else {
            FrameParse::Complete(buf.subrange(4, 4 + n as int), buf.subrange(4 + n as int, buf.len() as int))
        }
    }
}

/// Gathers received bytes and hands out whole frames, however the bytes were
/// split across reads; bytes of a following frame wait for the next call.
pub struct FrameReader {
    buffer: Vec<u8>,
    max_len: usize,
}

impl FrameReader {
    /// The bytes received and not yet handed out.
    pub closed spec fn pending(&self) -> Seq<u8> {
        self.buffer@
    }

    /// The largest payload accepted.
    pub closed spec fn limit(&self) -> nat {
        self.max_len as nat
    }

    pub fn new(max_len: usize) -> (r: FrameReader)
        ensures
            r.pending() == Seq::<u8>::empty(),
            r.limit() == max_len,
    {
        FrameReader { buffer: Vec::new(), max_len }
    }

    /// Adds received bytes.
    pub fn push_bytes(&mut self, data: &[u8])
        ensures
            final(self).pending() == old(self).pending() + data@,
            final(self).limit() == old(self).limit(),
    {
        let ghost start = self.buffer@;
        let mut i: usize = 0;
        while i < data.len()
            invariant
                i <= data@.len(),
                self.buffer@ == start + data@.subrange(0, i as int),
                self.max_len == old(self).max_len,
            decreases data@.len() - i,
        {
            self.buffer.push(data[i]);
            i = i + 1;
            assert(self.buffer@ =~= start + data@.subrange(0, i as int));
        }
        assert(data@.subrange(0, i as int) =~= data@);
    }

    /// Takes the next whole frame's payload, if the bytes received hold one.
    pub fn next_frame(&mut self) -> (r: Result<Option<Vec<u8>>, WampError>)
        ensures
            final(self).limit() == old(self).limit(),
            match parse_frame(old(self).pending(), old(self).limit()) {
                FrameParse::Incomplete => r == Ok::<Option<Vec<u8>>, WampError>(None)
                    && final(self).pending() == old(self).pending(),
                FrameParse::Invalid => r == Err::<Option<Vec<u8>>, WampError>(WampError::FrameError)
                    && final(self).pending() == old(self).pending(),
                FrameParse::Complete(p, rest) => r is Ok && r->Ok_0 is Some && r->Ok_0->Some_0@
                    == p && final(self).pending() == rest,
            },
    {
        let len = self.buffer.len();
        if len < 4 {
            return Ok(None);
        }
        let n = (self.buffer[2] as usize) * 256 + self.buffer[3] as usize;
        proof {
            let s = self.buffer@.subrange(2, 4);
            reveal_with_fuel(be_value, 3);
            assert(s.drop_last() =~= seq![self.buffer@[2]]);
            assert(seq![self.buffer@[2]].drop_last() =~= Seq::<u8>::empty());
            assert(be_value(s) == n);
        }
        if self.buffer[0] != MESSAGE_TYPE_REGULAR || n > self.max_len {
            return Err(WampError::FrameError);
        }
        if len - 4 < n {
            return Ok(None);
        }
        let mut payload: Vec<u8> = Vec::new();
        let mut i: usize = 4;
        while i < 4 + n
            invariant
                4 <= i <= 4 + n <= len,
                len == self.buffer@.len(),
                payload@ == self.buffer@.subrange(4, i as int),
            decreases 4 + n - i,
        {
            payload.push(self.buffer[i]);
            i = i + 1;
            assert(payload@ =~= self.buffer@.subrange(4, i as int));
        }
        let mut rest: Vec<u8> = Vec::new();
        let mut j: usize = 4 + n;
        while j < len
            invariant
                4 + n <= j <= len,
                len == self.buffer@.len(),
                rest@ == self.buffer@.subrange(4 + n, j as int),
            decreases len - j,
        {
            rest.push(self.buffer[j]);
            j = j + 1;
            assert(rest@ =~= self.buffer@.subrange(4 + n, j as int));
        }
        self.buffer = rest;
        Ok(Some(payload))
    }
}

/// Framing and reassembly agree: the bytes of the frame of a payload within
/// the limit, followed by any further bytes, give back that payload and leave
/// the further bytes; while only part of the frame has arrived, no frame is
/// handed out.
pub proof fn lemma_frame_round_trip(payload: Seq<u8>, rest: Seq<u8>, max_len: nat)
    requires
        payload.len() <= max_len,
        payload.len() <= 0xffff,
    ensures
        parse_frame(frame_bytes(payload) + rest, max_len) == FrameParse::Complete(payload, rest),
        forall|k: int|
            0 <= k < frame_bytes(payload).len() ==> parse_frame(
                #[trigger] frame_bytes(payload).subrange(0, k),
                max_len,
            ) == FrameParse::Incomplete,
{
    reveal_with_fuel(pow256, 3);
    lemma_be_round_trip(payload.len(), 2);
    let f = frame_bytes(payload);
    let buf = f + rest;
    assert(buf.subrange(2, 4) =~= be_bytes(payload.len(), 2));
    assert(buf.subrange(4, 4 + payload.len() as int) =~= payload);
    assert(buf.subrange(4 + payload.len() as int, buf.len() as int) =~= rest);
    assert forall|k: int| 0 <= k < f.len() implies parse_frame(
        #[trigger] f.subrange(0, k),
        max_len,
    ) == FrameParse::Incomplete by {
        if k >= 4 {
            assert(f.subrange(0, k).subrange(2, 4) =~= be_bytes(payload.len(), 2));
        }
    }
}

/// The bytes of `reads`, one read after the other.
pub open spec fn joined(reads: Seq<Seq<u8>>) -> Seq<u8>
    decreases reads.len(),
{
    if reads.len() == 0 {
        Seq::empty()
    } else {
        joined(reads.drop_last()) + reads.last()
    }
}

proof fn lemma_joined_prefix(reads: Seq<Seq<u8>>, j: int)
    requires
        0 <= j <= reads.len(),
    ensures
        joined(reads.take(j)).len() <= joined(reads).len(),
        joined(reads.take(j)) == joined(reads).subrange(0, joined(reads.take(j)).len() as int),
    decreases reads.len(),
{
    if j == reads.len() {
        assert(reads.take(j) =~= reads);
        assert(joined(reads).subrange(0, joined(reads).len() as int) =~= joined(reads));
    } else {
        let d = reads.drop_last();
        assert(reads.take(j) =~= d.take(j));
        lemma_joined_prefix(d, j);
        let n = joined(d.take(j)).len() as int;
        assert(joined(reads).subrange(0, n) =~= joined(d).subrange(0, n));
    }
}

/// However a frame's bytes are split across reads, and whatever follows them:
/// while the reads so far fall short of the whole frame, no frame is handed
/// out; once they hold it, exactly its payload is, and the following bytes
/// wait. (`push_bytes` appends each read to what is pending; `next_frame`
/// reads the pending bytes with `parse_frame`.)
pub proof fn lemma_frame_any_reads(payload: Seq<u8>, reads: Seq<Seq<u8>>, rest: Seq<u8>, max_len: nat)
    requires
        payload.len() <= max_len,
        payload.len() <= 0xffff,
        joined(reads) == frame_bytes(payload) + rest,
    ensures
        forall|j: int|
            0 <= j <= reads.len() && #[trigger] joined(reads.take(j)).len() < frame_bytes(payload).len()
                ==> parse_frame(joined(reads.take(j)), max_len) == FrameParse::Incomplete,
        parse_frame(joined(reads), max_len) == FrameParse::Complete(payload, rest),
{
    lemma_frame_round_trip(payload, rest, max_len);
    let f = frame_bytes(payload);
    assert forall|j: int|
        0 <= j <= reads.len() && #[trigger] joined(reads.take(j)).len() < f.len() implies parse_frame(
        joined(reads.take(j)),
        max_len,
    ) == FrameParse::Incomplete by {
        lemma_joined_prefix(reads, j);
        let k = joined(reads.take(j)).len() as int;
        assert(joined(reads.take(j)) =~= f.subrange(0, k));
    }
}

} // verus!
