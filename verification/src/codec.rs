//! Length-prefixed frames: four bytes with the payload's length, big-endian, then the payload.

use bytes::{Buf, BufMut, BytesMut};
use vstd::prelude::*;
use vstd::slice::slice_to_vec;

verus! {

/// The longest payload that a frame may carry, in bytes.
pub const MAX_FRAME_SIZE: u32 = 128 * 1024 * 1024;

/// The growable byte buffer of the `bytes` crate.
#[verifier::external_type_specification]
#[verifier::external_body]
pub struct ExBytesMut(BytesMut);

/// The bytes that a buffer holds, in order.
pub uninterp spec fn buffered(buf: BytesMut) -> Seq<u8>;

/// `BytesMut::as_ref` shows the whole contents of the buffer as a slice.
#[verifier::external_body]
fn buffer_slice(buf: &BytesMut) -> (bytes: &[u8])
    ensures
        bytes@ == buffered(*buf),
{
    buf.as_ref()
}

/// `BytesMut::reserve` makes room for more bytes and keeps the contents. It panics where the
/// new length would not fit the address space, which `requires` rules out.
#[verifier::external_body]
fn buffer_reserve(buf: &mut BytesMut, additional: usize)
    requires
        buffered(*old(buf)).len() + additional <= isize::MAX,
    ensures
        buffered(*final(buf)) == buffered(*old(buf)),
{
    buf.reserve(additional)
}

/// `Buf::advance` on a `BytesMut` drops the first `count` bytes. It panics where there are fewer.
#[verifier::external_body]
fn buffer_advance(buf: &mut BytesMut, count: usize)
    requires
        count <= buffered(*old(buf)).len(),
    ensures
        buffered(*final(buf)) == buffered(*old(buf)).skip(count as int),
{
    buf.advance(count)
}

/// `BytesMut::split_to` takes the first `at` bytes out of the buffer and returns them; the rest
/// stays. It panics where there are fewer.
#[verifier::external_body]
fn buffer_split_to(buf: &mut BytesMut, at: usize) -> (head: BytesMut)
    requires
        at <= buffered(*old(buf)).len(),
    ensures
        buffered(head) == buffered(*old(buf)).take(at as int),
        buffered(*final(buf)) == buffered(*old(buf)).skip(at as int),
{
    buf.split_to(at)
}

/// `BufMut::put_u32` on a `BytesMut` appends the four bytes of `n`, most significant first.
#[verifier::external_body]
fn buffer_put_u32(buf: &mut BytesMut, n: u32)
    requires
        buffered(*old(buf)).len() + 4 <= isize::MAX,
    ensures
        buffered(*final(buf)) == buffered(*old(buf)) + length_bytes(n),
{
    buf.put_u32(n)
}

/// `BytesMut::extend_from_slice` appends the bytes of the slice.
#[verifier::external_body]
fn buffer_extend(buf: &mut BytesMut, bytes: &[u8])
    requires
        buffered(*old(buf)).len() + bytes@.len() <= isize::MAX,
    ensures
        buffered(*final(buf)) == buffered(*old(buf)) + bytes@,
{
    buf.extend_from_slice(bytes)
}

/// The four bytes of `n`, most significant first.
pub open spec fn length_bytes(n: u32) -> Seq<u8> {
    seq![
        (n / 0x100_0000) as u8,
        (n / 0x1_0000 % 0x100) as u8,
        (n / 0x100 % 0x100) as u8,
        (n % 0x100) as u8,
    ]
}

/// The length that the first four bytes of `s` announce.
pub open spec fn announced(s: Seq<u8>) -> nat {
    (s[0] as nat * 0x100_0000 + s[1] as nat * 0x1_0000 + s[2] as nat * 0x100 + s[3] as nat) as nat
}

/// The frame that carries `payload`, which is no larger than a frame may carry: its length, then
/// the payload.
pub open spec fn frame(payload: Seq<u8>) -> Seq<u8> {
    length_bytes(payload.len() as u32) + payload
}

/// What the bytes at the front of a buffer amount to.
pub enum Front {
    /// Too few bytes for a whole frame.
    Partial,
    /// A header that announces more than a frame may carry.
    Oversized,
    /// A whole frame with this payload.
    Frame(Seq<u8>),
}

/// Reads the front of a buffer.
pub open spec fn front(s: Seq<u8>) -> Front {
    if s.len() < 4 {
        Front::Partial
    } else if announced(s) > MAX_FRAME_SIZE {
        Front::Oversized
    } else if s.len() < 4 + announced(s) {
        Front::Partial
    } else {
        Front::Frame(s.subrange(4, 4 + announced(s) as int))
    }
}

/// Why bytes could not be turned into a frame or back.
#[derive(Debug, Clone, Copy, PartialEq, Eq, Structural)]
pub enum FrameError {
    /// The header announces this many bytes, which is too large.
    TooLarge(u32),
    /// The message has this length, and is too large to encode.
    TooLargeToEncode(usize),
}

/// Turns payloads into frames and frames into payloads.
pub struct MessageCodec;

impl MessageCodec {
    /// Takes the next whole frame off the front of `src` and returns its payload. `None` says
    /// that more bytes are needed; then, and on an error, `src` keeps its bytes.
    pub fn decode(&mut self, src: &mut BytesMut) -> (r: Result<Option<Vec<u8>>, FrameError>)
        ensures
            match front(buffered(*old(src))) {
                Front::Partial => r == Ok::<Option<Vec<u8>>, FrameError>(None) && buffered(
                    *final(src),
                ) == buffered(*old(src)),
                Front::Oversized => r == Err::<Option<Vec<u8>>, FrameError>(
                    FrameError::TooLarge(announced(buffered(*old(src))) as u32),
                ) && buffered(*final(src)) == buffered(*old(src)),
                Front::Frame(payload) => {
                    &&& r is Ok
                    &&& r->Ok_0 is Some
                    &&& r->Ok_0->0@ == payload
                    &&& buffered(*final(src)) == buffered(*old(src)).skip(
                        4 + payload.len() as int,
                    )
                },
            },
    {
        let ghost before = buffered(*src);
        let held: usize = buffer_slice(src).len();
        if held < 4 {
            return Ok(None);
        }
        let length: u32 = {
            let bytes = buffer_slice(src);
            bytes[0] as u32 * 0x100_0000 + bytes[1] as u32 * 0x1_0000 + bytes[2] as u32 * 0x100
                + bytes[3] as u32
        };
        assert(length == announced(before));
        if length > MAX_FRAME_SIZE {
            return Err(FrameError::TooLarge(length));
        }
        let total: usize = 4 + length as usize;
        if held < total {
            buffer_reserve(src, total - held);
            return Ok(None);
        }
        buffer_advance(src, 4);
        let payload = buffer_split_to(src, length as usize);
        proof {
            assert(before.skip(4).take(length as int) =~= before.subrange(4, 4 + length as int));
            assert(before.skip(4).skip(length as int) =~= before.skip(4 + length as int));
        }
        Ok(Some(slice_to_vec(buffer_slice(&payload))))
    }

    /// Appends the frame of `payload` to `dst`, or leaves `dst` as it is where the payload is
    /// larger than a frame may carry.
    pub fn encode(&mut self, payload: &Vec<u8>, dst: &mut BytesMut) -> (r: Result<(), FrameError>)
        requires
            buffered(*old(dst)).len() + 4 + payload@.len() <= isize::MAX,
        ensures
            payload@.len() > MAX_FRAME_SIZE ==> r == Err::<(), FrameError>(
                FrameError::TooLargeToEncode(payload@.len() as usize),
            ) && buffered(*final(dst)) == buffered(*old(dst)),
            payload@.len() <= MAX_FRAME_SIZE ==> r == Ok::<(), FrameError>(()) && buffered(
                *final(dst),
            ) == buffered(*old(dst)) + frame(payload@),
    {
        let size: usize = payload.len();
        if size > MAX_FRAME_SIZE as usize {
            return Err(FrameError::TooLargeToEncode(size));
        }
        buffer_reserve(dst, 4 + size);
        buffer_put_u32(dst, size as u32);
        buffer_extend(dst, payload.as_slice());
        assert(buffered(*dst) =~= buffered(*old(dst)) + frame(payload@));
        Ok(())
    }
}

/// The header of a frame announces the number that was written into it.
pub proof fn lemma_length_round_trip(n: u32, rest: Seq<u8>)
    ensures
        announced(length_bytes(n) + rest) == n,
{
}

/// A frame at the front of a buffer is read back whole: decoding gives the payload that was
/// encoded, and what follows the frame stays in the buffer.
pub proof fn lemma_frame_round_trip(payload: Seq<u8>, rest: Seq<u8>)
    requires
        payload.len() <= MAX_FRAME_SIZE,
    ensures
        front(frame(payload) + rest) == Front::Frame(payload),
        (frame(payload) + rest).skip(4 + payload.len() as int) == rest,
{
    let s = frame(payload) + rest;
    assert(s =~= length_bytes(payload.len() as u32) + (payload + rest));
    lemma_length_round_trip(payload.len() as u32, payload + rest);
    assert(s.subrange(4, 4 + payload.len() as int) =~= payload);
    assert(s.skip(4 + payload.len() as int) =~= rest);
}

/// As long as a frame has not arrived in full, the decoder asks for more bytes.
pub proof fn lemma_partial_frame(payload: Seq<u8>, n: int)
    requires
        payload.len() <= MAX_FRAME_SIZE,
        0 <= n < frame(payload).len(),
    ensures
        front(frame(payload).take(n)) == Front::Partial,
{
    let s = frame(payload).take(n);
    if n >= 4 {
        assert(s =~= length_bytes(payload.len() as u32) + payload.take(n - 4));
        lemma_length_round_trip(payload.len() as u32, payload.take(n - 4));
    }
}

/// The bytes of several frames, one after the other.
pub open spec fn frames(payloads: Seq<Seq<u8>>) -> Seq<u8>
    decreases payloads.len(),
{
    if payloads.len() == 0 {
        Seq::empty()
    } else {
        frame(payloads[0]) + frames(payloads.drop_first())
    }
}

/// The payloads that repeated decoding takes off a buffer, as long as there are whole frames.
pub open spec fn decoded(s: Seq<u8>) -> Seq<Seq<u8>>
    decreases s.len(),
{
    match front(s) {
        Front::Frame(payload) => seq![payload] + decoded(s.skip(4 + payload.len() as int)),
        _ => Seq::empty(),
    }
}

/// What was encoded one message after the other is decoded in the same order, message by message,
/// and bytes of a frame that has not arrived in full are left alone.
pub proof fn lemma_stream_round_trip(payloads: Seq<Seq<u8>>, rest: Seq<u8>)
    requires
        forall|i: int| 0 <= i < payloads.len() ==> (#[trigger] payloads[i]).len() <= MAX_FRAME_SIZE,
        front(rest) == Front::Partial,
    ensures
        decoded(frames(payloads) + rest) == payloads,
    decreases payloads.len(),
{
    if payloads.len() == 0 {
        assert(frames(payloads) + rest =~= rest);
        assert(decoded(rest) =~= payloads);
    } else {
        let more = payloads.drop_first();
        assert forall|i: int| 0 <= i < more.len() implies (#[trigger] more[i]).len()
            <= MAX_FRAME_SIZE by {
            assert(more[i] == payloads[i + 1]);
        }
        lemma_stream_round_trip(more, rest);
        assert(frames(payloads) + rest =~= frame(payloads[0]) + (frames(more) + rest));
        lemma_frame_round_trip(payloads[0], frames(more) + rest);
        assert(seq![payloads[0]] + more =~= payloads);
    }
}

/// A header that announces more than a frame may carry is refused, whatever follows it, and one that
/// does not is not.
pub proof fn lemma_oversized_header(n: u32, rest: Seq<u8>)
    ensures
        front(length_bytes(n) + rest) is Oversized <==> n > 134_217_728,
        n <= 134_217_728 && rest.len() < n ==> front(length_bytes(n) + rest) is Partial,
        n <= 134_217_728 && rest.len() >= n ==> front(length_bytes(n) + rest) == Front::Frame(
            rest.take(n as int),
        ),
{
    lemma_length_round_trip(n, rest);
    let s = length_bytes(n) + rest;
    if n <= 134_217_728 && rest.len() >= n {
        assert(s.subrange(4, 4 + n as int) =~= rest.take(n as int));
    }
}

/// A frame is four bytes longer than what it carries, and ends with it.
pub proof fn lemma_frame_carries_payload(payload: Seq<u8>)
    ensures
        frame(payload).len() == 4 + payload.len(),
        frame(payload).skip(4) == payload,
{
    assert(frame(payload).skip(4) =~= payload);
}

/// Bytes that do not make up a header are kept until more come.
pub proof fn lemma_short_header(s: Seq<u8>)
    requires
        s.len() < 4,
    ensures
        front(s) is Partial,
{
}

} // verus!
